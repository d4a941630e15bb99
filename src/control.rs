use vstd::prelude::*;

verus! {

/// Why a run was stopped before all of its input was reported.
#[derive(Clone, Copy, Debug, PartialEq, Eq, Structural)]
pub enum Failure {
    /// One of the two callbacks returned an error.
    CallbackError,
    /// A transform invocation terminated abnormally.
    WorkerPanic,
    /// The report callback or the reorder logic terminated abnormally.
    ReportPanic,
}

/// What the shared control word says about a run.
#[derive(Clone, Copy, Debug, PartialEq, Eq, Structural)]
pub enum Control {
    /// The input is still being dispatched and nothing has failed.
    Running,
    /// The input is exhausted; it held this many elements; nothing has failed.
    Count(usize),
    /// The run is being torn down.
    Failed(Failure),
}

/// The integer that stands for `c` in the shared control word.
pub open spec fn encoding(c: Control) -> int {
    match c {
        Control::Running => 0,
        Control::Count(n) => n + 1,
        Control::Failed(Failure::CallbackError) => -1,
        Control::Failed(Failure::WorkerPanic) => -2,
        Control::Failed(Failure::ReportPanic) => -3,
    }
}

/// Whether `c` fits in the control word.
pub open spec fn encodable(c: Control) -> bool {
    match c {
        Control::Count(n) => n < isize::MAX,
        _ => true,
    }
}

/// Writes `c` as a control word.
pub fn encode(c: Control) -> (r: isize)
    requires
        encodable(c),
    ensures
        r == encoding(c),
{
    match c {
        Control::Running => 0,
        Control::Count(n) => (n + 1) as isize,
        Control::Failed(Failure::CallbackError) => -1,
        Control::Failed(Failure::WorkerPanic) => -2,
        Control::Failed(Failure::ReportPanic) => -3,
    }
}

/// Two states that fit in the word never share an encoding.
pub proof fn lemma_encoding_injective(c1: Control, c2: Control)
    requires
        encodable(c1),
        encodable(c2),
        encoding(c1) == encoding(c2),
    ensures
        c1 == c2,
{
}

/// What the control word `w` says: the state whose encoding it is, if any.
pub open spec fn decoding(w: int) -> Option<Control> {
    if exists|c: Control| encodable(c) && #[trigger] encoding(c) == w {
        Some(choose|c: Control| encodable(c) && #[trigger] encoding(c) == w)
    } else {
        None
    }
}

/// Reads a control word: the state that encodes to it, if there is one.
pub fn decode(w: isize) -> (r: Option<Control>)
    ensures
        forall|c: Control| r == Some(c) <==> (encodable(c) && #[trigger] encoding(c) == w),
        r == decoding(w as int),
{
    let r = if w > 0 {
        Some(Control::Count((w - 1) as usize))
    } else if w == 0 {
        Some(Control::Running)
    } else if w == -1 {
        Some(Control::Failed(Failure::CallbackError))
    } else if w == -2 {
        Some(Control::Failed(Failure::WorkerPanic))
    } else if w == -3 {
        Some(Control::Failed(Failure::ReportPanic))
    } else {
        None
    };
    proof {
        assert forall|c: Control| r == Some(c) <==> (encodable(c) && #[trigger] encoding(c) == w) by {
            if encodable(c) && encoding(c) == w {
                if let Some(d) = r {
                    lemma_encoding_injective(c, d);
                }
            }
        }
        if let Some(d) = r {
            let e = choose|c: Control| encodable(c) && #[trigger] encoding(c) == w;
            assert(encodable(d) && encoding(d) == w);
            lemma_encoding_injective(d, e);
        }
    }
    r
}

/// Reading back a written control word gives what was written.
pub proof fn lemma_decode_encode(c: Control)
    requires
        encodable(c),
    ensures
        decoding(encoding(c)) == Some(c),
{
    let e = choose|d: Control| encodable(d) && #[trigger] encoding(d) == encoding(c);
    assert(encodable(c) && encoding(c) == encoding(c));
    lemma_encoding_injective(c, e);
}

/// Whether the word tells every component to stop: a negative word.
pub fn is_cancelled(w: isize) -> (r: bool)
    ensures
        r == (w < 0),
{
    w < 0
}

/// The word that replaces `current` when a component publishes `c`: a
/// failure already recorded is never overwritten, so the first one wins.
pub open spec fn advanced(current: int, c: Control) -> int {
    if current < 0 {
        current
    } else {
        encoding(c)
    }
}

/// Computes the word that replaces `current` when `c` is published.
pub fn advance(current: isize, c: Control) -> (r: isize)
    requires
        encodable(c),
    ensures
        r == advanced(current as int, c),
{
    if current < 0 {
        current
    } else {
        encode(c)
    }
}

/// Once the word is negative, no later publication changes it.
pub proof fn lemma_failure_is_final(current: int, later: Seq<Control>)
    requires
        current < 0,
    ensures
        later.fold_left(current, |w: int, c: Control| advanced(w, c)) == current,
    decreases later.len(),
{
    if later.len() > 0 {
        lemma_failure_is_final(current, later.drop_last());
    }
}

/// How a run ends, read from its final control word: the number of
/// elements reported, or the failure that stopped it. `None` where the word
/// is not a final one.
pub open spec fn outcome_of(w: int) -> Option<Result<usize, Failure>> {
    match decoding(w) {
        Some(Control::Count(n)) => Some(Ok(n)),
        Some(Control::Failed(f)) => Some(Err(f)),
        _ => None,
    }
}

/// Reads the outcome of a run from its final control word.
pub fn outcome(w: isize) -> (r: Option<Result<usize, Failure>>)
    ensures
        r == outcome_of(w as int),
{
    match decode(w) {
        Some(Control::Count(n)) => Some(Ok(n)),
        Some(Control::Failed(f)) => Some(Err(f)),
        _ => None,
    }
}

/// A run over `n` elements in which nothing failed ends with the count `n`.
pub proof fn lemma_count_outcome(n: usize)
    requires
        n < isize::MAX,
    ensures
        outcome_of(advanced(encoding(Control::Running), Control::Count(n))) == Some(
            Ok::<usize, Failure>(n),
        ),
{
}

} // verus!
