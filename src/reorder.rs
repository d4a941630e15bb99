use vstd::prelude::*;

use crate::control::{decode, decoding, Control};

verus! {

/// A message to the reorder coordinator.
pub enum ReportMsg<T, E> {
    /// The dispatcher is done: this many elements were enqueued in all.
    Total(usize),
    /// The transform's outcome for the element at this position.
    NewResult(usize, Result<T, E>),
}

/// What the coordinator does after a message.
pub enum Step<T, E> {
    /// Hand these results to the report callback, in this order, and wait for more.
    Report(Vec<T>),
    /// Hand these results to the report callback, in this order; the run is then complete.
    Complete(Vec<T>),
    /// A transform failed with this error: the run stops and reports nothing more.
    Fail(E),
    /// The run is over or cancelled: nothing is reported.
    Halt,
}

/// The coordinator's state as a mathematical value.
pub struct ReorderView<T> {
    /// The next position to report; every position below it has been reported.
    pub next: nat,
    /// Every result received so far, by position, reported or still pending.
    pub received: Map<int, T>,
    /// The number of elements in the run, once the dispatcher has said.
    pub total: Option<nat>,
    /// Whether the coordinator has finished, failed or been cancelled.
    pub stopped: bool,
}

impl<T> ReorderView<T> {
    /// The results handed on so far, in the order they were handed on.
    pub open spec fn reported(self) -> Seq<T> {
        Seq::new(self.next, |j: int| self.received[j])
    }

    /// Every position below `next` has come in, position `next` has not.
    pub open spec fn wf(self) -> bool {
        &&& forall|j: int| 0 <= j < self.next ==> #[trigger] self.received.contains_key(j)
        &&& forall|j: int| #[trigger] self.received.contains_key(j) ==> 0 <= j
        &&& !self.received.contains_key(self.next as int)
    }

    /// The same state, stopped.
    pub open spec fn halted(self) -> ReorderView<T> {
        ReorderView { next: self.next, received: self.received, total: self.total, stopped: true }
    }
}

/// `m` is the first position from `from` on that `received` lacks.
pub open spec fn first_gap<T>(received: Map<int, T>, from: int, m: int) -> bool {
    &&& from <= m
    &&& forall|j: int| from <= j < m ==> #[trigger] received.contains_key(j)
    &&& !received.contains_key(m)
}

/// `r` hands on exactly `items`, and ends the run exactly when `done`.
pub open spec fn delivers<T, E>(r: Step<T, E>, items: Seq<T>, done: bool) -> bool {
    match r {
        Step::Report(b) => !done && b@ == items,
        Step::Complete(b) => done && b@ == items,
        _ => false,
    }
}

/// `msg` may come to a coordinator in state `v`: each position comes once.
pub open spec fn admissible<T, E>(v: ReorderView<T>, msg: ReportMsg<T, E>) -> bool {
    match msg {
        ReportMsg::NewResult(pos, Ok(_)) => pos < usize::MAX && !v.received.contains_key(pos as int),
        _ => true,
    }
}

/// The total known once the word `word` has been read: the count the word
/// carries, or else `fallback`.
pub open spec fn known_total(word: int, fallback: Option<nat>) -> Option<nat> {
    match decoding(word) {
        Some(Control::Count(n)) => Some(n as nat),
        _ => fallback,
    }
}

/// The coordinator goes from `pre` to `post` and answers `r` when `msg`
/// arrives while the control word reads `word`.
pub open spec fn stepped<T, E>(
    pre: ReorderView<T>,
    word: int,
    msg: ReportMsg<T, E>,
    post: ReorderView<T>,
    r: Step<T, E>,
) -> bool {
    if pre.stopped || word < 0 {
        post == pre.halted() && r is Halt
    } else {
        match msg {
            ReportMsg::Total(n) => {
                &&& post == ReorderView {
                    next: pre.next,
                    received: pre.received,
                    total: known_total(word, Some(n as nat)),
                    stopped: known_total(word, Some(n as nat)) == Some(pre.next),
                }
                &&& delivers(r, Seq::empty(), post.stopped)
            },
            ReportMsg::NewResult(_, Err(e)) => post == pre.halted() && r == Step::<T, E>::Fail(e),
            ReportMsg::NewResult(pos, Ok(y)) => {
                &&& post.received == pre.received.insert(pos as int, y)
                &&& first_gap(post.received, pre.next as int, post.next as int)
                &&& post.total == known_total(word, pre.total)
                &&& post.stopped == (post.total == Some(post.next))
                &&& delivers(r, post.reported().subrange(pre.next as int, post.next as int), post.stopped)
            },
        }
    }
}

/// What `r` hands to the report callback.
pub open spec fn handed_on<T, E>(r: Step<T, E>) -> Seq<T> {
    match r {
        Step::Report(b) => b@,
        Step::Complete(b) => b@,
        _ => Seq::empty(),
    }
}

/// Each step hands on exactly what it adds to the reported results, so the
/// batches handed on over a run, joined, are the reported results.
pub proof fn lemma_reports_accumulate<T, E>(
    pre: ReorderView<T>,
    word: int,
    msg: ReportMsg<T, E>,
    post: ReorderView<T>,
    r: Step<T, E>,
)
    requires
        pre.wf(),
        admissible(pre, msg),
        stepped(pre, word, msg, post, r),
    ensures
        post.reported() == pre.reported() + handed_on(r),
{
    if !pre.stopped && word >= 0 {
        if let ReportMsg::NewResult(pos, Ok(y)) = msg {
            assert forall|j: int| 0 <= j < pre.next implies post.received[j] == pre.received[j] by {
                assert(pre.received.contains_key(j));
            }
            assert(post.reported() =~= pre.reported() + handed_on(r));
        } else {
            assert(post.reported() =~= pre.reported() + handed_on(r));
        }
    } else {
        assert(post.reported() =~= pre.reported() + handed_on(r));
    }
}

/// Once the results at positions `0 .. values.len()` have all come in, and
/// no others, they have all been reported, in position order.
pub proof fn lemma_order_preserved<T>(v: ReorderView<T>, values: Seq<T>)
    requires
        v.wf(),
        forall|j: int| #[trigger] v.received.contains_key(j) <==> 0 <= j < values.len(),
        forall|j: int| 0 <= j < values.len() ==> v.received[j] == #[trigger] values[j],
    ensures
        v.next == values.len(),
        v.reported() == values,
{
    if v.next < values.len() {
        assert(v.received.contains_key(v.next as int));
    }
    if v.next > values.len() {
        assert(v.received.contains_key(values.len() as int));
    }
    assert(v.reported() =~= values);
}

/// Once the coordinator has stopped, no message makes it hand anything on.
pub proof fn lemma_nothing_after_stop<T, E>(
    pre: ReorderView<T>,
    word: int,
    msg: ReportMsg<T, E>,
    post: ReorderView<T>,
    r: Step<T, E>,
)
    requires
        pre.stopped,
        stepped(pre, word, msg, post, r),
    ensures
        r is Halt,
        handed_on(r).len() == 0,
        post.stopped,
        post.reported() == pre.reported(),
{
}

/// When every position below `n` has come in and no other, the count `n`
/// completes the run, and all `n` results have been reported, provided the
/// control word carries no other count.
pub proof fn lemma_count_completes<T, E>(
    pre: ReorderView<T>,
    values: Seq<T>,
    word: int,
    post: ReorderView<T>,
    r: Step<T, E>,
)
    requires
        pre.wf(),
        !pre.stopped,
        word >= 0,
        values.len() < usize::MAX,
        known_total(word, Some(values.len())) == Some(values.len()),
        forall|j: int| #[trigger] pre.received.contains_key(j) <==> 0 <= j < values.len(),
        forall|j: int| 0 <= j < values.len() ==> pre.received[j] == #[trigger] values[j],
        stepped(pre, word, ReportMsg::<T, E>::Total(values.len() as usize), post, r),
    ensures
        r is Complete,
        post.stopped,
        post.reported() == values,
{
    lemma_order_preserved(pre, values);
}

/// One step keeps the view's invariant.
pub proof fn lemma_step_wf<T, E>(
    pre: ReorderView<T>,
    word: int,
    msg: ReportMsg<T, E>,
    post: ReorderView<T>,
    r: Step<T, E>,
)
    requires
        pre.wf(),
        admissible(pre, msg),
        stepped(pre, word, msg, post, r),
    ensures
        post.wf(),
{
    if !pre.stopped && word >= 0 {
        if let ReportMsg::NewResult(pos, Ok(y)) = msg {
            assert forall|j: int| 0 <= j < post.next implies #[trigger] post.received.contains_key(j) by {
                if j < pre.next {
                    assert(pre.received.contains_key(j));
                }
            }
        }
    }
}

/// Everything that the answers `rs` hand on, joined in order.
pub open spec fn handed_over<T, E>(rs: Seq<Step<T, E>>) -> Seq<T>
    decreases rs.len(),
{
    if rs.len() == 0 {
        Seq::empty()
    } else {
        handed_over(rs.drop_last()) + handed_on(rs.last())
    }
}

/// `states` is a coordinator's course through the messages `msgs`, the
/// message at index `i` read with the word `words[i]` and answered by `rs[i]`.
#[verifier::opaque]
pub open spec fn is_course<T, E>(
    states: Seq<ReorderView<T>>,
    words: Seq<int>,
    msgs: Seq<ReportMsg<T, E>>,
    rs: Seq<Step<T, E>>,
) -> bool {
    &&& states.len() == msgs.len() + 1
    &&& words.len() == msgs.len()
    &&& rs.len() == msgs.len()
    &&& forall|i: int|
        0 <= i < msgs.len() ==> admissible(#[trigger] states[i], msgs[i]) && stepped(
            states[i],
            words[i],
            msgs[i],
            states[i + 1],
            rs[i],
        )
}

/// The state of a coordinator that has received nothing.
pub open spec fn fresh<T>(v: ReorderView<T>) -> bool {
    &&& v.next == 0
    &&& v.received == Map::<int, T>::empty()
    &&& v.total is None
    &&& !v.stopped
}

/// `msgs` carries the results `values` of a run in which nothing fails:
/// the result of each position below `values.len()`, as `Ok` of its value,
/// and otherwise only the count `values.len()`.
pub open spec fn carries<T, E>(msgs: Seq<ReportMsg<T, E>>, values: Seq<T>) -> bool {
    &&& forall|i: int|
        0 <= i < msgs.len() ==> match #[trigger] msgs[i] {
            ReportMsg::Total(n) => n == values.len(),
            ReportMsg::NewResult(p, res) => p < values.len() && res == Ok::<T, E>(values[p as int]),
        }
    &&& forall|p: int|
        #![trigger values[p]]
        0 <= p < values.len() ==> exists|i: int|
            0 <= i < msgs.len() && #[trigger] msgs[i] == ReportMsg::<T, E>::NewResult(
                p as usize,
                Ok(values[p]),
            )
}

/// The word `w` reports no failure and carries no count but `n`.
pub open spec fn word_agrees(w: int, n: nat) -> bool {
    w >= 0 && known_total(w, Some(n)) == Some(n)
}

/// Message `m` or word `w` tells the coordinator the total.
pub open spec fn tells_total<T, E>(m: ReportMsg<T, E>, w: int) -> bool {
    m is Total || known_total(w, None) is Some
}

/// What holds after the first `i` messages of a course over `values`.
pub open spec fn course_inv<T, E>(
    states: Seq<ReorderView<T>>,
    msgs: Seq<ReportMsg<T, E>>,
    words: Seq<int>,
    rs: Seq<Step<T, E>>,
    values: Seq<T>,
    i: int,
) -> bool {
    let v = states[i];
    &&& v.wf()
    &&& forall|j: int|
        #[trigger] v.received.contains_key(j) ==> 0 <= j < values.len() && v.received[j] == values[j]
    &&& v.stopped ==> v.next == values.len()
    &&& forall|k: int|
        0 <= k < i ==> match #[trigger] msgs[k] {
            ReportMsg::NewResult(p, _) => v.received.contains_key(p as int),
            _ => true,
        }
    &&& v.reported() == handed_over(rs.take(i))
    &&& v.stopped || v.total != Some(v.next)
    &&& v.total is None || v.total == Some(values.len())
    &&& (exists|k: int| 0 <= k < i && tells_total(#[trigger] msgs[k], words[k])) ==> (v.stopped
        || v.total == Some(values.len()))
}

proof fn lemma_course_inv<T, E>(
    states: Seq<ReorderView<T>>,
    words: Seq<int>,
    msgs: Seq<ReportMsg<T, E>>,
    rs: Seq<Step<T, E>>,
    values: Seq<T>,
    i: int,
)
    requires
        is_course(states, words, msgs, rs),
        fresh(states[0]),
        carries(msgs, values),
        forall|k: int| 0 <= k < words.len() ==> word_agrees(#[trigger] words[k], values.len()),
        0 <= i <= msgs.len(),
    ensures
        states.len() == msgs.len() + 1,
        rs.len() == msgs.len(),
        words.len() == msgs.len(),
        course_inv(states, msgs, words, rs, values, i),
    decreases i,
{
    reveal(is_course);
    if i == 0 {
        assert(states[0].reported() =~= handed_over(rs.take(0)));
    } else {
        let k = i - 1;
        lemma_course_inv(states, words, msgs, rs, values, k);
        let pre = states[k];
        let post = states[i];
        assert(admissible(states[k], msgs[k]));
        assert(word_agrees(words[k], values.len()));
        lemma_step_wf(pre, words[k], msgs[k], post, rs[k]);
        lemma_reports_accumulate(pre, words[k], msgs[k], post, rs[k]);
        assert(rs.take(i).drop_last() =~= rs.take(k));
        assert(post.reported() == handed_over(rs.take(i)));
        assert forall|q: int| 0 <= q < i implies match #[trigger] msgs[q] {
            ReportMsg::NewResult(p, _) => post.received.contains_key(p as int),
            _ => true,
        } by {
            if let ReportMsg::NewResult(p, _) = msgs[q] {
                assert(p < values.len());
                if post.stopped {
                    assert(post.received.contains_key(p as int));
                } else if q < k {
                    assert(pre.received.contains_key(p as int));
                }
            }
        }
        if exists|q: int| 0 <= q < i && tells_total(#[trigger] msgs[q], words[q]) {
            let q = choose|q: int| 0 <= q < i && tells_total(#[trigger] msgs[q], words[q]);
            if q < k {
                assert(tells_total(msgs[q], words[q]));
            }
        }
    }
}

/// A run in which nothing fails hands on, over all its steps joined, the
/// results in position order, whatever order they came in; and once the
/// total has been told, the run is complete.
pub proof fn lemma_run_order_preserved<T, E>(
    states: Seq<ReorderView<T>>,
    words: Seq<int>,
    msgs: Seq<ReportMsg<T, E>>,
    rs: Seq<Step<T, E>>,
    values: Seq<T>,
)
    requires
        is_course(states, words, msgs, rs),
        fresh(states[0]),
        carries(msgs, values),
        forall|k: int| 0 <= k < words.len() ==> word_agrees(#[trigger] words[k], values.len()),
        values.len() <= usize::MAX,
    ensures
        handed_over(rs) == values,
        handed_over(rs).len() == values.len(),
        (exists|k: int| 0 <= k < msgs.len() && tells_total(#[trigger] msgs[k], words[k]))
            ==> states.last().stopped,
{
    let n = msgs.len() as int;
    lemma_course_inv(states, words, msgs, rs, values, n);
    let v = states[n];
    assert(v == states.last());
    assert forall|j: int| 0 <= j < values.len() implies #[trigger] v.received.contains_key(j) by {
        let t = values[j];
        let q = choose|q: int|
            0 <= q < msgs.len() && #[trigger] msgs[q] == ReportMsg::<T, E>::NewResult(
                j as usize,
                Ok(t),
            );
        assert(0 <= q < n);
        assert((j as usize) as int == j);
    }
    lemma_order_preserved(v, values);
    assert(rs.take(n) =~= rs);
}

/// Two runs over the same results, whatever the order in which each
/// received them, hand on the same sequence.
pub proof fn lemma_arrival_order_irrelevant<T, E>(
    states1: Seq<ReorderView<T>>,
    words1: Seq<int>,
    msgs1: Seq<ReportMsg<T, E>>,
    rs1: Seq<Step<T, E>>,
    states2: Seq<ReorderView<T>>,
    words2: Seq<int>,
    msgs2: Seq<ReportMsg<T, E>>,
    rs2: Seq<Step<T, E>>,
    values: Seq<T>,
)
    requires
        is_course(states1, words1, msgs1, rs1),
        fresh(states1[0]),
        carries(msgs1, values),
        forall|k: int| 0 <= k < words1.len() ==> word_agrees(#[trigger] words1[k], values.len()),
        is_course(states2, words2, msgs2, rs2),
        fresh(states2[0]),
        carries(msgs2, values),
        forall|k: int| 0 <= k < words2.len() ==> word_agrees(#[trigger] words2[k], values.len()),
        values.len() <= usize::MAX,
    ensures
        handed_over(rs1) == handed_over(rs2),
{
    lemma_run_order_preserved(states1, words1, msgs1, rs1, values);
    lemma_run_order_preserved(states2, words2, msgs2, rs2, values);
}

/// `msgs` carries the results of a run over `len` elements in which only
/// position `j` fails, with the error `e`: each message is a result of a
/// position below `len`, an error exactly at `j`, or the count `len`; and
/// the error comes.
pub open spec fn carries_one_failure<T, E>(msgs: Seq<ReportMsg<T, E>>, len: nat, j: int, e: E) -> bool {
    &&& 0 <= j < len
    &&& forall|i: int|
        0 <= i < msgs.len() ==> match #[trigger] msgs[i] {
            ReportMsg::Total(n) => n == len,
            ReportMsg::NewResult(p, res) => p < len && (p == j <==> res is Err) && (res is Err
                ==> res == Err::<T, E>(e)),
        }
    &&& exists|i: int| 0 <= i < msgs.len() && #[trigger] msgs[i] == ReportMsg::<T, E>::NewResult(j as usize, Err(e))
}

/// What holds after the first `i` messages of a course in which only
/// position `j` fails.
spec fn failure_inv<T, E>(
    states: Seq<ReorderView<T>>,
    rs: Seq<Step<T, E>>,
    len: nat,
    j: int,
    e: E,
    i: int,
) -> bool {
    let v = states[i];
    &&& v.wf()
    &&& !v.received.contains_key(j)
    &&& forall|q: int| #[trigger] v.received.contains_key(q) ==> q < len
    &&& v.total is None || v.total == Some(len)
    &&& (exists|k: int| 0 <= k < i && #[trigger] rs[k] == Step::<T, E>::Fail(e)) || !v.stopped
}

proof fn lemma_failure_inv<T, E>(
    states: Seq<ReorderView<T>>,
    words: Seq<int>,
    msgs: Seq<ReportMsg<T, E>>,
    rs: Seq<Step<T, E>>,
    len: nat,
    j: int,
    e: E,
    i: int,
)
    requires
        is_course(states, words, msgs, rs),
        fresh(states[0]),
        carries_one_failure(msgs, len, j, e),
        forall|k: int| 0 <= k < words.len() ==> word_agrees(#[trigger] words[k], len),
        0 <= i <= msgs.len(),
    ensures
        states.len() == msgs.len() + 1,
        rs.len() == msgs.len(),
        failure_inv(states, rs, len, j, e, i),
    decreases i,
{
    reveal(is_course);
    if i > 0 {
        let k = i - 1;
        lemma_failure_inv(states, words, msgs, rs, len, j, e, k);
        let pre = states[k];
        let post = states[i];
        assert(admissible(states[k], msgs[k]));
        assert(word_agrees(words[k], len));
        lemma_step_wf(pre, words[k], msgs[k], post, rs[k]);
        if exists|q: int| 0 <= q < k && #[trigger] rs[q] == Step::<T, E>::Fail(e) {
            let q = choose|q: int| 0 <= q < k && #[trigger] rs[q] == Step::<T, E>::Fail(e);
            assert(0 <= q < i && rs[q] == Step::<T, E>::Fail(e));
        } else if !pre.stopped {
            if let ReportMsg::NewResult(p, res) = msgs[k] {
                if res is Err {
                    assert(rs[k] == Step::<T, E>::Fail(e));
                }
            }
            if post.stopped && post.next == len {
                assert(post.received.contains_key(j));
            }
        }
    }
}

/// In a run in which nothing is cancelled and only position `j` fails, with
/// the error `e`, the coordinator answers with that very error.
pub proof fn lemma_single_failure_reported<T, E>(
    states: Seq<ReorderView<T>>,
    words: Seq<int>,
    msgs: Seq<ReportMsg<T, E>>,
    rs: Seq<Step<T, E>>,
    len: nat,
    j: int,
    e: E,
)
    requires
        is_course(states, words, msgs, rs),
        fresh(states[0]),
        carries_one_failure(msgs, len, j, e),
        forall|k: int| 0 <= k < words.len() ==> word_agrees(#[trigger] words[k], len),
    ensures
        exists|i: int| 0 <= i < rs.len() && #[trigger] rs[i] == Step::<T, E>::Fail(e),
{
    let i0 = choose|i: int|
        0 <= i < msgs.len() && #[trigger] msgs[i] == ReportMsg::<T, E>::NewResult(j as usize, Err(e));
    lemma_failure_inv(states, words, msgs, rs, len, j, e, i0);
    if !states[i0].stopped {
        reveal(is_course);
        assert(word_agrees(words[i0], len));
        assert(stepped(states[i0], words[i0], msgs[i0], states[i0 + 1], rs[i0]));
        assert(rs[i0] == Step::<T, E>::Fail(e));
    } else {
        let k = choose|k: int| 0 <= k < i0 && #[trigger] rs[k] == Step::<T, E>::Fail(e);
        assert(0 <= k < rs.len());
    }
}

/// The reorder coordinator: takes results in any order and hands them on in
/// position order.
pub struct Reorder<T> {
    pending: Vec<(usize, T)>,
    next: usize,
    total: Option<usize>,
    stopped: bool,
    received: Ghost<Map<int, T>>,
}

impl<T> View for Reorder<T> {
    type V = ReorderView<T>;

    closed spec fn view(&self) -> ReorderView<T> {
        ReorderView {
            next: self.next as nat,
            received: self.received@,
            total: match self.total {
                Some(n) => Some(n as nat),
                None => None,
            },
            stopped: self.stopped,
        }
    }
}

/// `s` holds the results of `received` from position `next` on, each once.
spec fn holds_rest<T>(s: Seq<(usize, T)>, next: int, received: Map<int, T>) -> bool {
    &&& forall|k: int|
        0 <= k < s.len() ==> next <= (#[trigger] s[k]).0 < usize::MAX && received.contains_key(
            s[k].0 as int,
        ) && received[s[k].0 as int] == s[k].1
    &&& forall|k: int, l: int|
        0 <= k < s.len() && 0 <= l < s.len() && k != l ==> (#[trigger] s[k]).0 != (#[trigger] s[l]).0
    &&& forall|j: int|
        #[trigger] received.contains_key(j) && next <= j ==> exists|k: int|
            0 <= k < s.len() && (#[trigger] s[k]).0 == j
}

/// The index in `s` of the result at position `pos`, if it is there.
fn find_position<T>(s: &Vec<(usize, T)>, pos: usize) -> (r: Option<usize>)
    ensures
        match r {
            Some(k) => k < s@.len() && s@[k as int].0 == pos,
            None => forall|k: int| 0 <= k < s@.len() ==> (#[trigger] s@[k]).0 != pos,
        },
{
    let mut k: usize = 0;
    while k < s.len()
        invariant
            k <= s@.len(),
            forall|l: int| 0 <= l < k ==> (#[trigger] s@[l]).0 != pos,
        decreases s@.len() - k,
    {
        if s[k].0 == pos {
            return Some(k);
        }
        k = k + 1;
    }
    None
}

impl<T> Reorder<T> {
    /// The coordinator's invariant.
    pub closed spec fn wf(&self) -> bool {
        &&& self@.wf()
        &&& holds_rest(self.pending@, self.next as int, self.received@)
    }

    /// A coordinator that has received nothing.
    pub fn new() -> (r: Reorder<T>)
        ensures
            r.wf(),
            r@.wf(),
            r@.next == 0,
            r@.received == Map::<int, T>::empty(),
            r@.total is None,
            !r@.stopped,
    {
        Reorder {
            pending: Vec::new(),
            next: 0,
            total: None,
            stopped: false,
            received: Ghost(Map::empty()),
        }
    }

    /// Whether the result at `pos` has come in.
    pub fn is_received(&self, pos: usize) -> (r: bool)
        requires
            self.wf(),
        ensures
            r == self@.received.contains_key(pos as int),
    {
        pos < self.next || find_position(&self.pending, pos).is_some()
    }

    /// The next position to report.
    pub fn next_position(&self) -> (r: usize)
        ensures
            r == self@.next,
    {
        self.next
    }

    /// Takes one message and says what to hand to the report callback.
    pub fn on_message<E>(&mut self, word: isize, msg: ReportMsg<T, E>) -> (r: Step<T, E>)
        requires
            old(self).wf(),
            admissible(old(self)@, msg),
        ensures
            final(self).wf(),
            final(self)@.wf(),
            stepped(old(self)@, word as int, msg, final(self)@, r),
    {
        if self.stopped || word < 0 {
            self.stopped = true;
            return Step::Halt;
        }
        let counted = match decode(word) {
            Some(Control::Count(n)) => Some(n),
            _ => None,
        };
        match msg {
            ReportMsg::Total(n) => {
                self.total = match counted {
                    Some(c) => Some(c),
                    None => Some(n),
                };
                self.stopped =
                    match self.total {
                        Some(t) => t == self.next,
                        None => false,
                    };
                if self.stopped {
                    Step::Complete(Vec::new())
                } else {
                    Step::Report(Vec::new())
                }
            },
            ReportMsg::NewResult(_, Err(e)) => {
                self.stopped = true;
                Step::Fail(e)
            },
            ReportMsg::NewResult(pos, Ok(y)) => {
                let batch = self.accept(pos, y);
                if counted.is_some() {
                    self.total = counted;
                }
                self.stopped =
                    match self.total {
                        Some(t) => t == self.next,
                        None => false,
                    };
                if self.stopped {
                    Step::Complete(batch)
                } else {
                    Step::Report(batch)
                }
            },
        }
    }

    /// Stops the coordinator, as when the report callback fails: nothing
    /// more is handed on, and what was reported stays as it was.
    pub fn stop(&mut self)
        requires
            old(self).wf(),
        ensures
            final(self).wf(),
            final(self)@ == old(self)@.halted(),
            final(self)@.reported() == old(self)@.reported(),
    {
        self.stopped = true;
    }

    /// Records the result `y` at `pos` and releases the longest run of
    /// results that now follows the last one reported.
    fn accept(&mut self, pos: usize, y: T) -> (batch: Vec<T>)
        requires
            old(self).wf(),
            pos < usize::MAX,
            !old(self)@.received.contains_key(pos as int),
        ensures
            final(self).wf(),
            final(self)@.received == old(self)@.received.insert(pos as int, y),
            first_gap(final(self)@.received, old(self)@.next as int, final(self)@.next as int),
            final(self).total == old(self).total,
            final(self).stopped == old(self).stopped,
            batch@ == final(self)@.reported().subrange(
                old(self)@.next as int,
                final(self)@.next as int,
            ),
    {
        let ghost start = self.next as int;
        let ghost before = self.pending@;
        self.received = Ghost(self.received@.insert(pos as int, y));
        if pos != self.next {
            self.pending.push((pos, y));
            proof {
                let s = self.pending@;
                assert(s[s.len() - 1] == (pos, y));
                assert forall|k: int| 0 <= k < before.len() implies #[trigger] s[k] == before[k] by {}
                assert forall|j: int| #[trigger]
                    self.received@.contains_key(j) && self.next <= j implies exists|k: int|
                    0 <= k < s.len() && (#[trigger] s[k]).0 == j by {
                    if j == pos {
                        assert(s[s.len() - 1].0 == j);
                    } else {
                        let k0 = choose|k: int| 0 <= k < before.len() && (#[trigger] before[k]).0 == j;
                        assert(s[k0].0 == j);
                    }
                }
                assert(self@.reported().subrange(start, start) =~= Seq::<T>::empty());
            }
            return Vec::new();
        }
        let mut batch: Vec<T> = Vec::new();
        batch.push(y);
        self.next = self.next + 1;
        proof {
            assert(batch@ =~= Seq::new((self.next - start) as nat, |k: int| self.received@[start + k]));
        }
        loop
            invariant
                holds_rest(self.pending@, self.next as int, self.received@),
                start < self.next,
                self.received@ == old(self)@.received.insert(pos as int, y),
                forall|j: int| 0 <= j < self.next ==> #[trigger] self.received@.contains_key(j),
                forall|j: int| #[trigger] self.received@.contains_key(j) ==> 0 <= j,
                batch@ == Seq::new((self.next - start) as nat, |k: int| self.received@[start + k]),
                self.total == old(self).total,
                self.stopped == old(self).stopped,
            ensures
                !self.received@.contains_key(self.next as int),
            decreases self.pending@.len(),
        {
            match find_position(&self.pending, self.next) {
                None => {
                    proof {
                        let s = self.pending@;
                        if self.received@.contains_key(self.next as int) {
                            let i0 = choose|i: int|
                                0 <= i < s.len() && (#[trigger] s[i]).0 == self.next;
                            assert(s[i0].0 != self.next);
                        }
                    }
                    break;
                },
                Some(k) => {
                    let ghost s = self.pending@;
                    let ghost at = self.next as int;
                    let (_, z) = self.pending.swap_remove(k);
                    batch.push(z);
                    self.next = self.next + 1;
                    proof {
                        let t = self.pending@;
                        assert forall|i: int| 0 <= i < t.len() implies #[trigger] t[i] == (if i
                            == k {
                            s[s.len() - 1]
                        } else {
                            s[i]
                        }) by {}
                        assert forall|i: int| 0 <= i < t.len() implies (#[trigger] t[i]).0 != at by {
                            if i == k {
                                assert(s[s.len() - 1].0 != s[k as int].0);
                            } else {
                                assert(s[i].0 != s[k as int].0);
                            }
                        }
                        assert forall|j: int| #[trigger]
                            self.received@.contains_key(j) && self.next <= j implies exists|i: int|
                            0 <= i < t.len() && (#[trigger] t[i]).0 == j by {
                            let i0 = choose|i: int| 0 <= i < s.len() && (#[trigger] s[i]).0 == j;
                            if i0 == s.len() - 1 {
                                assert(t[k as int].0 == j);
                            } else {
                                assert(t[i0].0 == j);
                            }
                        }
                        assert forall|i: int, l: int|
                            0 <= i < t.len() && 0 <= l < t.len() && i != l implies (#[trigger] t[i]).0
                            != (#[trigger] t[l]).0 by {
                            let si = if i == k { s.len() - 1 } else { i };
                            let sl = if l == k { s.len() - 1 } else { l };
                            assert(s[si].0 != s[sl].0);
                        }
                        assert(batch@ =~= Seq::new(
                            (self.next - start) as nat,
                            |q: int| self.received@[start + q],
                        ));
                    }
                },
            }
        }
        proof {
            assert(self@.reported().subrange(start, self.next as int) =~= batch@);
        }
        batch
    }
}

} // verus!
