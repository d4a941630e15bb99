use vstd::prelude::*;

verus! {

/// What a worker does with the item it pulled from the work queue while the
/// control word reads `word`: the element to transform, or `None` to exit.
/// A `None` item is a shutdown token.
pub fn worker_step<X>(word: isize, item: Option<(usize, X)>) -> (r: Option<(usize, X)>)
    ensures
        word < 0 ==> r is None,
        word >= 0 ==> r == item,
{
    if word < 0 {
        None
    } else {
        item
    }
}

/// How the dispatcher winds up after enqueuing `n` elements.
#[derive(Debug, PartialEq, Eq, Structural)]
pub enum Wrapup {
    /// Publish the count `n` in the control word and tell it to the coordinator.
    Publish(usize),
    /// The run failed: empty the work queue and tell the coordinator nothing.
    Discard,
}

/// Decides how the dispatcher winds up once it has enqueued `n` elements
/// and the control word reads `word`.
pub fn finish_dispatch(word: isize, n: usize) -> (r: Wrapup)
    ensures
        word >= 0 ==> r == Wrapup::Publish(n),
        word < 0 ==> r == Wrapup::Discard,
{
    if word < 0 {
        Wrapup::Discard
    } else {
        Wrapup::Publish(n)
    }
}

} // verus!
