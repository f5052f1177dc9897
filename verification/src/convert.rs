//! Element-wise conversion between precisions through a caller's callback.

use vstd::prelude::*;

verus! {

/// Whether `f` may be called on every value.
pub open spec fn accepts_each<A, B, F: Fn(A) -> B>(f: F) -> bool {
    forall|x: A| #[trigger] f.requires((x,))
}

/// Whether `ys` can come out of applying `f` to each element of `xs` in turn.
pub open spec fn maps_each<A, B, F: Fn(A) -> B>(f: F, xs: Seq<A>, ys: Seq<B>) -> bool {
    &&& ys.len() == xs.len()
    &&& forall|t: int| 0 <= t < xs.len() ==> f.ensures((xs[t],), #[trigger] ys[t])
}

/// Applies `f` to each element of `xs`, collecting what it returns in `out`,
/// which comes in empty.
pub fn convert_each<A: Copy, B, F: Fn(A) -> B>(out: Vec<B>, xs: &[A], f: &F) -> (ys: Vec<B>)
    requires
        out@.len() == 0,
        accepts_each(*f),
    ensures
        maps_each(*f, xs@, ys@),
{
    let mut ys = out;
    let count: usize = xs.len();
    let mut t: usize = 0;
    while t < count
        invariant
            count == xs@.len(),
            t <= count,
            accepts_each(*f),
            maps_each(*f, xs@.take(t as int), ys@),
        decreases count - t,
    {
        let y: B = f(xs[t]);
        ys.push(y);
        t += 1;
    }
    assert(xs@.take(count as int) == xs@);
    ys
}

} // verus!
