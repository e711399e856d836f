//! Vectors seen through to the content of their items.

use vstd::prelude::*;

verus! {

/// Appends an item.
pub fn push_deep<T: DeepView>(v: &mut Vec<T>, x: T)
    ensures
        final(v).deep_view() == old(v).deep_view().push(x.deep_view()),
        final(v)@.len() == old(v)@.len() + 1,
{
    v.push(x);
    assert(v.deep_view() =~= old(v).deep_view().push(x.deep_view()));
}

/// Appends all items of another vector.
pub fn append_deep<T: DeepView>(v: &mut Vec<T>, more: Vec<T>)
    ensures
        final(v).deep_view() == old(v).deep_view() + more.deep_view(),
        final(v)@.len() == old(v)@.len() + more@.len(),
{
    let mut tail = more;
    let ghost before = v.deep_view();
    let ghost old_v = v@;
    v.append(&mut tail);
    assert(v.deep_view() =~= before + more.deep_view()) by {
        assert forall|i: int| 0 <= i < v@.len() implies v.deep_view()[i] == (before
            + more.deep_view())[i] by {
            if i < old_v.len() {
                assert(v@[i] == old_v[i]);
            } else {
                assert(v@[i] == more@[i - old_v.len()]);
            }
        }
    }
}

/// The results of `f` at 0 up to `n`.
pub(crate) fn tabulate<T: DeepView, F: Fn(usize) -> T>(
    n: usize,
    f: &F,
    Ghost(g): Ghost<spec_fn(int) -> T::V>,
) -> (r: Vec<T>)
    requires
        forall|i: usize| i < n ==> #[trigger] f.requires((i,)),
        forall|i: usize, t: T|
            i < n && #[trigger] f.ensures((i,), t) ==> t.deep_view() == g(i as int),
    ensures
        r.deep_view() == Seq::new(n as nat, g),
        r@.len() == n,
{
    let ghost all = Seq::new(n as nat, g);
    let mut out: Vec<T> = Vec::new();
    let mut i: usize = 0;
    while i < n
        invariant
            i <= n,
            all == Seq::new(n as nat, g),
            out@.len() == i,
            out.deep_view() == all.take(i as int),
            forall|i: usize| i < n ==> #[trigger] f.requires((i,)),
            forall|i: usize, t: T|
                i < n && #[trigger] f.ensures((i,), t) ==> t.deep_view() == g(i as int),
        decreases n - i,
    {
        let t = f(i);
        push_deep(&mut out, t);
        i = i + 1;
        assert(out.deep_view() =~= all.take(i as int));
    }
    assert(all.take(i as int) =~= all);
    out
}

} // verus!
