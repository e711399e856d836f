//! A stable sort of positions by a comparison.

use vstd::prelude::*;

verus! {

/// Whether `lt` orders the positions below `n` as a strict weak order does.
pub open spec fn is_weak_order(lt: spec_fn(int, int) -> bool, n: int) -> bool {
    &&& forall|x: int| 0 <= x < n ==> !#[trigger] lt(x, x)
    &&& forall|x: int, y: int|
        0 <= x < n && 0 <= y < n && #[trigger] lt(x, y) ==> !lt(y, x)
    &&& forall|x: int, y: int, z: int|
        0 <= x < n && 0 <= y < n && 0 <= z < n && #[trigger] lt(x, y) && #[trigger] lt(y, z)
            ==> lt(x, z)
    &&& forall|x: int, y: int, z: int|
        0 <= x < n && 0 <= y < n && 0 <= z < n && !#[trigger] lt(x, y) && !#[trigger] lt(y, z)
            ==> !lt(x, z)
}

/// Whether position `x` comes before position `y` in a stable sort.
pub open spec fn before(lt: spec_fn(int, int) -> bool, x: int, y: int) -> bool {
    lt(x, y) || (!lt(y, x) && x < y)
}

/// Whether the positions stand in the order of a stable sort.
pub open spec fn is_ordered(r: Seq<usize>, lt: spec_fn(int, int) -> bool) -> bool {
    forall|a: int, b: int|
        0 <= a < b < r.len() ==> before(lt, #[trigger] r[a] as int, #[trigger] r[b] as int)
}

/// Whether `r` holds each position from `lo` up to `hi` once.
pub open spec fn is_all_of(r: Seq<usize>, lo: int, hi: int) -> bool {
    &&& r.len() == hi - lo
    &&& r.no_duplicates()
    &&& forall|a: int| 0 <= a < r.len() ==> lo <= #[trigger] r[a] < hi
}

/// Whether `r` is the stable sort of the positions below `n`.
pub open spec fn is_stable_sort(r: Seq<usize>, n: int, lt: spec_fn(int, int) -> bool) -> bool {
    is_all_of(r, 0, n) && is_ordered(r, lt)
}

proof fn lemma_before_transitive(lt: spec_fn(int, int) -> bool, n: int, x: int, y: int, z: int)
    requires
        is_weak_order(lt, n),
        0 <= x < n && 0 <= y < n && 0 <= z < n,
        before(lt, x, y),
        before(lt, y, z),
    ensures
        before(lt, x, z),
{
    if lt(x, y) && lt(y, z) {
    } else if lt(x, y) {
        assert(!lt(y, z) && !lt(z, y));
        if !lt(x, z) {
            assert(!lt(x, z) && !lt(z, y));
            assert(!lt(x, y));
        }
    } else if lt(y, z) {
        assert(!lt(y, x) && !lt(x, y));
        if !lt(x, z) {
            assert(!lt(y, x) && !lt(x, z));
            assert(!lt(y, z));
        }
    } else {
        assert(!lt(z, y) && !lt(y, x));
        assert(!lt(z, x));
    }
}

/// Whether positions are in the order of a stable sort, where the comparison
/// allows of one.
pub open spec fn ordered_if(r: Seq<usize>, n: int, lt: spec_fn(int, int) -> bool) -> bool {
    is_weak_order(lt, n) ==> is_ordered(r, lt)
}

fn merge<F: Fn(usize, usize) -> bool>(
    left: &Vec<usize>,
    right: &Vec<usize>,
    less: &F,
    Ghost(lt): Ghost<spec_fn(int, int) -> bool>,
    Ghost(lo): Ghost<int>,
    Ghost(mid): Ghost<int>,
    Ghost(hi): Ghost<int>,
    n: usize,
) -> (r: Vec<usize>)
    requires
        0 <= lo <= mid <= hi <= n,
        is_all_of(left@, lo, mid),
        is_all_of(right@, mid, hi),
        ordered_if(left@, n as int, lt),
        ordered_if(right@, n as int, lt),
        forall|x: usize, y: usize| x < n && y < n ==> #[trigger] less.requires((x, y)),
        forall|x: usize, y: usize, b: bool|
            x < n && y < n && #[trigger] less.ensures((x, y), b) ==> b == lt(x as int, y as int),
    ensures
        is_all_of(r@, lo, hi),
        ordered_if(r@, n as int, lt),
{
    let mut out: Vec<usize> = Vec::new();
    let mut i: usize = 0;
    let mut j: usize = 0;
    while i < left.len() || j < right.len()
        invariant
            0 <= lo <= mid <= hi <= n,
            is_all_of(left@, lo, mid),
            is_all_of(right@, mid, hi),
            ordered_if(left@, n as int, lt),
            ordered_if(right@, n as int, lt),
            forall|x: usize, y: usize| x < n && y < n ==> #[trigger] less.requires((x, y)),
            forall|x: usize, y: usize, b: bool|
                x < n && y < n && #[trigger] less.ensures((x, y), b) ==> b == lt(
                    x as int,
                    y as int,
                ),
            i <= left@.len(),
            j <= right@.len(),
            out@.len() == i + j,
            out@.no_duplicates(),
            forall|a: int| 0 <= a < out@.len() ==> lo <= #[trigger] out@[a] < hi,
            forall|a: int, b: int|
                0 <= a < out@.len() && i <= b < left@.len() ==> #[trigger] out@[a]
                    != #[trigger] left@[b],
            forall|a: int, b: int|
                0 <= a < out@.len() && j <= b < right@.len() ==> #[trigger] out@[a]
                    != #[trigger] right@[b],
            is_weak_order(lt, n as int) ==> {
                &&& is_ordered(out@, lt)
                &&& all_before(out@, left@, i as int, lt)
                &&& all_before(out@, right@, j as int, lt)
            },
        decreases left@.len() - i + (right@.len() - j),
    {
        let ghost old_out = out@;
        let take_left = if i >= left.len() {
            false
        } else if j >= right.len() {
            true
        } else {
            !less(right[j], left[i])
        };
        if take_left {
            let x = left[i];
            out.push(x);
            proof {
                lemma_no_dup_push(old_out, x);
                assert forall|a: int, b: int|
                    0 <= a < out@.len() && i + 1 <= b < left@.len() implies #[trigger] out@[a]
                    != #[trigger] left@[b] by {
                    if a < old_out.len() {
                        assert(out@[a] == old_out[a]);
                    }
                }
                assert forall|a: int, b: int|
                    0 <= a < out@.len() && j <= b < right@.len() implies #[trigger] out@[a]
                    != #[trigger] right@[b] by {
                    if a < old_out.len() {
                        assert(out@[a] == old_out[a]);
                    } else {
                        assert(left@[i as int] < mid <= right@[b]);
                    }
                }
                if is_weak_order(lt, n as int) {
                    lemma_take(old_out, left@, i as int, right@, j as int, lt, n as int);
                }
            }
            i = i + 1;
        } else {
            let x = right[j];
            out.push(x);
            proof {
                lemma_no_dup_push(old_out, x);
                assert forall|a: int, b: int|
                    0 <= a < out@.len() && j + 1 <= b < right@.len() implies #[trigger] out@[a]
                    != #[trigger] right@[b] by {
                    if a < old_out.len() {
                        assert(out@[a] == old_out[a]);
                    }
                }
                assert forall|a: int, b: int|
                    0 <= a < out@.len() && i <= b < left@.len() implies #[trigger] out@[a]
                    != #[trigger] left@[b] by {
                    if a < old_out.len() {
                        assert(out@[a] == old_out[a]);
                    } else {
                        assert(left@[b] < mid <= right@[j as int]);
                    }
                }
                if is_weak_order(lt, n as int) {
                    lemma_take(old_out, right@, j as int, left@, i as int, lt, n as int);
                }
            }
            j = j + 1;
        }
    }
    out
}

/// Whether each position of `out` comes before each of `rest` from `from` on.
pub open spec fn all_before(
    out: Seq<usize>,
    rest: Seq<usize>,
    from: int,
    lt: spec_fn(int, int) -> bool,
) -> bool {
    forall|a: int, b: int|
        0 <= a < out.len() && from <= b < rest.len() ==> before(
            lt,
            #[trigger] out[a] as int,
            #[trigger] rest[b] as int,
        )
}

proof fn lemma_no_dup_push(out: Seq<usize>, x: usize)
    requires
        out.no_duplicates(),
        forall|a: int| 0 <= a < out.len() ==> #[trigger] out[a] != x,
    ensures
        out.push(x).no_duplicates(),
{
    assert forall|a: int, b: int|
        0 <= a < out.push(x).len() && 0 <= b < out.push(x).len() && a != b implies out.push(x)[a]
        != out.push(x)[b] by {
        if a < out.len() {
            assert(out.push(x)[a] == out[a]);
        }
        if b < out.len() {
            assert(out.push(x)[b] == out[b]);
        }
    }
}

/// Taking the next position of `from`, which comes before the next of `other`.
proof fn lemma_take(
    out: Seq<usize>,
    from: Seq<usize>,
    i: int,
    other: Seq<usize>,
    j: int,
    lt: spec_fn(int, int) -> bool,
    n: int,
)
    requires
        is_weak_order(lt, n),
        0 <= i < from.len(),
        0 <= j <= other.len(),
        forall|a: int| 0 <= a < from.len() ==> #[trigger] from[a] < n,
        forall|a: int| 0 <= a < other.len() ==> #[trigger] other[a] < n,
        is_ordered(out, lt),
        is_ordered(from, lt),
        is_ordered(other, lt),
        all_before(out, from, i, lt),
        all_before(out, other, j, lt),
        j < other.len() ==> before(lt, from[i] as int, other[j] as int),
    ensures
        is_ordered(out.push(from[i]), lt),
        all_before(out.push(from[i]), from, i + 1, lt),
        all_before(out.push(from[i]), other, j, lt),
{
    let x = from[i];
    let now = out.push(x);
    assert forall|a: int, b: int| 0 <= a < b < now.len() implies before(
        lt,
        #[trigger] now[a] as int,
        #[trigger] now[b] as int,
    ) by {
        assert(now[a] == out[a]);
        if b < out.len() {
            assert(now[b] == out[b]);
        }
    }
    assert forall|a: int, b: int| 0 <= a < now.len() && i + 1 <= b < from.len() implies before(
        lt,
        #[trigger] now[a] as int,
        #[trigger] from[b] as int,
    ) by {
        if a < out.len() {
            assert(now[a] == out[a]);
        } else {
            assert(before(lt, from[i] as int, from[b] as int));
        }
    }
    assert forall|a: int, b: int| 0 <= a < now.len() && j <= b < other.len() implies before(
        lt,
        #[trigger] now[a] as int,
        #[trigger] other[b] as int,
    ) by {
        if a < out.len() {
            assert(now[a] == out[a]);
        } else if b > j {
            assert(before(lt, other[j] as int, other[b] as int));
            lemma_before_transitive(lt, n, x as int, other[j] as int, other[b] as int);
        }
    }
}

fn sort_range<F: Fn(usize, usize) -> bool>(
    lo: usize,
    hi: usize,
    n: usize,
    less: &F,
    Ghost(lt): Ghost<spec_fn(int, int) -> bool>,
) -> (r: Vec<usize>)
    requires
        lo <= hi <= n,
        forall|x: usize, y: usize| x < n && y < n ==> #[trigger] less.requires((x, y)),
        forall|x: usize, y: usize, b: bool|
            x < n && y < n && #[trigger] less.ensures((x, y), b) ==> b == lt(x as int, y as int),
    ensures
        is_all_of(r@, lo as int, hi as int),
        ordered_if(r@, n as int, lt),
    decreases hi - lo,
{
    if hi - lo == 0 {
        Vec::new()
    } else if hi - lo == 1 {
        let mut out: Vec<usize> = Vec::new();
        out.push(lo);
        out
    } else {
        let mid: usize = lo + (hi - lo) / 2;
        let left = sort_range(lo, mid, n, less, Ghost(lt));
        let right = sort_range(mid, hi, n, less, Ghost(lt));
        merge(
            &left,
            &right,
            less,
            Ghost(lt),
            Ghost(lo as int),
            Ghost(mid as int),
            Ghost(hi as int),
            n,
        )
    }
}

/// The positions below `n` in the order of a stable sort.
pub open spec fn order_of(n: int, lt: spec_fn(int, int) -> bool) -> Seq<usize> {
    choose|r: Seq<usize>| is_stable_sort(r, n, lt)
}

/// The items in the order of a stable sort of their positions.
pub open spec fn in_order<T>(items: Seq<T>, lt: spec_fn(int, int) -> bool) -> Seq<T> {
    let r = order_of(items.len() as int, lt);
    Seq::new(items.len(), |i: int| items[r[i] as int])
}

/// The positions below `n`, each once, in the order of a stable sort by `less` where
/// it is a consistent comparison.
pub(crate) fn stable_order<F: Fn(usize, usize) -> bool>(
    n: usize,
    less: &F,
    Ghost(lt): Ghost<spec_fn(int, int) -> bool>,
) -> (r: Vec<usize>)
    requires
        forall|x: usize, y: usize| x < n && y < n ==> #[trigger] less.requires((x, y)),
        forall|x: usize, y: usize, b: bool|
            x < n && y < n && #[trigger] less.ensures((x, y), b) ==> b == lt(x as int, y as int),
    ensures
        is_all_of(r@, 0, n as int),
        is_weak_order(lt, n as int) ==> r@ == order_of(n as int, lt) && is_stable_sort(
            r@,
            n as int,
            lt,
        ),
{
    let r = sort_range(0, n, n, less, Ghost(lt));
    proof {
        if is_weak_order(lt, n as int) {
            assert(is_stable_sort(r@, n as int, lt));
            stable_sort_is_unique(r@, order_of(n as int, lt), n as int, lt);
        }
    }
    r
}

/// Whether `out` holds the items of `data`, each once, and stands in the order of a
/// stable sort where the comparison of positions allows of one.
pub open spec fn is_sorted_copy<T>(
    data: Seq<T>,
    out: Seq<T>,
    lt: spec_fn(int, int) -> bool,
) -> bool {
    &&& exists|r: Seq<usize>| #[trigger] is_arrangement(data, out, r)
    &&& is_weak_order(lt, data.len() as int) ==> out == in_order(data, lt)
}

/// Whether `out` is `data` in the order of the positions `r`.
pub open spec fn is_arrangement<T>(data: Seq<T>, out: Seq<T>, r: Seq<usize>) -> bool {
    &&& is_all_of(r, 0, data.len() as int)
    &&& out == Seq::new(data.len(), |i: int| data[r[i] as int])
}

/// Two stable sorts of the same positions by the same comparison are the same.
pub proof fn stable_sort_is_unique(
    r: Seq<usize>,
    s: Seq<usize>,
    n: int,
    lt: spec_fn(int, int) -> bool,
)
    requires
        is_weak_order(lt, n),
        is_stable_sort(r, n, lt),
        is_stable_sort(s, n, lt),
    ensures
        r == s,
{
    assert forall|k: int| 0 <= k < n implies r[k] == s[k] by {
        lemma_same_at(r, s, n, lt, k);
    }
    assert(r =~= s);
}

pub proof fn lemma_all_there(r: Seq<usize>, n: int, v: int)
    requires
        is_all_of(r, 0, n),
        0 <= v < n,
    ensures
        exists|a: int| 0 <= a < r.len() && r[a] == v,
{
    let ints = Seq::new(r.len(), |i: int| r[i] as int);
    assert(ints.no_duplicates()) by {
        assert forall|a: int, b: int|
            0 <= a < ints.len() && 0 <= b < ints.len() && a != b implies ints[a] != ints[b] by {
            assert(r[a] != r[b]);
        }
    }
    let all = vstd::set_lib::set_int_range(0, n);
    vstd::set_lib::lemma_int_range(0, n);
    ints.unique_seq_to_set();
    assert(ints.to_set().subset_of(all)) by {
        assert forall|x: int| ints.to_set().contains(x) implies all.contains(x) by {
            let a = choose|a: int| 0 <= a < ints.len() && ints[a] == x;
            assert(0 <= r[a] < n);
        }
    }
    vstd::set_lib::lemma_subset_equality(ints.to_set(), all);
    assert(ints.to_set().contains(v));
    let a = choose|a: int| 0 <= a < ints.len() && ints[a] == v;
    assert(r[a] == v);
}

proof fn lemma_same_at(
    r: Seq<usize>,
    s: Seq<usize>,
    n: int,
    lt: spec_fn(int, int) -> bool,
    k: int,
)
    requires
        is_weak_order(lt, n),
        is_stable_sort(r, n, lt),
        is_stable_sort(s, n, lt),
        0 <= k < n,
    ensures
        r[k] == s[k],
    decreases k,
{
    assert forall|m: int| 0 <= m < k implies r[m] == s[m] by {
        lemma_same_at(r, s, n, lt, m);
    }
    if r[k] != s[k] {
        lemma_all_there(s, n, r[k] as int);
        let a = choose|a: int| 0 <= a < s.len() && s[a] == r[k];
        lemma_all_there(r, n, s[k] as int);
        let b = choose|b: int| 0 <= b < r.len() && r[b] == s[k];
        assert(a > k) by {
            if a < k {
                assert(r[a] == s[a]);
                assert(r[a] == r[k]);
            }
        }
        assert(b > k) by {
            if b < k {
                assert(r[b] == s[b]);
                assert(s[b] == s[k]);
            }
        }
        assert(before(lt, s[k] as int, s[a] as int));
        assert(before(lt, r[k] as int, r[b] as int));
    }
}

proof fn lemma_insert_position(
    r: Seq<usize>,
    x: usize,
    n: int,
    lt: spec_fn(int, int) -> bool,
    p: int,
) -> (q: int)
    requires
        is_weak_order(lt, n),
        is_stable_sort(r, x as int, lt),
        x < n,
        0 <= p <= r.len(),
        forall|a: int| 0 <= a < p ==> before(lt, #[trigger] r[a] as int, x as int),
    ensures
        0 <= q <= r.len(),
        forall|a: int| 0 <= a < q ==> before(lt, #[trigger] r[a] as int, x as int),
        q < r.len() ==> !before(lt, r[q] as int, x as int),
    decreases r.len() - p,
{
    if p < r.len() && before(lt, r[p] as int, x as int) {
        lemma_insert_position(r, x, n, lt, p + 1)
    } else {
        p
    }
}

/// A consistent comparison allows of a stable sort.
pub proof fn lemma_stable_sort_exists(n: int, lt: spec_fn(int, int) -> bool)
    requires
        0 <= n <= usize::MAX,
        is_weak_order(lt, n),
    ensures
        is_stable_sort(order_of(n, lt), n, lt),
{
    let r = lemma_sort_upto(n, n, lt);
    assert(is_stable_sort(r, n, lt));
}

proof fn lemma_sort_upto(m: int, n: int, lt: spec_fn(int, int) -> bool) -> (r: Seq<usize>)
    requires
        0 <= m <= n <= usize::MAX,
        is_weak_order(lt, n),
    ensures
        is_stable_sort(r, m, lt),
    decreases m,
{
    if m == 0 {
        Seq::empty()
    } else {
        let s = lemma_sort_upto(m - 1, n, lt);
        let x = (m - 1) as usize;
        let q = lemma_insert_position(s, x, n, lt, 0);
        let r = s.insert(q, x);
        assert forall|a: int, b: int| 0 <= a < b < r.len() implies before(
            lt,
            #[trigger] r[a] as int,
            #[trigger] r[b] as int,
        ) by {
            if b < q {
                assert(r[a] == s[a] && r[b] == s[b]);
            } else if b == q {
                assert(r[a] == s[a] && r[b] == x);
            } else if a == q {
                assert(r[b] == s[b - 1]);
                assert(before(lt, x as int, s[q] as int));
                if b - 1 > q {
                    lemma_before_transitive(
                        lt,
                        n,
                        x as int,
                        s[q] as int,
                        s[b - 1] as int,
                    );
                }
            } else if a < q {
                assert(r[a] == s[a] && r[b] == s[b - 1]);
            } else {
                assert(r[a] == s[a - 1] && r[b] == s[b - 1]);
            }
        }
        assert(r.no_duplicates()) by {
            assert forall|a: int, b: int| 0 <= a < r.len() && 0 <= b < r.len() && a != b implies r[a]
                != r[b] by {
                if a < q && b < q {
                    assert(r[a] == s[a] && r[b] == s[b]);
                } else if a > q && b > q {
                    assert(r[a] == s[a - 1] && r[b] == s[b - 1]);
                } else if a < q && b > q {
                    assert(r[a] == s[a] && r[b] == s[b - 1]);
                } else if a > q && b < q {
                    assert(r[a] == s[a - 1] && r[b] == s[b]);
                } else if a == q {
                    if b < q {
                        assert(r[b] == s[b]);
                    } else {
                        assert(r[b] == s[b - 1]);
                    }
                } else {
                    if a < q {
                        assert(r[a] == s[a]);
                    } else {
                        assert(r[a] == s[a - 1]);
                    }
                }
            }
        }
        assert forall|a: int| 0 <= a < r.len() implies 0 <= #[trigger] r[a] < m by {
            if a < q {
                assert(r[a] == s[a]);
            } else if a > q {
                assert(r[a] == s[a - 1]);
            }
        }
        r
    }
}

} // verus!
