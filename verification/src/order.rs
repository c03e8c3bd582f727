//! A stable merge sort over indices.

use vstd::prelude::*;

verus! {

/// Whether `x` comes before `y`: `rel` puts it there, or puts them level and `x`
/// stood first.
pub open spec fn before(rel: spec_fn(int, int) -> bool, x: int, y: int) -> bool {
    rel(x, y) && (rel(y, x) ==> x < y)
}

/// Whether every index of `s` comes before the ones behind it.
pub open spec fn arranged(rel: spec_fn(int, int) -> bool, s: Seq<usize>) -> bool {
    forall|a: int, b: int|
        0 <= a < b < s.len() ==> before(rel, #[trigger] s[a] as int, #[trigger] s[b] as int)
}

/// Whether `s` holds each index from `lo` to `hi` and nothing else.
pub open spec fn covers(s: Seq<usize>, lo: int, hi: int) -> bool {
    &&& s.len() == hi - lo
    &&& forall|k: int| 0 <= k < s.len() ==> lo <= #[trigger] s[k] < hi
    &&& forall|x: usize| lo <= x < hi ==> #[trigger] s.contains(x)
}

/// Whether `rel` ranks the indices below `n`: any two are comparable, and the
/// comparison is transitive.
pub open spec fn ranks(rel: spec_fn(int, int) -> bool, n: int) -> bool {
    &&& forall|i: int, j: int|
        0 <= i < n && 0 <= j < n ==> #[trigger] rel(i, j) || #[trigger] rel(j, i)
    &&& forall|i: int, j: int, k: int|
        0 <= i < n && 0 <= j < n && 0 <= k < n && #[trigger] rel(i, j) && #[trigger] rel(j, k)
            ==> rel(i, k)
}

/// Whether calling `le` decides `rel`.
pub open spec fn decides<F: Fn(usize, usize) -> bool>(
    le: F,
    rel: spec_fn(int, int) -> bool,
    n: int,
) -> bool {
    &&& forall|i: usize, j: usize| i < n && j < n ==> call_requires(le, (i, j))
    &&& forall|i: usize, j: usize, r: bool|
        i < n && j < n && call_ensures(le, (i, j), r) ==> r == rel(i as int, j as int)
}

proof fn lemma_before_transitive(
    rel: spec_fn(int, int) -> bool,
    n: int,
    x: int,
    y: int,
    z: int,
)
    requires
        ranks(rel, n),
        0 <= x < n,
        0 <= y < n,
        0 <= z < n,
        before(rel, x, y),
        before(rel, y, z),
    ensures
        before(rel, x, z),
{
    assert(rel(x, y) && rel(y, z));
    if rel(z, x) {
        assert(rel(z, x) && rel(x, y));
        assert(rel(z, y));
        assert(rel(y, z) && rel(z, x));
        assert(rel(y, x));
    }
}

/// The indices below `n` in the order that `rel` gives, ties in index order.
pub open spec fn the_order(rel: spec_fn(int, int) -> bool, n: int) -> Seq<usize> {
    choose|p: Seq<usize>| #[trigger] covers(p, 0, n) && arranged(rel, p)
}

/// There is only one such order.
pub proof fn lemma_one_order(rel: spec_fn(int, int) -> bool, n: int, p: Seq<usize>)
    requires
        covers(p, 0, n),
        arranged(rel, p),
    ensures
        p == the_order(rel, n),
{
    let q = the_order(rel, n);
    assert(covers(q, 0, n) && arranged(rel, q));
    assert forall|k: int| 0 <= k < n implies p[k] == q[k] by {
        lemma_orders_agree(rel, n, p, q, k);
    }
    assert(p =~= q);
}

proof fn lemma_orders_agree(
    rel: spec_fn(int, int) -> bool,
    n: int,
    p: Seq<usize>,
    q: Seq<usize>,
    k: int,
)
    requires
        covers(p, 0, n),
        arranged(rel, p),
        covers(q, 0, n),
        arranged(rel, q),
        0 <= k < n,
    ensures
        p[k] == q[k],
    decreases k,
{
    if p[k] != q[k] {
        assert(p.contains(q[k]));
        let a = choose|a: int| 0 <= a < p.len() && p[a] == q[k];
        assert(q.contains(p[k]));
        let b = choose|b: int| 0 <= b < q.len() && q[b] == p[k];
        if a < k {
            lemma_orders_agree(rel, n, p, q, a);
            assert(before(rel, q[a] as int, q[k] as int));
        } else if b < k {
            lemma_orders_agree(rel, n, p, q, b);
            assert(before(rel, p[b] as int, p[k] as int));
        } else {
            assert(before(rel, p[k] as int, p[a] as int));
            assert(before(rel, q[k] as int, q[b] as int));
        }
    }
}

/// How `le` relates the indices of `s`.
pub open spec fn by_index<T>(s: Seq<T>, le: spec_fn(T, T) -> bool) -> spec_fn(int, int) -> bool {
    |i: int, j: int| le(s[i], s[j])
}

/// The items of `s` in the order that `le` gives, ties in the order they had.
pub open spec fn sorted_by<T>(s: Seq<T>, le: spec_fn(T, T) -> bool) -> Seq<T> {
    let p = the_order(by_index(s, le), s.len() as int);
    Seq::new(s.len(), |k: int| s[p[k] as int])
}

/// Relations that agree on the indices give the same order.
pub proof fn lemma_same_order(
    rel: spec_fn(int, int) -> bool,
    other: spec_fn(int, int) -> bool,
    n: int,
    p: Seq<usize>,
)
    requires
        covers(p, 0, n),
        arranged(rel, p),
        forall|i: int, j: int|
            0 <= i < n && 0 <= j < n ==> #[trigger] rel(i, j) == other(i, j),
    ensures
        p == the_order(other, n),
{
    assert forall|a: int, b: int| 0 <= a < b < p.len() implies before(
        other,
        #[trigger] p[a] as int,
        #[trigger] p[b] as int,
    ) by {
        assert(before(rel, p[a] as int, p[b] as int));
        assert(rel(p[b] as int, p[a] as int) == other(p[b] as int, p[a] as int));
    }
    lemma_one_order(other, n, p);
}

/// Merge two arranged runs, all of whose left indices are below the right ones.
fn merge<F: Fn(usize, usize) -> bool>(
    left: &Vec<usize>,
    right: &Vec<usize>,
    lo: usize,
    mid: usize,
    hi: usize,
    n: usize,
    le: &F,
    Ghost(rel): Ghost<spec_fn(int, int) -> bool>,
) -> (r: Vec<usize>)
    requires
        lo <= mid <= hi <= n,
        ranks(rel, n as int),
        decides(*le, rel, n as int),
        covers(left@, lo as int, mid as int),
        covers(right@, mid as int, hi as int),
        arranged(rel, left@),
        arranged(rel, right@),
    ensures
        covers(r@, lo as int, hi as int),
        arranged(rel, r@),
{
    let mut out: Vec<usize> = Vec::new();
    let mut i: usize = 0;
    let mut j: usize = 0;
    while i < left.len() || j < right.len()
        invariant
            lo <= mid <= hi <= n,
            ranks(rel, n as int),
            decides(*le, rel, n as int),
            covers(left@, lo as int, mid as int),
            covers(right@, mid as int, hi as int),
            arranged(rel, left@),
            arranged(rel, right@),
            i <= left@.len(),
            j <= right@.len(),
            out@.len() == i + j,
            arranged(rel, out@),
            forall|k: int| 0 <= k < out@.len() ==> lo <= #[trigger] out@[k] < hi,
            forall|k: int, a: int|
                0 <= k < out@.len() && i <= a < left@.len() ==> before(
                    rel,
                    #[trigger] out@[k] as int,
                    #[trigger] left@[a] as int,
                ),
            forall|k: int, b: int|
                0 <= k < out@.len() && j <= b < right@.len() ==> before(
                    rel,
                    #[trigger] out@[k] as int,
                    #[trigger] right@[b] as int,
                ),
            forall|a: int| 0 <= a < i ==> out@.contains(#[trigger] left@[a]),
            forall|b: int| 0 <= b < j ==> out@.contains(#[trigger] right@[b]),
        decreases left@.len() + right@.len() - i - j,
    {
        let from_left: bool = if i == left.len() {
            false
        } else if j == right.len() {
            true
        } else {
            le(left[i], right[j])
        };
        let ghost prev = out@;
        if from_left {
            let x: usize = left[i];
            out.push(x);
            proof {
                assert(out@[prev.len() as int] == x);
                assert forall|b: int| j <= b < right@.len() implies before(
                    rel,
                    x as int,
                    #[trigger] right@[b] as int,
                ) by {
                    assert(before(rel, x as int, right@[j as int] as int));
                    if b > j {
                        lemma_before_transitive(
                            rel,
                            n as int,
                            x as int,
                            right@[j as int] as int,
                            right@[b] as int,
                        );
                    }
                }
                lemma_push_contains(prev, x);
            }
            i += 1;
        } else {
            let y: usize = right[j];
            out.push(y);
            proof {
                assert(out@[prev.len() as int] == y);
                assert forall|a: int| i <= a < left@.len() implies before(
                    rel,
                    y as int,
                    #[trigger] left@[a] as int,
                ) by {
                    assert(before(rel, y as int, left@[i as int] as int));
                    if a > i {
                        lemma_before_transitive(
                            rel,
                            n as int,
                            y as int,
                            left@[i as int] as int,
                            left@[a] as int,
                        );
                    }
                }
                lemma_push_contains(prev, y);
            }
            j += 1;
        }
    }
    proof {
        assert forall|x: usize| lo <= x < hi implies #[trigger] out@.contains(x) by {
            if x < mid {
                assert(left@.contains(x));
                let a = choose|a: int| 0 <= a < left@.len() && left@[a] == x;
                assert(out@.contains(left@[a]));
            } else {
                assert(right@.contains(x));
                let b = choose|b: int| 0 <= b < right@.len() && right@[b] == x;
                assert(out@.contains(right@[b]));
            }
        }
    }
    out
}

proof fn lemma_push_contains(s: Seq<usize>, x: usize)
    ensures
        s.push(x).contains(x),
        forall|y: usize| s.contains(y) ==> s.push(x).contains(y),
{
    assert(s.push(x)[s.len() as int] == x);
    assert forall|y: usize| s.contains(y) implies s.push(x).contains(y) by {
        let k = choose|k: int| 0 <= k < s.len() && s[k] == y;
        assert(s.push(x)[k] == y);
    }
}

fn order_range<F: Fn(usize, usize) -> bool>(
    lo: usize,
    hi: usize,
    n: usize,
    le: &F,
    Ghost(rel): Ghost<spec_fn(int, int) -> bool>,
) -> (r: Vec<usize>)
    requires
        lo <= hi <= n,
        ranks(rel, n as int),
        decides(*le, rel, n as int),
    ensures
        covers(r@, lo as int, hi as int),
        arranged(rel, r@),
    decreases hi - lo,
{
    if hi - lo <= 1 {
        let mut out: Vec<usize> = Vec::new();
        if lo < hi {
            out.push(lo);
            assert(out@[0] == lo);
        }
        return out;
    }
    let mid: usize = lo + (hi - lo) / 2;
    let left = order_range(lo, mid, n, le, Ghost(rel));
    let right = order_range(mid, hi, n, le, Ghost(rel));
    merge(&left, &right, lo, mid, hi, n, le, Ghost(rel))
}

/// The indices below `n` in the order that `le` gives, ties in index order.
pub fn stable_order<F: Fn(usize, usize) -> bool>(
    n: usize,
    le: F,
    Ghost(rel): Ghost<spec_fn(int, int) -> bool>,
) -> (r: Vec<usize>)
    requires
        ranks(rel, n as int),
        decides(le, rel, n as int),
    ensures
        covers(r@, 0, n as int),
        arranged(rel, r@),
        r@ == the_order(rel, n as int),
{
    let r = order_range(0, n, n, &le, Ghost(rel));
    proof {
        lemma_one_order(rel, n as int, r@);
    }
    r
}

/// There is an order for every relation that ranks the indices.
pub proof fn lemma_order_exists(rel: spec_fn(int, int) -> bool, n: int) -> (p: Seq<usize>)
    requires
        ranks(rel, n),
        0 <= n <= usize::MAX,
    ensures
        covers(p, 0, n),
        arranged(rel, p),
    decreases n,
{
    if n == 0 {
        seq![]
    } else {
        let m = n - 1;
        let q = lemma_order_exists(rel, m);
        let k = lemma_split_point(rel, n, q);
        let p = q.insert(k, m as usize);
        assert forall|a: int, b: int| 0 <= a < b < p.len() implies before(
            rel,
            #[trigger] p[a] as int,
            #[trigger] p[b] as int,
        ) by {
            let x = if a < k {
                a
            } else {
                a - 1
            };
            let y = if b < k {
                b
            } else {
                b - 1
            };
            if a == k {
                assert(p[b] == q[b - 1]);
                assert(!rel(q[b - 1] as int, m));
                assert(rel(m, q[b - 1] as int) || rel(q[b - 1] as int, m));
            } else if b == k {
                assert(p[a] == q[a]);
                assert(rel(q[a] as int, m));
            } else {
                assert(p[a] == q[x] && p[b] == q[y]);
                assert(before(rel, q[x] as int, q[y] as int));
            }
        }
        assert forall|x: usize| 0 <= x < n implies #[trigger] p.contains(x) by {
            if x == m {
                assert(p[k] == x);
            } else {
                assert(q.contains(x));
                let a = choose|a: int| 0 <= a < q.len() && q[a] == x;
                if a < k {
                    assert(p[a] == x);
                } else {
                    assert(p[a + 1] == x);
                }
            }
        }
        assert forall|a: int| 0 <= a < p.len() implies 0 <= #[trigger] p[a] < n by {
            if a < k {
                assert(p[a] == q[a]);
            } else if a > k {
                assert(p[a] == q[a - 1]);
            }
        }
        p
    }
}

/// Where the last index goes among the others: behind all that may stand before it.
proof fn lemma_split_point(rel: spec_fn(int, int) -> bool, n: int, q: Seq<usize>) -> (k: int)
    requires
        n >= 1,
        ranks(rel, n),
        covers(q, 0, n - 1),
        arranged(rel, q),
    ensures
        0 <= k <= q.len(),
        forall|a: int| 0 <= a < k ==> rel(#[trigger] q[a] as int, n - 1),
        forall|a: int| k <= a < q.len() ==> !rel(#[trigger] q[a] as int, n - 1),
{
    lemma_split_from(rel, n, q, q.len() as int)
}

proof fn lemma_split_from(rel: spec_fn(int, int) -> bool, n: int, q: Seq<usize>, end: int) -> (k:
    int)
    requires
        n >= 1,
        ranks(rel, n),
        covers(q, 0, n - 1),
        arranged(rel, q),
        0 <= end <= q.len(),
        forall|a: int| end <= a < q.len() ==> !rel(#[trigger] q[a] as int, n - 1),
    ensures
        0 <= k <= q.len(),
        forall|a: int| 0 <= a < k ==> rel(#[trigger] q[a] as int, n - 1),
        forall|a: int| k <= a < q.len() ==> !rel(#[trigger] q[a] as int, n - 1),
    decreases end,
{
    if end == 0 {
        0
    } else if rel(q[end - 1] as int, n - 1) {
        assert forall|a: int| 0 <= a < end implies rel(#[trigger] q[a] as int, n - 1) by {
            if a < end - 1 {
                assert(before(rel, q[a] as int, q[end - 1] as int));
                assert(rel(q[a] as int, q[end - 1] as int) && rel(q[end - 1] as int, n - 1));
            }
        }
        end
    } else {
        lemma_split_from(rel, n, q, end - 1)
    }
}

/// Whether `le` is an order on the items of `s`: any two are comparable, and the comparison
/// is transitive.
pub open spec fn is_order<T>(s: Seq<T>, le: spec_fn(T, T) -> bool) -> bool {
    &&& forall|i: int, j: int|
        0 <= i < s.len() && 0 <= j < s.len() ==> #[trigger] le(s[i], s[j]) || le(s[j], s[i])
    &&& forall|i: int, j: int, k: int|
        0 <= i < s.len() && 0 <= j < s.len() && 0 <= k < s.len() && #[trigger] le(s[i], s[j])
            && #[trigger] le(s[j], s[k]) ==> le(s[i], s[k])
}

/// Sorting rearranges: `p` tells where each item came from, each item comes once, no item
/// stands behind one that has to come after it, and of items that tie the one that stood first
/// stays first.
pub proof fn law_sorting_rearranges<T>(s: Seq<T>, le: spec_fn(T, T) -> bool) -> (p: Seq<usize>)
    requires
        is_order(s, le),
        s.len() <= usize::MAX,
    ensures
        ({
            let now = sorted_by(s, le);
            &&& now.len() == s.len()
            &&& now.to_multiset() == s.to_multiset()
            &&& p.len() == s.len()
            &&& p.no_duplicates()
            &&& forall|k: int| 0 <= k < p.len() ==> (#[trigger] p[k]) < s.len() && now[k]
                == s[p[k] as int]
            &&& forall|a: int, b: int|
                0 <= a < b < now.len() ==> le(#[trigger] now[a], #[trigger] now[b]) && (le(
                    now[b],
                    now[a],
                ) ==> p[a] < p[b])
        }),
{
    let rel = by_index(s, le);
    let n = s.len() as int;
    assert forall|i: int, j: int| 0 <= i < n && 0 <= j < n implies #[trigger] rel(i, j)
        || #[trigger] rel(j, i) by {
        assert(le(s[i], s[j]) || le(s[j], s[i]));
    }
    assert forall|i: int, j: int, k: int|
        0 <= i < n && 0 <= j < n && 0 <= k < n && #[trigger] rel(i, j) && #[trigger] rel(
            j,
            k,
        ) implies rel(i, k) by {
        assert(le(s[i], s[j]) && le(s[j], s[k]));
    }
    let p = lemma_order_exists(rel, n);
    lemma_one_order(rel, n, p);
    let now = sorted_by(s, le);
    assert forall|a: int, b: int| 0 <= a < b < now.len() implies le(
        #[trigger] now[a],
        #[trigger] now[b],
    ) && (le(now[b], now[a]) ==> p[a] < p[b]) by {
        assert(before(rel, p[a] as int, p[b] as int));
    }
    assert forall|a: int, b: int| 0 <= a < p.len() && 0 <= b < p.len() && a != b implies p[a]
        != p[b] by {
        if a < b {
            assert(before(rel, p[a] as int, p[b] as int));
            assert(rel(p[a] as int, p[a] as int) || rel(p[a] as int, p[a] as int));
        } else {
            assert(before(rel, p[b] as int, p[a] as int));
            assert(rel(p[a] as int, p[a] as int) || rel(p[a] as int, p[a] as int));
        }
    }
    lemma_rearranged(s, now, p);
    p
}

/// Taking items by indices that cover them all gives the same items.
proof fn lemma_rearranged<T>(s: Seq<T>, now: Seq<T>, p: Seq<usize>)
    requires
        now.len() == s.len(),
        p.len() == s.len(),
        p.no_duplicates(),
        s.len() <= usize::MAX,
        forall|k: int| 0 <= k < p.len() ==> (#[trigger] p[k]) < s.len() && now[k]
            == s[p[k] as int],
        forall|x: usize| 0 <= x < s.len() ==> #[trigger] p.contains(x),
    ensures
        now.to_multiset() == s.to_multiset(),
    decreases s.len(),
{
    broadcast use vstd::seq_lib::group_to_multiset_ensures;
    if s.len() == 0 {
        assert(now =~= s);
    } else {
        let m = s.len() - 1;
        assert(p.contains(m as usize));
        let k = choose|k: int| 0 <= k < p.len() && p[k] == m as usize;
        let q = p.remove(k);
        let rest = now.remove(k);
        let front = s.drop_last();
        assert forall|a: int| 0 <= a < q.len() implies (#[trigger] q[a]) < front.len() && rest[a]
            == front[q[a] as int] by {
            let b = if a < k {
                a
            } else {
                a + 1
            };
            assert(q[a] == p[b] && rest[a] == now[b]);
            assert(p[b] != p[k]);
        }
        assert forall|x: usize| 0 <= x < front.len() implies #[trigger] q.contains(x) by {
            assert(p.contains(x));
            let b = choose|b: int| 0 <= b < p.len() && p[b] == x;
            if b < k {
                assert(q[b] == x);
            } else {
                assert(q[b - 1] == x);
            }
        }
        assert forall|a: int, b: int| 0 <= a < q.len() && 0 <= b < q.len() && a != b implies q[a]
            != q[b] by {
            let x = if a < k {
                a
            } else {
                a + 1
            };
            let y = if b < k {
                b
            } else {
                b + 1
            };
            assert(q[a] == p[x] && q[b] == p[y]);
        }
        lemma_rearranged(front, rest, q);
        assert(s =~= front.push(s.last()));
        assert(now =~= rest.insert(k, now[k]));
        assert(now[k] == s.last());
        vstd::seq_lib::to_multiset_insert(rest, k, now[k]);
        vstd::seq_lib::to_multiset_build(front, s.last());
    }
}

} // verus!
