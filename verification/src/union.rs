//! A union-find forest over cell indices: an entry holds the parent of a
//! node, or, negated, the rank of a root.
use vstd::prelude::*;
use crate::chain::{map_ok, value_at, value_spec};

verus! {

/// `h` is a height for the forest `t`: each parent link goes to a node of
/// smaller height, and every entry names a node inside the forest.
pub open spec fn height_ok(t: Seq<i32>, h: Seq<nat>) -> bool {
    &&& h.len() == t.len()
    &&& forall|i: int| 0 <= i < t.len() ==> #[trigger] t[i] < t.len() && (t[i] >= 0 ==> h[t[i] as int] < h[i])
}

/// The forest has no cycle and no link out of it.
pub open spec fn uf_ok(t: Seq<i32>) -> bool {
    exists|h: Seq<nat>| height_ok(t, h)
}

pub open spec fn hgt(t: Seq<i32>) -> Seq<nat> {
    choose|h: Seq<nat>| height_ok(t, h)
}

/// The root of the tree that holds `x`.
pub open spec fn root_of(t: Seq<i32>, x: int) -> int
    decreases hgt(t)[x],
    when uf_ok(t) && 0 <= x < t.len()
{
    if t[x] < 0 {
        x
    } else {
        root_of(t, t[x] as int)
    }
}

/// `i` is a node that the parent path from `x` passes before its root.
pub open spec fn on_path(t: Seq<i32>, x: int, i: int) -> bool
    decreases hgt(t)[x],
    when uf_ok(t) && 0 <= x < t.len()
{
    t[x] >= 0 && (i == x || on_path(t, t[x] as int, i))
}

/// The forest with every node on the path from `x` pointing straight at the
/// root, and every other entry as it was.
pub open spec fn compressed(t: Seq<i32>, x: int) -> Seq<i32> {
    Seq::new(t.len(), |i: int| if on_path(t, x, i) { root_of(t, x) as i32 } else { t[i] })
}

/// `x` and `y` are in one tree.
pub open spec fn same(t: Seq<i32>, x: int, y: int) -> bool {
    root_of(t, x) == root_of(t, y)
}

/// Each entry of `t2` is that of `t1`, or the root of a non-root node.
pub open spec fn redirects(t1: Seq<i32>, t2: Seq<i32>) -> bool {
    &&& t1.len() == t2.len()
    &&& forall|i: int| 0 <= i < t1.len() ==> #[trigger] t2[i] == t1[i] || (t1[i] >= 0 && t2[i] == root_of(t1, i))
}

/// No entry is below `c`.
pub open spec fn lower_bound(t: Seq<i32>, c: int) -> bool {
    forall|i: int| 0 <= i < t.len() ==> #[trigger] t[i] >= c
}

pub proof fn lemma_root_of(t: Seq<i32>, h: Seq<nat>, x: int)
    requires
        height_ok(t, h),
        0 <= x < t.len(),
    ensures
        0 <= root_of(t, x) < t.len(),
        t[root_of(t, x)] < 0,
        h[root_of(t, x)] <= h[x],
        t[x] >= 0 ==> h[root_of(t, x)] < h[x],
        t[x] >= 0 ==> root_of(t, x) == root_of(t, t[x] as int),
        t[x] < 0 ==> root_of(t, x) == x,
    decreases h[x],
{
    assert(uf_ok(t));
    if t[x] >= 0 {
        lemma_root_of(t, h, t[x] as int);
    }
}

/// Redirecting non-root nodes to their roots keeps the forest sound and
/// every node in its tree.
pub proof fn lemma_redirect(t1: Seq<i32>, t2: Seq<i32>)
    requires
        uf_ok(t1),
        redirects(t1, t2),
    ensures
        uf_ok(t2),
        forall|x: int| 0 <= x < t1.len() ==> #[trigger] root_of(t2, x) == root_of(t1, x),
        forall|x: int| 0 <= x < t1.len() ==> (#[trigger] t2[x] < 0 <==> t1[x] < 0),
        forall|x: int| 0 <= x < t1.len() && t1[x] < 0 ==> #[trigger] t2[x] == t1[x],
{
    let h = hgt(t1);
    assert(height_ok(t1, h));
    assert forall|i: int| 0 <= i < t2.len() implies #[trigger] t2[i] < t2.len() && (t2[i] >= 0 ==> h[t2[i] as int] < h[i]) by {
        lemma_root_of(t1, h, i);
    }
    assert(height_ok(t2, h));
    assert forall|x: int| 0 <= x < t1.len() implies (#[trigger] t2[x] < 0 <==> t1[x] < 0) by {
        lemma_root_of(t1, h, x);
    }
    assert forall|x: int| 0 <= x < t1.len() implies #[trigger] root_of(t2, x) == root_of(t1, x) by {
        lemma_redirect_root(t1, t2, h, x);
    }
}

proof fn lemma_redirect_root(t1: Seq<i32>, t2: Seq<i32>, h: Seq<nat>, x: int)
    requires
        height_ok(t1, h),
        height_ok(t2, h),
        redirects(t1, t2),
        0 <= x < t1.len(),
    ensures
        root_of(t2, x) == root_of(t1, x),
    decreases h[x],
{
    assert(uf_ok(t1));
    assert(uf_ok(t2));
    lemma_root_of(t1, h, x);
    lemma_root_of(t2, h, x);
    if t2[x] == t1[x] {
        if t1[x] >= 0 {
            lemma_redirect_root(t1, t2, h, t1[x] as int);
        }
    } else {
        let r = root_of(t1, x);
        lemma_root_of(t1, h, r);
        assert(t2[r] == t1[r]);
        lemma_root_of(t2, h, r);
    }
}

/// Finds the root of `a`, pointing every node on the way straight at it.
pub fn root(tree: &mut Vec<i32>, a: usize) -> (r: usize)
    requires
        uf_ok(old(tree)@),
        a < old(tree)@.len(),
        old(tree)@.len() <= i32::MAX,
    ensures
        r == root_of(old(tree)@, a as int),
        final(tree)@ == compressed(old(tree)@, a as int),
        redirects(old(tree)@, final(tree)@),
        uf_ok(final(tree)@),
        forall|x: int| 0 <= x < old(tree)@.len() ==> #[trigger] root_of(final(tree)@, x) == root_of(old(tree)@, x),
        forall|x: int| 0 <= x < old(tree)@.len() ==> (#[trigger] final(tree)@[x] < 0 <==> old(tree)@[x] < 0),
        forall|x: int| 0 <= x < old(tree)@.len() && old(tree)@[x] < 0 ==> #[trigger] final(tree)@[x] == old(tree)@[x],
    decreases hgt(old(tree)@)[a as int],
{
    let ghost t0 = tree@;
    proof {
        assert(height_ok(t0, hgt(t0)));
        lemma_root_of(t0, hgt(t0), a as int);
    }
    let b = tree[a];
    if b < 0 {
        proof {
            assert(redirects(t0, t0));
            lemma_redirect(t0, t0);
            assert forall|i: int| 0 <= i < t0.len() implies #[trigger] compressed(t0, a as int)[i] == t0[i] by {
                assert(!on_path(t0, a as int, i));
            }
            assert(tree@ =~= compressed(t0, a as int));
        }
        a
    } else {
        let value = root(tree, b as usize);
        let ghost t1 = tree@;
        proof {
            lemma_redirect(t0, t1);
            lemma_root_of(t0, hgt(t0), value as int);
        }
        if tree[a] != value as i32 {
            tree.set(a, value as i32);
        }
        proof {
            let t2 = tree@;
            assert(redirects(t0, t2)) by {
                assert forall|i: int| 0 <= i < t0.len() implies #[trigger] t2[i] == t0[i] || (t0[i] >= 0 && t2[i]
                    == root_of(t0, i)) by {
                    if i != a {
                        assert(t2[i] == t1[i]);
                    } else {
                        assert(t1[i] == t0[i] || (t0[i] >= 0 && t1[i] == root_of(t0, i)));
                    }
                }
            }
            lemma_redirect(t0, t2);
            assert forall|i: int| 0 <= i < t0.len() implies #[trigger] t2[i] == compressed(t0, a as int)[i] by {
                assert(on_path(t0, a as int, i) == (i == a || on_path(t0, b as int, i)));
                if i != a {
                    assert(t2[i] == t1[i]);
                    assert(t1[i] == compressed(t0, b as int)[i]);
                }
            }
            assert(t2 =~= compressed(t0, a as int));
        }
        value
    }
}

/// Changing the rank held by a root keeps every tree as it was.
proof fn lemma_rerank(t: Seq<i32>, r: int, v: i32)
    requires
        uf_ok(t),
        0 <= r < t.len(),
        t[r] < 0,
        v < 0,
    ensures
        uf_ok(t.update(r, v)),
        forall|x: int| 0 <= x < t.len() ==> #[trigger] root_of(t.update(r, v), x) == root_of(t, x),
{
    let h = hgt(t);
    assert(height_ok(t, h));
    let t2 = t.update(r, v);
    assert(height_ok(t2, h));
    assert forall|x: int| 0 <= x < t.len() implies #[trigger] root_of(t2, x) == root_of(t, x) by {
        lemma_rerank_root(t, t2, h, r, x);
    }
}

proof fn lemma_rerank_root(t: Seq<i32>, t2: Seq<i32>, h: Seq<nat>, r: int, x: int)
    requires
        height_ok(t, h),
        height_ok(t2, h),
        0 <= r < t.len(),
        t2.len() == t.len(),
        t[r] < 0,
        t2[r] < 0,
        forall|i: int| 0 <= i < t.len() && i != r ==> #[trigger] t2[i] == t[i],
        0 <= x < t.len(),
    ensures
        root_of(t2, x) == root_of(t, x),
    decreases h[x],
{
    assert(uf_ok(t));
    assert(uf_ok(t2));
    lemma_root_of(t, h, x);
    lemma_root_of(t2, h, x);
    if x != r && t[x] >= 0 {
        lemma_rerank_root(t, t2, h, r, t[x] as int);
    }
}

/// Linking root `r2` under root `r1` joins their trees and keeps the others.
proof fn lemma_link(t: Seq<i32>, r1: int, r2: int)
    requires
        uf_ok(t),
        0 <= r1 < t.len(),
        0 <= r2 < t.len(),
        r1 != r2,
        t[r1] < 0,
        t[r2] < 0,
        r1 <= i32::MAX,
    ensures
        uf_ok(t.update(r2, r1 as i32)),
        forall|x: int| 0 <= x < t.len() ==> #[trigger] root_of(t.update(r2, r1 as i32), x) == if root_of(t, x) == r2 {
            r1
        } else {
            root_of(t, x)
        },
{
    let h = hgt(t);
    assert(height_ok(t, h));
    let t2 = t.update(r2, r1 as i32);
    let h2 = Seq::new(t.len(), |x: int| h[x] + if root_of(t, x) == r2 { h[r1] + 1 } else { 0 });
    assert forall|i: int| 0 <= i < t2.len() implies #[trigger] t2[i] < t2.len() && (t2[i] >= 0 ==> h2[t2[i] as int] < h2[i]) by {
        lemma_root_of(t, h, i);
        if i == r2 {
            lemma_root_of(t, h, r1);
        } else if t[i] >= 0 {
            lemma_root_of(t, h, t[i] as int);
        }
    }
    assert(height_ok(t2, h2));
    assert forall|x: int| 0 <= x < t.len() implies #[trigger] root_of(t2, x) == if root_of(t, x) == r2 {
        r1
    } else {
        root_of(t, x)
    } by {
        lemma_link_root(t, t2, h, h2, r1, r2, x);
    }
}

proof fn lemma_link_root(t: Seq<i32>, t2: Seq<i32>, h: Seq<nat>, h2: Seq<nat>, r1: int, r2: int, x: int)
    requires
        height_ok(t, h),
        height_ok(t2, h2),
        0 <= r1 < t.len(),
        0 <= r2 < t.len(),
        r1 != r2,
        t[r1] < 0,
        t[r2] < 0,
        r1 <= i32::MAX,
        t2 == t.update(r2, r1 as i32),
        0 <= x < t.len(),
    ensures
        root_of(t2, x) == if root_of(t, x) == r2 {
            r1
        } else {
            root_of(t, x)
        },
    decreases h[x],
{
    assert(uf_ok(t));
    assert(uf_ok(t2));
    lemma_root_of(t, h, x);
    lemma_root_of(t2, h2, x);
    if x == r2 {
        lemma_root_of(t2, h2, r1);
        lemma_root_of(t, h, r1);
    } else if t[x] >= 0 {
        lemma_link_root(t, t2, h, h2, r1, r2, t[x] as int);
    }
}

/// The trees of `a` and `b` after a union: two nodes share a tree when they
/// did before, or when one was with `a` and the other with `b`.
pub open spec fn united(t: Seq<i32>, a: int, b: int, x: int, y: int) -> bool {
    same(t, x, y) || (same(t, x, a) && same(t, y, b)) || (same(t, x, b) && same(t, y, a))
}

/// The forest after `unite(a, b)`: the paths from `b` and then from `a`
/// compressed; then, where the roots differ, the root of lower rank (the
/// larger entry) linked under the other, and where the ranks are equal,
/// the root of `b` under that of `a`, whose rank grows by one.
pub open spec fn united_tree(t: Seq<i32>, a: int, b: int) -> Seq<i32> {
    let t2 = compressed(compressed(t, b), a);
    let ra = root_of(t, a);
    let rb = root_of(t, b);
    if ra == rb {
        t2
    } else if t[ra] > t[rb] {
        t2.update(ra, rb as i32)
    } else if t[ra] == t[rb] {
        t2.update(ra, (t[ra] - 1) as i32).update(rb, ra as i32)
    } else {
        t2.update(rb, ra as i32)
    }
}

/// Joins the trees of `a` and `b`, the root of lower rank going under the
/// other.
pub fn unite(tree: &mut Vec<i32>, a: usize, b: usize)
    requires
        uf_ok(old(tree)@),
        a < old(tree)@.len(),
        b < old(tree)@.len(),
        old(tree)@.len() <= i32::MAX,
        ({
            let ra = root_of(old(tree)@, a as int);
            let rb = root_of(old(tree)@, b as int);
            ra != rb && old(tree)@[ra] == old(tree)@[rb] ==> old(tree)@[ra] > i32::MIN
        }),
    ensures
        uf_ok(final(tree)@),
        final(tree)@.len() == old(tree)@.len(),
        forall|x: int, y: int|
            0 <= x < old(tree)@.len() && 0 <= y < old(tree)@.len() ==> (#[trigger] same(final(tree)@, x, y) <==> united(
                old(tree)@,
                a as int,
                b as int,
                x,
                y,
            )),
        forall|c: int| #[trigger] lower_bound(old(tree)@, c) && c <= 0 ==> lower_bound(final(tree)@, c - 1),
        final(tree)@ == united_tree(old(tree)@, a as int, b as int),
{
    let ghost t0 = tree@;
    let mut rb = root(tree, b);
    let ghost t1 = tree@;
    let mut ra = root(tree, a);
    let ghost t2 = tree@;
    proof {
        assert(height_ok(t0, hgt(t0)));
        lemma_root_of(t0, hgt(t0), a as int);
        lemma_root_of(t0, hgt(t0), b as int);
        assert forall|c: int| #[trigger] lower_bound(t0, c) && c <= 0 implies lower_bound(t2, c) by {
            assert forall|i: int| 0 <= i < t2.len() implies #[trigger] t2[i] >= c by {
                assert(t1[i] == t0[i] || t1[i] >= 0);
                assert(t2[i] == t1[i] || t2[i] >= 0);
            }
        }
    }
    let ghost ra0 = ra as int;
    let ghost rb0 = rb as int;
    proof {
        lemma_root_of(t0, hgt(t0), ra0);
        lemma_root_of(t0, hgt(t0), rb0);
        assert(t2 == compressed(compressed(t0, b as int), a as int));
        assert(t2[ra0] == t0[ra0]);
        assert(t2[rb0] == t0[rb0]);
    }
    if ra != rb {
        let rank_a = tree[ra];
        let rank_b = tree[rb];
        if rank_a > rank_b {
            std::mem::swap(&mut ra, &mut rb);
        } else if rank_a == rank_b {
            let v = tree[ra] - 1;
            proof {
                lemma_rerank(t2, ra as int, v);
            }
            tree.set(ra, v);
        }
        let ghost t3 = tree@;
        proof {
            assert(height_ok(t3, hgt(t3)));
            lemma_link(t3, ra as int, rb as int);
        }
        if tree[rb] != ra as i32 {
            tree.set(rb, ra as i32);
        }
        proof {
            let t4 = tree@;
            assert(t4 == t3.update(rb as int, ra as i32));
            assert(t4 =~= united_tree(t0, a as int, b as int));
            assert forall|x: int, y: int|
                0 <= x < t0.len() && 0 <= y < t0.len() implies (#[trigger] same(t4, x, y) <==> united(
                t0,
                a as int,
                b as int,
                x,
                y,
            )) by {
                assert(root_of(t3, x) == root_of(t0, x));
                assert(root_of(t3, y) == root_of(t0, y));
            }
            assert forall|c: int| #[trigger] lower_bound(t0, c) && c <= 0 implies lower_bound(t4, c - 1) by {
                assert(lower_bound(t2, c));
                assert forall|i: int| 0 <= i < t4.len() implies #[trigger] t4[i] >= c - 1 by {
                    assert(t2[i] >= c);
                }
            }
        }
    } else {
        proof {
            assert forall|x: int, y: int|
                0 <= x < t0.len() && 0 <= y < t0.len() implies (#[trigger] same(t2, x, y) <==> united(
                t0,
                a as int,
                b as int,
                x,
                y,
            )) by {
            }
            assert forall|c: int| #[trigger] lower_bound(t0, c) && c <= 0 implies lower_bound(t2, c - 1) by {
                assert(lower_bound(t2, c));
            }
        }
    }
}

/// Quick-find labels after joining the class of `b` into that of `a`.
pub open spec fn join(l: Seq<int>, a: int, b: int) -> Seq<int> {
    Seq::new(l.len(), |i: int| if l[i] == l[b] { l[a] } else { l[i] })
}

/// The joins that cell `(x, y)` of the grid padded by one cell on each side
/// makes: with the cell above when the two map values agree, then with the
/// cell to its left when those agree.
pub open spec fn cell_joins(l: Seq<int>, map: Seq<bool>, size: int, x: int, y: int) -> Seq<int> {
    let w = size + 2;
    let t0 = y * w + x;
    let l1 = if y > 0 && value_spec(map, x - 1, y - 1, size) == value_spec(map, x - 1, y - 2, size) {
        join(l, t0, (y - 1) * w + x)
    } else {
        l
    };
    if x > 0 && value_spec(map, x - 1, y - 1, size) == value_spec(map, x - 2, y - 1, size) {
        join(l1, t0, y * w + (x - 1))
    } else {
        l1
    }
}

/// The component labels of the padded grid after its first `k` cells, taken
/// column by column, made their joins.
pub open spec fn labels_after(map: Seq<bool>, size: int, k: nat) -> Seq<int>
    decreases k,
{
    if k == 0 {
        Seq::new(((size + 2) * (size + 2)) as nat, |i: int| i)
    } else {
        let c = k - 1;
        cell_joins(labels_after(map, size, (k - 1) as nat), map, size, c / (size + 2), c % (size + 2))
    }
}

/// The number of distinct values.
pub open spec fn num_distinct(s: Seq<int>) -> nat
    decreases s.len(),
{
    if s.len() == 0 {
        0
    } else {
        num_distinct(s.drop_last()) + if s.drop_last().contains(s.last()) {
            0nat
        } else {
            1nat
        }
    }
}

/// The number of distinct labels once every cell of the padded map has made
/// its joins; `lemma_region_count` shows that it is `regions`.
pub open spec fn region_count(map: Seq<bool>, size: int) -> nat {
    num_distinct(labels_after(map, size, ((size + 2) * (size + 2)) as nat))
}

proof fn lemma_labels_len(map: Seq<bool>, size: int, k: nat)
    requires
        0 <= size,
    ensures
        labels_after(map, size, k).len() == (size + 2) * (size + 2),
    decreases k,
{
    assert((size + 2) * (size + 2) >= 0) by (nonlinear_arith)
        requires
            0 <= size,
    ;
    if k > 0 {
        lemma_labels_len(map, size, (k - 1) as nat);
    }
}

/// Forests and labels that group the nodes alike still do after a union and
/// the matching join.
proof fn lemma_join_matches(t: Seq<i32>, t2: Seq<i32>, l: Seq<int>, a: int, b: int)
    requires
        t.len() == l.len(),
        t2.len() == l.len(),
        0 <= a < l.len(),
        0 <= b < l.len(),
        forall|x: int, y: int| 0 <= x < l.len() && 0 <= y < l.len() ==> (#[trigger] same(t, x, y) <==> l[x] == l[y]),
        forall|x: int, y: int|
            0 <= x < l.len() && 0 <= y < l.len() ==> (#[trigger] same(t2, x, y) <==> united(t, a, b, x, y)),
    ensures
        forall|x: int, y: int|
            0 <= x < l.len() && 0 <= y < l.len() ==> (#[trigger] same(t2, x, y) <==> join(l, a, b)[x] == join(l, a, b)[y]),
{
    assert forall|x: int, y: int| 0 <= x < l.len() && 0 <= y < l.len() implies (#[trigger] same(t2, x, y) <==> join(l, a, b)[x]
        == join(l, a, b)[y]) by {
        assert(same(t, x, y) <==> l[x] == l[y]);
        assert(same(t, x, a) <==> l[x] == l[a]);
        assert(same(t, y, b) <==> l[y] == l[b]);
        assert(same(t, x, b) <==> l[x] == l[b]);
        assert(same(t, y, a) <==> l[y] == l[a]);
        assert(same(t2, x, y) <==> united(t, a, b, x, y));
    }
}

/// Two sequences whose entries are equal at the same pairs of positions have
/// as many distinct values.
proof fn lemma_num_distinct_pattern(s1: Seq<int>, s2: Seq<int>)
    requires
        s1.len() == s2.len(),
        forall|i: int, j: int| 0 <= i < s1.len() && 0 <= j < s1.len() ==> (s1[i] == s1[j] <==> s2[i] == s2[j]),
    ensures
        num_distinct(s1) == num_distinct(s2),
    decreases s1.len(),
{
    if s1.len() > 0 {
        let p1 = s1.drop_last();
        let p2 = s2.drop_last();
        assert forall|i: int, j: int| 0 <= i < p1.len() && 0 <= j < p1.len() implies (p1[i] == p1[j] <==> p2[i] == p2[j]) by {
            assert(p1[i] == s1[i] && p1[j] == s1[j] && p2[i] == s2[i] && p2[j] == s2[j]);
        }
        lemma_num_distinct_pattern(p1, p2);
        let n = s1.len() - 1;
        if p1.contains(s1.last()) {
            let j = choose|j: int| 0 <= j < p1.len() && p1[j] == s1.last();
            assert(s1[j] == s1[n]);
            assert(p2[j] == s2.last());
        }
        if p2.contains(s2.last()) {
            let j = choose|j: int| 0 <= j < p2.len() && p2[j] == s2.last();
            assert(s2[j] == s2[n]);
            assert(p1[j] == s1.last());
        }
    }
}

/// `p` is a chain of nodes below `n`, each linked by `e` to the next.
pub open spec fn chain(e: spec_fn(int, int) -> bool, n: int, p: Seq<int>) -> bool {
    &&& p.len() >= 1
    &&& forall|t: int| 0 <= t < p.len() ==> 0 <= #[trigger] p[t] < n
    &&& forall|t: int| 0 <= t < p.len() - 1 ==> e(#[trigger] p[t], p[t + 1])
}

/// A chain of links `e` leads from `i` to `j`.
pub open spec fn conn(e: spec_fn(int, int) -> bool, n: int, i: int, j: int) -> bool {
    exists|p: Seq<int>| #[trigger] chain(e, n, p) && p[0] == i && p.last() == j
}

proof fn lemma_chain_concat(e: spec_fn(int, int) -> bool, n: int, p: Seq<int>, q: Seq<int>)
    requires
        chain(e, n, p),
        chain(e, n, q),
        p.last() == q[0],
    ensures
        chain(e, n, p + q.skip(1)),
        (p + q.skip(1))[0] == p[0],
        (p + q.skip(1)).last() == q.last(),
{
    let r = p + q.skip(1);
    assert forall|t: int| 0 <= t < r.len() implies 0 <= #[trigger] r[t] < n by {
        if t >= p.len() {
            assert(r[t] == q[t - p.len() + 1]);
        }
    }
    assert forall|t: int| 0 <= t < r.len() - 1 implies e(#[trigger] r[t], r[t + 1]) by {
        if t < p.len() - 1 {
            assert(r[t] == p[t] && r[t + 1] == p[t + 1]);
        } else if t == p.len() - 1 {
            assert(r[t] == q[0] && r[t + 1] == q[1]);
        } else {
            assert(r[t] == q[t - p.len() + 1] && r[t + 1] == q[t - p.len() + 2]);
        }
    }
    if q.len() == 1 {
        assert(r =~= p);
    } else {
        assert(r.last() == q[q.len() - 1]);
    }
}

proof fn lemma_chain_rev(e: spec_fn(int, int) -> bool, n: int, p: Seq<int>)
    requires
        chain(e, n, p),
        forall|u: int, v: int| #[trigger] e(u, v) ==> e(v, u),
    ensures
        chain(e, n, p.reverse()),
        p.reverse()[0] == p.last(),
        p.reverse().last() == p[0],
{
    let r = p.reverse();
    assert forall|t: int| 0 <= t < r.len() implies 0 <= #[trigger] r[t] < n by {
        assert(r[t] == p[p.len() - 1 - t]);
    }
    assert forall|t: int| 0 <= t < r.len() - 1 implies e(#[trigger] r[t], r[t + 1]) by {
        let u = p.len() - 2 - t;
        assert(r[t] == p[u + 1] && r[t + 1] == p[u]);
        assert(e(p[u], p[u + 1]));
    }
}

proof fn lemma_chain_mono(e1: spec_fn(int, int) -> bool, e2: spec_fn(int, int) -> bool, n: int, p: Seq<int>)
    requires
        chain(e1, n, p),
        forall|u: int, v: int| #[trigger] e1(u, v) ==> e2(u, v),
    ensures
        chain(e2, n, p),
{
    assert forall|t: int| 0 <= t < p.len() - 1 implies e2(#[trigger] p[t], p[t + 1]) by {
        assert(e1(p[t], p[t + 1]));
    }
}

/// Labels that agree across every link agree along a chain.
proof fn lemma_chain_labels(l: Seq<int>, e: spec_fn(int, int) -> bool, n: int, p: Seq<int>)
    requires
        chain(e, n, p),
        l.len() == n,
        forall|u: int, v: int| 0 <= u < n && 0 <= v < n && #[trigger] e(u, v) ==> l[u] == l[v],
    ensures
        l[p[0]] == l[p.last()],
    decreases p.len(),
{
    if p.len() > 1 {
        let q = p.drop_last();
        assert(chain(e, n, q)) by {
            assert forall|t: int| 0 <= t < q.len() implies 0 <= #[trigger] q[t] < n by {
                assert(q[t] == p[t]);
            }
            assert forall|t: int| 0 <= t < q.len() - 1 implies e(#[trigger] q[t], q[t + 1]) by {
                assert(q[t] == p[t] && q[t + 1] == p[t + 1]);
            }
        }
        lemma_chain_labels(l, e, n, q);
        let m = p.len() - 2;
        assert(e(p[m], p[m + 1]));
        assert(q.last() == p[m]);
    }
}

/// The one-node chain.
proof fn lemma_conn_refl(e: spec_fn(int, int) -> bool, n: int, i: int)
    requires
        0 <= i < n,
    ensures
        conn(e, n, i, i),
{
    let p = seq![i];
    assert(chain(e, n, p));
}

/// Labels that tell the classes of `e1` apart, joined at `a` and `b`, tell
/// apart the classes of `e1` with the link between `a` and `b` added.
proof fn lemma_join_conn(l: Seq<int>, e1: spec_fn(int, int) -> bool, e2: spec_fn(int, int) -> bool, n: int, a: int, b: int)
    requires
        l.len() == n,
        0 <= a < n,
        0 <= b < n,
        forall|u: int, v: int| #[trigger] e1(u, v) ==> e1(v, u),
        forall|u: int, v: int| #[trigger] e2(u, v) == (e1(u, v) || (u == a && v == b) || (u == b && v == a)),
        forall|i: int, j: int| 0 <= i < n && 0 <= j < n ==> (l[i] == l[j] <==> #[trigger] conn(e1, n, i, j)),
    ensures
        forall|u: int, v: int| #[trigger] e2(u, v) ==> e2(v, u),
        forall|i: int, j: int| 0 <= i < n && 0 <= j < n ==> (join(l, a, b)[i] == join(l, a, b)[j] <==> #[trigger] conn(e2, n, i, j)),
{
    let l2 = join(l, a, b);
    assert forall|u: int, v: int| #[trigger] e2(u, v) implies e2(v, u) by {
        if e1(u, v) {
            assert(e1(v, u));
        }
    }
    assert forall|u: int, v: int| 0 <= u < n && 0 <= v < n && #[trigger] e2(u, v) implies l2[u] == l2[v] by {
        if e1(u, v) {
            lemma_conn_one(e1, n, u, v);
            assert(conn(e1, n, u, v));
        }
    }
    assert forall|i: int, j: int| 0 <= i < n && 0 <= j < n implies (l2[i] == l2[j] <==> #[trigger] conn(e2, n, i, j)) by {
        if conn(e2, n, i, j) {
            let p = choose|p: Seq<int>| #[trigger] chain(e2, n, p) && p[0] == i && p.last() == j;
            lemma_chain_labels(l2, e2, n, p);
        }
        if l2[i] == l2[j] {
            assert(forall|u: int, v: int| #[trigger] e1(u, v) ==> e2(u, v));
            if l[i] == l[j] {
                assert(conn(e1, n, i, j));
                let p = choose|p: Seq<int>| #[trigger] chain(e1, n, p) && p[0] == i && p.last() == j;
                lemma_chain_mono(e1, e2, n, p);
            } else if l[i] == l[b] {
                assert(l[j] == l[a]);
                lemma_link_through(l, e1, e2, n, a, b, i, j);
            } else {
                assert(l[j] == l[b] && l[i] == l[a]);
                lemma_link_through(l, e1, e2, n, b, a, i, j);
            }
        }
    }
}

/// A single link is a chain.
proof fn lemma_conn_one(e: spec_fn(int, int) -> bool, n: int, u: int, v: int)
    requires
        0 <= u < n,
        0 <= v < n,
        e(u, v),
    ensures
        conn(e, n, u, v),
{
    let p = seq![u, v];
    assert(chain(e, n, p));
}

/// From `i`, in the class of `b`, through the link from `b` to `a`, to `j`
/// in the class of `a`.
proof fn lemma_link_through(
    l: Seq<int>,
    e1: spec_fn(int, int) -> bool,
    e2: spec_fn(int, int) -> bool,
    n: int,
    a: int,
    b: int,
    i: int,
    j: int,
)
    requires
        l.len() == n,
        0 <= a < n,
        0 <= b < n,
        0 <= i < n,
        0 <= j < n,
        e2(b, a),
        forall|u: int, v: int| #[trigger] e1(u, v) ==> e2(u, v),
        forall|x: int, y: int| 0 <= x < n && 0 <= y < n ==> (l[x] == l[y] <==> #[trigger] conn(e1, n, x, y)),
        l[i] == l[b],
        l[j] == l[a],
    ensures
        conn(e2, n, i, j),
{
    assert(conn(e1, n, i, b));
    assert(conn(e1, n, a, j));
    let p1 = choose|p: Seq<int>| #[trigger] chain(e1, n, p) && p[0] == i && p.last() == b;
    let p2 = choose|p: Seq<int>| #[trigger] chain(e1, n, p) && p[0] == a && p.last() == j;
    lemma_chain_mono(e1, e2, n, p1);
    lemma_chain_mono(e1, e2, n, p2);
    let mid = seq![b, a];
    assert(chain(e2, n, mid));
    lemma_chain_concat(e2, n, p1, mid);
    let p3 = p1 + mid.skip(1);
    lemma_chain_concat(e2, n, p3, p2);
    let p4 = p3 + p2.skip(1);
    assert(chain(e2, n, p4) && p4[0] == i && p4.last() == j);
}

/// The value of cell `i` of the map padded by one cell on each side.
pub open spec fn pad_value(map: Seq<bool>, size: int, i: int) -> bool {
    value_spec(map, i % (size + 2) - 1, i / (size + 2) - 1, size)
}

/// Cells `u` and `v` of a grid `w` cells wide lie side by side.
pub open spec fn side_by_side(w: int, u: int, v: int) -> bool {
    ||| u == v + w
    ||| v == u + w
    ||| u == v + 1 && u % w != 0
    ||| v == u + 1 && v % w != 0
}

/// Cells `u` and `v` of the padded map lie side by side and hold one value.
pub open spec fn region_link(map: Seq<bool>, size: int, u: int, v: int) -> bool {
    &&& 0 <= u < (size + 2) * (size + 2)
    &&& 0 <= v < (size + 2) * (size + 2)
    &&& side_by_side(size + 2, u, v)
    &&& pad_value(map, size, u) == pad_value(map, size, v)
}

/// Cells `i` and `j` of the padded map lie in one region: a chain of cells
/// side by side with equal values leads from one to the other.
pub open spec fn joined(map: Seq<bool>, size: int, i: int, j: int) -> bool {
    conn(region_links(map, size), (size + 2) * (size + 2), i, j)
}

/// The links between cells side by side with one value.
pub open spec fn region_links(map: Seq<bool>, size: int) -> spec_fn(int, int) -> bool {
    |u: int, v: int| region_link(map, size, u, v)
}

/// The regions met among the first `n` cells: each counted at its first
/// cell, one with no earlier cell in its region.
pub open spec fn leaders(map: Seq<bool>, size: int, n: int) -> nat
    decreases n,
{
    if n <= 0 {
        0
    } else {
        leaders(map, size, n - 1) + if exists|j: int| 0 <= j < n - 1 && #[trigger] joined(map, size, j, n - 1) {
            0nat
        } else {
            1nat
        }
    }
}

/// The number of regions of equal value in the padded map.
pub open spec fn regions(map: Seq<bool>, size: int) -> nat {
    leaders(map, size, (size + 2) * (size + 2))
}

/// The turn at which the count takes up cell `i`: column by column.
spec fn turn(w: int, i: int) -> int {
    (i % w) * w + i / w
}

/// The links that the first `k` turns take up: those whose later cell is
/// taken up before turn `k`.
spec fn links_before(map: Seq<bool>, size: int, k: int) -> spec_fn(int, int) -> bool {
    |u: int, v: int| region_link(map, size, u, v) && turn(size + 2, if u < v { v } else { u }) < k
}

proof fn lemma_turn(w: int, i: int)
    requires
        0 < w,
        0 <= i < w * w,
    ensures
        0 <= turn(w, i) < w * w,
        0 <= i / w < w,
        0 <= i % w < w,
        i == (i / w) * w + i % w,
{
    assert(0 <= i % w < w && i == (i / w) * w + i % w && 0 <= i / w) by (nonlinear_arith)
        requires
            0 < w,
            0 <= i,
    ;
    assert(i / w < w) by (nonlinear_arith)
        requires
            i == (i / w) * w + i % w,
            0 <= i % w,
            i < w * w,
            0 < w,
    ;
    assert(0 <= turn(w, i) < w * w) by (nonlinear_arith)
        requires
            0 <= i % w < w,
            0 <= i / w < w,
            turn(w, i) == (i % w) * w + i / w,
    ;
}

/// Turn `k` takes up the cell `y * w + x`, where `x` and `y` are the column
/// and row that `k` counts, and no other.
proof fn lemma_turn_cell(w: int, k: int, u: int)
    requires
        0 < w,
        0 <= k < w * w,
        0 <= u < w * w,
    ensures
        0 <= k / w < w,
        0 <= k % w < w,
        (turn(w, u) == k) <==> (u == (k % w) * w + k / w),
        ((k % w) * w + k / w) % w == k / w,
        ((k % w) * w + k / w) / w == k % w,
{
    lemma_turn(w, k);
    lemma_turn(w, u);
    let x = k / w;
    let y = k % w;
    vstd::arithmetic::div_mod::lemma_fundamental_div_mod_converse(y * w + x, w, y, x);
    if turn(w, u) == k {
        vstd::arithmetic::div_mod::lemma_fundamental_div_mod_converse(k, w, u % w, u / w);
    }
}

/// A cell's neighbour above or to its left, as index arithmetic.
proof fn lemma_neighbours(w: int, x: int, y: int)
    requires
        0 <= x < w,
        0 <= y < w,
    ensures
        y > 0 ==> (y * w + x - w) % w == x && (y * w + x - w) / w == y - 1,
        x > 0 ==> (y * w + x - 1) % w == x - 1 && (y * w + x - 1) / w == y,
        (y * w + x) % w == x && (y * w + x) / w == y,
{
    vstd::arithmetic::div_mod::lemma_fundamental_div_mod_converse(y * w + x, w, y, x);
    if y > 0 {
        assert(y * w + x - w == (y - 1) * w + x) by (nonlinear_arith);
        vstd::arithmetic::div_mod::lemma_fundamental_div_mod_converse(y * w + x - w, w, y - 1, x);
    }
    if x > 0 {
        vstd::arithmetic::div_mod::lemma_fundamental_div_mod_converse(y * w + x - 1, w, y, x - 1);
    }
}

/// Links that agree everywhere make the same chains.
proof fn lemma_conn_same(e1: spec_fn(int, int) -> bool, e2: spec_fn(int, int) -> bool, n: int)
    requires
        forall|u: int, v: int| #[trigger] e1(u, v) == e2(u, v),
    ensures
        forall|i: int, j: int| #[trigger] conn(e1, n, i, j) == conn(e2, n, i, j),
{
    assert forall|i: int, j: int| #[trigger] conn(e1, n, i, j) == conn(e2, n, i, j) by {
        if conn(e1, n, i, j) {
            let p = choose|p: Seq<int>| #[trigger] chain(e1, n, p) && p[0] == i && p.last() == j;
            lemma_chain_mono(e1, e2, n, p);
        }
        if conn(e2, n, i, j) {
            let p = choose|p: Seq<int>| #[trigger] chain(e2, n, p) && p[0] == i && p.last() == j;
            lemma_chain_mono(e2, e1, n, p);
        }
    }
}

/// Turn `c` takes up the links from its cell to the cells above it and to
/// its left, where they hold the same value.
proof fn lemma_links_step(map: Seq<bool>, size: int, c: int, u: int, v: int)
    requires
        0 <= size,
        0 <= c < (size + 2) * (size + 2),
    ensures
        ({
            let w = size + 2;
            let x = c / w;
            let y = c % w;
            let t0 = y * w + x;
            let up = y > 0 && value_spec(map, x - 1, y - 1, size) == value_spec(map, x - 1, y - 2, size);
            let left = x > 0 && value_spec(map, x - 1, y - 1, size) == value_spec(map, x - 2, y - 1, size);
            links_before(map, size, c + 1)(u, v) == (links_before(map, size, c)(u, v) || (up && ((u == t0 && v == t0 - w) || (u
                == t0 - w && v == t0))) || (left && ((u == t0 && v == t0 - 1) || (u == t0 - 1 && v == t0))))
        }),
{
    let w = size + 2;
    let n = w * w;
    lemma_turn_cell(w, c, 0);
    let x = c / w;
    let y = c % w;
    let t0 = y * w + x;
    lemma_neighbours(w, x, y);
    assert(0 <= t0 < n && (y > 0 ==> t0 - w >= 0) && (y == 0 ==> t0 < w)) by (nonlinear_arith)
        requires
            t0 == y * w + x,
            0 <= x < w,
            0 <= y < w,
            n == w * w,
    ;
    let up = y > 0 && value_spec(map, x - 1, y - 1, size) == value_spec(map, x - 1, y - 2, size);
    let left = x > 0 && value_spec(map, x - 1, y - 1, size) == value_spec(map, x - 2, y - 1, size);
    assert(pad_value(map, size, t0) == value_spec(map, x - 1, y - 1, size));
    if y > 0 {
        assert(pad_value(map, size, t0 - w) == value_spec(map, x - 1, y - 2, size));
    }
    if x > 0 {
        assert(pad_value(map, size, t0 - 1) == value_spec(map, x - 2, y - 1, size));
    }
    if region_link(map, size, u, v) {
        let m = if u < v { v } else { u };
        let o = if u < v { u } else { v };
        lemma_turn_cell(w, c, m);
        if m == t0 {
            assert(o == t0 - w || (o == t0 - 1 && t0 % w != 0));
            if o == t0 - w {
                assert(y > 0);
                assert(up);
            } else {
                assert(x > 0);
                assert(left);
            }
        }
    }
    if up && ((u == t0 && v == t0 - w) || (u == t0 - w && v == t0)) {
        assert(side_by_side(w, u, v));
        assert(region_link(map, size, u, v));
        lemma_turn_cell(w, c, t0);
    }
    if left && ((u == t0 && v == t0 - 1) || (u == t0 - 1 && v == t0)) {
        assert(side_by_side(w, u, v));
        assert(region_link(map, size, u, v));
        lemma_turn_cell(w, c, t0);
    }
}

/// After `k` turns, two cells share a label exactly when the links taken
/// up so far join them.
proof fn lemma_labels_conn(map: Seq<bool>, size: int, k: nat)
    requires
        0 <= size,
        k <= (size + 2) * (size + 2),
    ensures
        forall|i: int, j: int|
            0 <= i < (size + 2) * (size + 2) && 0 <= j < (size + 2) * (size + 2) ==> (labels_after(map, size, k)[i]
                == labels_after(map, size, k)[j] <==> #[trigger] conn(links_before(map, size, k as int), (size + 2) * (size + 2), i, j)),
    decreases k,
{
    let w = size + 2;
    let n = w * w;
    lemma_labels_len(map, size, k);
    if k == 0 {
        let l = labels_after(map, size, 0);
        let e = links_before(map, size, 0);
        assert forall|i: int, j: int| 0 <= i < n && 0 <= j < n implies (l[i] == l[j] <==> #[trigger] conn(e, n, i, j)) by {
            if conn(e, n, i, j) {
                let p = choose|p: Seq<int>| #[trigger] chain(e, n, p) && p[0] == i && p.last() == j;
                if p.len() > 1 {
                    assert(e(p[0], p[1]));
                    let m = if p[0] < p[1] { p[1] } else { p[0] };
                    lemma_turn(w, m);
                }
            }
            if i == j {
                lemma_conn_refl(e, n, i);
            }
        }
    } else {
        let c = (k - 1) as nat;
        lemma_labels_conn(map, size, c);
        lemma_labels_len(map, size, c);
        lemma_turn_cell(w, c as int, 0);
        let x = c as int / w;
        let y = c as int % w;
        let t0 = y * w + x;
        lemma_neighbours(w, x, y);
        assert(0 <= t0 < n) by (nonlinear_arith)
            requires
                t0 == y * w + x,
                0 <= x < w,
                0 <= y < w,
                n == w * w,
        ;
        assert((y - 1) * w + x == t0 - w && (y > 0 ==> t0 - w >= 0)) by (nonlinear_arith)
            requires
                t0 == y * w + x,
                0 <= x < w,
                0 <= y,
        ;
        let l0 = labels_after(map, size, c);
        let e0 = links_before(map, size, c as int);
        let up = y > 0 && value_spec(map, x - 1, y - 1, size) == value_spec(map, x - 1, y - 2, size);
        let left = x > 0 && value_spec(map, x - 1, y - 1, size) == value_spec(map, x - 2, y - 1, size);
        let e1 = |u: int, v: int| e0(u, v) || (up && ((u == t0 && v == t0 - w) || (u == t0 - w && v == t0)));
        let e2 = |u: int, v: int| e1(u, v) || (left && ((u == t0 && v == t0 - 1) || (u == t0 - 1 && v == t0)));
        let l1 = if up { join(l0, t0, t0 - w) } else { l0 };
        let l2 = if left { join(l1, t0, t0 - 1) } else { l1 };
        assert(labels_after(map, size, k) == l2);
        assert forall|u: int, v: int| #[trigger] e0(u, v) implies e0(v, u) by {}
        if up {
            lemma_join_conn(l0, e0, e1, n, t0, t0 - w);
        } else {
            lemma_conn_same(e0, e1, n);
        }
        assert forall|i: int, j: int| 0 <= i < n && 0 <= j < n implies (l1[i] == l1[j] <==> #[trigger] conn(e1, n, i, j)) by {
            if !up {
                assert(conn(e0, n, i, j) == conn(e1, n, i, j));
            }
        }
        assert forall|u: int, v: int| #[trigger] e1(u, v) implies e1(v, u) by {}
        if left {
            lemma_join_conn(l1, e1, e2, n, t0, t0 - 1);
        } else {
            lemma_conn_same(e1, e2, n);
        }
        let ek = links_before(map, size, k as int);
        assert forall|u: int, v: int| #[trigger] e2(u, v) == ek(u, v) by {
            lemma_links_step(map, size, c as int, u, v);
        }
        assert forall|i: int, j: int| 0 <= i < n && 0 <= j < n implies (l2[i] == l2[j] <==> #[trigger] conn(e2, n, i, j)) by {
            if !left {
                assert(conn(e1, n, i, j) == conn(e2, n, i, j));
            }
        }
        lemma_conn_same(e2, ek, n);
        assert forall|i: int, j: int| 0 <= i < n && 0 <= j < n implies (l2[i] == l2[j] <==> #[trigger] conn(ek, n, i, j)) by {
            assert(conn(e2, n, i, j) == conn(ek, n, i, j));
        }
    }
}

/// Labels that share a value exactly on cells of one region count the
/// regions among the first `t` cells.
proof fn lemma_leaders(map: Seq<bool>, size: int, l: Seq<int>, t: int)
    requires
        0 <= t <= l.len(),
        l.len() == (size + 2) * (size + 2),
        forall|i: int, j: int| 0 <= i < l.len() && 0 <= j < l.len() ==> (l[i] == l[j] <==> #[trigger] joined(map, size, i, j)),
    ensures
        num_distinct(l.take(t)) == leaders(map, size, t),
    decreases t,
{
    if t > 0 {
        lemma_leaders(map, size, l, t - 1);
        let s = l.take(t);
        assert(s.drop_last() =~= l.take(t - 1));
        assert(s.last() == l[t - 1]);
        if s.drop_last().contains(s.last()) {
            let j = choose|j: int| 0 <= j < s.drop_last().len() && s.drop_last()[j] == s.last();
            assert(l[j] == l[t - 1]);
            assert(joined(map, size, j, t - 1));
        }
        if exists|j: int| 0 <= j < t - 1 && #[trigger] joined(map, size, j, t - 1) {
            let j = choose|j: int| 0 <= j < t - 1 && #[trigger] joined(map, size, j, t - 1);
            assert(l[j] == l[t - 1]);
            assert(s.drop_last()[j] == s.last());
        }
    }
}

/// The union-find count is the number of regions: each region of cells side
/// by side with one value, in the map padded by one cell of `false` on each
/// side, counted once.
pub proof fn lemma_region_count(map: Seq<bool>, size: int)
    requires
        0 <= size,
    ensures
        region_count(map, size) == regions(map, size),
{
    let w = size + 2;
    let n = w * w;
    assert(n >= 0) by (nonlinear_arith)
        requires
            n == w * w,
    ;
    lemma_labels_conn(map, size, n as nat);
    lemma_labels_len(map, size, n as nat);
    let l = labels_after(map, size, n as nat);
    let e = links_before(map, size, n);
    let g = region_links(map, size);
    assert forall|u: int, v: int| #[trigger] e(u, v) == g(u, v) by {
        if region_link(map, size, u, v) {
            let m = if u < v { v } else { u };
            lemma_turn(w, m);
        }
    }
    lemma_conn_same(e, g, n);
    assert forall|i: int, j: int| 0 <= i < l.len() && 0 <= j < l.len() implies (l[i] == l[j] <==> #[trigger] joined(map, size, i, j)) by {
        assert(conn(e, n, i, j) == conn(g, n, i, j));
    }
    lemma_leaders(map, size, l, n);
    assert(l.take(n) =~= l);
}

/// Counts the connected regions of equal value in the map padded by one cell
/// of `false` on each side.
pub fn union_find(map: &Vec<bool>, size: i32) -> (r: i32)
    requires
        map_ok(map@, size as int),
        (size + 2) * (size + 2) <= 0x3fff_ffff,
    ensures
        r == region_count(map@, size as int),
        r == regions(map@, size as int),
{
    proof {
        assert(size < 46341) by (nonlinear_arith)
            requires
                0 <= size,
                size * size <= i32::MAX,
        ;
    }
    let w = size + 2;
    let ghost n = (w * w) as int;
    let tree_size = (w * w) as usize;
    let mut tree: Vec<i32> = Vec::new();
    for i in 0..tree_size
        invariant
            tree@.len() == i,
            forall|j: int| 0 <= j < i ==> #[trigger] tree@[j] == -1,
    {
        tree.push(-1);
    }
    proof {
        lemma_labels_len(map@, size as int, 0);
        assert(0 * w == 0);
        let h = Seq::new(tree@.len(), |i: int| 0nat);
        assert(height_ok(tree@, h));
        assert forall|x: int, y: int| 0 <= x < n && 0 <= y < n implies (#[trigger] same(tree@, x, y) <==> labels_after(
            map@,
            size as int,
            0,
        )[x] == labels_after(map@, size as int, 0)[y]) by {
            lemma_root_of(tree@, h, x);
            lemma_root_of(tree@, h, y);
        }
    }
    for x in 0..w
        invariant
            w == size + 2,
            n == w * w,
            n <= 0x3fff_ffff,
            0 <= size,
            map_ok(map@, size as int),
            tree@.len() == n,
            uf_ok(tree@),
            lower_bound(tree@, -1 - 2 * (x * w)),
            forall|i: int, j: int| 0 <= i < n && 0 <= j < n ==> (#[trigger] same(tree@, i, j) <==> labels_after(
                map@,
                size as int,
                (x * w) as nat,
            )[i] == labels_after(map@, size as int, (x * w) as nat)[j]),
    {
        for y in 0..w
            invariant
                w == size + 2,
                n == w * w,
                n <= 0x3fff_ffff,
                0 <= size,
                0 <= x < w,
                map_ok(map@, size as int),
                tree@.len() == n,
                uf_ok(tree@),
                lower_bound(tree@, -1 - 2 * (x * w + y)),
                forall|i: int, j: int| 0 <= i < n && 0 <= j < n ==> (#[trigger] same(tree@, i, j) <==> labels_after(
                    map@,
                    size as int,
                    (x * w + y) as nat,
                )[i] == labels_after(map@, size as int, (x * w + y) as nat)[j]),
        {
            let ghost k = (x * w + y) as nat;
            let ghost l0 = labels_after(map@, size as int, k);
            proof {
                assert(x * w + y < n && (y + 1) * w <= n && x * w + y + 1 <= n && 0 <= y * w && y * w + x < n && (y > 0 ==> 0 <= (y - 1) * w && (y - 1) * w + x < n)) by (nonlinear_arith)
                    requires
                        0 <= x < w,
                        0 <= y < w,
                        n == w * w,
                ;
                vstd::arithmetic::div_mod::lemma_fundamental_div_mod_converse(k as int, w as int, x as int, y as int);
                lemma_labels_len(map@, size as int, k);
                lemma_labels_len(map@, size as int, k + 1);
            }
            let tree0 = y * w + x;
            let ghost l1 = if y > 0 && value_spec(map@, x - 1, y - 1, size as int) == value_spec(map@, x - 1, y - 2, size as int) {
                join(l0, tree0 as int, ((y - 1) * w + x) as int)
            } else {
                l0
            };
            if y > 0 {
                let value0 = value_at(map, x - 1, y - 1, size);
                let value1 = value_at(map, x - 1, y - 2, size);
                if value0 == value1 {
                    let tree1 = (y - 1) * w + x;
                    let ghost t = tree@;
                    proof {
                        assert(height_ok(t, hgt(t)));
                        lemma_root_of(t, hgt(t), tree0 as int);
                        lemma_root_of(t, hgt(t), tree1 as int);
                    }
                    unite(&mut tree, tree0 as usize, tree1 as usize);
                    proof {
                        lemma_join_matches(t, tree@, l0, tree0 as int, tree1 as int);
                    }
                }
            }
            proof {
                assert forall|c: int| lower_bound(tree@, c) implies #[trigger] lower_bound(tree@, c) by {}
            }
            if x > 0 {
                let value0 = value_at(map, x - 1, y - 1, size);
                let value1 = value_at(map, x - 2, y - 1, size);
                if value0 == value1 {
                    let tree1 = y * w + (x - 1);
                    let ghost t = tree@;
                    proof {
                        assert(height_ok(t, hgt(t)));
                        lemma_root_of(t, hgt(t), tree0 as int);
                        lemma_root_of(t, hgt(t), tree1 as int);
                    }
                    unite(&mut tree, tree0 as usize, tree1 as usize);
                    proof {
                        lemma_join_matches(t, tree@, l1, tree0 as int, tree1 as int);
                    }
                }
            }
            proof {
                assert(labels_after(map@, size as int, k + 1) == cell_joins(l0, map@, size as int, x as int, y as int));
            }
        }
        proof {
            assert((x + 1) * w == x * w + w) by (nonlinear_arith);
        }
    }
    proof {
        assert(w * w == n);
    }
    let ghost tf = tree@;
    let ghost lf = labels_after(map@, size as int, n as nat);
    let ghost roots = Seq::new(n as nat, |i: int| root_of(tf, i));
    let mut seen: Vec<bool> = Vec::new();
    for i in 0..tree_size
        invariant
            seen@.len() == i,
            forall|j: int| 0 <= j < i ==> !#[trigger] seen@[j],
    {
        seen.push(false);
    }
    let mut count: i32 = 0;
    for i in 0..tree_size
        invariant
            tree_size == n,
            n <= 0x3fff_ffff,
            seen@.len() == n,
            tree@.len() == n,
            tf.len() == n,
            roots.len() == n,
            forall|j: int| 0 <= j < n ==> #[trigger] roots[j] == root_of(tf, j),
            uf_ok(tree@),
            uf_ok(tf),
            forall|j: int| 0 <= j < n ==> #[trigger] root_of(tree@, j) == root_of(tf, j),
            forall|v: int| 0 <= v < n ==> (#[trigger] seen@[v] <==> roots.take(i as int).contains(v)),
            count == num_distinct(roots.take(i as int)),
            count <= i,
    {
        let r = root(&mut tree, i);
        proof {
            assert(roots.len() == n);
            assert(height_ok(tf, hgt(tf)));
            lemma_root_of(tf, hgt(tf), i as int);
            assert(roots.take(i + 1) =~= roots.take(i as int).push(roots[i as int]));
            assert(roots.take(i + 1).drop_last() =~= roots.take(i as int));
            assert(roots[i as int] == r);
        }
        let ghost seen_old = seen@;
        if !seen[r] {
            seen.set(r, true);
            count = count + 1;
        }
        proof {
            let pre = roots.take(i as int);
            let post = roots.take(i + 1);
            assert forall|v: int| 0 <= v < n implies (#[trigger] seen@[v] <==> post.contains(v)) by {
                if v == r {
                    assert(post[i as int] == v);
                } else {
                    assert(seen@[v] == seen_old[v]);
                }
                if pre.contains(v) {
                    let j = choose|j: int| 0 <= j < pre.len() && pre[j] == v;
                    assert(post[j] == v);
                }
                if post.contains(v) {
                    let j = choose|j: int| 0 <= j < post.len() && post[j] == v;
                    if j < i {
                        assert(pre[j] == v);
                    }
                }
            }
        }
    }
    proof {
        assert(roots.take(n) =~= roots);
        lemma_labels_len(map@, size as int, n as nat);
        assert forall|i: int, j: int| 0 <= i < n && 0 <= j < n implies (roots[i] == roots[j] <==> lf[i] == lf[j]) by {
            assert(same(tf, i, j) <==> lf[i] == lf[j]);
        }
        lemma_num_distinct_pattern(roots, lf);
        lemma_region_count(map@, size as int);
    }
    count
}

} // verus!
