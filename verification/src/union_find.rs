//! Disjoint sets, and the connected components of a set of pairs.

use vstd::prelude::*;

verus! {

/// `depth` falls along each step from an item to another parent.
pub open spec fn falls(parent: Seq<usize>, depth: Seq<nat>) -> bool {
    &&& depth.len() == parent.len()
    &&& forall|x: int|
        0 <= x < parent.len() ==> (#[trigger] parent[x]) < parent.len() && (parent[x] != x
            ==> depth[parent[x] as int] < depth[x])
}

/// The parents make a forest: from each item they lead to a root.
pub open spec fn is_forest(parent: Seq<usize>) -> bool {
    exists|depth: Seq<nat>| falls(parent, depth)
}

/// The root that `x` leads to, with `depth` as the measure of the way.
pub open spec fn root_by(parent: Seq<usize>, depth: Seq<nat>, x: int) -> int
    decreases depth[x],
{
    if falls(parent, depth) && 0 <= x < parent.len() && parent[x] != x {
        root_by(parent, depth, parent[x] as int)
    } else {
        x
    }
}

/// The root that `x` leads to.
pub open spec fn root(parent: Seq<usize>, x: int) -> int {
    root_by(parent, choose|depth: Seq<nat>| falls(parent, depth), x)
}

proof fn lemma_root_by(parent: Seq<usize>, d1: Seq<nat>, d2: Seq<nat>, x: int)
    requires
        falls(parent, d1),
        falls(parent, d2),
        0 <= x < parent.len(),
    ensures
        root_by(parent, d1, x) == root_by(parent, d2, x),
        0 <= root_by(parent, d1, x) < parent.len(),
        parent[root_by(parent, d1, x)] == root_by(parent, d1, x),
    decreases d1[x],
{
    if parent[x] != x {
        lemma_root_by(parent, d1, d2, parent[x] as int);
    }
}

/// The root of an item is its own parent, and that of any item on the way.
pub proof fn lemma_root(parent: Seq<usize>, x: int)
    requires
        is_forest(parent),
        0 <= x < parent.len(),
    ensures
        0 <= root(parent, x) < parent.len(),
        parent[root(parent, x)] == root(parent, x),
        parent[x] == x ==> root(parent, x) == x,
        parent[x] < parent.len(),
        root(parent, parent[x] as int) == root(parent, x),
        root(parent, root(parent, x)) == root(parent, x),
{
    let d = choose|depth: Seq<nat>| falls(parent, depth);
    lemma_root_by(parent, d, d, x);
    lemma_root_by(parent, d, d, root(parent, x));
}

/// Moving the parent of `x` on to its grandparent changes no root.
proof fn lemma_halve(parent: Seq<usize>, x: int)
    requires
        is_forest(parent),
        0 <= x < parent.len(),
    ensures
        parent[x] < parent.len(),
        is_forest(parent.update(x, parent[parent[x] as int])),
        forall|y: int|
            0 <= y < parent.len() ==> #[trigger] root(
                parent.update(x, parent[parent[x] as int]),
                y,
            ) == root(
                parent,
                y,
            ),
{
    let d = choose|depth: Seq<nat>| falls(parent, depth);
    let next = parent.update(x, parent[parent[x] as int]);
    assert forall|z: int| 0 <= z < next.len() implies (#[trigger] next[z]) < next.len() && (next[z]
        != z ==> d[next[z] as int] < d[z]) by {
        assert(parent[z] < parent.len());
        let g = parent[parent[x] as int];
        assert(g < parent.len());
    }
    assert(falls(next, d));
    assert forall|y: int| 0 <= y < parent.len() implies root(next, y) == root(parent, y) by {
        lemma_halve_root(parent, d, x, y);
        let d2 = choose|depth: Seq<nat>| falls(next, depth);
        lemma_root_by(next, d, d2, y);
        lemma_root_by(parent, d, d, y);
    }
}

proof fn lemma_halve_root(parent: Seq<usize>, d: Seq<nat>, x: int, y: int)
    requires
        falls(parent, d),
        0 <= x < parent.len(),
        0 <= y < parent.len(),
        falls(parent.update(x, parent[parent[x] as int]), d),
    ensures
        root_by(parent.update(x, parent[parent[x] as int]), d, y) == root_by(parent, d, y),
    decreases d[y],
{
    let next = parent.update(x, parent[parent[x] as int]);
    let p = parent[y] as int;
    if p != y {
        lemma_halve_root(parent, d, x, p);
        if y == x {
            let g = parent[p] as int;
            if g != p {
                lemma_halve_root(parent, d, x, g);
            }
        }
    } else if y == x {
        assert(next[x] == x);
    }
}

/// Hanging the root `rb` under the root `ra` joins their trees.
proof fn lemma_hang(parent: Seq<usize>, ra: int, rb: int)
    requires
        is_forest(parent),
        0 <= ra < parent.len(),
        0 <= rb < parent.len(),
        ra != rb,
        parent[ra] == ra,
        parent[rb] == rb,
    ensures
        is_forest(parent.update(rb, ra as usize)),
        forall|y: int|
            0 <= y < parent.len() ==> #[trigger] root(parent.update(rb, ra as usize), y) == if root(
                parent,
                y,
            ) == rb {
                ra
            } else {
                root(parent, y)
            },
{
    let d = choose|depth: Seq<nat>| falls(parent, depth);
    let next = parent.update(rb, ra as usize);
    let d2 = Seq::new(
        parent.len(),
        |y: int|
            if root_by(parent, d, y) == rb {
                d[y] + d[ra] + 1
            } else {
                d[y]
            },
    );
    assert(falls(next, d2)) by {
        assert forall|z: int| 0 <= z < next.len() implies (#[trigger] next[z]) < next.len() && (
        next[z] != z ==> d2[next[z] as int] < d2[z]) by {
            assert(parent[z] < parent.len());
            lemma_root_by(parent, d, d, z);
        }
    }
    assert forall|y: int| 0 <= y < parent.len() implies root(next, y) == if root(parent, y) == rb {
        ra
    } else {
        root(parent, y)
    } by {
        lemma_hang_root(parent, d, d2, ra, rb, y);
        let d3 = choose|depth: Seq<nat>| falls(next, depth);
        lemma_root_by(next, d2, d3, y);
    }
}

proof fn lemma_hang_root(
    parent: Seq<usize>,
    d: Seq<nat>,
    d2: Seq<nat>,
    ra: int,
    rb: int,
    y: int,
)
    requires
        falls(parent, d),
        0 <= ra < parent.len(),
        0 <= rb < parent.len(),
        ra != rb,
        parent[ra] == ra,
        parent[rb] == rb,
        falls(parent.update(rb, ra as usize), d2),
        0 <= y < parent.len(),
    ensures
        root_by(parent.update(rb, ra as usize), d2, y) == if root_by(parent, d, y) == rb {
            ra
        } else {
            root_by(parent, d, y)
        },
    decreases d[y],
{
    let next = parent.update(rb, ra as usize);
    if y == rb {
        assert(next[y] == ra);
        assert(next[ra] == ra);
        assert(root_by(next, d2, ra) == ra);
    } else if parent[y] != y {
        assert(next[y] == parent[y]);
        lemma_hang_root(parent, d, d2, ra, rb, parent[y] as int);
    } else {
        assert(next[y] == y);
    }
}

/// The root of `x`. On the way each item met is moved up to its grandparent,
/// which changes no root.
pub fn find(parent: &mut Vec<usize>, x: usize) -> (r: usize)
    requires
        is_forest(old(parent)@),
        x < old(parent)@.len(),
    ensures
        is_forest(final(parent)@),
        final(parent)@.len() == old(parent)@.len(),
        r == root(old(parent)@, x as int),
        forall|y: int|
            0 <= y < old(parent)@.len() ==> #[trigger] root(final(parent)@, y) == root(
                old(parent)@,
                y,
            ),
{
    let ghost start = parent@;
    let ghost item = x as int;
    let mut x: usize = x;
    let ghost d = choose|depth: Seq<nat>| falls(start, depth);
    proof {
        lemma_root(start, x as int);
    }
    while parent[x] != x
        invariant
            x < parent@.len(),
            parent@.len() == start.len(),
            is_forest(parent@),
            falls(parent@, d),
            root(start, item) == root(start, x as int),
            forall|y: int| 0 <= y < start.len() ==> #[trigger] root(parent@, y) == root(start, y),
        decreases d[x as int],
    {
        let ghost before = parent@;
        proof {
            lemma_halve(before, x as int);
            lemma_root(before, x as int);
            lemma_root(before, before[x as int] as int);
            assert(before[x as int] < before.len());
            assert(before[before[x as int] as int] < before.len());
        }
        let up: usize = parent[x];
        let next: usize = parent[up];
        parent[x] = next;
        proof {
            let now = parent@;
            assert(now =~= before.update(x as int, before[before[x as int] as int]));
            assert forall|z: int| 0 <= z < now.len() implies (#[trigger] now[z]) < now.len() && (
            now[z] != z ==> d[now[z] as int] < d[z]) by {
                assert(before[z] < before.len());
            }
            assert forall|y: int| 0 <= y < start.len() implies #[trigger] root(now, y) == root(
                start,
                y,
            ) by {
                assert(root(before, y) == root(start, y));
            }
            assert(root(before, next as int) == root(before, x as int));
            assert(root(start, next as int) == root(before, next as int));
            assert(root(start, x as int) == root(before, x as int));
        }
        x = next;
    }
    proof {
        lemma_root(parent@, x as int);
    }
    x
}

/// Joins the sets of `a` and `b`: what led to the root of `b` now leads to the
/// root of `a`.
pub fn union(parent: &mut Vec<usize>, a: usize, b: usize)
    requires
        is_forest(old(parent)@),
        a < old(parent)@.len(),
        b < old(parent)@.len(),
    ensures
        is_forest(final(parent)@),
        final(parent)@.len() == old(parent)@.len(),
        forall|y: int|
            0 <= y < old(parent)@.len() ==> #[trigger] root(final(parent)@, y) == if root(
                old(parent)@,
                y,
            ) == root(old(parent)@, b as int) {
                root(old(parent)@, a as int)
            } else {
                root(old(parent)@, y)
            },
{
    let ghost start = parent@;
    let ra: usize = find(parent, a);
    let ghost first = parent@;
    let rb: usize = find(parent, b);
    proof {
        assert forall|y: int| 0 <= y < start.len() implies #[trigger] root(parent@, y) == root(
            start,
            y,
        ) by {
            assert(root(first, y) == root(start, y));
        }
        lemma_root(parent@, a as int);
        lemma_root(parent@, b as int);
    }
    if ra != rb {
        proof {
            lemma_hang(parent@, ra as int, rb as int);
        }
        let ghost before = parent@;
        parent[rb] = ra;
        proof {
            assert(parent@ =~= before.update(rb as int, ra));
            assert forall|y: int| 0 <= y < start.len() implies #[trigger] root(parent@, y) == if
                root(start, y) == rb {
                ra as int
            } else {
                root(start, y)
            } by {
                assert(root(before, y) == root(start, y));
            }
        }
    }
}

/// `i` and `j` are a pair, in either order.
pub open spec fn is_pair(pairs: Seq<(usize, usize)>, i: int, j: int) -> bool {
    exists|k: int|
        0 <= k < pairs.len() && ((#[trigger] pairs[k]).0 == i && pairs[k].1 == j || pairs[k].0 == j
            && pairs[k].1 == i)
}

/// A way from `i` to `j` whose steps are pairs.
pub open spec fn is_way(pairs: Seq<(usize, usize)>, way: Seq<int>, i: int, j: int) -> bool {
    &&& way.len() > 0
    &&& way[0] == i
    &&& way.last() == j
    &&& forall|k: int| 0 <= k < way.len() - 1 ==> is_pair(pairs, #[trigger] way[k], way[k + 1])
}

/// Pairs lead from `i` to `j`.
pub open spec fn connected(pairs: Seq<(usize, usize)>, i: int, j: int) -> bool {
    exists|way: Seq<int>| is_way(pairs, way, i, j)
}

/// Each item is connected with itself.
pub proof fn lemma_connected_self(pairs: Seq<(usize, usize)>, i: int)
    ensures
        connected(pairs, i, i),
{
    assert(is_way(pairs, seq![i], i, i));
}

/// Connection is transitive.
pub proof fn lemma_connected_transitive(pairs: Seq<(usize, usize)>, i: int, j: int, k: int)
    requires
        connected(pairs, i, j),
        connected(pairs, j, k),
    ensures
        connected(pairs, i, k),
{
    let a = choose|way: Seq<int>| is_way(pairs, way, i, j);
    let b = choose|way: Seq<int>| is_way(pairs, way, j, k);
    let w = a + b.skip(1);
    assert forall|m: int| 0 <= m < w.len() - 1 implies is_pair(pairs, #[trigger] w[m], w[m + 1]) by {
        if m < a.len() - 1 {
            assert(w[m] == a[m] && w[m + 1] == a[m + 1]);
        } else {
            let n = m - (a.len() - 1);
            assert(w[m] == b[n]);
            assert(w[m + 1] == b[n + 1]);
        }
    }
    assert(is_way(pairs, w, i, k));
}

/// Connection is symmetric.
pub proof fn lemma_connected_symmetric(pairs: Seq<(usize, usize)>, i: int, j: int)
    requires
        connected(pairs, i, j),
    ensures
        connected(pairs, j, i),
{
    let a = choose|way: Seq<int>| is_way(pairs, way, i, j);
    let w = a.reverse();
    assert forall|m: int| 0 <= m < w.len() - 1 implies is_pair(pairs, #[trigger] w[m], w[m + 1]) by {
        let n = a.len() - 2 - m;
        assert(w[m] == a[n + 1] && w[m + 1] == a[n]);
        assert(is_pair(pairs, a[n], a[n + 1]));
    }
    assert(is_way(pairs, w, j, i));
}

proof fn lemma_connected_more(pairs: Seq<(usize, usize)>, n: int, i: int, j: int)
    requires
        0 <= n <= pairs.len(),
        connected(pairs.take(n), i, j),
    ensures
        connected(pairs, i, j),
{
    let way = choose|way: Seq<int>| is_way(pairs.take(n), way, i, j);
    assert forall|m: int| 0 <= m < way.len() - 1 implies is_pair(
        pairs,
        #[trigger] way[m],
        way[m + 1],
    ) by {
        assert(is_pair(pairs.take(n), way[m], way[m + 1]));
        let k = choose|k: int|
            0 <= k < pairs.take(n).len() && ((#[trigger] pairs.take(n)[k]).0 == way[m]
                && pairs.take(n)[k].1 == way[m + 1] || pairs.take(n)[k].0 == way[m + 1]
                && pairs.take(n)[k].1 == way[m]);
        assert(pairs[k] == pairs.take(n)[k]);
    }
    assert(is_way(pairs, way, i, j));
}

proof fn lemma_same_root_along(
    pairs: Seq<(usize, usize)>,
    parent: Seq<usize>,
    way: Seq<int>,
    i: int,
    j: int,
)
    requires
        is_way(pairs, way, i, j),
        forall|k: int|
            0 <= k < pairs.len() ==> root(parent, (#[trigger] pairs[k]).0 as int) == root(
                parent,
                pairs[k].1 as int,
            ),
    ensures
        root(parent, i) == root(parent, j),
    decreases way.len(),
{
    if way.len() > 1 {
        let rest = way.drop_last();
        let m = way.len() - 2;
        assert(is_way(pairs, rest, i, way[m])) by {
            assert forall|k: int| 0 <= k < rest.len() - 1 implies is_pair(
                pairs,
                #[trigger] rest[k],
                rest[k + 1],
            ) by {
                assert(is_pair(pairs, way[k], way[k + 1]));
            }
        }
        lemma_same_root_along(pairs, parent, rest, i, way[m]);
        assert(is_pair(pairs, way[m], way[m + 1]));
    }
}

/// Labels the items `0..n` so that two have the same label exactly where pairs
/// lead from one to the other.
pub fn components(n: usize, pairs: &[(usize, usize)]) -> (r: Vec<usize>)
    requires
        forall|k: int|
            0 <= k < pairs@.len() ==> (#[trigger] pairs@[k]).0 < n && pairs@[k].1 < n,
    ensures
        r@.len() == n,
        forall|i: int, j: int|
            0 <= i < n && 0 <= j < n ==> (#[trigger] r@[i] == #[trigger] r@[j] <==> connected(
                pairs@,
                i,
                j,
            )),
{
    let mut parent: Vec<usize> = Vec::new();
    let mut i: usize = 0;
    while i < n
        invariant
            i <= n,
            parent@.len() == i,
            forall|k: int| 0 <= k < i ==> parent@[k] == k,
        decreases n - i,
    {
        parent.push(i);
        i += 1;
    }
    proof {
        let d = Seq::new(n as nat, |k: int| 0nat);
        assert(falls(parent@, d));
        assert forall|a: int, b: int| 0 <= a < n && 0 <= b < n && root(parent@, a) == root(
            parent@,
            b,
        ) implies #[trigger] connected(pairs@.take(0), a, b) by {
            lemma_root(parent@, a);
            lemma_root(parent@, b);
            lemma_connected_self(pairs@.take(0), a);
        }
    }
    let mut k: usize = 0;
    while k < pairs.len()
        invariant
            k <= pairs@.len(),
            parent@.len() == n,
            is_forest(parent@),
            forall|m: int|
                0 <= m < pairs@.len() ==> (#[trigger] pairs@[m]).0 < n && pairs@[m].1 < n,
            forall|m: int|
                0 <= m < k ==> root(parent@, (#[trigger] pairs@[m]).0 as int) == root(
                    parent@,
                    pairs@[m].1 as int,
                ),
            forall|a: int, b: int|
                0 <= a < n && 0 <= b < n && root(parent@, a) == root(parent@, b)
                    ==> #[trigger] connected(pairs@.take(k as int), a, b),
        decreases pairs@.len() - k,
    {
        let (a, b) = pairs[k];
        let ghost before = parent@;
        union(&mut parent, a, b);
        proof {
            let done = pairs@.take(k as int);
            let next = pairs@.take(k + 1);
            assert(next.take(k as int) =~= done);
            assert(next[k as int] == (a, b));
            assert forall|m: int| 0 <= m < k + 1 implies root(
                parent@,
                (#[trigger] pairs@[m]).0 as int,
            ) == root(parent@, pairs@[m].1 as int) by {}
            assert forall|x: int, y: int|
                0 <= x < n && 0 <= y < n && root(parent@, x) == root(parent@, y) implies #[trigger]
            connected(next, x, y) by {
                let rb = root(before, b as int);
                assert(is_pair(next, a as int, b as int));
                assert(is_way(next, seq![a as int, b as int], a as int, b as int));
                assert(connected(next, a as int, b as int));
                lemma_connected_symmetric(next, a as int, b as int);
                if root(before, x) == root(before, y) {
                    assert(connected(done, x, y));
                    lemma_connected_more(next, k as int, x, y);
                } else if root(before, x) == rb {
                    assert(connected(done, x, b as int));
                    lemma_connected_more(next, k as int, x, b as int);
                    assert(connected(done, a as int, y));
                    lemma_connected_more(next, k as int, a as int, y);
                    lemma_connected_transitive(next, x, b as int, a as int);
                    lemma_connected_transitive(next, x, a as int, y);
                } else {
                    assert(root(before, y) == rb);
                    assert(connected(done, b as int, y));
                    lemma_connected_more(next, k as int, b as int, y);
                    assert(connected(done, x, a as int));
                    lemma_connected_more(next, k as int, x, a as int);
                    lemma_connected_transitive(next, x, a as int, b as int);
                    lemma_connected_transitive(next, x, b as int, y);
                }
            }
        }
        k += 1;
    }
    assert(pairs@.take(k as int) =~= pairs@);
    let ghost joined = parent@;
    let mut labels: Vec<usize> = Vec::new();
    let mut i: usize = 0;
    while i < n
        invariant
            i <= n,
            parent@.len() == n,
            joined.len() == n,
            is_forest(parent@),
            forall|y: int| 0 <= y < n ==> #[trigger] root(parent@, y) == root(joined, y),
            labels@.len() == i,
            forall|m: int| 0 <= m < i ==> #[trigger] labels@[m] == root(joined, m),
        decreases n - i,
    {
        let label: usize = find(&mut parent, i);
        labels.push(label);
        i += 1;
    }
    proof {
        assert forall|a: int, b: int| 0 <= a < n && 0 <= b < n implies (#[trigger] labels@[a]
            == #[trigger] labels@[b] <==> connected(pairs@, a, b)) by {
            if connected(pairs@, a, b) {
                let way = choose|way: Seq<int>| is_way(pairs@, way, a, b);
                lemma_same_root_along(pairs@, joined, way, a, b);
            }
            if labels@[a] == labels@[b] {
                assert(root(joined, a) == root(joined, b));
            }
        }
    }
    labels
}

} // verus!
