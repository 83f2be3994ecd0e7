//! Orbit bookkeeping: a tree of bodies given as children lists, the
//! total orbit count (each body weighted by its depth), and root paths.
//!
//! Bodies are numbered so that every orbit edge points to a higher
//! index, with the common centre at index 0; a caller building the map
//! from names orders the bodies accordingly.

use vstd::prelude::*;

verus! {

/// Every edge leads from a body to a strictly higher index inside the
/// map: the children lists form a forward-pointing acyclic graph.
pub open spec fn wf_orbits(m: Seq<Seq<usize>>) -> bool {
    forall|i: int, j: int|
        0 <= i < m.len() && 0 <= j < m[i].len() ==> i < #[trigger] m[i][j] < m.len()
}

/// Body `b` is a direct satellite of body `a`.
pub open spec fn edge(m: Seq<Seq<usize>>, a: usize, b: usize) -> bool {
    a < m.len() && m[a as int].contains(b)
}

/// The orbit weight of the subtree under `v`, its root counted at
/// `depth`: the sum of the depths of every body reachable from `v`.
pub open spec fn subtree_orbits(m: Seq<Seq<usize>>, v: int, depth: nat) -> nat
    decreases m.len() - v, m[v].len() + 1,
        when wf_orbits(m)
{
    if !(0 <= v < m.len()) {
        0
    } else {
        depth + children_orbits(m, v, 0, depth)
    }
}

/// The summed orbit weight of the children of `v` from child index `ci`
/// on, each child one level deeper than `depth`.
pub open spec fn children_orbits(m: Seq<Seq<usize>>, v: int, ci: int, depth: nat) -> nat
    decreases m.len() - v, m[v].len() - ci,
        when wf_orbits(m)
{
    if !(0 <= v < m.len()) || !(0 <= ci < m[v].len()) {
        0
    } else {
        subtree_orbits(m, m[v][ci] as int, depth + 1) + children_orbits(m, v, ci + 1, depth)
    }
}

/// A subtree's weight is at least the depth of its root.
pub proof fn lemma_subtree_at_least_depth(m: Seq<Seq<usize>>, v: int, depth: nat)
    requires
        wf_orbits(m),
        0 <= v < m.len(),
    ensures
        subtree_orbits(m, v, depth) >= depth,
{
}

/// There is a chain of orbit edges leading from `a` to `b`.
pub open spec fn chain_from_to(m: Seq<Seq<usize>>, p: Seq<usize>, a: usize, b: usize) -> bool {
    &&& p.len() >= 2
    &&& p[0] == a
    &&& p.last() == b
    &&& forall|i: int| 0 <= i < p.len() - 1 ==> edge(m, #[trigger] p[i], p[i + 1])
}

/// `b` can be reached from `a` by at least one orbit edge.
pub open spec fn reachable1(m: Seq<Seq<usize>>, a: usize, b: usize) -> bool {
    exists|p: Seq<usize>| #[trigger] chain_from_to(m, p, a, b)
}

/// If no child of `a` is `b` or reaches `b`, then `a` does not reach `b`.
pub proof fn lemma_unreachable_from_children(m: Seq<Seq<usize>>, a: usize, b: usize)
    requires
        a < m.len(),
        forall|c: usize| edge(m, a, c) ==> c != b && !reachable1(m, c, b),
    ensures
        !reachable1(m, a, b),
{
    if reachable1(m, a, b) {
        let p = choose|p: Seq<usize>| #[trigger] chain_from_to(m, p, a, b);
        let c = p[1];
        assert(edge(m, p[0], p[1]));
        if p.len() == 2 {
            assert(c == b);
        } else {
            let q = p.drop_first();
            assert(q.len() >= 2);
            assert(q[0] == c);
            assert(q.last() == b);
            assert forall|i: int| 0 <= i < q.len() - 1 implies edge(m, #[trigger] q[i], q[i + 1]) by {
                assert(q[i] == p[i + 1] && q[i + 1] == p[i + 2]);
                assert(edge(m, p[i + 1], p[i + 2]));
            }
            assert(chain_from_to(m, q, c, b));
        }
        assert(false);
    }
}

/// The orbit map: for each body index, the indices of its direct
/// satellites.
pub struct OrbitMap {
    pub children: Vec<Vec<usize>>,
}

impl View for OrbitMap {
    type V = Seq<Seq<usize>>;

    open spec fn view(&self) -> Seq<Seq<usize>> {
        self.children@.map_values(|c: Vec<usize>| c@)
    }
}

impl OrbitMap {
    pub open spec fn wf(&self) -> bool {
        wf_orbits(self@)
    }
}

/// The orbit weight of the subtree under `current`, with `current`
/// itself at depth `depth`: `None` exactly when the total does not fit
/// the result type.
pub fn count(depth: u64, current: usize, map: &OrbitMap) -> (r: Option<u64>)
    requires
        map.wf(),
        current < map@.len(),
    ensures
        match r {
            Some(x) => x as nat == subtree_orbits(map@, current as int, depth as nat),
            None => subtree_orbits(map@, current as int, depth as nat) > u64::MAX,
        },
    decreases map@.len() - current,
{
    let cs = &map.children[current];
    let n = cs.len();
    let mut acc: u64 = depth;
    proof {
        assert(map@[current as int] == cs@);
    }
    for j in 0..n
        invariant
            map.wf(),
            current < map@.len(),
            n == cs@.len(),
            cs@ == map@[current as int],
            acc >= depth,
            acc as nat + children_orbits(map@, current as int, j as int, depth as nat)
                == subtree_orbits(map@, current as int, depth as nat),
    {
        let child = cs[j];
        proof {
            assert(map@[current as int][j as int] == child);
            assert(current < child < map@.len());
        }
        let next_depth = match depth.checked_add(1) {
            Some(d) => d,
            None => {
                proof {
                    lemma_subtree_at_least_depth(map@, child as int, (depth + 1) as nat);
                }
                return None;
            },
        };
        let sub = match count(next_depth, child, map) {
            Some(s) => s,
            None => {
                return None;
            },
        };
        let new_acc = match acc.checked_add(sub) {
            Some(a) => a,
            None => {
                return None;
            },
        };
        acc = new_acc;
    }
    Some(acc)
}

/// The total orbit count of the whole map: the sum over every body of
/// its distance from the centre at index 0.
pub fn count_orbits(map: &OrbitMap) -> (r: Option<u64>)
    requires
        map.wf(),
        map@.len() > 0,
    ensures
        match r {
            Some(x) => x as nat == subtree_orbits(map@, 0, 0),
            None => subtree_orbits(map@, 0, 0) > u64::MAX,
        },
{
    count(0, 0, map)
}

/// Depth-first search for `wanted` below the body at the tail of
/// `path`. On success the returned path extends the given one by a
/// chain of orbit edges ending at `wanted`, and `path` holds it too; on
/// failure `path` is exactly as it was and no chain exists.
pub fn path_to(wanted: usize, path: &mut Vec<usize>, map: &OrbitMap) -> (r: Option<Vec<usize>>)
    requires
        map.wf(),
        old(path)@.len() > 0,
        forall|i: int| 0 <= i < old(path)@.len() ==> old(path)@[i] < map@.len(),
    ensures
        r matches Some(p) ==> {
            &&& final(path)@ == p@
            &&& p@.len() > old(path)@.len()
            &&& p@.take(old(path)@.len() as int) == old(path)@
            &&& p@.last() == wanted
            &&& forall|i: int| 0 <= i < p@.len() ==> #[trigger] p@[i] < map@.len()
            &&& forall|i: int|
                old(path)@.len() - 1 <= i < p@.len() - 1 ==> edge(map@, #[trigger] p@[i], p@[i + 1])
        },
        r is None ==> final(path)@ == old(path)@ && !reachable1(map@, old(path)@.last(), wanted),
    decreases map@.len() - old(path)@.last(),
{
    let plen = path.len();
    let current = path[plen - 1];
    let cs = &map.children[current];
    let n = cs.len();
    proof {
        assert(map@[current as int] == cs@);
    }
    for j in 0..n
        invariant
            map.wf(),
            path@ == old(path)@,
            path@.len() == plen,
            plen > 0,
            current == path@[plen - 1],
            current < map@.len(),
            forall|i: int| 0 <= i < path@.len() ==> path@[i] < map@.len(),
            n == cs@.len(),
            cs@ == map@[current as int],
            forall|jj: int|
                0 <= jj < j ==> (#[trigger] cs@[jj]) != wanted && !reachable1(map@, cs@[jj], wanted),
    {
        let child = cs[j];
        proof {
            assert(map@[current as int][j as int] == child);
            assert(current < child < map@.len());
        }
        if child == wanted {
            path.push(child);
            let res = path.clone();
            proof {
                assert(res@ == path@);
                assert(path@ == old(path)@.push(child));
                assert(path@.take(old(path)@.len() as int) =~= old(path)@);
                assert(map@[current as int].contains(child)) by {
                    assert(map@[current as int][j as int] == child);
                }
                assert forall|i: int|
                    old(path)@.len() - 1 <= i < path@.len() - 1 implies edge(
                    map@,
                    #[trigger] path@[i],
                    path@[i + 1],
                ) by {
                    assert(path@[i] == current && path@[i + 1] == child);
                }
            }
            return Some(res);
        } else {
            path.push(child);
            let ghost base = path@;
            let res = path_to(wanted, path, map);
            match res {
                Some(p) => {
                    proof {
                        assert(base == old(path)@.push(child));
                        assert(p@.take(old(path)@.len() as int) =~= old(path)@) by {
                            assert(p@.take(base.len() as int) == base);
                            assert forall|i: int| 0 <= i < old(path)@.len() implies p@[i]
                                == old(path)@[i] by {
                                assert(p@.take(base.len() as int)[i] == base[i]);
                            }
                        }
                        assert(map@[current as int].contains(child)) by {
                            assert(map@[current as int][j as int] == child);
                        }
                        assert forall|i: int|
                            old(path)@.len() - 1 <= i < p@.len() - 1 implies edge(
                            map@,
                            #[trigger] p@[i],
                            p@[i + 1],
                        ) by {
                            if i == old(path)@.len() - 1 {
                                assert(p@.take(base.len() as int)[i] == base[i]);
                                assert(p@.take(base.len() as int)[i + 1] == base[i + 1]);
                                assert(p@[i] == current && p@[i + 1] == child);
                            }
                        }
                    }
                    return Some(p);
                },
                None => {
                    let popped = path.pop();
                    proof {
                        assert(path@ =~= old(path)@);
                    }
                },
            }
        }
    }
    proof {
        assert forall|c: usize| edge(map@, current, c) implies c != wanted && !reachable1(
            map@,
            c,
            wanted,
        ) by {
            let jj = choose|jj: int|
                0 <= jj < map@[current as int].len() && map@[current as int][jj] == c;
            assert(cs@[jj] == c);
        }
        lemma_unreachable_from_children(map@, current, wanted);
    }
    None
}

/// The chain of orbit edges from the centre (index 0) to `name`, if
/// any.
pub fn get_path(name: usize, map: &OrbitMap) -> (r: Option<Vec<usize>>)
    requires
        map.wf(),
        map@.len() > 0,
    ensures
        r matches Some(p) ==> {
            &&& p@.len() >= 2
            &&& p@[0] == 0
            &&& p@.last() == name
            &&& forall|i: int|
                0 <= i < p@.len() - 1 ==> edge(map@, #[trigger] p@[i], p@[i + 1])
        },
        r is None ==> !reachable1(map@, 0, name),
{
    let mut path: Vec<usize> = Vec::new();
    path.push(0);
    let r = path_to(name, &mut path, map);
    proof {
        match &r {
            Some(p) => {
                assert(p@.take(1)[0] == p@[0]);
            },
            None => {},
        }
    }
    r
}

} // verus!
