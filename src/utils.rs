use crate::cell::Cell;
use crate::database::{dep_of, is_child, Database};
use std::collections::HashMap;
use vstd::prelude::*;

verus! {

broadcast use vstd::std_specs::hash::group_hash_axioms;

/// A finite set of integers below `b` has at most `b` elements.
proof fn lemma_bounded_set_len(s: Set<u32>, b: nat)
    requires
        s.finite(),
        b <= 0x1_0000_0000,
        forall|x: u32| s.contains(x) ==> (x as nat) < b,
    ensures
        s.len() <= b,
    decreases b,
{
    if b == 0 {
        assert(s =~= Set::<u32>::empty());
    } else {
        let top = (b - 1) as u32;
        let s2 = s.remove(top);
        lemma_bounded_set_len(s2, (b - 1) as nat);
    }
}

/// `s` follows the "is read by" relation: each cell is read by the next.
pub open spec fn is_path(cells: Map<u32, Cell>, s: Seq<u32>) -> bool {
    &&& s.len() >= 1
    &&& forall|i: int| 0 <= i < s.len() - 1 ==> is_child(cells, s[i], #[trigger] s[i + 1])
}

/// Cell `x` is `start`, or reads it through a chain of formulas.
pub open spec fn reachable(cells: Map<u32, Cell>, start: u32, x: u32) -> bool {
    exists|s: Seq<u32>| #![trigger is_path(cells, s)] is_path(cells, s) && s[0] == start && s.last() == x
}

/// Some path from `start` comes back to a cell it has passed: a cycle can be
/// reached from `start`.
pub open spec fn cycle_from(cells: Map<u32, Cell>, start: u32) -> bool {
    exists|s: Seq<u32>|
        #![trigger is_path(cells, s)]
        is_path(cells, s) && s[0] == start && exists|k: int| 0 <= k < s.len() - 1 && s[k] == s.last()
}

/// No cell reads itself through a chain of formulas: no path leads from a
/// cell back to it.
pub open spec fn acyclic(cells: Map<u32, Cell>) -> bool {
    forall|w: Seq<u32>| #[trigger] is_path(cells, w) ==> !(w.len() >= 2 && w[0] == w.last())
}

/// On a sheet without cycles, no cycle can be reached from any cell.
pub proof fn lemma_acyclic_no_cycle(cells: Map<u32, Cell>, x: u32)
    requires
        acyclic(cells),
    ensures
        !cycle_from(cells, x),
{
    if cycle_from(cells, x) {
        let s = choose|s: Seq<u32>|
            #![trigger is_path(cells, s)]
            is_path(cells, s) && s[0] == x && exists|k: int| 0 <= k < s.len() - 1 && s[k] == s.last();
        let k = choose|k: int| 0 <= k < s.len() - 1 && s[k] == s.last();
        let w = s.subrange(k, s.len() as int);
        assert forall|i: int| 0 <= i < w.len() - 1 implies is_child(cells, w[i], #[trigger] w[i + 1]) by {
            let j = k + i;
            assert(is_child(cells, s[j], s[j + 1]));
        }
        assert(is_path(cells, w));
    }
}

/// Sheets whose formulas agree have the same "is read by" relation.
pub proof fn lemma_same_formulas_acyclic(c0: Map<u32, Cell>, c1: Map<u32, Cell>)
    requires
        forall|t: u32| dep_of(c0, t) == dep_of(c1, t),
    ensures
        acyclic(c0) == acyclic(c1),
{
    assert forall|p: u32, y: u32| is_child(c0, p, y) == is_child(c1, p, y) by {
        assert(dep_of(c0, y) == dep_of(c1, y));
    }
    assert forall|w: Seq<u32>| is_path(c0, w) == is_path(c1, w) by {
        if is_path(c0, w) {
            assert forall|i: int| 0 <= i < w.len() - 1 implies is_child(c1, w[i], #[trigger] w[i + 1]) by {
                assert(is_child(c0, w[i], w[i + 1]));
            }
        }
        if is_path(c1, w) {
            assert forall|i: int| 0 <= i < w.len() - 1 implies is_child(c0, w[i], #[trigger] w[i + 1]) by {
                assert(is_child(c1, w[i], w[i + 1]));
            }
        }
    }
}

/// A sheet whose edges are all edges of another has no cycle that the other
/// lacks.
pub proof fn lemma_fewer_edges_cycle(c0: Map<u32, Cell>, c1: Map<u32, Cell>, x: u32)
    requires
        forall|p: u32, y: u32| is_child(c1, p, y) ==> is_child(c0, p, y),
        cycle_from(c1, x),
    ensures
        cycle_from(c0, x),
{
    let s = choose|s: Seq<u32>|
        #![trigger is_path(c1, s)]
        is_path(c1, s) && s[0] == x && exists|k: int| 0 <= k < s.len() - 1 && s[k] == s.last();
    assert forall|i: int| 0 <= i < s.len() - 1 implies is_child(c0, s[i], #[trigger] s[i + 1]) by {
        assert(is_child(c1, s[i], s[i + 1]));
    }
    assert(is_path(c0, s));
}

/// Changing the formula of `t` on a sheet without cycles leaves it without
/// cycles when no cycle can be reached from `t` afterwards.
pub proof fn lemma_install_keeps_acyclic(c0: Map<u32, Cell>, c1: Map<u32, Cell>, t: u32)
    requires
        acyclic(c0),
        forall|y: u32| y != t ==> dep_of(c1, y) == dep_of(c0, y),
        !cycle_from(c1, t),
    ensures
        acyclic(c1),
{
    assert forall|p: u32, y: u32| y != t implies is_child(c1, p, y) == is_child(c0, p, y) by {
        assert(dep_of(c1, y) == dep_of(c0, y));
    }
    assert forall|w: Seq<u32>| #[trigger] is_path(c1, w) implies !(w.len() >= 2 && w[0] == w.last()) by {
        if w.len() >= 2 && w[0] == w.last() {
            let n = w.len() as int;
            if exists|m: int| 1 <= m < n && w[m] == t {
                let m = choose|m: int| 1 <= m < n && w[m] == t;
                let r = w.subrange(m, n) + w.subrange(1, m + 1);
                assert(r.len() == n);
                assert forall|i: int| 0 <= i < r.len() - 1 implies is_child(c1, r[i], #[trigger] r[i + 1]) by {
                    if i < n - m - 1 {
                        let j = m + i;
                        assert(r[i] == w[j] && r[i + 1] == w[j + 1]);
                        assert(is_child(c1, w[j], w[j + 1]));
                    } else if i == n - m - 1 {
                        assert(r[i] == w[n - 1] && r[i + 1] == w[1]);
                        let j = 0int;
                        assert(is_child(c1, w[j], w[j + 1]));
                    } else {
                        let j = 1 + i - (n - m);
                        assert(r[i] == w[j] && r[i + 1] == w[j + 1]);
                        assert(is_child(c1, w[j], w[j + 1]));
                    }
                }
                assert(is_path(c1, r));
                assert(r[0] == t && r.last() == t);
                assert(0 <= 0 < r.len() - 1 && r[0] == r.last());
                assert(cycle_from(c1, t));
            } else {
                assert forall|i: int| 0 <= i < w.len() - 1 implies is_child(c0, w[i], #[trigger] w[i + 1]) by {
                    let j = i + 1;
                    assert(w[j] != t);
                    assert(is_child(c1, w[i], w[i + 1]));
                }
                assert(is_path(c0, w));
            }
        }
    }
}

/// The position of `x` in `order`.
pub open spec fn idx_of(order: Seq<u32>, x: u32) -> int {
    choose|j: int| 0 <= j < order.len() && order[j] == x
}

/// Along a path that starts in a closed order, each cell stands later in the
/// order than the cells before it.
proof fn lemma_path_climbs(cells: Map<u32, Cell>, order: Seq<u32>, s: Seq<u32>, i: int)
    requires
        order.no_duplicates(),
        forall|a: int, y: u32|
            0 <= a < order.len() && #[trigger] is_child(cells, order[a], y) ==> exists|j: int|
                a < j < order.len() && order[j] == y,
        is_path(cells, s),
        order.contains(s[0]),
        0 <= i < s.len(),
    ensures
        order.contains(s[i]),
        0 <= idx_of(order, s[i]) < order.len() && order[idx_of(order, s[i])] == s[i],
        forall|k: int| 0 <= k < i ==> idx_of(order, s[k]) < idx_of(order, s[i]),
    decreases i,
{
    if i > 0 {
        lemma_path_climbs(cells, order, s, i - 1);
        let a = idx_of(order, s[i - 1]);
        let p = i - 1;
        assert(is_child(cells, s[p], s[p + 1]));
        assert(s[p + 1] == s[i]);
        assert(is_child(cells, order[a], s[i]));
        let j = choose|j: int| a < j < order.len() && order[j] == s[i];
        assert(order.contains(s[i]));
        let b = idx_of(order, s[i]);
        assert(order[b] == order[j]);
        assert(b == j);
    } else {
        let b = idx_of(order, s[0]);
    }
}

/// An order that starts at `start` and puts every cell before the cells that
/// read it leaves no cycle reachable from `start`.
proof fn lemma_order_acyclic(cells: Map<u32, Cell>, order: Seq<u32>, start: u32)
    requires
        order.len() > 0,
        order[0] == start,
        order.no_duplicates(),
        forall|a: int, y: u32|
            0 <= a < order.len() && #[trigger] is_child(cells, order[a], y) ==> exists|j: int|
                a < j < order.len() && order[j] == y,
    ensures
        !cycle_from(cells, start),
{
    if cycle_from(cells, start) {
        let s = choose|s: Seq<u32>|
            #![trigger is_path(cells, s)]
            is_path(cells, s) && s[0] == start && exists|k: int| 0 <= k < s.len() - 1 && s[k] == s.last();
        let k = choose|k: int| 0 <= k < s.len() - 1 && s[k] == s.last();
        assert(order.contains(s[0]));
        lemma_path_climbs(cells, order, s, s.len() - 1);
        assert(idx_of(order, s[k]) < idx_of(order, s[s.len() - 1]));
    }
}

/// Every finished cell of `res` comes after all the cells that read it, and
/// `res` holds each finished cell of `vis` once.
pub open spec fn finished_closed(db: Database, vis: Map<u32, bool>, res: Seq<u32>) -> bool {
    &&& res.no_duplicates()
    &&& forall|i: int| 0 <= i < res.len() ==> vis.contains_key(#[trigger] res[i]) && vis[res[i]]
    &&& forall|k: u32| #[trigger] vis.contains_key(k) && vis[k] ==> res.contains(k)
    &&& forall|i: int, y: u32|
        0 <= i < res.len() && #[trigger] is_child(db.cells(), res[i], y) ==> exists|j: int|
            0 <= j < i && res[j] == y
}

/// Depth-first search from `node` over the cells that read it. A cell is
/// marked `false` while on the search path and `true` once finished; finished
/// cells are appended to `result`. Returns whether a cycle was met.
fn dfs(
    db: &Database,
    node: u32,
    visited: &mut HashMap<u32, bool>,
    result: &mut Vec<u32>,
    Ghost(stack): Ghost<Seq<u32>>,
) -> (cycle: bool)
    requires
        db.wf(),
        db.in_range(node),
        !old(visited)@.contains_key(node),
        is_path(db.cells(), stack),
        stack.last() == node,
        forall|k: u32| #[trigger]
            old(visited)@.contains_key(k) && !old(visited)@[k] ==> stack.drop_last().contains(k),
        forall|k: u32| #[trigger]
            old(visited)@.contains_key(k) ==> reachable(db.cells(), stack[0], k),
        forall|k: u32| #[trigger] old(visited)@.contains_key(k) ==> db.in_range(k),
        finished_closed(*db, old(visited)@, old(result)@),
    ensures
        forall|k: u32| #[trigger]
            old(visited)@.contains_key(k) ==> final(visited)@.contains_key(k)
                && final(visited)@[k] == old(visited)@[k],
        final(visited)@.contains_key(node),
        forall|k: u32| #[trigger] final(visited)@.contains_key(k) ==> db.in_range(k),
        !cycle ==> final(visited)@[node],
        !cycle ==> finished_closed(*db, final(visited)@, final(result)@),
        !cycle ==> final(result)@.len() > 0 && final(result)@.last() == node,
        !cycle ==> forall|k: u32| #[trigger]
            final(visited)@.contains_key(k) && !final(visited)@[k] ==> old(visited)@.contains_key(k),
        cycle ==> cycle_from(db.cells(), stack[0]),
        forall|k: u32| #[trigger]
            final(visited)@.contains_key(k) ==> reachable(db.cells(), stack[0], k),
    decreases 1000 * db.cols() - old(visited)@.dom().len(),
{
    proof {
        assert forall|x: u32| visited@.dom().contains(x) implies (x as nat) < 1000 * db.cols() by {
            assert(db.in_range(x));
        }
        lemma_bounded_set_len(visited@.dom(), (1000 * db.cols()) as nat);
    }
    let ghost len0 = visited@.dom().len();
    let ghost vis0 = visited@;
    visited.insert(node, false);
    proof {
        assert(visited@.dom() == vis0.dom().insert(node));
        assert(visited@.dom().len() == len0 + 1);
        assert(reachable(db.cells(), stack[0], node));
        assert forall|k: u32| #[trigger] visited@.contains_key(k) implies reachable(db.cells(), stack[0], k) by {
            if k != node {
                assert(vis0.contains_key(k));
            }
        }
    }
    let children = db.get_cell_children(node);
    let mut i: usize = 0;
    while i < children.len()
        invariant
            db.wf(),
            db.in_range(node),
            i <= children@.len(),
            forall|x: u32| children@.contains(x) <==> is_child(db.cells(), node, x),
            forall|k: u32| #[trigger]
                vis0.contains_key(k) ==> visited@.contains_key(k) && visited@[k] == vis0[k],
            visited@.contains_key(node),
            !visited@[node],
            visited@.dom().len() >= len0 + 1,
            len0 == vis0.dom().len(),
            vis0 == old(visited)@,
            !vis0.contains_key(node),
            forall|k: u32| #[trigger] visited@.contains_key(k) ==> db.in_range(k),
            finished_closed(*db, visited@, result@),
            forall|k: int|
                0 <= k < i ==> visited@.contains_key(#[trigger] children@[k]) && visited@[children@[k]],
            is_path(db.cells(), stack),
            stack.last() == node,
            forall|k: u32| #[trigger]
                visited@.contains_key(k) && !visited@[k] ==> stack.contains(k),
            forall|k: u32| #[trigger]
                visited@.contains_key(k) && !visited@[k] ==> vis0.contains_key(k) || k == node,
            forall|k: u32| #[trigger] visited@.contains_key(k) ==> reachable(db.cells(), stack[0], k),
        decreases children@.len() - i,
    {
        let c = children[i];
        proof {
            assert(children@.contains(c));
            assert(is_child(db.cells(), node, c));
            assert(db.cells().contains_key(c));
        }
        match visited.get(&c) {
            Some(done) => {
                if !*done {
                    proof {
                        let w = stack.push(c);
                        assert(stack.contains(c));
                        let k = choose|k: int| 0 <= k < stack.len() && stack[k] == c;
                        assert forall|j: int| 0 <= j < w.len() - 1 implies is_child(
                            db.cells(),
                            w[j],
                            #[trigger] w[j + 1],
                        ) by {
                            if j < stack.len() - 1 {
                                assert(w[j] == stack[j] && w[j + 1] == stack[j + 1]);
                            }
                        }
                        assert(is_path(db.cells(), w));
                        assert(w[k] == w.last());
                        assert(w[0] == stack[0]);
                    }
                    return true;
                }
            },
            None => {
                let ghost vis1 = visited@;
                let ghost res1 = result@;
                proof {
                    assert forall|x: u32| visited@.dom().contains(x) implies (x as nat) < 1000
                        * db.cols() by {
                        assert(db.in_range(x));
                    }
                    lemma_bounded_set_len(visited@.dom(), (1000 * db.cols()) as nat);
                    let w = stack.push(c);
                    assert forall|j: int| 0 <= j < w.len() - 1 implies is_child(
                        db.cells(),
                        w[j],
                        #[trigger] w[j + 1],
                    ) by {
                        if j < stack.len() - 1 {
                            assert(w[j] == stack[j] && w[j + 1] == stack[j + 1]);
                        }
                    }
                    assert(w.drop_last() =~= stack);
                    assert(w[0] == stack[0]);
                }
                let ghost next_path = stack.push(c);
                if dfs(db, c, visited, result, Ghost(next_path)) {
                    proof {
                        assert forall|k: u32| #[trigger] vis0.contains_key(k) implies visited@.contains_key(k)
                            && visited@[k] == vis0[k] by {
                            assert(vis1.contains_key(k));
                        }
                    }
                    return true;
                }
                proof {
                    assert(vis1.dom().finite());
                    vstd::set_lib::lemma_len_subset(vis1.dom(), visited@.dom());
                    assert forall|k: int| 0 <= k < i implies visited@.contains_key(
                        #[trigger] children@[k],
                    ) && visited@[children@[k]] by {
                        assert(vis1.contains_key(children@[k]));
                    }
                    assert forall|k: u32| #[trigger]
                        visited@.contains_key(k) && !visited@[k] implies stack.contains(k) && (vis0.contains_key(k) || k == node) by {
                        assert(vis1.contains_key(k));
                    }
                }
            },
        }
        i = i + 1;
    }
    let ghost res1 = result@;
    let ghost vis1 = visited@;
    visited.insert(node, true);
    result.push(node);
    proof {
        let res2 = result@;
        let vis2 = visited@;
        assert forall|k: u32| #[trigger] vis2.contains_key(k) implies reachable(db.cells(), stack[0], k) by {
            assert(vis1.contains_key(k));
        }
        assert forall|k: u32| #[trigger]
            vis2.contains_key(k) && !vis2[k] implies vis0.contains_key(k) by {
            assert(k != node);
            assert(vis1.contains_key(k) && !vis1[k]);
        }
        assert(res2 == res1.push(node));
        assert(!res1.contains(node)) by {
            if res1.contains(node) {
                let j = choose|j: int| 0 <= j < res1.len() && res1[j] == node;
                assert(vis1[res1[j]]);
            }
        }
        assert forall|i: int| 0 <= i < res2.len() implies vis2.contains_key(#[trigger] res2[i])
            && vis2[res2[i]] by {
            if i < res1.len() {
                assert(res2[i] == res1[i]);
                assert(vis1.contains_key(res1[i]) && vis1[res1[i]]);
            }
        }
        assert forall|k: u32| #[trigger] vis2.contains_key(k) && vis2[k] implies res2.contains(k) by {
            if k == node {
                assert(res2[res1.len() as int] == node);
            } else {
                assert(res1.contains(k));
                let j = choose|j: int| 0 <= j < res1.len() && res1[j] == k;
                assert(res2[j] == k);
            }
        }
        assert forall|i: int, y: u32|
            0 <= i < res2.len() && #[trigger] is_child(db.cells(), res2[i], y) implies exists|j: int|
            0 <= j < i && res2[j] == y by {
            if i < res1.len() {
                assert(res2[i] == res1[i]);
                let j = choose|j: int| 0 <= j < i && res1[j] == y;
                assert(res2[j] == y);
            } else {
                assert(res2[i] == node);
                assert(children@.contains(y));
                let k = choose|k: int| 0 <= k < children@.len() && children@[k] == y;
                assert(vis1.contains_key(children@[k]) && vis1[children@[k]]);
                assert(res1.contains(y));
                let j = choose|j: int| 0 <= j < res1.len() && res1[j] == y;
                assert(res2[j] == y);
            }
        }
        assert(res2.no_duplicates()) by {
            assert forall|a: int, b: int| 0 <= a < b < res2.len() implies res2[a] != res2[b] by {
                if b == res1.len() {
                    assert(res1[a] == res2[a]);
                    assert(res1.contains(res1[a]));
                } else {
                    assert(res1[a] == res2[a] && res1[b] == res2[b]);
                }
            }
        }
    }
    false
}

/// Orders the cells reachable from `start` through the "is read by"
/// relation, `start` first and every cell before the cells that read it;
/// `Err` when the search meets a cycle.
pub fn topological_sort(db: &Database, start: u32) -> (r: Result<Vec<u32>, ()>)
    requires
        db.wf(),
        db.in_range(start),
    ensures
        r is Err <==> cycle_from(db.cells(), start),
        r is Ok ==> {
            let order = r->Ok_0@;
            &&& order.len() > 0
            &&& order[0] == start
            &&& order.no_duplicates()
            &&& forall|i: int| 0 <= i < order.len() ==> db.in_range(#[trigger] order[i])
            &&& forall|i: int| 0 <= i < order.len() ==> reachable(db.cells(), start, #[trigger] order[i])
            &&& forall|i: int, y: u32|
                0 <= i < order.len() && #[trigger] is_child(db.cells(), order[i], y) ==> exists|
                    j: int,
                | i < j < order.len() && order[j] == y
        },
{
    let mut visited: HashMap<u32, bool> = HashMap::new();
    let mut result: Vec<u32> = Vec::new();
    proof {
        assert(result@ =~= Seq::<u32>::empty());
    }
    let ghost root_path = seq![start];
    if dfs(db, start, &mut visited, &mut result, Ghost(root_path)) {
        return Err(());
    }
    let n = result.len();
    let mut order: Vec<u32> = Vec::new();
    let mut k: usize = 0;
    while k < n
        invariant
            n == result@.len(),
            k <= n,
            order@.len() == k,
            forall|m: int| 0 <= m < k ==> order@[m] == result@[n - 1 - m],
        decreases n - k,
    {
        order.push(result[n - 1 - k]);
        k = k + 1;
    }
    proof {
        let res = result@;
        let ord = order@;
        assert forall|i: int| 0 <= i < ord.len() implies db.in_range(#[trigger] ord[i])
            && reachable(db.cells(), start, ord[i]) by {
            assert(ord[i] == res[n - 1 - i]);
            assert(visited@.contains_key(res[n - 1 - i]));
        }
        assert forall|i: int, y: u32|
            0 <= i < ord.len() && #[trigger] is_child(db.cells(), ord[i], y) implies exists|j: int|
            i < j < ord.len() && ord[j] == y by {
            assert(ord[i] == res[n - 1 - i]);
            let j = choose|j: int| 0 <= j < n - 1 - i && res[j] == y;
            assert(ord[n - 1 - j] == y);
        }
        assert forall|a: int, b: int| 0 <= a < b < ord.len() implies ord[a] != ord[b] by {
            assert(ord[a] == res[n - 1 - a] && ord[b] == res[n - 1 - b]);
        }
        assert(ord[0] == start);
        lemma_order_acyclic(db.cells(), ord, start);
    }
    Ok(order)
}

} // verus!
