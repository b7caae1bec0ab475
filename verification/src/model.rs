//! The search as a state machine: what it keeps between two steps, the steps,
//! and the way that comes out of them.
//!
//! This is the definition of the route that [`crate::pathfinding::theta_star`]
//! returns. It works on the waypoints with the start and the goal among
//! them, each taken once, and speaks of a vertex by its place among them.

use crate::distance::distance;
use crate::pathfinding::visible;
use crate::utils::{Point, Polygon};
use vstd::prelude::*;

verus! {

/// A vertex that waits in the open list to be expanded.
pub struct Waiting {
    /// The place of the vertex.
    pub vertex: int,
    /// The cost at which the vertex was reached when it was put in.
    pub g_score: nat,
    /// That cost plus the distance from the vertex to the goal: the open list
    /// hands out the lowest first.
    pub f_score: nat,
}

/// What the search keeps between two steps.
pub struct Progress {
    /// The cost of the best way found so far from the start to each vertex;
    /// `None` for a vertex that has not been reached.
    pub g_score: Seq<Option<nat>>,
    /// The vertex before each vertex on that way. The start, and every vertex
    /// that has not been reached, is its own parent.
    pub came_from: Seq<int>,
    /// The vertices that wait to be expanded, in the order in which they
    /// were put in.
    pub open_list: Seq<Waiting>,
}

/// The waypoints with `point` among them: put in last unless it is there.
pub open spec fn with_point(points: Seq<Point>, point: Point) -> Seq<Point> {
    if points.contains(point) {
        points
    } else {
        points.push(point)
    }
}

/// The points of `points`, each once, in the order in which they first occur.
pub open spec fn distinct(points: Seq<Point>) -> Seq<Point>
    decreases points.len(),
{
    if points.len() == 0 {
        points
    } else {
        let before = distinct(points.drop_last());
        if before.contains(points.last()) {
            before
        } else {
            before.push(points.last())
        }
    }
}

/// The outset of a search from vertex `s` to vertex `t`: the start is reached
/// at no cost and waits alone in the open list, and every vertex is its own
/// parent.
pub open spec fn outset(verts: Seq<Point>, s: int, t: int) -> Progress {
    Progress {
        g_score: Seq::new(
            verts.len(),
            |i: int|
                if i == s {
                    Some(0nat)
                } else {
                    None
                },
        ),
        came_from: Seq::new(verts.len(), |i: int| i),
        open_list: seq![Waiting { vertex: s, g_score: 0, f_score: distance(verts[s], verts[t]) }],
    }
}

/// Node `k` is the one that the open list hands out next: none has a lower
/// `f_score`, and of those with the same it was put in first.
pub open spec fn is_next_up(open: Seq<Waiting>, k: int) -> bool {
    &&& 0 <= k < open.len()
    &&& forall|m: int| 0 <= m < open.len() ==> open[k].f_score <= (#[trigger] open[m]).f_score
    &&& forall|m: int| 0 <= m < k ==> open[k].f_score < (#[trigger] open[m]).f_score
}

/// The place in the open list of the node that it hands out next.
pub open spec fn next_up(open: Seq<Waiting>) -> int {
    choose|k: int| is_next_up(open, k)
}

/// One relaxation: from `cur`, which was taken from the open list, look at
/// vertex `j`.
///
/// Nothing changes unless `j` is another vertex that can be seen from `cur`.
/// If `j` can be seen from the parent of `cur` as well, the way to `j` by that
/// parent is tried, at the best cost known for the parent plus the distance
/// from there; if not, the way by `cur`, at the best cost known for `cur` plus
/// the distance from there. Where that is less than the best cost known for
/// `j`, it becomes the cost of `j`, the vertex tried becomes its parent, and
/// `j` is put on the open list.
pub open spec fn relaxed(
    p: Progress,
    verts: Seq<Point>,
    polys: Seq<Polygon>,
    t: int,
    cur: int,
    j: int,
) -> Progress {
    if j == cur || !visible(verts[cur], verts[j], polys) {
        p
    } else {
        let parent = p.came_from[cur];
        let (tentative, by) = if visible(verts[parent], verts[j], polys) {
            ((p.g_score[parent].unwrap() + distance(verts[parent], verts[j])) as nat, parent)
        } else {
            ((p.g_score[cur].unwrap() + distance(verts[cur], verts[j])) as nat, cur)
        };
        if p.g_score[j] is None || tentative < p.g_score[j].unwrap() {
            Progress {
                g_score: p.g_score.update(j, Some(tentative)),
                came_from: p.came_from.update(j, by),
                open_list: p.open_list.push(
                    Waiting {
                        vertex: j,
                        g_score: tentative,
                        f_score: tentative + distance(verts[j], verts[t]),
                    },
                ),
            }
        } else {
            p
        }
    }
}

/// One expansion, as far as the vertices before place `upto`: from `cur`,
/// every one of them is looked at in turn.
pub open spec fn expanded(
    p: Progress,
    verts: Seq<Point>,
    polys: Seq<Polygon>,
    t: int,
    cur: int,
    upto: nat,
) -> Progress
    decreases upto,
{
    if upto == 0 {
        p
    } else {
        relaxed(
            expanded(p, verts, polys, t, cur, (upto - 1) as nat),
            verts,
            polys,
            t,
            cur,
            upto - 1,
        )
    }
}

/// The search has one entry for each of the `n` vertices, and speaks of no
/// vertex but these.
pub open spec fn well_shaped(p: Progress, n: nat) -> bool {
    &&& p.g_score.len() == n
    &&& p.came_from.len() == n
    &&& forall|i: int| 0 <= i < n ==> 0 <= #[trigger] p.came_from[i] < n
    &&& forall|k: int| 0 <= k < p.open_list.len() ==> 0 <= (#[trigger] p.open_list[k]).vertex < n
}

/// Every vertex that is not its own parent was reached at a higher cost than
/// its parent.
pub open spec fn rooted(g_score: Seq<Option<nat>>, came_from: Seq<int>) -> bool {
    &&& came_from.len() == g_score.len()
    &&& forall|i: int|
        0 <= i < g_score.len() && #[trigger] came_from[i] != i ==> {
            let parent = came_from[i];
            &&& 0 <= parent < g_score.len()
            &&& g_score[i] is Some
            &&& g_score[parent] is Some
            &&& g_score[parent].unwrap() < g_score[i].unwrap()
        }
}

/// The cost at which vertex `c` was reached, and zero if it was not.
pub open spec fn score(g_score: Seq<Option<nat>>, c: int) -> nat {
    match g_score[c] {
        Some(x) => x,
        None => 0,
    }
}

/// The way from the start to vertex `c`, read off the parent links: the way
/// to the parent of `c`, then `c`; the vertex that is its own parent stands
/// alone.
pub open spec fn way_to(
    g_score: Seq<Option<nat>>,
    came_from: Seq<int>,
    verts: Seq<Point>,
    c: int,
) -> Seq<Point>
    decreases score(g_score, c),
    when rooted(g_score, came_from) && 0 <= c < g_score.len()
{
    if came_from[c] == c {
        seq![verts[c]]
    } else {
        way_to(g_score, came_from, verts, came_from[c]).push(verts[c])
    }
}

/// How many vertices have not been reached.
pub open spec fn not_reached(g: Seq<Option<nat>>) -> nat
    decreases g.len(),
{
    if g.len() == 0 {
        0
    } else {
        not_reached(g.drop_last()) + if g.last() is None {
            1nat
        } else {
            0nat
        }
    }
}

/// The costs of all the vertices that have been reached, added up.
pub open spec fn score_sum(g: Seq<Option<nat>>) -> nat
    decreases g.len(),
{
    if g.len() == 0 {
        0
    } else {
        score_sum(g.drop_last()) + match g.last() {
            Some(x) => x,
            None => 0,
        }
    }
}

/// Giving vertex `j` the cost `x` takes it from those that have not been
/// reached, if it was one of them, and puts `x` in the sum of the costs in
/// place of what the vertex added before.
pub proof fn lemma_scores_update(g: Seq<Option<nat>>, j: int, x: nat)
    requires
        0 <= j < g.len(),
    ensures
        not_reached(g.update(j, Some(x))) + if g[j] is None {
            1nat
        } else {
            0nat
        } == not_reached(g),
        score_sum(g.update(j, Some(x))) + score_sum_at(g, j) == score_sum(g) + x,
    decreases g.len(),
{
    if j == g.len() - 1 {
        assert(g.update(j, Some(x)).drop_last() =~= g.drop_last());
    } else {
        assert(g.update(j, Some(x)).drop_last() =~= g.drop_last().update(j, Some(x)));
        lemma_scores_update(g.drop_last(), j, x);
    }
}

/// What vertex `j` adds to the sum of the costs.
pub open spec fn score_sum_at(g: Seq<Option<nat>>, j: int) -> nat {
    match g[j] {
        Some(y) => y,
        None => 0,
    }
}

/// A relaxation either leaves everything as it was, or reaches a vertex that
/// was not reached, or lowers a cost.
pub proof fn lemma_relaxed_progress(
    p: Progress,
    verts: Seq<Point>,
    polys: Seq<Polygon>,
    t: int,
    cur: int,
    j: int,
)
    requires
        well_shaped(p, verts.len()),
        0 <= cur < verts.len(),
        0 <= j < verts.len(),
    ensures
        ({
            let q = relaxed(p, verts, polys, t, cur, j);
            &&& well_shaped(q, verts.len())
            &&& (q == p || not_reached(q.g_score) < not_reached(p.g_score) || (not_reached(q.g_score)
                == not_reached(p.g_score) && score_sum(q.g_score) < score_sum(p.g_score)))
        }),
{
    let q = relaxed(p, verts, polys, t, cur, j);
    if q != p {
        let x = q.g_score[j].unwrap();
        lemma_scores_update(p.g_score, j, x);
        assert forall|k: int| 0 <= k < q.open_list.len() implies 0 <= (
        #[trigger] q.open_list[k]).vertex < verts.len() by {
            if k < p.open_list.len() {
                assert(q.open_list[k] == p.open_list[k]);
            }
        }
    }
}

/// An expansion either leaves everything as it was, or reaches a vertex that
/// was not reached, or lowers a cost.
pub proof fn lemma_expanded_progress(
    p: Progress,
    verts: Seq<Point>,
    polys: Seq<Polygon>,
    t: int,
    cur: int,
    upto: nat,
)
    requires
        well_shaped(p, verts.len()),
        0 <= cur < verts.len(),
        upto <= verts.len(),
    ensures
        ({
            let q = expanded(p, verts, polys, t, cur, upto);
            &&& well_shaped(q, verts.len())
            &&& (q == p || not_reached(q.g_score) < not_reached(p.g_score) || (not_reached(q.g_score)
                == not_reached(p.g_score) && score_sum(q.g_score) < score_sum(p.g_score)))
        }),
    decreases upto,
{
    if upto > 0 {
        lemma_expanded_progress(p, verts, polys, t, cur, (upto - 1) as nat);
        let mid = expanded(p, verts, polys, t, cur, (upto - 1) as nat);
        lemma_relaxed_progress(mid, verts, polys, t, cur, upto - 1);
    }
}

/// An open list that is not empty has a node to hand out, and only one.
pub proof fn lemma_next_up(open: Seq<Waiting>)
    requires
        open.len() > 0,
    ensures
        is_next_up(open, next_up(open)),
        forall|k: int| is_next_up(open, k) ==> k == next_up(open),
    decreases open.len(),
{
    if open.len() == 1 {
        assert(is_next_up(open, 0));
    } else {
        let head = open.drop_last();
        lemma_next_up(head);
        let b = next_up(head);
        let last = open.len() - 1;
        if open[last].f_score < head[b].f_score {
            assert forall|m: int| 0 <= m < open.len() implies open[last].f_score <= (
            #[trigger] open[m]).f_score by {
                if m < last {
                    assert(head[m] == open[m]);
                }
            }
            assert forall|m: int| 0 <= m < last implies open[last].f_score < (
            #[trigger] open[m]).f_score by {
                assert(head[m] == open[m]);
            }
            assert(is_next_up(open, last));
        } else {
            assert forall|m: int| 0 <= m < open.len() implies open[b].f_score <= (
            #[trigger] open[m]).f_score by {
                if m < last {
                    assert(head[m] == open[m]);
                }
            }
            assert forall|m: int| 0 <= m < b implies open[b].f_score < (
            #[trigger] open[m]).f_score by {
                assert(head[m] == open[m]);
            }
            assert(is_next_up(open, b));
        }
    }
    let c = next_up(open);
    assert forall|k: int| is_next_up(open, k) implies k == c by {
        if k < c {
            assert(open[c].f_score < open[k].f_score);
            assert(open[k].f_score <= open[c].f_score);
        } else if c < k {
            assert(open[k].f_score < open[c].f_score);
            assert(open[c].f_score <= open[k].f_score);
        }
    }
}

/// Taking the next node from the open list and expanding it reaches a vertex
/// that was not reached, or lowers a cost, or at the least leaves one node
/// fewer waiting.
pub proof fn lemma_step_progress(p: Progress, verts: Seq<Point>, polys: Seq<Polygon>, t: int)
    requires
        well_shaped(p, verts.len()),
        p.open_list.len() > 0,
    ensures
        ({
            let k = next_up(p.open_list);
            let node = p.open_list[k];
            let taken = Progress { open_list: p.open_list.remove(k), ..p };
            let q = expanded(taken, verts, polys, t, node.vertex, verts.len());
            &&& well_shaped(q, verts.len())
            &&& (not_reached(q.g_score) < not_reached(p.g_score) || (not_reached(q.g_score)
                == not_reached(p.g_score) && (score_sum(q.g_score) < score_sum(p.g_score) || (
            score_sum(q.g_score) == score_sum(p.g_score) && q.open_list.len()
                < p.open_list.len()))))
        }),
{
    lemma_next_up(p.open_list);
    let k = next_up(p.open_list);
    let node = p.open_list[k];
    let taken = Progress { open_list: p.open_list.remove(k), ..p };
    assert forall|m: int| 0 <= m < taken.open_list.len() implies 0 <= (
    #[trigger] taken.open_list[m]).vertex < verts.len() by {
        if m < k {
            assert(taken.open_list[m] == p.open_list[m]);
        } else {
            assert(taken.open_list[m] == p.open_list[m + 1]);
        }
    }
    lemma_expanded_progress(taken, verts, polys, t, node.vertex, verts.len());
}

/// The search from the state `p` on: as long as a vertex waits, the one with
/// the lowest `f_score` is taken from the open list. If it is the goal, the
/// way to it is the result. If not, it is expanded, and the search goes on.
/// Once nothing waits, the result is empty: there is no way.
pub open spec fn searched(p: Progress, verts: Seq<Point>, polys: Seq<Polygon>, t: int) -> Seq<Point>
    decreases not_reached(p.g_score), score_sum(p.g_score), p.open_list.len(),
    when well_shaped(p, verts.len())
    via searched_decreases
{
    if p.open_list.len() == 0 {
        Seq::empty()
    } else {
        let k = next_up(p.open_list);
        let node = p.open_list[k];
        if node.vertex == t {
            way_to(p.g_score, p.came_from, verts, t)
        } else {
            let taken = Progress { open_list: p.open_list.remove(k), ..p };
            searched(
                expanded(taken, verts, polys, t, node.vertex, verts.len()),
                verts,
                polys,
                t,
            )
        }
    }
}

#[via_fn]
proof fn searched_decreases(p: Progress, verts: Seq<Point>, polys: Seq<Polygon>, t: int) {
    if p.open_list.len() != 0 {
        lemma_step_progress(p, verts, polys, t);
    }
}

/// One step of the search, spelled out.
pub proof fn lemma_searched_step(p: Progress, verts: Seq<Point>, polys: Seq<Polygon>, t: int)
    requires
        well_shaped(p, verts.len()),
    ensures
        searched(p, verts, polys, t) == if p.open_list.len() == 0 {
            Seq::<Point>::empty()
        } else {
            let k = next_up(p.open_list);
            let node = p.open_list[k];
            if node.vertex == t {
                way_to(p.g_score, p.came_from, verts, t)
            } else {
                let taken = Progress { open_list: p.open_list.remove(k), ..p };
                searched(
                    expanded(taken, verts, polys, t, node.vertex, verts.len()),
                    verts,
                    polys,
                    t,
                )
            }
        },
{
    if p.open_list.len() != 0 {
        lemma_step_progress(p, verts, polys, t);
    }
}

/// The route from `start` to `goal` past the polygons, through the waypoints:
/// what the search gives when it runs over the waypoints with `start` and
/// `goal` among them, each taken once.
pub open spec fn theta_route(
    waypoints: Seq<Point>,
    start: Point,
    goal: Point,
    polygons: Seq<Polygon>,
) -> Seq<Point> {
    let verts = distinct(with_point(with_point(waypoints, start), goal));
    let s = verts.index_of(start);
    let t = verts.index_of(goal);
    searched(outset(verts, s, t), verts, polygons, t)
}

} // verus!
