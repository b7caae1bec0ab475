//! The bookkeeping of one search: the scores, the parent links and the open
//! list, and what holds of them from the first expansion to the last.

use crate::distance::{
    distance, heuristic, lemma_distance_triangle, lemma_distance_zero,
    lemma_path_longer_by_a_step, lemma_path_not_shorter_than_straight, lemma_path_split,
    max_distance, path_length,
};
use crate::model::{
    expanded, is_next_up, lemma_next_up, lemma_searched_step, lemma_step_progress, next_up,
    not_reached, outset, relaxed, rooted, score_sum, searched, way_to, well_shaped, Progress,
    Waiting,
};
use crate::open_list::{is_next, Node, OpenList};
use crate::pathfinding::{is_route, line_of_sight, visible};
use crate::utils::{Point, Polygon};
use vstd::prelude::*;

verus! {

/// What one search keeps of every vertex, by the place of the vertex among
/// the vertices it runs over.
pub(crate) struct Search {
    /// The cost of the best way found so far from the start to each vertex;
    /// `None` stands for a vertex that no way has reached yet.
    pub g_score: Vec<Option<u128>>,
    /// The vertex before each vertex on that way. The start is its own parent.
    pub came_from: Vec<usize>,
    /// The reached vertices that wait to be expanded.
    pub open_list: OpenList,
}

/// A score as a natural number.
pub open spec fn lift_score(g: Option<u128>) -> Option<nat> {
    match g {
        Some(x) => Some(x as nat),
        None => None,
    }
}

/// The scores as natural numbers.
pub open spec fn lift_scores(g: Seq<Option<u128>>) -> Seq<Option<nat>> {
    Seq::new(g.len(), |i: int| lift_score(g[i]))
}

/// The parent links as integers.
pub open spec fn lift_parents(parent: Seq<usize>) -> Seq<int> {
    Seq::new(parent.len(), |i: int| parent[i] as int)
}

/// A node of the open list as the state machine sees it.
pub open spec fn lift_node(node: Node) -> Waiting {
    Waiting {
        vertex: node.vertex as int,
        g_score: node.g_score as nat,
        f_score: node.f_score as nat,
    }
}

/// The open list as the state machine sees it.
pub open spec fn lift_open(open: Seq<Node>) -> Seq<Waiting> {
    Seq::new(open.len(), |k: int| lift_node(open[k]))
}

/// The state of the search as the state machine sees it.
pub open spec fn lift(g: Seq<Option<u128>>, parent: Seq<usize>, open: Seq<Node>) -> Progress {
    Progress {
        g_score: lift_scores(g),
        came_from: lift_parents(parent),
        open_list: lift_open(open),
    }
}

/// What a relaxation that takes a shorter way does to the state, as the state
/// machine sees it.
pub proof fn lemma_lift_relaxation(
    g: Seq<Option<u128>>,
    parent: Seq<usize>,
    open: Seq<Node>,
    j: usize,
    cand: usize,
    x: u128,
    f: u128,
)
    requires
        0 <= j < g.len(),
        g.len() == parent.len(),
    ensures
        lift(
            g.update(j as int, Some(x)),
            parent.update(j as int, cand),
            open.push(Node { vertex: j, g_score: x, f_score: f }),
        ) == (Progress {
            g_score: lift_scores(g).update(j as int, Some(x as nat)),
            came_from: lift_parents(parent).update(j as int, cand as int),
            open_list: lift_open(open).push(
                Waiting { vertex: j as int, g_score: x as nat, f_score: f as nat },
            ),
        }),
{
    let node = Node { vertex: j, g_score: x, f_score: f };
    assert(lift_scores(g.update(j as int, Some(x))) =~= lift_scores(g).update(
        j as int,
        Some(x as nat),
    ));
    assert(lift_parents(parent.update(j as int, cand)) =~= lift_parents(parent).update(
        j as int,
        cand as int,
    ));
    assert(lift_open(open.push(node)) =~= lift_open(open).push(lift_node(node)));
}

/// How many vertices have been reached.
pub open spec fn reached(g: Seq<Option<u128>>) -> nat
    decreases g.len(),
{
    if g.len() == 0 {
        0
    } else {
        reached(g.drop_last()) + if g.last() is Some {
            1nat
        } else {
            0nat
        }
    }
}

/// Giving vertex `j` a score adds it to the vertices reached, unless it was
/// one of them.
pub proof fn lemma_reached_update(g: Seq<Option<u128>>, j: int, x: u128)
    requires
        0 <= j < g.len(),
    ensures
        reached(g.update(j, Some(x))) == reached(g) + if g[j] is Some {
            0nat
        } else {
            1nat
        },
    decreases g.len(),
{
    if j == g.len() - 1 {
        assert(g.update(j, Some(x)).drop_last() =~= g.drop_last());
    } else {
        assert(g.update(j, Some(x)).drop_last() =~= g.drop_last().update(j, Some(x)));
        lemma_reached_update(g.drop_last(), j, x);
    }
}

/// No more vertices have been reached than there are.
pub proof fn lemma_reached_bounded(g: Seq<Option<u128>>)
    ensures
        reached(g) <= g.len(),
    decreases g.len(),
{
    if g.len() > 0 {
        lemma_reached_bounded(g.drop_last());
    }
}

/// Some node of the open list stands for vertex `i`.
pub open spec fn in_open(open: Seq<Node>, i: int) -> bool {
    exists|k: int| 0 <= k < open.len() && (#[trigger] open[k]).vertex == i
}

/// Every vertex before place `m` that can be seen from vertex `i` has been
/// reached.
pub open spec fn closed_upto(
    verts: Seq<Point>,
    polys: Seq<Polygon>,
    g: Seq<Option<u128>>,
    i: int,
    m: int,
) -> bool {
    forall|j: int|
        0 <= j < m && j != i && visible(verts[i], verts[j], polys) ==> (#[trigger] g[j]) is Some
}

/// The vectors have one entry for each vertex, the vertices are all
/// different, a vertex that has not been reached is its own parent, and the
/// start is the root: reached at no cost, its own parent.
pub open spec fn shape_ok(
    verts: Seq<Point>,
    g: Seq<Option<u128>>,
    parent: Seq<usize>,
    s: int,
    t: int,
) -> bool {
    &&& g.len() == verts.len()
    &&& parent.len() == verts.len()
    &&& 0 <= s < verts.len()
    &&& 0 <= t < verts.len()
    &&& verts.no_duplicates()
    &&& forall|i: int| 0 <= i < verts.len() ==> (#[trigger] parent[i]) < verts.len()
    &&& forall|i: int| 0 <= i < verts.len() && g[i] is None ==> (#[trigger] parent[i]) == i
    &&& g[s] == Some(0u128)
    &&& parent[s] == s
}

/// Every reached vertex but the start has a parent that is another vertex,
/// that was reached at a cost lower by at least the distance between the two,
/// and from which it can be seen.
#[verifier::opaque]
pub open spec fn tree_ok(
    verts: Seq<Point>,
    polys: Seq<Polygon>,
    g: Seq<Option<u128>>,
    parent: Seq<usize>,
    s: int,
) -> bool {
    forall|i: int|
        0 <= i < verts.len() && i != s && (#[trigger] g[i]) is Some ==> {
            let p = parent[i] as int;
            &&& p != i
            &&& g[p] is Some
            &&& g[p].unwrap() + distance(verts[p], verts[i]) <= g[i].unwrap()
            &&& visible(verts[p], verts[i], polys)
        }
}

/// No vertex was reached at less than its distance from the start, nor at
/// more than the longest way through the vertices reached so far.
#[verifier::opaque]
pub open spec fn bounds_ok(verts: Seq<Point>, g: Seq<Option<u128>>, s: int) -> bool {
    forall|i: int|
        0 <= i < verts.len() && (#[trigger] g[i]) is Some ==> distance(verts[s], verts[i])
            <= g[i].unwrap() <= reached(g) * max_distance()
}

/// Every waiting node stands for a reached vertex.
#[verifier::opaque]
pub open spec fn open_ok(g: Seq<Option<u128>>, open: Seq<Node>) -> bool {
    forall|k: int|
        0 <= k < open.len() ==> {
            let node = #[trigger] open[k];
            &&& node.vertex < g.len()
            &&& g[node.vertex as int] is Some
        }
}

/// Every reached vertex either waits in the open list or has been expanded:
/// it is not the goal, and all that can be seen from it has been reached. Of
/// the vertex `cur`, which is being expanded, this holds up to place `upto`.
#[verifier::opaque]
pub open spec fn frontier_ok(
    verts: Seq<Point>,
    polys: Seq<Polygon>,
    g: Seq<Option<u128>>,
    open: Seq<Node>,
    t: int,
    cur: int,
    upto: int,
) -> bool {
    forall|i: int|
        0 <= i < verts.len() && (#[trigger] g[i]) is Some ==> in_open(open, i) || (i != t
            && closed_upto(
            verts,
            polys,
            g,
            i,
            if i == cur {
                upto
            } else {
                verts.len() as int
            },
        ))
}

/// Some node of the open list stands for vertex `i` at the best cost known
/// for it.
pub open spec fn waits_at_cost(open: Seq<Node>, g: Seq<Option<u128>>, i: int) -> bool {
    exists|k: int|
        0 <= k < open.len() && (#[trigger] open[k]).vertex == i && g[i] == Some(open[k].g_score)
}

/// Every vertex before place `m` that can be seen from vertex `i` has been
/// reached at no more than the cost of `i` and the distance from there.
pub open spec fn relaxed_upto(
    verts: Seq<Point>,
    polys: Seq<Polygon>,
    g: Seq<Option<u128>>,
    i: int,
    m: int,
) -> bool {
    forall|j: int|
        0 <= j < m && j != i && visible(verts[i], verts[j], polys) ==> (#[trigger] g[j]) is Some
            && g[j].unwrap() <= g[i].unwrap() + distance(verts[i], verts[j])
}

/// Every reached vertex either waits in the open list at the best cost known
/// for it, or has been expanded at that cost: it is not the goal, and all
/// that can be seen from it has been reached at no more than its cost and
/// the distance from it. Of the vertex `cur`, which is being expanded, this
/// holds up to place `upto`.
#[verifier::opaque]
pub open spec fn settled_ok(
    verts: Seq<Point>,
    polys: Seq<Polygon>,
    g: Seq<Option<u128>>,
    open: Seq<Node>,
    t: int,
    cur: int,
    upto: int,
) -> bool {
    forall|i: int|
        0 <= i < verts.len() && (#[trigger] g[i]) is Some ==> waits_at_cost(open, g, i) || (i != t
            && relaxed_upto(
            verts,
            polys,
            g,
            i,
            if i == cur {
                upto
            } else {
                verts.len() as int
            },
        ))
}

/// Every waiting node carries a cost that is not below the best known for
/// its vertex, and beside it that cost plus the distance to the goal.
#[verifier::opaque]
pub open spec fn priced_ok(verts: Seq<Point>, g: Seq<Option<u128>>, open: Seq<Node>, t: int) -> bool {
    forall|k: int|
        0 <= k < open.len() ==> {
            let node = #[trigger] open[k];
            &&& node.vertex < g.len()
            &&& g[node.vertex as int] is Some
            &&& g[node.vertex as int].unwrap() <= node.g_score
            &&& node.f_score == node.g_score + distance(verts[node.vertex as int], verts[t])
        }
}

/// All that holds of the search between two relaxations.
pub open spec fn search_ok(
    verts: Seq<Point>,
    polys: Seq<Polygon>,
    g: Seq<Option<u128>>,
    parent: Seq<usize>,
    open: Seq<Node>,
    s: int,
    t: int,
    cur: int,
    upto: int,
) -> bool {
    &&& shape_ok(verts, g, parent, s, t)
    &&& tree_ok(verts, polys, g, parent, s)
    &&& bounds_ok(verts, g, s)
    &&& open_ok(g, open)
    &&& frontier_ok(verts, polys, g, open, t, cur, upto)
    &&& priced_ok(verts, g, open, t)
    &&& settled_ok(verts, polys, g, open, t, cur, upto)
}

/// The goal can be seen from the start, and is another vertex.
pub open spec fn direct(verts: Seq<Point>, polys: Seq<Polygon>, s: int, t: int) -> bool {
    s != t && visible(verts[s], verts[t], polys)
}

/// The goal hangs on the start, at the cost of the straight way.
pub open spec fn goal_on_start(
    verts: Seq<Point>,
    g: Seq<Option<u128>>,
    parent: Seq<usize>,
    s: int,
    t: int,
) -> bool {
    g[t] == Some(distance(verts[s], verts[t]) as u128) && parent[t] == s
}

/// No vertex from place `j` on has been reached, but for the start.
pub open spec fn untouched_from(g: Seq<Option<u128>>, s: int, j: int) -> bool {
    forall|i: int| j <= i < g.len() && i != s ==> (#[trigger] g[i]) is None
}

/// A relaxation that lowers the score of vertex `j` to `x`, by way of `cand`.
pub open spec fn improves(
    verts: Seq<Point>,
    polys: Seq<Polygon>,
    g: Seq<Option<u128>>,
    j: usize,
    cand: usize,
    x: u128,
) -> bool {
    &&& 0 <= j < verts.len()
    &&& 0 <= cand < verts.len()
    &&& g[cand as int] is Some
    &&& g[cand as int].unwrap() + distance(verts[cand as int], verts[j as int]) <= x
    &&& x <= reached(g) * max_distance() + max_distance()
    &&& visible(verts[cand as int], verts[j as int], polys)
    &&& (g[j as int] is None || x < g[j as int].unwrap())
}

/// The bound on the scores grows with the number of vertices reached, by the
/// greatest distance for each.
proof fn lemma_reached_scaled(a: nat, b: nat)
    requires
        a <= b,
    ensures
        a * max_distance() <= b * max_distance(),
        (a + 1) * max_distance() == a * max_distance() + max_distance(),
{
    let m = max_distance();
    assert(a * m <= b * m) by (nonlinear_arith)
        requires
            a <= b,
            m >= 0,
    ;
    assert((a + 1) * m == a * m + m) by (nonlinear_arith);
}

/// A relaxation keeps the tree of parent links.
proof fn lemma_relax_tree(
    verts: Seq<Point>,
    polys: Seq<Polygon>,
    g: Seq<Option<u128>>,
    parent: Seq<usize>,
    s: int,
    t: int,
    j: usize,
    cand: usize,
    x: u128,
)
    requires
        shape_ok(verts, g, parent, s, t),
        tree_ok(verts, polys, g, parent, s),
        improves(verts, polys, g, j, cand, x),
        cand != j,
    ensures
        tree_ok(verts, polys, g.update(j as int, Some(x)), parent.update(j as int, cand), s),
{
    reveal(tree_ok);
    let g2 = g.update(j as int, Some(x));
    let parent2 = parent.update(j as int, cand);
    assert forall|i: int| 0 <= i < verts.len() && i != s && (#[trigger] g2[i]) is Some implies {
        let p = parent2[i] as int;
        &&& p != i
        &&& g2[p] is Some
        &&& g2[p].unwrap() + distance(verts[p], verts[i]) <= g2[i].unwrap()
        &&& visible(verts[p], verts[i], polys)
    } by {
        if i != j {
            assert(g[i] is Some);
        }
    }
}

/// A relaxation keeps the scores within their bounds.
proof fn lemma_relax_bounds(
    verts: Seq<Point>,
    g: Seq<Option<u128>>,
    polys: Seq<Polygon>,
    s: int,
    j: usize,
    cand: usize,
    x: u128,
)
    requires
        g.len() == verts.len(),
        0 <= s < verts.len(),
        bounds_ok(verts, g, s),
        improves(verts, polys, g, j, cand, x),
    ensures
        bounds_ok(verts, g.update(j as int, Some(x)), s),
        distance(verts[s], verts[j as int]) <= x,
        reached(g) <= reached(g.update(j as int, Some(x))) <= verts.len(),
        reached(g) * max_distance() <= reached(g.update(j as int, Some(x))) * max_distance(),
        x <= reached(g.update(j as int, Some(x))) * max_distance(),
{
    reveal(bounds_ok);
    let g2 = g.update(j as int, Some(x));
    lemma_distance_triangle(verts[s], verts[cand as int], verts[j as int]);
    lemma_reached_update(g, j as int, x);
    lemma_reached_bounded(g2);
    lemma_reached_scaled(reached(g), reached(g2));
    assert(g[cand as int] is Some);
    if g[j as int] is Some {
        assert(g[j as int].unwrap() <= reached(g) * max_distance());
    }
    assert forall|i: int| 0 <= i < verts.len() && (#[trigger] g2[i]) is Some implies distance(
        verts[s],
        verts[i],
    ) <= g2[i].unwrap() <= reached(g2) * max_distance() by {
        if i != j {
            assert(g[i] is Some);
        }
    }
}

/// A relaxation keeps the open list in step with the scores.
proof fn lemma_relax_open(g: Seq<Option<u128>>, open: Seq<Node>, j: usize, x: u128, f: u128)
    requires
        0 <= j < g.len(),
        open_ok(g, open),
    ensures
        open_ok(g.update(j as int, Some(x)), open.push(Node { vertex: j, g_score: x, f_score: f })),
{
    reveal(open_ok);
    let g2 = g.update(j as int, Some(x));
    let open2 = open.push(Node { vertex: j, g_score: x, f_score: f });
    assert forall|k: int| 0 <= k < open2.len() implies {
        let nd = #[trigger] open2[k];
        &&& nd.vertex < g2.len()
        &&& g2[nd.vertex as int] is Some
    } by {
        if k < open.len() {
            assert(open2[k] == open[k]);
        }
    }
}

/// A vertex that waits still waits after a push, and so does the one pushed.
proof fn lemma_in_open_push(open: Seq<Node>, node: Node, i: int)
    requires
        in_open(open, i) || node.vertex == i,
    ensures
        in_open(open.push(node), i),
{
    let open2 = open.push(node);
    if in_open(open, i) {
        let k = choose|k: int| 0 <= k < open.len() && (#[trigger] open[k]).vertex == i;
        assert(open2[k].vertex == i);
    } else {
        assert(open2[open.len() as int].vertex == i);
    }
}

/// A relaxation keeps the frontier: the vertex it reaches waits in the open
/// list.
proof fn lemma_relax_frontier(
    verts: Seq<Point>,
    polys: Seq<Polygon>,
    g: Seq<Option<u128>>,
    open: Seq<Node>,
    t: int,
    cur: int,
    upto: int,
    j: usize,
    x: u128,
    f: u128,
)
    requires
        g.len() == verts.len(),
        0 <= j < verts.len(),
        0 <= upto <= verts.len(),
        frontier_ok(verts, polys, g, open, t, cur, upto),
    ensures
        frontier_ok(
            verts,
            polys,
            g.update(j as int, Some(x)),
            open.push(Node { vertex: j, g_score: x, f_score: f }),
            t,
            cur,
            upto,
        ),
{
    reveal(frontier_ok);
    let n = verts.len() as int;
    let g2 = g.update(j as int, Some(x));
    let node = Node { vertex: j, g_score: x, f_score: f };
    let open2 = open.push(node);
    assert forall|i: int| 0 <= i < n && (#[trigger] g2[i]) is Some implies in_open(open2, i) || (i
        != t && closed_upto(
        verts,
        polys,
        g2,
        i,
        if i == cur {
            upto
        } else {
            n
        },
    )) by {
        if i == j {
            lemma_in_open_push(open, node, i);
        } else {
            assert(g[i] is Some);
            if in_open(open, i) {
                lemma_in_open_push(open, node, i);
            } else {
                let m = if i == cur {
                    upto
                } else {
                    n
                };
                assert(closed_upto(verts, polys, g, i, m));
                assert forall|jj: int|
                    0 <= jj < m && jj != i && visible(verts[i], verts[jj], polys) implies (
                #[trigger] g2[jj]) is Some by {
                    assert(g[jj] is Some);
                }
            }
        }
    }
}

/// A relaxation keeps the costs that the waiting nodes carry in step with the
/// scores.
proof fn lemma_relax_priced(
    verts: Seq<Point>,
    g: Seq<Option<u128>>,
    open: Seq<Node>,
    t: int,
    j: usize,
    x: u128,
    f: u128,
)
    requires
        0 <= j < g.len(),
        priced_ok(verts, g, open, t),
        g[j as int] is None || x < g[j as int].unwrap(),
        f == x + distance(verts[j as int], verts[t]),
    ensures
        priced_ok(
            verts,
            g.update(j as int, Some(x)),
            open.push(Node { vertex: j, g_score: x, f_score: f }),
            t,
        ),
{
    reveal(priced_ok);
    let g2 = g.update(j as int, Some(x));
    let open2 = open.push(Node { vertex: j, g_score: x, f_score: f });
    assert forall|k: int| 0 <= k < open2.len() implies {
        let nd = #[trigger] open2[k];
        &&& nd.vertex < g2.len()
        &&& g2[nd.vertex as int] is Some
        &&& g2[nd.vertex as int].unwrap() <= nd.g_score
        &&& nd.f_score == nd.g_score + distance(verts[nd.vertex as int], verts[t])
    } by {
        if k < open.len() {
            assert(open2[k] == open[k]);
        }
    }
}

/// A relaxation keeps the vertices settled: the vertex it reaches waits in
/// the open list at its new cost.
proof fn lemma_relax_settled(
    verts: Seq<Point>,
    polys: Seq<Polygon>,
    g: Seq<Option<u128>>,
    open: Seq<Node>,
    t: int,
    cur: int,
    upto: int,
    j: usize,
    x: u128,
    f: u128,
)
    requires
        g.len() == verts.len(),
        0 <= j < verts.len(),
        0 <= upto <= verts.len(),
        settled_ok(verts, polys, g, open, t, cur, upto),
        g[j as int] is None || x < g[j as int].unwrap(),
    ensures
        settled_ok(
            verts,
            polys,
            g.update(j as int, Some(x)),
            open.push(Node { vertex: j, g_score: x, f_score: f }),
            t,
            cur,
            upto,
        ),
{
    reveal(settled_ok);
    let n = verts.len() as int;
    let g2 = g.update(j as int, Some(x));
    let node = Node { vertex: j, g_score: x, f_score: f };
    let open2 = open.push(node);
    assert forall|i: int| 0 <= i < n && (#[trigger] g2[i]) is Some implies waits_at_cost(
        open2,
        g2,
        i,
    ) || (i != t && relaxed_upto(
        verts,
        polys,
        g2,
        i,
        if i == cur {
            upto
        } else {
            n
        },
    )) by {
        if i == j {
            assert(open2[open.len() as int].vertex == i);
        } else {
            assert(g[i] is Some);
            if waits_at_cost(open, g, i) {
                let k = choose|k: int|
                    0 <= k < open.len() && (#[trigger] open[k]).vertex == i && g[i] == Some(
                        open[k].g_score,
                    );
                assert(open2[k].vertex == i);
            } else {
                let m = if i == cur {
                    upto
                } else {
                    n
                };
                assert(relaxed_upto(verts, polys, g, i, m));
                assert forall|jj: int|
                    0 <= jj < m && jj != i && visible(verts[i], verts[jj], polys) implies (
                #[trigger] g2[jj]) is Some && g2[jj].unwrap() <= g2[i].unwrap() + distance(
                    verts[i],
                    verts[jj],
                ) by {
                    assert(g[jj] is Some);
                }
            }
        }
    }
}

/// A relaxation keeps what holds of the search, and leaves the new score
/// waiting in the open list.
pub proof fn lemma_relaxation(
    verts: Seq<Point>,
    polys: Seq<Polygon>,
    g: Seq<Option<u128>>,
    parent: Seq<usize>,
    open: Seq<Node>,
    s: int,
    t: int,
    cur: int,
    upto: int,
    j: usize,
    cand: usize,
    x: u128,
    f: u128,
)
    requires
        search_ok(verts, polys, g, parent, open, s, t, cur, upto),
        improves(verts, polys, g, j, cand, x),
        0 <= upto <= verts.len(),
        f == x + distance(verts[j as int], verts[t]),
    ensures
        j != s,
        cand != j,
        search_ok(
            verts,
            polys,
            g.update(j as int, Some(x)),
            parent.update(j as int, cand),
            open.push(Node { vertex: j, g_score: x, f_score: f }),
            s,
            t,
            cur,
            upto,
        ),
        reached(g) <= reached(g.update(j as int, Some(x))) <= verts.len(),
        reached(g) * max_distance() <= reached(g.update(j as int, Some(x))) * max_distance(),
        distance(verts[s], verts[j as int]) <= x,
{
    lemma_distance_zero(verts[cand as int], verts[j as int]);
    assert(j != s);
    assert(cand != j);
    lemma_relax_tree(verts, polys, g, parent, s, t, j, cand, x);
    lemma_relax_bounds(verts, g, polys, s, j, cand, x);
    lemma_relax_open(g, open, j, x, f);
    lemma_relax_frontier(verts, polys, g, open, t, cur, upto, j, x, f);
    lemma_relax_priced(verts, g, open, t, j, x, f);
    lemma_relax_settled(verts, polys, g, open, t, cur, upto, j, x, f);
}

/// Looking at one more vertex from `cur` keeps the frontier, where that
/// vertex is `cur` itself, cannot be seen from it, or has been reached.
proof fn lemma_frontier_advance(
    verts: Seq<Point>,
    polys: Seq<Polygon>,
    g: Seq<Option<u128>>,
    open: Seq<Node>,
    t: int,
    cur: int,
    j: int,
)
    requires
        g.len() == verts.len(),
        0 <= j < verts.len(),
        frontier_ok(verts, polys, g, open, t, cur, j),
        j == cur || !visible(verts[cur], verts[j], polys) || g[j] is Some,
    ensures
        frontier_ok(verts, polys, g, open, t, cur, j + 1),
{
    reveal(frontier_ok);
}

/// Looking at one more vertex from `cur` keeps the vertices settled, where
/// that vertex is `cur` itself, cannot be seen from it, or has been reached at
/// no more than the cost of `cur` and the distance from there.
proof fn lemma_settled_advance(
    verts: Seq<Point>,
    polys: Seq<Polygon>,
    g: Seq<Option<u128>>,
    open: Seq<Node>,
    t: int,
    cur: int,
    j: int,
)
    requires
        g.len() == verts.len(),
        0 <= j < verts.len(),
        settled_ok(verts, polys, g, open, t, cur, j),
        j == cur || !visible(verts[cur], verts[j], polys) || (g[j] is Some && g[cur] is Some
            && g[j].unwrap() <= g[cur].unwrap() + distance(verts[cur], verts[j])),
    ensures
        settled_ok(verts, polys, g, open, t, cur, j + 1),
{
    reveal(settled_ok);
}

/// The way to `j` by the parent of `cur` costs no more than the way by `cur`.
proof fn lemma_parent_is_no_detour(
    verts: Seq<Point>,
    polys: Seq<Polygon>,
    g: Seq<Option<u128>>,
    parent: Seq<usize>,
    s: int,
    t: int,
    cur: int,
    j: int,
)
    requires
        shape_ok(verts, g, parent, s, t),
        tree_ok(verts, polys, g, parent, s),
        0 <= cur < verts.len(),
        0 <= j < verts.len(),
        g[cur] is Some,
    ensures
        g[parent[cur] as int] is Some,
        g[parent[cur] as int].unwrap() + distance(verts[parent[cur] as int], verts[j])
            <= g[cur].unwrap() + distance(verts[cur], verts[j]),
{
    reveal(tree_ok);
    let p = parent[cur] as int;
    lemma_distance_triangle(verts[p], verts[cur], verts[j]);
}

/// No score exceeds what fits beside one more distance.
proof fn lemma_score_fits(g: Seq<Option<u128>>, n: usize)
    requires
        g.len() == n,
    ensures
        reached(g) * max_distance() <= 0x800_0000_0000_0000_0000_0000_0000,
{
    lemma_reached_bounded(g);
    let r = reached(g);
    let m = max_distance();
    assert(r * m <= 0x800_0000_0000_0000_0000_0000_0000) by (nonlinear_arith)
        requires
            0 <= r <= 0x1_0000_0000_0000_0000,
            m == 0x800_0000_0000,
    ;
}

impl Search {
    /// What holds of the search while vertex `cur` is being expanded and the
    /// vertices before place `upto` have been looked at from it.
    pub(crate) closed spec fn ok(
        &self,
        verts: Seq<Point>,
        polys: Seq<Polygon>,
        s: int,
        t: int,
        cur: int,
        upto: int,
    ) -> bool {
        search_ok(verts, polys, self.g_score@, self.came_from@, self.open_list@, s, t, cur, upto)
    }

    /// The state of the search as the state machine sees it.
    pub(crate) closed spec fn progress(&self) -> Progress {
        lift(self.g_score@, self.came_from@, self.open_list@)
    }

}

/// Looks from `cur` at vertex `j`, and where a shorter way to `j` shows, by
/// the parent of `cur` if `j` can be seen from there and by `cur` if not,
/// takes it and puts `j` on the open list: one relaxation of the state
/// machine.
pub(crate) fn relax(
    st: &mut Search,
    verts: &Vec<Point>,
    polygons: &[Polygon],
    goal: &Point,
    cur: usize,
    j: usize,
    Ghost(s): Ghost<int>,
    Ghost(t): Ghost<int>,
    Ghost(first): Ghost<bool>,
)
    requires
        old(st).ok(verts@, polygons@, s, t, cur as int, j as int),
        cur < verts.len(),
        j < verts.len(),
        old(st).g_score@[cur as int] is Some,
        *goal == verts@[t],
        first ==> cur == s && untouched_from(old(st).g_score@, s, j as int),
        direct(verts@, polygons@, s, t) ==> goal_on_start(
            verts@,
            old(st).g_score@,
            old(st).came_from@,
            s,
            t,
        ) || (first && j <= t),
    ensures
        final(st).ok(verts@, polygons@, s, t, cur as int, j + 1),
        final(st).came_from@[cur as int] == old(st).came_from@[cur as int],
        final(st).g_score@[cur as int] == old(st).g_score@[cur as int],
        first ==> untouched_from(final(st).g_score@, s, j + 1),
        direct(verts@, polygons@, s, t) ==> goal_on_start(
            verts@,
            final(st).g_score@,
            final(st).came_from@,
            s,
            t,
        ) || (first && j + 1 <= t),
        final(st).progress() == relaxed(
            old(st).progress(),
            verts@,
            polygons@,
            t,
            cur as int,
            j as int,
        ),
{
    let ghost g = st.g_score@;
    let ghost parent = st.came_from@;
    let ghost open = st.open_list@;
    if j == cur {
        proof {
            lemma_frontier_advance(verts@, polygons@, g, open, t, cur as int, j as int);
            lemma_settled_advance(verts@, polygons@, g, open, t, cur as int, j as int);
        }
        return ;
    }
    let vc = verts[cur];
    let vj = verts[j];
    if !line_of_sight(&vc, &vj, polygons) {
        proof {
            lemma_frontier_advance(verts@, polygons@, g, open, t, cur as int, j as int);
            lemma_settled_advance(verts@, polygons@, g, open, t, cur as int, j as int);
        }
        return ;
    }
    let p = st.came_from[cur];
    let vp = verts[p];
    proof {
        lemma_score_fits(g, verts.len());
        assert(g[p as int] is Some && g[p as int].unwrap() <= reached(g) * max_distance()
            && g[cur as int].unwrap() <= reached(g) * max_distance()) by {
            reveal(tree_ok);
            reveal(bounds_ok);
        }
    }
    let (tentative, cand) = if line_of_sight(&vp, &vj, polygons) {
        let gp = st.g_score[p].unwrap();
        (gp + heuristic(&vp, &vj) as u128, p)
    } else {
        let gc = st.g_score[cur].unwrap();
        (gc + heuristic(&vc, &vj) as u128, cur)
    };
    proof {
        lemma_parent_is_no_detour(verts@, polygons@, g, parent, s, t, cur as int, j as int);
        assert(tentative <= g[cur as int].unwrap() + distance(verts@[cur as int], verts@[j as int]));
    }
    let better = match st.g_score[j] {
        None => true,
        Some(known) => tentative < known,
    };
    if better {
        proof {
            assert(improves(verts@, polygons@, g, j, cand, tentative));
        }
        let f = tentative + heuristic(&vj, goal) as u128;
        proof {
            lemma_lift_relaxation(g, parent, open, j, cand, tentative, f);
            lemma_relaxation(
                verts@,
                polygons@,
                g,
                parent,
                open,
                s,
                t,
                cur as int,
                j as int,
                j,
                cand,
                tentative,
                f,
            );
        }
        st.g_score.set(j, Some(tentative));
        st.came_from.set(j, cand);
        st.open_list.push(Node { vertex: j, g_score: tentative, f_score: f });
        proof {
            lemma_frontier_advance(
                verts@,
                polygons@,
                st.g_score@,
                st.open_list@,
                t,
                cur as int,
                j as int,
            );
            lemma_settled_advance(
                verts@,
                polygons@,
                st.g_score@,
                st.open_list@,
                t,
                cur as int,
                j as int,
            );
            lemma_distance_zero(verts@[s], verts@[s]);
        }
    } else {
        proof {
            lemma_frontier_advance(verts@, polygons@, g, open, t, cur as int, j as int);
            lemma_settled_advance(verts@, polygons@, g, open, t, cur as int, j as int);
        }
    }
}

/// Which vertex is being expanded does not matter once all the vertices have
/// been looked at from it.
proof fn lemma_frontier_settled(
    verts: Seq<Point>,
    polys: Seq<Polygon>,
    g: Seq<Option<u128>>,
    open: Seq<Node>,
    t: int,
    cur: int,
    other: int,
)
    requires
        frontier_ok(verts, polys, g, open, t, cur, verts.len() as int),
    ensures
        frontier_ok(verts, polys, g, open, t, other, verts.len() as int),
{
    reveal(frontier_ok);
}

/// Which vertex is being expanded does not matter to the settled vertices
/// either, once all the vertices have been looked at from it.
proof fn lemma_settled_any(
    verts: Seq<Point>,
    polys: Seq<Polygon>,
    g: Seq<Option<u128>>,
    open: Seq<Node>,
    t: int,
    cur: int,
    other: int,
)
    requires
        settled_ok(verts, polys, g, open, t, cur, verts.len() as int),
    ensures
        settled_ok(verts, polys, g, open, t, other, verts.len() as int),
{
    reveal(settled_ok);
}

/// Taking a node that stands for `cur` out of the open list leaves `cur` to
/// be expanded at its cost, and keeps the rest settled.
proof fn lemma_pop_settled(
    verts: Seq<Point>,
    polys: Seq<Polygon>,
    g: Seq<Option<u128>>,
    open: Seq<Node>,
    t: int,
    k: int,
    other: int,
)
    requires
        0 <= k < open.len(),
        open[k].vertex != t,
        priced_ok(verts, g, open, t),
        settled_ok(verts, polys, g, open, t, other, verts.len() as int),
    ensures
        priced_ok(verts, g, open.remove(k), t),
        settled_ok(verts, polys, g, open.remove(k), t, open[k].vertex as int, 0),
{
    reveal(settled_ok);
    reveal(priced_ok);
    let open2 = open.remove(k);
    let cur = open[k].vertex as int;
    assert forall|m: int| 0 <= m < open2.len() implies {
        let node = #[trigger] open2[m];
        &&& node.vertex < g.len()
        &&& g[node.vertex as int] is Some
        &&& g[node.vertex as int].unwrap() <= node.g_score
        &&& node.f_score == node.g_score + distance(verts[node.vertex as int], verts[t])
    } by {
        if m < k {
            assert(open2[m] == open[m]);
        } else {
            assert(open2[m] == open[m + 1]);
        }
    }
    assert forall|i: int| 0 <= i < verts.len() && (#[trigger] g[i]) is Some implies waits_at_cost(
        open2,
        g,
        i,
    ) || (i != t && relaxed_upto(
        verts,
        polys,
        g,
        i,
        if i == cur {
            0
        } else {
            verts.len() as int
        },
    )) by {
        if i != cur && waits_at_cost(open, g, i) {
            let m = choose|m: int|
                0 <= m < open.len() && (#[trigger] open[m]).vertex == i && g[i] == Some(
                    open[m].g_score,
                );
            if m < k {
                assert(open2[m].vertex == i);
            } else {
                assert(open2[m - 1].vertex == i);
            }
        }
    }
}

/// Taking a node that stands for `cur` out of the open list leaves `cur` to
/// be expanded, and keeps the rest.
proof fn lemma_pop_frontier(
    verts: Seq<Point>,
    polys: Seq<Polygon>,
    g: Seq<Option<u128>>,
    open: Seq<Node>,
    t: int,
    k: int,
    other: int,
)
    requires
        0 <= k < open.len(),
        open[k].vertex != t,
        open_ok(g, open),
        frontier_ok(verts, polys, g, open, t, other, verts.len() as int),
    ensures
        open_ok(g, open.remove(k)),
        frontier_ok(verts, polys, g, open.remove(k), t, open[k].vertex as int, 0),
{
    reveal(frontier_ok);
    reveal(open_ok);
    let open2 = open.remove(k);
    let cur = open[k].vertex as int;
    assert forall|m: int| 0 <= m < open2.len() implies {
        let node = #[trigger] open2[m];
        &&& node.vertex < g.len()
        &&& g[node.vertex as int] is Some
    } by {
        if m < k {
            assert(open2[m] == open[m]);
        } else {
            assert(open2[m] == open[m + 1]);
        }
    }
    assert forall|i: int| 0 <= i < verts.len() && (#[trigger] g[i]) is Some implies in_open(
        open2,
        i,
    ) || (i != t && closed_upto(
        verts,
        polys,
        g,
        i,
        if i == cur {
            0
        } else {
            verts.len() as int
        },
    )) by {
        if i != cur && in_open(open, i) {
            let m = choose|m: int| 0 <= m < open.len() && (#[trigger] open[m]).vertex == i;
            if m < k {
                assert(open2[m].vertex == i);
            } else {
                assert(open2[m - 1].vertex == i);
            }
        }
    }
}

/// Once nothing waits in the open list, every point on a way from the start
/// is a reached vertex.
proof fn lemma_route_reached(
    verts: Seq<Point>,
    polys: Seq<Polygon>,
    g: Seq<Option<u128>>,
    parent: Seq<usize>,
    s: int,
    t: int,
    route: Seq<Point>,
    k: int,
) -> (a: int)
    requires
        search_ok(verts, polys, g, parent, Seq::<Node>::empty(), s, t, 0, verts.len() as int),
        is_route(route, verts, polys, verts[s], verts[t]),
        0 <= k < route.len(),
    ensures
        0 <= a < verts.len(),
        verts[a] == route[k],
        g[a] is Some,
    decreases k,
{
    if k == 0 {
        s
    } else {
        let a = lemma_route_reached(verts, polys, g, parent, s, t, route, k - 1);
        if k == route.len() - 1 {
            assert(verts[t] == route[k]);
        }
        assert(verts.contains(route[k]));
        let b = choose|b: int| 0 <= b < verts.len() && verts[b] == route[k];
        if b != a {
            reveal(frontier_ok);
            assert(g[a] is Some);
            assert(!in_open(Seq::<Node>::empty(), a));
            assert(closed_upto(verts, polys, g, a, verts.len() as int));
            assert(visible(route[k - 1], route[k - 1 + 1], polys));
            assert(g[b] is Some);
        }
        b
    }
}

/// Once nothing waits in the open list and the goal was not taken from it,
/// there is no way from the start to the goal.
proof fn lemma_exhausted(
    verts: Seq<Point>,
    polys: Seq<Polygon>,
    g: Seq<Option<u128>>,
    parent: Seq<usize>,
    s: int,
    t: int,
    route: Seq<Point>,
)
    requires
        search_ok(verts, polys, g, parent, Seq::<Node>::empty(), s, t, 0, verts.len() as int),
    ensures
        !is_route(route, verts, polys, verts[s], verts[t]),
{
    if is_route(route, verts, polys, verts[s], verts[t]) {
        let a = lemma_route_reached(verts, polys, g, parent, s, t, route, route.len() - 1);
        assert(a == t);
        reveal(frontier_ok);
        assert(g[t] is Some);
        assert(!in_open(Seq::<Node>::empty(), t));
    }
}

/// When the goal is next in the open list, along every way from the start
/// either the point at place `i` has been reached at no more than the length
/// of the way up to it, or the goal has been reached at no more than the
/// length of the whole way.
proof fn lemma_route_priced(
    verts: Seq<Point>,
    polys: Seq<Polygon>,
    g: Seq<Option<u128>>,
    parent: Seq<usize>,
    open: Seq<Node>,
    s: int,
    t: int,
    k: int,
    route: Seq<Point>,
    i: int,
) -> (a: int)
    requires
        search_ok(verts, polys, g, parent, open, s, t, 0, verts.len() as int),
        is_next(open, k),
        open[k].vertex == t,
        is_route(route, verts, polys, verts[s], verts[t]),
        0 <= i < route.len(),
    ensures
        g[t] is Some,
        g[t].unwrap() <= path_length(route) || (0 <= a < verts.len() && verts[a] == route[i]
            && g[a] is Some && g[a].unwrap() <= path_length(route.subrange(0, i + 1))),
    decreases i,
{
    assert(g[t] is Some && g[t].unwrap() <= open[k].g_score && open[k].f_score
        == open[k].g_score + distance(verts[t], verts[t])) by {
        reveal(priced_ok);
    }
    lemma_distance_zero(verts[t], verts[t]);
    if i == 0 {
        assert(route.subrange(0, 1).len() == 1);
        s
    } else {
        let a = lemma_route_priced(verts, polys, g, parent, open, s, t, k, route, i - 1);
        if g[t].unwrap() <= path_length(route) {
            a
        } else {
            let upto = route.subrange(0, i);
            let from = route.subrange(i - 1, route.len() as int);
            lemma_path_split(route, i - 1);
            lemma_path_not_shorter_than_straight(from);
            assert(from.first() == route[i - 1] && from.last() == verts[t]);
            assert(route.subrange(0, i + 1) =~= upto.push(route[i]));
            lemma_path_longer_by_a_step(upto, route[i]);
            assert(upto.last() == route[i - 1]);
            if i == route.len() - 1 {
                assert(verts[t] == route[i]);
            }
            assert(verts.contains(route[i]));
            let b = choose|b: int| 0 <= b < verts.len() && verts[b] == route[i];
            reveal(settled_ok);
            if waits_at_cost(open, g, a) {
                let m = choose|m: int|
                    0 <= m < open.len() && (#[trigger] open[m]).vertex == a && g[a] == Some(
                        open[m].g_score,
                    );
                assert(open[m].f_score == open[m].g_score + distance(verts[a], verts[t])) by {
                    reveal(priced_ok);
                }
                assert(open[k].f_score <= open[m].f_score);
                assert(false);
            }
            assert(a != t);
            assert(relaxed_upto(verts, polys, g, a, verts.len() as int));
            if b != a {
                assert(visible(route[i - 1], route[i - 1 + 1], polys));
                assert(g[b] is Some);
            } else {
                lemma_distance_zero(verts[a], verts[a]);
            }
            b
        }
    }
}

/// When the goal is next in the open list, it has been reached at no more
/// than the length of any way from the start to it.
proof fn lemma_best(
    verts: Seq<Point>,
    polys: Seq<Polygon>,
    g: Seq<Option<u128>>,
    parent: Seq<usize>,
    open: Seq<Node>,
    s: int,
    t: int,
    k: int,
    route: Seq<Point>,
)
    requires
        search_ok(verts, polys, g, parent, open, s, t, 0, verts.len() as int),
        is_next(open, k),
        open[k].vertex == t,
        is_route(route, verts, polys, verts[s], verts[t]),
    ensures
        g[t] is Some,
        g[t].unwrap() <= path_length(route),
{
    let last = route.len() - 1;
    let a = lemma_route_priced(verts, polys, g, parent, open, s, t, k, route, last);
    assert(route.subrange(0, last + 1) =~= route);
}

/// The way read off the parent links to a reached vertex ends at that
/// vertex, and is no longer than the cost at which the vertex was reached.
proof fn lemma_way_length(
    verts: Seq<Point>,
    polys: Seq<Polygon>,
    g: Seq<Option<u128>>,
    parent: Seq<usize>,
    s: int,
    t: int,
    c: int,
)
    requires
        shape_ok(verts, g, parent, s, t),
        tree_ok(verts, polys, g, parent, s),
        0 <= c < verts.len(),
        g[c] is Some,
    ensures
        ({
            let way = way_to(lift_scores(g), lift_parents(parent), verts, c);
            &&& way.len() >= 1
            &&& way.last() == verts[c]
            &&& path_length(way) <= g[c].unwrap()
        }),
    decreases g[c].unwrap(),
{
    lemma_rooted(verts, polys, g, parent, s, t);
    let scores = lift_scores(g);
    let parents = lift_parents(parent);
    let up = parent[c] as int;
    if up != c {
        assert(parents[c] != c);
        assert(c != s);
        assert(g[up] is Some && g[up].unwrap() + distance(verts[up], verts[c]) <= g[c].unwrap()) by {
            reveal(tree_ok);
        }
        assert(scores[up].unwrap() < scores[c].unwrap());
        lemma_way_length(verts, polys, g, parent, s, t, up);
        let before = way_to(scores, parents, verts, up);
        assert(way_to(scores, parents, verts, c) == before.push(verts[c]));
        lemma_path_longer_by_a_step(before, verts[c]);
    } else {
        assert(parents[c] == c);
        assert(way_to(scores, parents, verts, c) == seq![verts[c]]);
    }
}

/// Looks from `cur` at every vertex in turn.
pub(crate) fn expand(
    st: &mut Search,
    verts: &Vec<Point>,
    polygons: &[Polygon],
    goal: &Point,
    cur: usize,
    Ghost(s): Ghost<int>,
    Ghost(t): Ghost<int>,
    Ghost(first): Ghost<bool>,
)
    requires
        old(st).ok(verts@, polygons@, s, t, cur as int, 0),
        cur < verts.len(),
        old(st).g_score@[cur as int] is Some,
        *goal == verts@[t],
        first ==> cur == s && untouched_from(old(st).g_score@, s, 0),
        direct(verts@, polygons@, s, t) ==> goal_on_start(
            verts@,
            old(st).g_score@,
            old(st).came_from@,
            s,
            t,
        ) || first,
    ensures
        final(st).ok(verts@, polygons@, s, t, cur as int, verts@.len() as int),
        direct(verts@, polygons@, s, t) ==> goal_on_start(
            verts@,
            final(st).g_score@,
            final(st).came_from@,
            s,
            t,
        ),
        final(st).progress() == expanded(
            old(st).progress(),
            verts@,
            polygons@,
            t,
            cur as int,
            verts@.len(),
        ),
{
    let n = verts.len();
    let mut j: usize = 0;
    while j < n
        invariant
            n == verts@.len(),
            j <= n,
            st.progress() == expanded(
                old(st).progress(),
                verts@,
                polygons@,
                t,
                cur as int,
                j as nat,
            ),
            st.ok(verts@, polygons@, s, t, cur as int, j as int),
            cur < n,
            st.g_score@[cur as int] is Some,
            *goal == verts@[t],
            first ==> cur == s && untouched_from(st.g_score@, s, j as int),
            direct(verts@, polygons@, s, t) ==> goal_on_start(
                verts@,
                st.g_score@,
                st.came_from@,
                s,
                t,
            ) || (first && j <= t),
        decreases n - j,
    {
        relax(st, verts, polygons, goal, cur, j, Ghost(s), Ghost(t), Ghost(first));
        j += 1;
    }
}

/// The points of `v`, last first.
pub(crate) fn reversed(v: &Vec<Point>) -> (r: Vec<Point>)
    ensures
        r@ == v@.reverse(),
{
    let n = v.len();
    let mut r: Vec<Point> = Vec::new();
    let mut i: usize = n;
    while i > 0
        invariant
            n == v@.len(),
            i <= n,
            r@.len() == n - i,
            forall|k: int| 0 <= k < r@.len() ==> r@[k] == v@[n - 1 - k],
        decreases i,
    {
        i -= 1;
        r.push(v[i]);
    }
    assert(r@ =~= v@.reverse());
    r
}

/// The parent links from the goal back to vertex `c`, as far as they have
/// been walked: `rev` holds the vertices passed, the goal first.
pub open spec fn walked_back(
    rev: Seq<Point>,
    verts: Seq<Point>,
    polys: Seq<Polygon>,
    c: int,
    t: int,
) -> bool {
    &&& rev.len() == 0 ==> c == t
    &&& rev.len() > 0 ==> rev[0] == verts[t] && visible(verts[c], rev[rev.len() - 1], polys)
    &&& forall|k: int| 0 <= k < rev.len() - 1 ==> visible(rev[k + 1], #[trigger] rev[k], polys)
    &&& forall|k: int| 0 <= k < rev.len() ==> verts.contains(#[trigger] rev[k])
}

/// The points of `rev` are the vertices at the places `places`, and their
/// scores fall from each to the next.
pub open spec fn scores_fall(
    rev: Seq<Point>,
    places: Seq<int>,
    verts: Seq<Point>,
    g: Seq<Option<u128>>,
) -> bool {
    &&& places.len() == rev.len()
    &&& forall|k: int|
        0 <= k < rev.len() ==> 0 <= #[trigger] places[k] < verts.len() && verts[places[k]]
            == rev[k] && g[places[k]] is Some
    &&& forall|k: int, m: int|
        0 <= k < m < rev.len() ==> g[#[trigger] places[k]].unwrap() > g[#[trigger] places[m]].unwrap()
}

/// In the tree of the search every vertex that is not its own parent was
/// reached at a higher cost than its parent.
proof fn lemma_rooted(
    verts: Seq<Point>,
    polys: Seq<Polygon>,
    g: Seq<Option<u128>>,
    parent: Seq<usize>,
    s: int,
    t: int,
)
    requires
        shape_ok(verts, g, parent, s, t),
        tree_ok(verts, polys, g, parent, s),
    ensures
        rooted(lift_scores(g), lift_parents(parent)),
{
    reveal(tree_ok);
    let scores = lift_scores(g);
    let parents = lift_parents(parent);
    assert forall|i: int| 0 <= i < scores.len() && #[trigger] parents[i] != i implies {
        let up = parents[i];
        &&& 0 <= up < scores.len()
        &&& scores[i] is Some
        &&& scores[up] is Some
        &&& scores[up].unwrap() < scores[i].unwrap()
    } by {
        let up = parent[i] as int;
        assert(g[i] is Some);
        assert(i != s);
        assert(verts[up] != verts[i]);
        lemma_distance_zero(verts[up], verts[i]);
    }
}

/// The way from the start to vertex `goal_index`, read off the parent links.
pub(crate) fn reconstruct(
    st: &Search,
    verts: &Vec<Point>,
    start: &Point,
    goal_index: usize,
    Ghost(polys): Ghost<Seq<Polygon>>,
    Ghost(s): Ghost<int>,
) -> (path: Vec<Point>)
    requires
        shape_ok(verts@, st.g_score@, st.came_from@, s, goal_index as int),
        tree_ok(verts@, polys, st.g_score@, st.came_from@, s),
        st.g_score@[goal_index as int] is Some,
        *start == verts@[s],
    ensures
        is_route(path@, verts@, polys, verts@[s], verts@[goal_index as int]),
        path@.no_duplicates(),
        forall|i: int| 0 <= i < path@.len() ==> verts@.contains(#[trigger] path@[i]),
        path@ == way_to(
            lift_scores(st.g_score@),
            lift_parents(st.came_from@),
            verts@,
            goal_index as int,
        ),
        s == goal_index ==> path@ == seq![*start],
        s != goal_index && goal_on_start(
            verts@,
            st.g_score@,
            st.came_from@,
            s,
            goal_index as int,
        ) ==> path@ == seq![*start, verts@[goal_index as int]],
{
    let ghost t = goal_index as int;
    let ghost scores = lift_scores(st.g_score@);
    let ghost parents = lift_parents(st.came_from@);
    proof {
        lemma_rooted(verts@, polys, st.g_score@, st.came_from@, s, t);
    }
    let mut rev: Vec<Point> = Vec::new();
    let mut c = goal_index;
    let ghost mut places: Seq<int> = Seq::empty();
    assert(way_to(scores, parents, verts@, t) =~= way_to(scores, parents, verts@, c as int)
        + rev@.reverse());
    while st.came_from[c] != c
        invariant
            scores == lift_scores(st.g_score@),
            parents == lift_parents(st.came_from@),
            rooted(scores, parents),
            way_to(scores, parents, verts@, t) == way_to(scores, parents, verts@, c as int)
                + rev@.reverse(),
            shape_ok(verts@, st.g_score@, st.came_from@, s, t),
            tree_ok(verts@, polys, st.g_score@, st.came_from@, s),
            c < verts@.len(),
            st.g_score@[c as int] is Some,
            walked_back(rev@, verts@, polys, c as int, t),
            scores_fall(rev@.push(verts@[c as int]), places.push(c as int), verts@, st.g_score@),
            s == t ==> rev@.len() == 0 && c == t,
            s != t && goal_on_start(verts@, st.g_score@, st.came_from@, s, t) ==> (rev@.len() == 0
                && c == t) || (rev@ == seq![verts@[t]] && c == s),
        decreases st.g_score@[c as int].unwrap(),
    {
        let next = st.came_from[c];
        proof {
            reveal(tree_ok);
            assert(c != s);
            assert(verts@[next as int] != verts@[c as int]);
            lemma_distance_zero(verts@[next as int], verts@[c as int]);
            assert(verts@.contains(verts@[c as int]));
        }
        let ghost before = rev@;
        rev.push(verts[c]);
        proof {
            assert(way_to(scores, parents, verts@, c as int) == way_to(
                scores,
                parents,
                verts@,
                next as int,
            ).push(verts@[c as int]));
            assert(rev@.reverse() =~= seq![verts@[c as int]] + before.reverse());
            assert(way_to(scores, parents, verts@, t) =~= way_to(
                scores,
                parents,
                verts@,
                next as int,
            ) + rev@.reverse());
            let old_places = places.push(c as int);
            let new_places = old_places.push(next as int);
            let new_rev = rev@.push(verts@[next as int]);
            assert forall|k: int, m: int| 0 <= k < m < new_rev.len() implies st.g_score@[#[trigger] new_places[k]].unwrap()
                > st.g_score@[#[trigger] new_places[m]].unwrap() by {
                if m < new_rev.len() - 1 {
                    assert(old_places[k] == new_places[k] && old_places[m] == new_places[m]);
                } else if k < m - 1 {
                    assert(old_places[k] == new_places[k]);
                    assert(st.g_score@[old_places[k]].unwrap() > st.g_score@[old_places[m - 1]].unwrap());
                }
            }
            assert forall|k: int| 0 <= k < new_rev.len() implies 0 <= #[trigger] new_places[k]
                < verts@.len() && verts@[new_places[k]] == new_rev[k] && st.g_score@[new_places[k]] is Some by {
                if k < new_rev.len() - 1 {
                    assert(old_places[k] == new_places[k]);
                }
            }
            places = old_places;
            assert forall|k: int| 0 <= k < rev@.len() - 1 implies visible(
                rev@[k + 1],
                #[trigger] rev@[k],
                polys,
            ) by {
                if k < before.len() - 1 {
                    assert(visible(before[k + 1], before[k], polys));
                }
            }
            assert forall|k: int| 0 <= k < rev@.len() implies verts@.contains(
                #[trigger] rev@[k],
            ) by {
                if k < before.len() {
                    assert(verts@.contains(before[k]));
                }
            }
            if s != t && goal_on_start(verts@, st.g_score@, st.came_from@, s, t) {
                assert(rev@ =~= seq![verts@[t]]);
            }
        }
        c = next;
    }
    proof {
        reveal(tree_ok);
        assert(c == s);
        assert(verts@.contains(verts@[s]));
    }
    let ghost before = rev@;
    rev.push(*start);
    let path = reversed(&rev);
    proof {
        assert(way_to(scores, parents, verts@, c as int) == seq![verts@[s]]);
        assert(path@ =~= seq![*start] + before.reverse());
        let len = rev@.len() as int;
        let all_places = places.push(c as int);
        assert forall|i: int, j: int| 0 <= i < path@.len() && 0 <= j < path@.len() && i != j implies path@[i]
            != path@[j] by {
            let (ki, kj) = (len - 1 - i, len - 1 - j);
            assert(verts@[all_places[ki]] == rev@[ki]);
            assert(verts@[all_places[kj]] == rev@[kj]);
            if ki < kj {
                assert(st.g_score@[all_places[ki]].unwrap() > st.g_score@[all_places[kj]].unwrap());
            } else {
                assert(st.g_score@[all_places[kj]].unwrap() > st.g_score@[all_places[ki]].unwrap());
            }
        }
        assert forall|i: int| 0 <= i < path@.len() implies verts@.contains(#[trigger] path@[i]) by {
            let k = len - 1 - i;
            if k < before.len() {
                assert(verts@.contains(before[k]));
            }
        }
        assert forall|i: int| 0 <= i < path@.len() - 1 implies visible(
            #[trigger] path@[i],
            path@[i + 1],
            polys,
        ) by {
            let k = len - 2 - i;
            assert(path@[i] == rev@[k + 1]);
            assert(path@[i + 1] == rev@[k]);
            if k < before.len() - 1 {
                assert(visible(before[k + 1], before[k], polys));
            }
        }
        if s == t {
            assert(path@ =~= seq![*start]);
        }
        if s != t && goal_on_start(verts@, st.g_score@, st.came_from@, s, t) {
            assert(path@ =~= seq![*start, verts@[t]]);
        }
    }
    path
}

/// At the outset only the start has been reached, and it alone waits.
proof fn lemma_outset(
    verts: Seq<Point>,
    polys: Seq<Polygon>,
    g: Seq<Option<u128>>,
    parent: Seq<usize>,
    open: Seq<Node>,
    s: int,
    t: int,
)
    requires
        verts.no_duplicates(),
        g.len() == verts.len(),
        parent.len() == verts.len(),
        0 <= s < verts.len(),
        0 <= t < verts.len(),
        forall|i: int| 0 <= i < verts.len() ==> (#[trigger] parent[i]) == i,
        forall|i: int| 0 <= i < verts.len() && i != s ==> (#[trigger] g[i]) is None,
        g[s] == Some(0u128),
        open.len() == 1,
        open[0].vertex == s,
        open[0].g_score == 0,
        open[0].f_score == distance(verts[s], verts[t]),
    ensures
        search_ok(verts, polys, g, parent, open, s, t, 0, verts.len() as int),
        untouched_from(g, s, 0),
{
    reveal(tree_ok);
    reveal(bounds_ok);
    reveal(open_ok);
    reveal(frontier_ok);
    reveal(priced_ok);
    reveal(settled_ok);
    assert(waits_at_cost(open, g, s)) by {
        assert(open[0].vertex == s && g[s] == Some(open[0].g_score));
    }
    lemma_distance_zero(verts[s], verts[s]);
    assert(reached(g) * max_distance() >= 0) by (nonlinear_arith)
        requires
            reached(g) >= 0,
            max_distance() >= 0,
    ;
    assert(in_open(open, s)) by {
        assert(open[0].vertex == s);
    }
}

/// The state of the search is well shaped as the state machine sees it.
proof fn lemma_well_shaped(
    verts: Seq<Point>,
    polys: Seq<Polygon>,
    g: Seq<Option<u128>>,
    parent: Seq<usize>,
    open: Seq<Node>,
    s: int,
    t: int,
)
    requires
        search_ok(verts, polys, g, parent, open, s, t, 0, verts.len() as int),
    ensures
        well_shaped(lift(g, parent, open), verts.len()),
{
    reveal(open_ok);
}

/// The node that the open list hands out is the one that the state machine
/// takes.
proof fn lemma_next_lifted(open: Seq<Node>, k: int)
    requires
        is_next(open, k),
    ensures
        next_up(lift_open(open)) == k,
{
    let lifted = lift_open(open);
    assert(is_next_up(lifted, k)) by {
        assert forall|m: int| 0 <= m < lifted.len() implies lifted[k].f_score <= (
        #[trigger] lifted[m]).f_score by {
            assert(open[k].f_score <= open[m].f_score);
        }
        assert forall|m: int| 0 <= m < k implies lifted[k].f_score < (
        #[trigger] lifted[m]).f_score by {
            assert(open[k].f_score < open[m].f_score);
        }
    }
    lemma_next_up(lifted);
}

/// The any-angle search over vertices that are all different, from the vertex
/// at `start_index` to the one at `goal_index`.
///
/// The vertex with the lowest score is taken from the open list and every
/// other vertex that can be seen from it is relaxed, until the goal is taken
/// or nothing waits. The result is the way found, from the start to the goal,
/// or empty where there is none.
pub(crate) fn run(verts: &Vec<Point>, start_index: usize, goal_index: usize, polygons: &[Polygon]) -> (path:
    Vec<Point>)
    requires
        verts@.no_duplicates(),
        start_index < verts.len(),
        goal_index < verts.len(),
    ensures
        path@.len() > 0 ==> is_route(
            path@,
            verts@,
            polygons@,
            verts@[start_index as int],
            verts@[goal_index as int],
        ),
        path@.len() > 0 ==> path@.no_duplicates(),
        path@.len() > 0 ==> forall|i: int|
            0 <= i < path@.len() ==> verts@.contains(#[trigger] path@[i]),
        path@.len() == 0 ==> forall|route: Seq<Point>|
            !is_route(
                route,
                verts@,
                polygons@,
                verts@[start_index as int],
                verts@[goal_index as int],
            ),
        start_index == goal_index ==> path@ == seq![verts@[start_index as int]],
        start_index != goal_index && visible(
            verts@[start_index as int],
            verts@[goal_index as int],
            polygons@,
        ) ==> path@ == seq![verts@[start_index as int], verts@[goal_index as int]],
        path@ == searched(
            outset(verts@, start_index as int, goal_index as int),
            verts@,
            polygons@,
            goal_index as int,
        ),
        forall|route: Seq<Point>|
            is_route(
                route,
                verts@,
                polygons@,
                verts@[start_index as int],
                verts@[goal_index as int],
            ) ==> path_length(path@) <= #[trigger] path_length(route),
{
    let n = verts.len();
    let start = verts[start_index];
    let goal = verts[goal_index];
    let ghost s = start_index as int;
    let ghost t = goal_index as int;

    let mut g_score: Vec<Option<u128>> = Vec::new();
    let mut came_from: Vec<usize> = Vec::new();
    let mut i: usize = 0;
    while i < n
        invariant
            i <= n,
            g_score@.len() == i,
            came_from@.len() == i,
            forall|k: int| 0 <= k < i ==> (#[trigger] g_score@[k]) is None,
            forall|k: int| 0 <= k < i ==> (#[trigger] came_from@[k]) == k,
        decreases n - i,
    {
        g_score.push(None);
        came_from.push(i);
        i += 1;
    }
    g_score.set(start_index, Some(0));
    let mut open_list = OpenList::new();
    open_list.push(Node { vertex: start_index, g_score: 0, f_score: heuristic(&start, &goal) as u128 });
    let mut st = Search { g_score, came_from, open_list };
    let ghost mut first = true;
    let ghost answer = searched(outset(verts@, s, t), verts@, polygons@, t);
    proof {
        lemma_outset(verts@, polygons@, st.g_score@, st.came_from@, st.open_list@, s, t);
        let from = outset(verts@, s, t);
        assert(st.progress().g_score =~= from.g_score);
        assert(st.progress().came_from =~= from.came_from);
        assert(st.progress().open_list =~= from.open_list);
    }
    loop
        invariant
            n == verts@.len(),
            answer == searched(outset(verts@, s, t), verts@, polygons@, t),
            answer == searched(st.progress(), verts@, polygons@, t),
            s == start_index,
            t == goal_index,
            start_index < n,
            goal_index < n,
            start == verts@[s],
            goal == verts@[t],
            st.ok(verts@, polygons@, s, t, 0, n as int),
            first ==> st.open_list@.len() == 1 && st.open_list@[0].vertex == s && untouched_from(
                st.g_score@,
                s,
                0,
            ),
            direct(verts@, polygons@, s, t) ==> goal_on_start(
                verts@,
                st.g_score@,
                st.came_from@,
                s,
                t,
            ) || first,
        decreases
            not_reached(st.progress().g_score),
            score_sum(st.progress().g_score),
            st.progress().open_list.len(),
    {
        let ghost before = st.open_list@;
        let ghost was = st.progress();
        proof {
            lemma_well_shaped(verts@, polygons@, st.g_score@, st.came_from@, st.open_list@, s, t);
            lemma_searched_step(was, verts@, polygons@, t);
            if was.open_list.len() > 0 {
                lemma_step_progress(was, verts@, polygons@, t);
            }
        }
        let popped = st.open_list.pop();
        match popped {
            None => {
                proof {
                    assert(was.open_list.len() == 0);
                    assert(st.open_list@ =~= Seq::<Node>::empty());
                    assert forall|route: Seq<Point>|
                        !is_route(route, verts@, polygons@, verts@[s], verts@[t]) by {
                        lemma_exhausted(
                            verts@,
                            polygons@,
                            st.g_score@,
                            st.came_from@,
                            s,
                            t,
                            route,
                        );
                    }
                    // The start is a way to itself, and a goal in sight of the
                    // start is reached in the first expansion.
                    reveal(frontier_ok);
                    assert(st.g_score@[s] is Some);
                    assert(!in_open(Seq::<Node>::empty(), s));
                    assert(!in_open(Seq::<Node>::empty(), t));
                }
                return Vec::new();
            },
            Some(node) => {
                let cur = node.vertex;
                let ghost k = choose|k: int|
                    #[trigger] crate::open_list::is_next(before, k) && node == before[k]
                        && st.open_list@ == before.remove(k);
                proof {
                    assert(cur < n && st.g_score@[cur as int] is Some) by {
                        reveal(open_ok);
                    }
                    lemma_next_lifted(before, k);
                    assert(was.open_list[k] == lift_node(node));
                    assert(st.progress().open_list =~= was.open_list.remove(k));
                }
                if verts[cur] == goal {
                    assert(cur == goal_index);
                    proof {
                        lemma_way_length(verts@, polygons@, st.g_score@, st.came_from@, s, t, t);
                        assert forall|route: Seq<Point>|
                            is_route(route, verts@, polygons@, verts@[s], verts@[t]) implies st.g_score@[t].unwrap()
                            <= #[trigger] path_length(route) by {
                            lemma_best(
                                verts@,
                                polygons@,
                                st.g_score@,
                                st.came_from@,
                                before,
                                s,
                                t,
                                k,
                                route,
                            );
                        }
                    }
                    return reconstruct(&st, verts, &start, cur, Ghost(polygons@), Ghost(s));
                }
                let ghost taken = st.progress();
                proof {
                    lemma_pop_frontier(verts@, polygons@, st.g_score@, before, t, k, 0);
                    lemma_pop_settled(verts@, polygons@, st.g_score@, before, t, k, 0);
                    assert(taken == (Progress { open_list: was.open_list.remove(k), ..was }));
                }
                expand(&mut st, verts, polygons, &goal, cur, Ghost(s), Ghost(t), Ghost(first));
                proof {
                    lemma_frontier_settled(
                        verts@,
                        polygons@,
                        st.g_score@,
                        st.open_list@,
                        t,
                        cur as int,
                        0,
                    );
                    lemma_settled_any(
                        verts@,
                        polygons@,
                        st.g_score@,
                        st.open_list@,
                        t,
                        cur as int,
                        0,
                    );
                    first = false;
                }
            },
        }
    }
}

} // verus!
