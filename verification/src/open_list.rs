//! The open list of the search: the nodes that wait to be expanded, handed out
//! lowest score first.

use vstd::prelude::*;

verus! {

/// A vertex as the search has reached it: the cost of the way it was reached
/// by, and that cost plus the estimated rest of the way to the goal.
#[derive(Clone, Copy, Debug)]
pub struct Node {
    /// The place of the vertex among the vertices that the search runs over.
    pub vertex: usize,
    /// The cost from the start to this vertex.
    pub g_score: u128,
    /// `g_score` plus the estimate from this vertex to the goal: the key by
    /// which the open list hands nodes out.
    pub f_score: u128,
}

/// Node `i` of `nodes` is the one to hand out next: none has a lower
/// `f_score`, and of those with the same it was put in first.
pub open spec fn is_next(nodes: Seq<Node>, i: int) -> bool {
    &&& 0 <= i < nodes.len()
    &&& forall|j: int| 0 <= j < nodes.len() ==> nodes[i].f_score <= #[trigger] nodes[j].f_score
    &&& forall|j: int| 0 <= j < i ==> nodes[i].f_score < #[trigger] nodes[j].f_score
}

/// A priority queue of nodes, lowest `f_score` first. Among nodes with the
/// same `f_score` the one that was pushed first leaves first.
pub struct OpenList {
    nodes: Vec<Node>,
}

impl View for OpenList {
    type V = Seq<Node>;

    /// The waiting nodes, in the order in which they were pushed.
    closed spec fn view(&self) -> Seq<Node> {
        self.nodes@
    }
}

impl OpenList {
    /// An open list with nothing in it.
    pub fn new() -> (list: Self)
        ensures
            list@ == Seq::<Node>::empty(),
    {
        OpenList { nodes: Vec::new() }
    }

    /// The number of waiting nodes.
    pub fn len(&self) -> (n: usize)
        ensures
            n == self@.len(),
    {
        self.nodes.len()
    }

    /// Whether no node waits.
    pub fn is_empty(&self) -> (empty: bool)
        ensures
            empty == (self@.len() == 0),
    {
        self.nodes.len() == 0
    }

    /// Puts a node in, behind those already waiting.
    pub fn push(&mut self, node: Node)
        ensures
            final(self)@ == old(self)@.push(node),
    {
        self.nodes.push(node);
    }

    /// Takes out the node with the lowest `f_score`, the earliest of them
    /// where several share it. `None` when nothing waits.
    pub fn pop(&mut self) -> (popped: Option<Node>)
        ensures
            match popped {
                Some(node) => exists|i: int|
                    #[trigger] is_next(old(self)@, i) && node == old(self)@[i] && final(self)@
                        == old(self)@.remove(i),
                None => old(self)@.len() == 0 && final(self)@ == old(self)@,
            },
    {
        let n = self.nodes.len();
        if n == 0 {
            return None;
        }
        let mut best: usize = 0;
        let mut i: usize = 1;
        while i < n
            invariant
                self.nodes@ == old(self).nodes@,
                n == self.nodes@.len(),
                1 <= i <= n,
                best < i,
                forall|j: int|
                    0 <= j < i ==> self.nodes@[best as int].f_score <= #[trigger] self.nodes@[j].f_score,
                forall|j: int|
                    0 <= j < best ==> self.nodes@[best as int].f_score < #[trigger] self.nodes@[j].f_score,
            decreases n - i,
        {
            if self.nodes[i].f_score < self.nodes[best].f_score {
                best = i;
            }
            i += 1;
        }
        let node = self.nodes.remove(best);
        assert(is_next(old(self)@, best as int));
        Some(node)
    }
}

} // verus!
