//! The lookup from a node of the action tree and a hand to a row of the
//! abstraction: by the hand itself before the flop, by the hand's cluster on
//! the later rounds.
use vstd::prelude::*;

verus! {

/// A node of the action tree.
#[derive(Debug)]
pub struct Node {
    /// The row after the last row of this node.
    pub i: u32,
    pub n: u32,
    /// The betting round, from 0 (before the flop) to 3 (the river).
    pub r: u32,
    pub t: u32,
    /// The action that leads to this node.
    pub a: char,
    pub s0: u32,
    pub s1: u32,
    /// The places in the tree of the nodes that the actions lead to.
    pub children: Vec<usize>,
}

/// An action tree with the cluster of every hand on the flop, the turn and
/// the river.
pub struct Abstraction {
    cluster_1: Vec<u16>,
    cluster_2: Vec<u16>,
    cluster_3: Vec<u16>,
    tree: Vec<Node>,
}

impl Abstraction {
    /// The nodes of the tree, the root first.
    pub closed spec fn tree(&self) -> Seq<Node> {
        self.tree@
    }

    /// The cluster of every hand on round `round` (1, 2 or 3).
    pub closed spec fn clusters(&self, round: u32) -> Seq<u16> {
        if round == 1 {
            self.cluster_1@
        } else if round == 2 {
            self.cluster_2@
        } else {
            self.cluster_3@
        }
    }

    /// The bucket of a hand on a round: the hand's own index before the
    /// flop, its cluster afterwards.
    pub open spec fn bucket(&self, round: u32, hand: u32) -> int {
        if round == 0 {
            hand as int
        } else {
            self.clusters(round)[hand as int] as int
        }
    }

    /// Whether `hand` has a row at `node`: the round exists, the hand is
    /// known on it, and its bucket lies below the node's rows.
    pub open spec fn can_index(&self, hand: u32, node: &Node) -> bool {
        &&& node.r <= 3
        &&& node.r >= 1 ==> hand < self.clusters(node.r).len()
        &&& self.bucket(node.r, hand) < node.i
    }

    /// The abstraction over the given tree and cluster tables.
    pub fn new(cluster_1: Vec<u16>, cluster_2: Vec<u16>, cluster_3: Vec<u16>, tree: Vec<Node>) -> (r:
        Abstraction)
        ensures
            r.tree() == tree@,
            r.clusters(1) == cluster_1@,
            r.clusters(2) == cluster_2@,
            r.clusters(3) == cluster_3@,
    {
        Abstraction { cluster_1, cluster_2, cluster_3, tree }
    }

    /// The number of rows of the abstraction.
    pub fn size(&self) -> (r: u32)
        requires
            self.tree().len() > 0,
        ensures
            r == self.tree()[0].i,
    {
        self.tree[0].i
    }

    /// The root of the tree.
    pub fn root(&self) -> (r: &Node)
        requires
            self.tree().len() > 0,
        ensures
            *r == self.tree()[0],
    {
        &self.tree[0]
    }

    /// The node that `action` leads to from `node`.
    pub fn next(&self, node: &Node, action: usize) -> (r: &Node)
        requires
            action < node.children@.len(),
            node.children@[action as int] < self.tree().len(),
        ensures
            *r == self.tree()[node.children@[action as int] as int],
    {
        &self.tree[node.children[action]]
    }

    /// Whether `hand` has a row at `node`.
    pub fn indexable(&self, hand: u32, node: &Node) -> (b: bool)
        ensures
            b == self.can_index(hand, node),
    {
        let h = hand as usize;
        if node.r == 0 {
            hand < node.i
        } else if node.r == 1 {
            h < self.cluster_1.len() && (self.cluster_1[h] as u32) < node.i
        } else if node.r == 2 {
            h < self.cluster_2.len() && (self.cluster_2[h] as u32) < node.i
        } else if node.r == 3 {
            h < self.cluster_3.len() && (self.cluster_3[h] as u32) < node.i
        } else {
            false
        }
    }

    /// The row of `hand` at `node`, counted down from the node's last row by
    /// the hand's bucket. `hand` is the index of the hand among the hands of
    /// the node's round.
    pub fn index(&self, hand: u32, node: &Node) -> (r: u32)
        requires
            self.can_index(hand, node),
        ensures
            r == node.i - self.bucket(node.r, hand) - 1,
    {
        let h = hand as usize;
        let bucket = if node.r == 0 {
            hand
        } else if node.r == 1 {
            self.cluster_1[h] as u32
        } else if node.r == 2 {
            self.cluster_2[h] as u32
        } else {
            self.cluster_3[h] as u32
        };
        node.i - bucket - 1
    }
}

} // verus!
