//! A random forest whose trees lie one after the other in flat arrays.

use crate::fold::{accumulates, lemma_accumulates};
use crate::ieee::{le, less_or_equal};
use vstd::prelude::*;

verus! {

/// A tree as a model file gives it: node `i` splits on feature `features[i]`, its
/// children are nodes of the same tree, and -1 in place of a child marks a leaf.
pub struct RawTree {
    pub n_nodes: usize,
    pub features: Vec<i16>,
    pub thresholds: Vec<u32>,
    pub lefts: Vec<i32>,
    pub rights: Vec<i32>,
    pub probs: Vec<u32>,
}

/// A model as its file gives it.
pub struct RawModel {
    pub n_trees: usize,
    pub threshold: u32,
    pub trees: Vec<RawTree>,
}

/// Nodes of the first `t` trees.
pub open spec fn nodes_before(trees: Seq<RawTree>, t: int) -> int
    decreases t,
{
    if t <= 0 {
        0
    } else {
        nodes_before(trees, t - 1) + trees[t - 1].n_nodes
    }
}

/// A child's index, counted from the first node of all trees.
pub open spec fn rebased(child: i32, base: int) -> int {
    if child == -1 {
        -1
    } else {
        base + child
    }
}

impl RawTree {
    /// Every node is described, and the indices of its children stay within `i32`
    /// when the tree starts at `base`.
    pub open spec fn fits(&self, base: int) -> bool {
        &&& self.n_nodes <= self.features@.len()
        &&& self.n_nodes <= self.thresholds@.len()
        &&& self.n_nodes <= self.lefts@.len()
        &&& self.n_nodes <= self.rights@.len()
        &&& self.n_nodes <= self.probs@.len()
        &&& base + self.n_nodes <= i32::MAX
        &&& forall|i: int|
            0 <= i < self.n_nodes ==> rebased(#[trigger] self.lefts@[i], base) <= i32::MAX
        &&& forall|i: int|
            0 <= i < self.n_nodes ==> rebased(#[trigger] self.rights@[i], base) <= i32::MAX
    }

    /// Whether the tree fits (see [`RawTree::fits`]).
    fn check(&self, base: i32) -> (r: bool)
        requires
            0 <= base,
        ensures
            r == self.fits(base as int),
    {
        let n: usize = self.n_nodes;
        if n > self.features.len() || n > self.thresholds.len() || n > self.lefts.len() || n
            > self.rights.len() || n > self.probs.len() {
            return false;
        }
        if n > (i32::MAX - base) as usize {
            return false;
        }
        for i in 0..n
            invariant
                n == self.n_nodes,
                n <= self.lefts@.len(),
                n <= self.rights@.len(),
                0 <= base,
                forall|j: int|
                    0 <= j < i ==> rebased(#[trigger] self.lefts@[j], base as int) <= i32::MAX,
                forall|j: int|
                    0 <= j < i ==> rebased(#[trigger] self.rights@[j], base as int) <= i32::MAX,
        {
            if self.lefts[i] > i32::MAX - base || self.rights[i] > i32::MAX - base {
                return false;
            }
        }
        true
    }
}

impl RawModel {
    /// Trees that are loaded.
    pub open spec fn used(&self) -> int {
        if self.n_trees < self.trees@.len() {
            self.n_trees as int
        } else {
            self.trees@.len() as int
        }
    }

    /// Every tree that is loaded fits (see [`RawTree::fits`]).
    pub open spec fn loads(&self) -> bool {
        forall|t: int|
            0 <= t < self.used() ==> (#[trigger] self.trees@[t]).fits(
                nodes_before(self.trees@, t),
            )
    }

    /// Whether the model can be loaded (see [`RawModel::loads`]).
    pub fn is_loadable(&self) -> (r: bool)
        ensures
            r == self.loads(),
    {
        let used: usize = if self.n_trees < self.trees.len() {
            self.n_trees
        } else {
            self.trees.len()
        };
        let mut base: i32 = 0;
        for t in 0..used
            invariant
                used == self.used(),
                0 <= base,
                base == nodes_before(self.trees@, t as int),
                forall|i: int|
                    0 <= i < t ==> (#[trigger] self.trees@[i]).fits(nodes_before(self.trees@, i)),
        {
            if !self.trees[t].check(base) {
                return false;
            }
            base = base + self.trees[t].n_nodes as i32;
        }
        true
    }
}

/// The nodes of all trees in flat arrays, children by their index among all nodes.
pub struct Nodes {
    pub feat: Vec<i16>,
    pub thresh: Vec<u32>,
    pub left: Vec<i32>,
    pub right: Vec<i32>,
    pub probs: Vec<u32>,
}

impl Nodes {
    /// The arrays describe the same `count` nodes.
    pub open spec fn counts(&self, count: int) -> bool {
        &&& self.feat@.len() == count
        &&& self.thresh@.len() == count
        &&& self.left@.len() == count
        &&& self.right@.len() == count
        &&& self.probs@.len() == count
    }

    /// Node `g` is the same in both.
    pub open spec fn shares(&self, other: &Nodes, g: int) -> bool {
        &&& self.feat@[g] == other.feat@[g]
        &&& self.thresh@[g] == other.thresh@[g]
        &&& self.left@[g] == other.left@[g]
        &&& self.right@[g] == other.right@[g]
        &&& self.probs@[g] == other.probs@[g]
    }

    /// Node `i` of a tree that starts at `base` stands in its place.
    pub open spec fn holds_node(&self, tree: &RawTree, base: int, i: int) -> bool {
        &&& self.feat@[base + i] == tree.features@[i]
        &&& self.thresh@[base + i] == tree.thresholds@[i]
        &&& self.left@[base + i] == rebased(tree.lefts@[i], base)
        &&& self.right@[base + i] == rebased(tree.rights@[i], base)
        &&& self.probs@[base + i] == tree.probs@[i]
    }

    /// These are the nodes of the first `count` trees, one tree after the other.
    pub open spec fn holds(&self, trees: Seq<RawTree>, count: int) -> bool {
        &&& self.counts(nodes_before(trees, count))
        &&& forall|t: int, i: int|
            0 <= t < count && 0 <= i < trees[t].n_nodes ==> #[trigger] self.holds_node(
                &trees[t],
                nodes_before(trees, t),
                i,
            )
    }

    /// Appends the nodes of a tree that starts at `pos`.
    fn append(&mut self, tree: &RawTree, pos: i32)
        requires
            0 <= pos,
            tree.fits(pos as int),
            old(self).counts(pos as int),
        ensures
            final(self).counts(pos + tree.n_nodes),
            forall|g: int| 0 <= g < pos ==> #[trigger] final(self).shares(old(self), g),
            forall|i: int|
                0 <= i < tree.n_nodes ==> #[trigger] final(self).holds_node(tree, pos as int, i),
    {
        let ghost before = *self;
        for i in 0..tree.n_nodes
            invariant
                0 <= pos,
                tree.fits(pos as int),
                before.counts(pos as int),
                self.counts(pos + i),
                forall|g: int| 0 <= g < pos ==> #[trigger] self.shares(&before, g),
                forall|j: int| 0 <= j < i ==> #[trigger] self.holds_node(tree, pos as int, j),
        {
            let l: i32 = tree.lefts[i];
            let r: i32 = tree.rights[i];
            let ghost earlier = *self;
            assert(rebased(tree.lefts@[i as int], pos as int) <= i32::MAX);
            assert(rebased(tree.rights@[i as int], pos as int) <= i32::MAX);
            self.feat.push(tree.features[i]);
            self.thresh.push(tree.thresholds[i]);
            self.left.push(
                if l == -1 {
                    -1
                } else {
                    pos + l
                },
            );
            self.right.push(
                if r == -1 {
                    -1
                } else {
                    pos + r
                },
            );
            self.probs.push(tree.probs[i]);
            assert forall|g: int| 0 <= g < pos implies #[trigger] self.shares(&before, g) by {
                assert(earlier.shares(&before, g));
            }
            assert forall|j: int| 0 <= j < i + 1 implies #[trigger] self.holds_node(
                tree,
                pos as int,
                j,
            ) by {
                if j < i {
                    assert(earlier.holds_node(tree, pos as int, j));
                }
            }
        }
    }
}

/// A random forest: its nodes, and where each tree starts among them.
pub struct Forest {
    pub n_trees: usize,
    pub threshold: u32,
    pub nodes: Nodes,
    pub offsets: Vec<usize>,
}

impl Forest {
    /// The arrays describe the same nodes, and each tree has a place to start.
    pub open spec fn wf(&self) -> bool {
        &&& self.nodes.counts(self.nodes.left@.len() as int)
        &&& self.n_trees <= self.offsets@.len()
    }

    /// Flattens a model.
    pub fn load(raw: &RawModel) -> (r: Forest)
        requires
            raw.loads(),
        ensures
            r.wf(),
            r.n_trees == raw.used(),
            r.threshold == raw.threshold,
            r.nodes.holds(raw.trees@, raw.used()),
            r.offsets@.len() == raw.used() + 1,
            forall|t: int|
                0 <= t <= raw.used() ==> #[trigger] r.offsets@[t] == nodes_before(raw.trees@, t),
    {
        let n_trees: usize = if raw.n_trees < raw.trees.len() {
            raw.n_trees
        } else {
            raw.trees.len()
        };
        let mut nodes = Nodes {
            feat: Vec::new(),
            thresh: Vec::new(),
            left: Vec::new(),
            right: Vec::new(),
            probs: Vec::new(),
        };
        let mut offsets: Vec<usize> = Vec::new();
        let mut pos: i32 = 0;
        for t in 0..n_trees
            invariant
                raw.loads(),
                n_trees == raw.used(),
                0 <= pos,
                pos == nodes_before(raw.trees@, t as int),
                nodes.holds(raw.trees@, t as int),
                offsets@.len() == t,
                forall|j: int|
                    0 <= j < t ==> #[trigger] offsets@[j] == nodes_before(raw.trees@, j),
        {
            let tree: &RawTree = &raw.trees[t];
            assert(raw.trees@[t as int].fits(pos as int));
            offsets.push(pos as usize);
            let ghost before = nodes;
            nodes.append(tree, pos);
            pos = pos + tree.n_nodes as i32;
            assert forall|u: int, i: int|
                0 <= u < t + 1 && 0 <= i < raw.trees@[u].n_nodes implies #[trigger]
            nodes.holds_node(&raw.trees@[u], nodes_before(raw.trees@, u), i) by {
                if u < t {
                    lemma_nodes_before(raw.trees@, u, t as int);
                    assert(before.holds_node(&raw.trees@[u], nodes_before(raw.trees@, u), i));
                    assert(nodes.shares(&before, nodes_before(raw.trees@, u) + i));
                }
            }
        }
        offsets.push(pos as usize);
        Forest { n_trees, threshold: raw.threshold, nodes, offsets }
    }
}

/// Later trees start later.
proof fn lemma_nodes_before(trees: Seq<RawTree>, u: int, t: int)
    requires
        0 <= u < t,
    ensures
        0 <= nodes_before(trees, u),
        nodes_before(trees, u) + trees[u].n_nodes <= nodes_before(trees, t),
    decreases t,
{
    if u < t - 1 {
        lemma_nodes_before(trees, u, t - 1);
    } else {
        lemma_nodes_nonnegative(trees, u);
    }
}

/// Counts of nodes are not negative.
proof fn lemma_nodes_nonnegative(trees: Seq<RawTree>, t: int)
    ensures
        0 <= nodes_before(trees, t),
    decreases t,
{
    if t > 0 {
        lemma_nodes_nonnegative(trees, t - 1);
    }
}

impl Nodes {
    /// Node `idx` ends a walk.
    pub open spec fn is_leaf(&self, idx: int) -> bool {
        0 <= idx < self.left@.len() && self.left@[idx] == -1
    }

    /// Node `idx` leads a walk on, by one of the 16 features.
    pub open spec fn is_split(&self, idx: int) -> bool {
        0 <= idx < self.left@.len() && self.left@[idx] != -1 && 0 <= self.feat@[idx] < 16
    }

    /// The child that the features lead to from node `idx`: the left one where the
    /// feature is at most the threshold of the split.
    pub open spec fn child(&self, features: Seq<u32>, idx: int) -> int {
        if less_or_equal(features[self.feat@[idx] as int], self.thresh@[idx]) {
            self.left@[idx] as int
        } else {
            self.right@[idx] as int
        }
    }

    /// The leaf that a walk from node `idx` reaches in at most `steps` steps.
    pub open spec fn walk(&self, features: Seq<u32>, idx: int, steps: nat) -> Option<int>
        decreases steps,
    {
        if self.is_leaf(idx) {
            Some(idx)
        } else if self.is_split(idx) && steps > 0 {
            self.walk(features, self.child(features, idx), (steps - 1) as nat)
        } else {
            None
        }
    }

    /// The leaf that a walk from node `idx` reaches, if it reaches one (see
    /// [`Nodes::law_walk_bound`]).
    pub open spec fn leaf(&self, features: Seq<u32>, idx: int) -> Option<int> {
        self.walk(features, idx, self.left@.len())
    }

    /// Node that a walk from `idx` is at after `i` steps.
    spec fn at(&self, features: Seq<u32>, idx: int, i: nat) -> int
        decreases i,
    {
        if i == 0 {
            idx
        } else {
            self.child(features, self.at(features, idx, (i - 1) as nat))
        }
    }

    /// A walk from `idx` is at its leaf after `d` steps.
    spec fn ends(&self, features: Seq<u32>, idx: int, d: nat) -> bool {
        &&& forall|i: nat| i < d ==> self.is_split(#[trigger] self.at(features, idx, i))
        &&& self.is_leaf(self.at(features, idx, d))
    }

    /// Walking on from where a walk is after some steps.
    proof fn lemma_at_sum(&self, features: Seq<u32>, idx: int, i: nat, j: nat)
        ensures
            self.at(features, self.at(features, idx, i), j) == self.at(features, idx, i + j),
        decreases j,
    {
        if j > 0 {
            self.lemma_at_sum(features, idx, i, (j - 1) as nat);
        }
    }

    /// A walk that reaches a leaf does so after a certain number of steps.
    proof fn lemma_walk_ends(&self, features: Seq<u32>, idx: int, steps: nat) -> (d: nat)
        requires
            self.walk(features, idx, steps) is Some,
        ensures
            d <= steps,
            self.ends(features, idx, d),
            self.walk(features, idx, steps) == Some(self.at(features, idx, d)),
        decreases steps,
    {
        if self.is_leaf(idx) {
            0
        } else {
            let next = self.child(features, idx);
            let d = self.lemma_walk_ends(features, next, (steps - 1) as nat);
            assert(self.at(features, idx, 1) == next) by {
                reveal_with_fuel(Nodes::at, 2);
            }
            self.lemma_at_sum(features, idx, 1, d);
            assert forall|i: nat| i < d + 1 implies self.is_split(
                #[trigger] self.at(features, idx, i),
            ) by {
                if i > 0 {
                    self.lemma_at_sum(features, idx, 1, (i - 1) as nat);
                    assert(self.is_split(self.at(features, next, (i - 1) as nat)));
                }
            }
            d + 1
        }
    }

    /// A walk that ends after `d` steps is found with any greater number of steps.
    proof fn lemma_ends_walk(&self, features: Seq<u32>, idx: int, d: nat, steps: nat)
        requires
            self.ends(features, idx, d),
            d <= steps,
        ensures
            self.walk(features, idx, steps) == Some(self.at(features, idx, d)),
        decreases d,
    {
        if d > 0 {
            let next = self.child(features, idx);
            assert(self.is_split(self.at(features, idx, 0)));
            assert(self.at(features, idx, 1) == next) by {
                reveal_with_fuel(Nodes::at, 2);
            }
            assert forall|i: nat| i < d - 1 implies self.is_split(
                #[trigger] self.at(features, next, i),
            ) by {
                self.lemma_at_sum(features, idx, 1, i);
                assert(self.is_split(self.at(features, idx, i + 1)));
            }
            self.lemma_at_sum(features, idx, 1, (d - 1) as nat);
            self.lemma_ends_walk(features, next, (d - 1) as nat, (steps - 1) as nat);
        }
    }

    /// A walk that ends passes through each node once only.
    proof fn lemma_no_return(&self, features: Seq<u32>, idx: int, d: nat, i: nat, j: nat)
        requires
            self.ends(features, idx, d),
            i < j <= d,
        ensures
            self.at(features, idx, i) != self.at(features, idx, j),
    {
        if self.at(features, idx, i) == self.at(features, idx, j) {
            let rest = (d - j) as nat;
            self.lemma_at_sum(features, idx, i, rest);
            self.lemma_at_sum(features, idx, j, rest);
            assert(self.is_split(self.at(features, idx, i + rest)));
        }
    }

    /// A walk that reaches a leaf at all reaches it in fewer steps than there are
    /// nodes: more steps than that find no other leaf.
    pub proof fn law_walk_bound(&self, features: Seq<u32>, idx: int, steps: nat)
        requires
            self.walk(features, idx, steps) is Some,
        ensures
            self.leaf(features, idx) == self.walk(features, idx, steps),
    {
        let d = self.lemma_walk_ends(features, idx, steps);
        let len = self.left@.len() as int;
        let path = Seq::new(d + 1, |i: int| self.at(features, idx, i as nat));
        assert(path.no_duplicates()) by {
            assert forall|i: int, j: int|
                0 <= i < path.len() && 0 <= j < path.len() && i != j implies path[i] != path[j] by {
                if i < j {
                    self.lemma_no_return(features, idx, d, i as nat, j as nat);
                } else {
                    self.lemma_no_return(features, idx, d, j as nat, i as nat);
                }
            }
        }
        path.unique_seq_to_set();
        vstd::set_lib::lemma_int_range(0, len);
        assert(path.to_set().subset_of(vstd::set_lib::set_int_range(0, len))) by {
            assert forall|x: int| path.to_set().contains(x) implies 0 <= x < len by {
                let i = choose|i: int| 0 <= i < path.len() && path[i] == x;
                if i < d {
                    assert(self.is_split(self.at(features, idx, i as nat)));
                }
            }
        }
        vstd::set_lib::lemma_len_subset(
            path.to_set(),
            vstd::set_lib::set_int_range(0, len),
        );
        self.lemma_ends_walk(features, idx, d, self.left@.len());
    }

    /// Walks from node `start` to its leaf.
    pub fn find_leaf(&self, features: &[u32; 16], start: usize) -> (r: Option<usize>)
        requires
            self.counts(self.left@.len() as int),
        ensures
            match r {
                Some(idx) => self.leaf(features@, start as int) == Some(idx as int),
                None => self.leaf(features@, start as int) is None,
            },
    {
        let mut idx: usize = start;
        let mut steps: usize = self.left.len();
        loop
            invariant
                self.counts(self.left@.len() as int),
                self.leaf(features@, start as int) == self.walk(
                    features@,
                    idx as int,
                    steps as nat,
                ),
            decreases steps,
        {
            if idx >= self.left.len() {
                return None;
            }
            let l: i32 = self.left[idx];
            if l == -1 {
                return Some(idx);
            }
            let f: i16 = self.feat[idx];
            if steps == 0 || f < 0 || f >= 16 {
                return None;
            }
            let next: i32 = if le(features[f as usize], self.thresh[idx]) {
                l
            } else {
                self.right[idx]
            };
            if next < 0 {
                proof {
                    reveal_with_fuel(Nodes::walk, 2);
                }
                return None;
            }
            idx = next as usize;
            steps = steps - 1;
        }
    }
}

impl Forest {
    /// Every tree leads the features to a leaf.
    pub open spec fn decides(&self, features: Seq<u32>) -> bool {
        forall|t: int|
            0 <= t < self.n_trees ==> self.nodes.leaf(
                features,
                #[trigger] self.offsets@[t] as int,
            ) is Some
    }

    /// Probabilities at the leaves that the features lead to, tree by tree.
    pub open spec fn leaf_probs(&self, features: Seq<u32>) -> Seq<u32> {
        Seq::new(
            self.n_trees as nat,
            |t: int| self.nodes.probs@[self.nodes.leaf(features, self.offsets@[t] as int)->0],
        )
    }

    /// `r` may be the mean probability: what `divide` may give for a total of the
    /// probabilities at the leaves, added up tree by tree from zero.
    pub open spec fn predicts<A: Fn(u32, u32) -> u32, D: Fn(u32, usize) -> u32>(
        &self,
        features: Seq<u32>,
        add_to: &A,
        divide: &D,
        r: u32,
    ) -> bool {
        exists|total: u32|
            {
                &&& accumulates(add_to, 0u32, self.leaf_probs(features), total)
                &&& #[trigger] call_ensures(*divide, (total, self.n_trees), r)
            }
    }

    /// Whether every tree leads the features to a leaf (see [`Forest::decides`]).
    pub fn is_decided(&self, features: &[u32; 16]) -> (r: bool)
        requires
            self.wf(),
        ensures
            r == self.decides(features@),
    {
        for t in 0..self.n_trees
            invariant
                self.wf(),
                forall|i: int|
                    0 <= i < t ==> self.nodes.leaf(
                        features@,
                        #[trigger] self.offsets@[i] as int,
                    ) is Some,
        {
            if self.nodes.find_leaf(features, self.offsets[t]).is_none() {
                assert(self.nodes.leaf(features@, self.offsets@[t as int] as int) is None);
                return false;
            }
        }
        true
    }

    /// Whether a transaction is approved, and the mean probability of fraud over the
    /// trees: it is approved unless the probability reaches the threshold.
    pub fn predict<A: Fn(u32, u32) -> u32, D: Fn(u32, usize) -> u32>(
        &self,
        features: &[u32; 16],
        add_to: &A,
        divide: &D,
    ) -> (r: (bool, u32))
        requires
            self.wf(),
            self.decides(features@),
            forall|a: u32, p: u32| call_requires(*add_to, (a, p)),
            forall|a: u32, n: usize| call_requires(*divide, (a, n)),
        ensures
            self.predicts(features@, add_to, divide, r.1),
            r.0 == !less_or_equal(self.threshold, r.1),
    {
        let mut acc: u32 = 0;
        let ghost probs = self.leaf_probs(features@);
        assert(probs.take(0) =~= Seq::empty());
        for t in 0..self.n_trees
            invariant
                self.wf(),
                self.decides(features@),
                forall|a: u32, p: u32| call_requires(*add_to, (a, p)),
                probs == self.leaf_probs(features@),
                accumulates(add_to, 0u32, probs.take(t as int), acc),
        {
            let start: usize = self.offsets[t];
            assert(self.nodes.leaf(features@, self.offsets@[t as int] as int) is Some);
            match self.nodes.find_leaf(features, start) {
                Some(idx) => {
                    let ghost before = acc;
                    proof {
                        self.nodes.lemma_leaf(features@, start as int, self.nodes.left@.len());
                    }
                    acc = add_to(acc, self.nodes.probs[idx]);
                    proof {
                        lemma_accumulates(
                            add_to,
                            0u32,
                            probs.take(t as int),
                            before,
                            probs[t as int],
                            acc,
                        );
                        assert(probs.take(t + 1) =~= probs.take(t as int).push(probs[t as int]));
                    }
                },
                None => {},
            }
        }
        assert(probs.take(self.n_trees as int) =~= probs);
        let score: u32 = divide(acc, self.n_trees);
        (!le(self.threshold, score), score)
    }

    /// Probability of fraud.
    pub fn fraud_score<A: Fn(u32, u32) -> u32, D: Fn(u32, usize) -> u32>(
        &self,
        features: &[u32; 16],
        add_to: &A,
        divide: &D,
    ) -> (r: u32)
        requires
            self.wf(),
            self.decides(features@),
            forall|a: u32, p: u32| call_requires(*add_to, (a, p)),
            forall|a: u32, n: usize| call_requires(*divide, (a, n)),
        ensures
            self.predicts(features@, add_to, divide, r),
    {
        self.predict(features, add_to, divide).1
    }

    /// Whether the probability of fraud is at least the threshold.
    pub fn is_fraud<A: Fn(u32, u32) -> u32, D: Fn(u32, usize) -> u32>(
        &self,
        features: &[u32; 16],
        add_to: &A,
        divide: &D,
    ) -> (r: bool)
        requires
            self.wf(),
            self.decides(features@),
            forall|a: u32, p: u32| call_requires(*add_to, (a, p)),
            forall|a: u32, n: usize| call_requires(*divide, (a, n)),
        ensures
            exists|score: u32|
                {
                    &&& #[trigger] self.predicts(features@, add_to, divide, score)
                    &&& r == less_or_equal(self.threshold, score)
                },
    {
        let (approved, score): (bool, u32) = self.predict(features, add_to, divide);
        assert(self.predicts(features@, add_to, divide, score));
        !approved
    }

    /// The probability from which on a transaction counts as a fraud.
    pub fn threshold(&self) -> (r: u32)
        ensures
            r == self.threshold,
    {
        self.threshold
    }
}

impl Nodes {
    /// A leaf that is reached is a node.
    proof fn lemma_leaf(&self, features: Seq<u32>, idx: int, steps: nat)
        ensures
            self.walk(features, idx, steps) is Some ==> self.is_leaf(
                self.walk(features, idx, steps)->0,
            ),
        decreases steps,
    {
        if !self.is_leaf(idx) && self.is_split(idx) && steps > 0 {
            self.lemma_leaf(features, self.child(features, idx), (steps - 1) as nat);
        }
    }
}

impl RawTree {
    /// Node `i` ends a walk through the tree.
    pub open spec fn is_leaf(&self, i: int) -> bool {
        0 <= i < self.n_nodes && self.lefts@[i] == -1
    }

    /// Node `i` leads a walk through the tree on, by one of the 16 features.
    pub open spec fn is_split(&self, i: int) -> bool {
        0 <= i < self.n_nodes && self.lefts@[i] != -1 && 0 <= self.features@[i] < 16
    }

    /// The child that the features lead to from node `i`.
    pub open spec fn child(&self, features: Seq<u32>, i: int) -> int {
        if less_or_equal(features[self.features@[i] as int], self.thresholds@[i]) {
            self.lefts@[i] as int
        } else {
            self.rights@[i] as int
        }
    }

    /// The leaf that a walk from node `i` reaches in at most `steps` steps.
    pub open spec fn walk(&self, features: Seq<u32>, i: int, steps: nat) -> Option<int>
        decreases steps,
    {
        if self.is_leaf(i) {
            Some(i)
        } else if self.is_split(i) && steps > 0 {
            self.walk(features, self.child(features, i), (steps - 1) as nat)
        } else {
            None
        }
    }

    /// Children are nodes of the tree.
    pub open spec fn is_closed(&self) -> bool {
        &&& forall|i: int|
            0 <= i < self.n_nodes ==> -1 <= #[trigger] self.lefts@[i] < self.n_nodes
        &&& forall|i: int|
            0 <= i < self.n_nodes ==> -1 <= #[trigger] self.rights@[i] < self.n_nodes
    }
}

/// Flattening keeps every walk: from the root of a tree that has nodes, and whose
/// children are nodes of it, the forest leads to the leaf that the tree leads to.
pub proof fn law_walk_flat(raw: RawModel, forest: Forest, t: int, features: Seq<u32>, steps: nat)
    requires
        raw.loads(),
        forest.nodes.holds(raw.trees@, raw.used()),
        forest.offsets@[t] == nodes_before(raw.trees@, t),
        0 <= t < raw.used(),
        raw.trees@[t].n_nodes > 0,
        raw.trees@[t].is_closed(),
    ensures
        match raw.trees@[t].walk(features, 0, steps) {
            Some(i) => {
                &&& forest.nodes.walk(features, forest.offsets@[t] as int, steps) == Some(
                    forest.offsets@[t] + i,
                )
                &&& forest.nodes.probs@[forest.offsets@[t] + i] == raw.trees@[t].probs@[i]
            },
            None => forest.nodes.walk(features, forest.offsets@[t] as int, steps) is None,
        },
{
    lemma_walk_flat(raw, forest.nodes, t, features, 0, steps);
}

/// A walk from any node of a tree is the same in the forest.
proof fn lemma_walk_flat(
    raw: RawModel,
    nodes: Nodes,
    t: int,
    features: Seq<u32>,
    i: int,
    steps: nat,
)
    requires
        raw.loads(),
        nodes.holds(raw.trees@, raw.used()),
        0 <= t < raw.used(),
        raw.trees@[t].is_closed(),
        0 <= i < raw.trees@[t].n_nodes,
    ensures
        match raw.trees@[t].walk(features, i, steps) {
            Some(leaf) => {
                let base = nodes_before(raw.trees@, t);
                &&& nodes.walk(features, base + i, steps) == Some(base + leaf)
                &&& nodes.probs@[base + leaf] == raw.trees@[t].probs@[leaf]
            },
            None => nodes.walk(features, nodes_before(raw.trees@, t) + i, steps) is None,
        },
    decreases steps,
{
    let tree = raw.trees@[t];
    let base = nodes_before(raw.trees@, t);
    lemma_nodes_before(raw.trees@, t, raw.used());
    assert(nodes.holds_node(&raw.trees@[t], base, i));
    assert(rebased(tree.lefts@[i], base) >= -1);
    assert(rebased(tree.rights@[i], base) >= -1);
    if tree.is_split(i) && steps > 0 {
        let next = tree.child(features, i);
        if next >= 0 {
            lemma_walk_flat(raw, nodes, t, features, next, (steps - 1) as nat);
        } else {
            reveal_with_fuel(RawTree::walk, 2);
            reveal_with_fuel(Nodes::walk, 2);
        }
    }
}

impl Nodes {
    /// Every node that leads a walk on does so by one of the first 14 features.
    pub open spec fn ignores_padding(&self) -> bool {
        forall|idx: int|
            0 <= idx < self.left@.len() && self.left@[idx] != -1 ==> (#[trigger] self.feat@[idx])
                < 14
    }

    /// Walks that agree on the first 14 features reach the same leaf.
    proof fn lemma_padding(&self, a: Seq<u32>, b: Seq<u32>, idx: int, steps: nat)
        requires
            self.ignores_padding(),
            forall|i: int| 0 <= i < 14 ==> #[trigger] a[i] == b[i],
        ensures
            self.walk(a, idx, steps) == self.walk(b, idx, steps),
        decreases steps,
    {
        if !self.is_leaf(idx) && self.is_split(idx) && steps > 0 {
            let f = self.feat@[idx] as int;
            assert(a[f] == b[f]);
            self.lemma_padding(a, b, self.child(a, idx), (steps - 1) as nat);
        }
    }
}

impl Forest {
    /// Padding is ignored: in a forest that splits on the first 14 features only, vectors
    /// that agree on those reach the same leaves, and with them the same predictions.
    pub proof fn law_padding<A: Fn(u32, u32) -> u32, D: Fn(u32, usize) -> u32>(
        &self,
        a: Seq<u32>,
        b: Seq<u32>,
        add_to: &A,
        divide: &D,
        r: u32,
    )
        requires
            self.nodes.ignores_padding(),
            forall|i: int| 0 <= i < 14 ==> #[trigger] a[i] == b[i],
        ensures
            self.decides(a) == self.decides(b),
            self.leaf_probs(a) == self.leaf_probs(b),
            self.predicts(a, add_to, divide, r) == self.predicts(b, add_to, divide, r),
    {
        let steps = self.nodes.left@.len();
        assert forall|t: int| 0 <= t < self.n_trees implies self.nodes.leaf(
            a,
            #[trigger] self.offsets@[t] as int,
        ) == self.nodes.leaf(b, self.offsets@[t] as int) by {
            self.nodes.lemma_padding(a, b, self.offsets@[t] as int, steps);
        }
        assert forall|t: int| 0 <= t < self.n_trees implies self.leaf_probs(a)[t]
            == self.leaf_probs(b)[t] by {
            assert(self.nodes.leaf(a, self.offsets@[t] as int) == self.nodes.leaf(
                b,
                self.offsets@[t] as int,
            ));
        }
        assert(self.leaf_probs(a) =~= self.leaf_probs(b));
    }
}

} // verus!
