//! What a forest does, said of its nodes and of the model themselves.

use crate::fold::accumulates;
use crate::forest::{nodes_before, rebased, Forest, Nodes, RawModel, RawTree};
use crate::ieee::less_or_equal;
use vstd::prelude::*;

verus! {

/// A way through the nodes: from each node to its left child where the feature it asks
/// for is at most its threshold, to its right child otherwise, up to a node without a
/// left child.
pub open spec fn is_path(nodes: &Nodes, features: Seq<u32>, path: Seq<int>) -> bool {
    &&& path.len() > 0
    &&& forall|i: int|
        #![trigger path[i]]
        0 <= i < path.len() - 1 ==> {
            let a = path[i];
            &&& 0 <= a < nodes.left@.len()
            &&& nodes.left@[a] != -1
            &&& 0 <= nodes.feat@[a] < 16
            &&& less_or_equal(features[nodes.feat@[a] as int], nodes.thresh@[a]) ==> path[i + 1]
                == nodes.left@[a]
            &&& !less_or_equal(features[nodes.feat@[a] as int], nodes.thresh@[a]) ==> path[i + 1]
                == nodes.right@[a]
        }
    &&& 0 <= path.last() < nodes.left@.len()
    &&& nodes.left@[path.last()] == -1
}

/// A walk finds a leaf just when a way leads there, and there is a leaf to be found
/// whenever there is a way.
pub proof fn law_leaf(nodes: &Nodes, features: Seq<u32>, idx: int, leaf: int)
    ensures
        nodes.leaf(features, idx) == Some(leaf) <==> exists|path: Seq<int>| #[trigger]
            is_path(nodes, features, path) && path[0] == idx && path.last() == leaf,
{
    if nodes.leaf(features, idx) == Some(leaf) {
        let path = lemma_path(nodes, features, idx, nodes.left@.len());
    }
    if exists|path: Seq<int>| #[trigger]
        is_path(nodes, features, path) && path[0] == idx && path.last() == leaf {
        let path = choose|path: Seq<int>| #[trigger]
            is_path(nodes, features, path) && path[0] == idx && path.last() == leaf;
        lemma_path_walk(nodes, features, path);
        nodes.law_walk_bound(features, idx, (path.len() - 1) as nat);
    }
}

/// The way of a walk that finds a leaf.
proof fn lemma_path(nodes: &Nodes, features: Seq<u32>, idx: int, steps: nat) -> (path: Seq<int>)
    requires
        nodes.walk(features, idx, steps) is Some,
    ensures
        is_path(nodes, features, path),
        path[0] == idx,
        path.last() == nodes.walk(features, idx, steps)->0,
    decreases steps,
{
    if nodes.is_leaf(idx) {
        seq![idx]
    } else {
        let next = nodes.child(features, idx);
        let rest = lemma_path(nodes, features, next, (steps - 1) as nat);
        let path = seq![idx] + rest;
        assert forall|i: int|
            #![trigger path[i]]
            0 <= i < path.len() - 1 implies {
            let a = path[i];
            &&& 0 <= a < nodes.left@.len()
            &&& nodes.left@[a] != -1
            &&& 0 <= nodes.feat@[a] < 16
            &&& less_or_equal(features[nodes.feat@[a] as int], nodes.thresh@[a]) ==> path[i + 1]
                == nodes.left@[a]
            &&& !less_or_equal(features[nodes.feat@[a] as int], nodes.thresh@[a]) ==> path[i + 1]
                == nodes.right@[a]
        } by {
            if i == 0 {
                assert(path[1] == rest[0]);
            } else {
                assert(path[i] == rest[i - 1]);
                assert(path[i + 1] == rest[i]);
            }
        }
        assert(path.last() == rest.last());
        path
    }
}

/// A walk goes the way.
proof fn lemma_path_walk(nodes: &Nodes, features: Seq<u32>, path: Seq<int>)
    requires
        is_path(nodes, features, path),
    ensures
        nodes.walk(features, path[0], (path.len() - 1) as nat) == Some(path.last()),
    decreases path.len(),
{
    if path.len() > 1 {
        let rest = path.skip(1);
        assert forall|i: int|
            #![trigger rest[i]]
            0 <= i < rest.len() - 1 implies {
            let a = rest[i];
            &&& 0 <= a < nodes.left@.len()
            &&& nodes.left@[a] != -1
            &&& 0 <= nodes.feat@[a] < 16
            &&& less_or_equal(features[nodes.feat@[a] as int], nodes.thresh@[a]) ==> rest[i + 1]
                == nodes.left@[a]
            &&& !less_or_equal(features[nodes.feat@[a] as int], nodes.thresh@[a]) ==> rest[i + 1]
                == nodes.right@[a]
        } by {
            assert(rest[i] == path[i + 1]);
            assert(rest[i + 1] == path[i + 1 + 1]);
        }
        assert(rest.last() == path.last());
        lemma_path_walk(nodes, features, rest);
        assert(rest[0] == path[1]);
        assert(nodes.is_split(path[0]));
    } else {
        assert(path[0] == path.last());
    }
}

/// A prediction is what the division gives for the sum of the probabilities at the
/// leaves, one for each tree in order, and the number of trees.
pub proof fn law_predict<A: Fn(u32, u32) -> u32, D: Fn(u32, usize) -> u32>(
    forest: &Forest,
    features: Seq<u32>,
    add_to: &A,
    divide: &D,
    f: spec_fn(u32, u32) -> u32,
    r: u32,
)
    requires
        forest.decides(features),
        forest.predicts(features, add_to, divide, r),
        forall|a: u32, v: u32, x: u32| #[trigger]
            call_ensures(*add_to, (a, v), x) ==> x == f(a, v),
    ensures
        exists|probs: Seq<u32>|
            {
                &&& probs.len() == forest.n_trees
                &&& forall|t: int|
                    0 <= t < forest.n_trees ==> stands_at_leaf(
                        forest,
                        features,
                        t,
                        #[trigger] probs[t],
                    )
                &&& #[trigger] call_ensures(*divide, (probs.fold_left(0u32, f), forest.n_trees), r)
            },
{
    let probs = forest.leaf_probs(features);
    let total = choose|total: u32|
        {
            &&& accumulates(add_to, 0u32, forest.leaf_probs(features), total)
            &&& #[trigger] call_ensures(*divide, (total, forest.n_trees), r)
        };
    crate::build_laws::law_total(add_to, f, 0u32, probs, total);
    assert forall|t: int| 0 <= t < forest.n_trees implies stands_at_leaf(
        forest,
        features,
        t,
        #[trigger] probs[t],
    ) by {
        let start = forest.offsets@[t] as int;
        assert(forest.nodes.leaf(features, start) is Some);
        let leaf = forest.nodes.leaf(features, start)->0;
        law_leaf(&forest.nodes, features, start, leaf);
        let path = choose|path: Seq<int>| #[trigger]
            is_path(&forest.nodes, features, path) && path[0] == start && path.last() == leaf;
        assert(probs[t] == forest.nodes.probs@[path.last()]);
    }
    assert(call_ensures(*divide, (probs.fold_left(0u32, f), forest.n_trees), r));
}

/// The probability stands at the leaf that tree `t` leads to.
pub open spec fn stands_at_leaf(forest: &Forest, features: Seq<u32>, t: int, prob: u32) -> bool {
    exists|path: Seq<int>| #[trigger]
        is_path(&forest.nodes, features, path) && path[0] == forest.offsets@[t] && prob
            == forest.nodes.probs@[path.last()]
}

/// A tree fits where every node is described and the index of every child, counted from
/// the first node of all trees, is no more than the largest number of 32 bits with a sign.
pub proof fn law_fits(tree: &RawTree, base: int)
    ensures
        tree.fits(base) <==> {
            let n = tree.n_nodes as int;
            &&& n <= tree.features@.len()
            &&& n <= tree.thresholds@.len()
            &&& n <= tree.lefts@.len()
            &&& n <= tree.rights@.len()
            &&& n <= tree.probs@.len()
            &&& base + n <= 0x7fff_ffff
            &&& forall|i: int|
                0 <= i < n && #[trigger] tree.lefts@[i] != -1 ==> base + tree.lefts@[i]
                    <= 0x7fff_ffff
            &&& forall|i: int|
                0 <= i < n && #[trigger] tree.rights@[i] != -1 ==> base + tree.rights@[i]
                    <= 0x7fff_ffff
        },
{
    let n = tree.n_nodes as int;
    if tree.fits(base) {
        assert forall|i: int| 0 <= i < n && #[trigger] tree.lefts@[i] != -1 implies base
            + tree.lefts@[i] <= 0x7fff_ffff by {
            assert(rebased(tree.lefts@[i], base) <= i32::MAX);
        }
        assert forall|i: int| 0 <= i < n && #[trigger] tree.rights@[i] != -1 implies base
            + tree.rights@[i] <= 0x7fff_ffff by {
            assert(rebased(tree.rights@[i], base) <= i32::MAX);
        }
    }
}

/// Trees follow one another: each starts where the nodes of the one before it end.
pub proof fn law_nodes_before(trees: Seq<RawTree>, t: int)
    requires
        0 <= t,
    ensures
        nodes_before(trees, 0) == 0,
        nodes_before(trees, t + 1) == nodes_before(trees, t) + trees[t].n_nodes,
{
}

/// As many trees are loaded as the model says, but no more than it has.
pub proof fn law_used(raw: &RawModel)
    ensures
        raw.used() <= raw.n_trees,
        raw.used() <= raw.trees@.len(),
        raw.used() == raw.n_trees || raw.used() == raw.trees@.len(),
{
}

/// The nodes of the trees stand one tree after the other, as the model gives them, but
/// for the children: they are counted from the first node of all, and where there is
/// none there is none.
pub proof fn law_holds(nodes: &Nodes, trees: Seq<RawTree>, count: int, t: int, i: int)
    requires
        nodes.holds(trees, count),
        0 <= t < count,
        0 <= i < trees[t].n_nodes,
    ensures
        nodes.left@.len() == nodes_before(trees, count),
        nodes.feat@.len() == nodes.left@.len(),
        nodes.thresh@.len() == nodes.left@.len(),
        nodes.right@.len() == nodes.left@.len(),
        nodes.probs@.len() == nodes.left@.len(),
        ({
            let at = nodes_before(trees, t);
            &&& nodes.feat@[at + i] == trees[t].features@[i]
            &&& nodes.thresh@[at + i] == trees[t].thresholds@[i]
            &&& nodes.probs@[at + i] == trees[t].probs@[i]
            &&& trees[t].lefts@[i] == -1 ==> nodes.left@[at + i] == -1
            &&& trees[t].lefts@[i] != -1 ==> nodes.left@[at + i] == at + trees[t].lefts@[i]
            &&& trees[t].rights@[i] == -1 ==> nodes.right@[at + i] == -1
            &&& trees[t].rights@[i] != -1 ==> nodes.right@[at + i] == at + trees[t].rights@[i]
        }),
{
    assert(nodes.holds_node(&trees[t], nodes_before(trees, t), i));
}

/// A forest decides where a way leads from the root of every tree to a leaf.
pub proof fn law_decides(forest: &Forest, features: Seq<u32>)
    ensures
        forest.decides(features) <==> forall|t: int|
            0 <= t < forest.n_trees ==> finds_way(
                forest,
                features,
                #[trigger] forest.offsets@[t] as int,
            ),
{
    if forest.decides(features) {
        assert forall|t: int| 0 <= t < forest.n_trees implies finds_way(
            forest,
            features,
            #[trigger] forest.offsets@[t] as int,
        ) by {
            let start = forest.offsets@[t] as int;
            law_leaf(&forest.nodes, features, start, forest.nodes.leaf(features, start)->0);
        }
    }
    if forall|t: int|
        0 <= t < forest.n_trees ==> finds_way(
            forest,
            features,
            #[trigger] forest.offsets@[t] as int,
        ) {
        assert forall|t: int| 0 <= t < forest.n_trees implies forest.nodes.leaf(
            features,
            #[trigger] forest.offsets@[t] as int,
        ) is Some by {
            let start = forest.offsets@[t] as int;
            assert(finds_way(forest, features, start));
            let path = choose|path: Seq<int>| #[trigger]
                is_path(&forest.nodes, features, path) && path[0] == start;
            law_leaf(&forest.nodes, features, start, path.last());
        }
    }
}

/// A way leads from the node to a leaf.
pub open spec fn finds_way(forest: &Forest, features: Seq<u32>, start: int) -> bool {
    exists|path: Seq<int>| #[trigger]
        is_path(&forest.nodes, features, path) && path[0] == start
}

/// A model can be loaded where every tree that is used fits behind those before it.
pub proof fn law_loads(raw: &RawModel)
    ensures
        raw.loads() <==> forall|t: int|
            0 <= t < raw.n_trees && t < raw.trees@.len() ==> (#[trigger] raw.trees@[t]).fits(
                nodes_before(raw.trees@, t),
            ),
{
}

} // verus!
