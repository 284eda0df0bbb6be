//! Depth-first linearization of a finished tree: a pre-order walk with an
//! explicit stack, popping a node and pushing its children in reverse order
//! so that siblings are visited left to right.

use std::collections::HashMap;
use std::collections::VecDeque;

use vstd::prelude::*;

use crate::laws::wf_links;
use crate::model::NodeModel;
use crate::tree::{trajs_view, tree_view, HashElement, Traj};

verus! {

broadcast use vstd::std_specs::hash::group_hash_axioms;

/// The keys of `t` at or above `id`: the measure that shrinks as the walk
/// descends, since every child id is strictly larger than its parent's.
pub open spec fn ge_keys(t: Map<int, NodeModel>, id: int) -> Set<int> {
    t.dom().filter(|k: int| k >= id)
}

proof fn lemma_ge_keys_step(t: Map<int, NodeModel>, lo: int, c: int)
    requires
        t.dom().finite(),
        t.contains_key(lo),
        c > lo,
    ensures
        ge_keys(t, c).finite(),
        ge_keys(t, lo).finite(),
        ge_keys(t, c).len() < ge_keys(t, lo).len(),
{
    vstd::set_lib::lemma_len_subset(ge_keys(t, lo), t.dom());
    assert(ge_keys(t, lo).contains(lo));
    assert(ge_keys(t, c).subset_of(ge_keys(t, lo).remove(lo)));
    vstd::set_lib::lemma_len_subset(ge_keys(t, c), ge_keys(t, lo).remove(lo));
    assert(ge_keys(t, lo).remove(lo).len() == ge_keys(t, lo).len() - 1);
}

/// The pre-order visit sequence from `id`: the node itself, then each
/// child's subtree in child order. An absent id yields the empty sequence.
pub open spec fn dfs_seq(t: Map<int, NodeModel>, id: int) -> Seq<int>
    decreases ge_keys(t, id).len(), 1int, 0int,
        when wf_links(t)
        via dfs_seq_dec
{
    if t.contains_key(id) {
        seq![id] + dfs_kids(t, t[id].children, id)
    } else {
        Seq::empty()
    }
}

/// The concatenated pre-order visit sequences of the subtrees rooted at
/// `kids`, each of which lies strictly above `lo` in id.
pub open spec fn dfs_kids(t: Map<int, NodeModel>, kids: Seq<int>, lo: int) -> Seq<int>
    decreases ge_keys(t, lo).len(), 0int, kids.len(),
        when wf_links(t) && t.contains_key(lo) && (forall|q: int|
            0 <= q < kids.len() ==> kids[q] > lo)
        via dfs_kids_dec
{
    if kids.len() == 0 {
        Seq::empty()
    } else {
        dfs_seq(t, kids.first()) + dfs_kids(t, kids.drop_first(), lo)
    }
}

#[via_fn]
proof fn dfs_seq_dec(t: Map<int, NodeModel>, id: int) {
    if t.contains_key(id) {
        assert(forall|j: int|
            0 <= j < t[id].children.len() ==> (#[trigger] t[id].children[j]) > id);
        vstd::set_lib::lemma_len_subset(ge_keys(t, id), t.dom());
    }
}

#[via_fn]
proof fn dfs_kids_dec(t: Map<int, NodeModel>, kids: Seq<int>, lo: int) {
    if kids.len() > 0 {
        lemma_ge_keys_step(t, lo, kids.first());
    }
}

/// What the walk still owes while the stack holds `stack`: the subtree
/// sequences of the stacked ids, topmost (last) first.
pub open spec fn rem_walk(t: Map<int, NodeModel>, stack: Seq<int>) -> Seq<int>
    decreases stack.len(),
{
    if stack.len() == 0 {
        Seq::empty()
    } else {
        dfs_seq(t, stack.last()) + rem_walk(t, stack.drop_last())
    }
}

/// Pushing a node's children in reverse order owes exactly the children's
/// subtree sequences in child order, before what was owed below them.
proof fn lemma_rem_append_reversed(
    t: Map<int, NodeModel>,
    rest: Seq<int>,
    kids: Seq<int>,
    lo: int,
)
    requires
        wf_links(t),
        t.contains_key(lo),
        forall|q: int| 0 <= q < kids.len() ==> kids[q] > lo,
    ensures
        rem_walk(t, rest + kids.reverse()) == dfs_kids(t, kids, lo) + rem_walk(t, rest),
    decreases kids.len(),
{
    if kids.len() == 0 {
        assert(rest + kids.reverse() =~= rest);
        assert(dfs_kids(t, kids, lo) + rem_walk(t, rest) =~= rem_walk(t, rest));
    } else {
        let tail = kids.drop_first();
        assert(kids.reverse() =~= tail.reverse().push(kids.first()));
        assert(rest + kids.reverse() =~= (rest + tail.reverse()).push(kids.first()));
        assert((rest + tail.reverse()).push(kids.first()).drop_last() =~= rest + tail.reverse());
        lemma_rem_append_reversed(t, rest, tail, lo);
        assert(rem_walk(t, rest + kids.reverse()) == dfs_seq(t, kids.first()) + (dfs_kids(
            t,
            tail,
            lo,
        ) + rem_walk(t, rest)));
        assert(dfs_seq(t, kids.first()) + (dfs_kids(t, tail, lo) + rem_walk(t, rest)) =~= (dfs_seq(
            t,
            kids.first(),
        ) + dfs_kids(t, tail, lo)) + rem_walk(t, rest));
    }
}

/// Walk the id-keyed tree depth first from `node_id`, pre-order: the start
/// node first, then each subtree in child order. An absent start id yields
/// `None`; otherwise the result is exactly the model's visit sequence.
pub fn tree_walk_dfs_for_hash_tree(
    hash_tree: &HashMap<usize, HashElement>,
    node_id: usize,
) -> (r: Option<VecDeque<usize>>)
    requires
        wf_links(tree_view(hash_tree@)),
    ensures
        match r {
            None => !hash_tree@.contains_key(node_id),
            Some(order) => {
                &&& hash_tree@.contains_key(node_id)
                &&& order@.map_values(|x: usize| x as int) == dfs_seq(
                    tree_view(hash_tree@),
                    node_id as int,
                )
                &&& order@.len() > 0
                &&& order@[0] == node_id
            },
        },
{
    let ghost t = tree_view(hash_tree@);
    if !hash_tree.contains_key(&node_id) {
        return None;
    }
    let mut stack: VecDeque<usize> = VecDeque::new();
    stack.push_back(node_id);
    let mut it: VecDeque<usize> = VecDeque::new();
    proof {
        let s0 = stack@.map_values(|x: usize| x as int);
        assert(s0 =~= seq![node_id as int]);
        assert(s0.len() == 1 && s0.last() == node_id as int);
        assert(rem_walk(t, s0) == dfs_seq(t, node_id as int) + rem_walk(t, s0.drop_last()));
        assert(s0.drop_last().len() == 0);
        assert(rem_walk(t, s0.drop_last()) == Seq::<int>::empty());
        assert(it@.map_values(|x: usize| x as int) + rem_walk(t, s0) =~= dfs_seq(
            t,
            node_id as int,
        ));
    }
    while stack.len() > 0
        invariant
            t == tree_view(hash_tree@),
            wf_links(t),
            forall|q: int| 0 <= q < stack@.len() ==> t.contains_key(stack@[q] as int),
            it@.map_values(|x: usize| x as int) + rem_walk(
                t,
                stack@.map_values(|x: usize| x as int),
            ) == dfs_seq(t, node_id as int),
        decreases rem_walk(t, stack@.map_values(|x: usize| x as int)).len(),
    {
        let ghost pre_stack = stack@.map_values(|x: usize| x as int);
        let ghost pre_it = it@.map_values(|x: usize| x as int);
        let id = stack.pop_back().unwrap();
        proof {
            assert(pre_stack.last() == id as int);
            assert(stack@.map_values(|x: usize| x as int) =~= pre_stack.drop_last());
            assert(t.contains_key(id as int));
        }
        let node_opt = hash_tree.get(&id);
        if node_opt.is_none() {
            proof {
                assert(false);
            }
            return None;
        }
        let node = node_opt.unwrap();
        it.push_back(id);
        proof {
            assert(it@.map_values(|x: usize| x as int) =~= pre_it.push(id as int));
        }
        let ghost kids = t[id as int].children;
        proof {
            assert(kids =~= node.children@.map_values(|x: usize| x as int));
            assert(forall|q: int| 0 <= q < kids.len() ==> kids[q] > id as int);
        }
        let ghost mid_stack = stack@.map_values(|x: usize| x as int);
        let mut k = node.children.len();
        while k > 0
            invariant
                t == tree_view(hash_tree@),
                wf_links(t),
                k <= node.children.len(),
                kids == node.children@.map_values(|x: usize| x as int),
                forall|q: int| 0 <= q < kids.len() ==> t.contains_key(kids[q]),
                stack@.map_values(|x: usize| x as int) == mid_stack + kids.subrange(
                    k as int,
                    kids.len() as int,
                ).reverse(),
                forall|q: int| 0 <= q < mid_stack.len() ==> t.contains_key(mid_stack[q]),
            decreases k,
        {
            let ghost before = stack@.map_values(|x: usize| x as int);
            k = k - 1;
            stack.push_back(node.children[k]);
            proof {
                assert(stack@.map_values(|x: usize| x as int) =~= before.push(
                    kids[k as int],
                ));
                assert(before.push(kids[k as int]) =~= mid_stack + kids.subrange(
                    k as int,
                    kids.len() as int,
                ).reverse());
            }
        }
        proof {
            assert(kids.subrange(0, kids.len() as int) =~= kids);
            assert(stack@.map_values(|x: usize| x as int) == mid_stack + kids.reverse());
            assert forall|q: int| 0 <= q < stack@.len() implies t.contains_key(
                stack@[q] as int,
            ) by {
                let sm = stack@.map_values(|x: usize| x as int);
                assert(sm[q] == stack@[q] as int);
                if q < mid_stack.len() {
                    assert(sm[q] == mid_stack[q]);
                } else {
                    assert(sm[q] == kids.reverse()[q - mid_stack.len()]);
                    assert(kids.reverse()[q - mid_stack.len()] == kids[kids.len() - 1 - (q
                        - mid_stack.len())]);
                }
            }
            lemma_rem_append_reversed(t, mid_stack, kids, id as int);
            assert(dfs_seq(t, id as int) == seq![id as int] + dfs_kids(t, kids, id as int));
            assert(pre_it + rem_walk(t, pre_stack) == dfs_seq(t, node_id as int));
            assert(rem_walk(t, pre_stack) == dfs_seq(t, id as int) + rem_walk(t, mid_stack));
            assert(pre_it.push(id as int) + (dfs_kids(t, kids, id as int) + rem_walk(
                t,
                mid_stack,
            )) =~= pre_it + (dfs_seq(t, id as int) + rem_walk(t, mid_stack)));
            assert(it@.map_values(|x: usize| x as int) + rem_walk(
                t,
                stack@.map_values(|x: usize| x as int),
            ) == dfs_seq(t, node_id as int));
            assert(rem_walk(t, stack@.map_values(|x: usize| x as int)).len() < rem_walk(
                t,
                pre_stack,
            ).len()) by {
                assert(rem_walk(t, pre_stack) =~= dfs_seq(t, id as int) + rem_walk(t, mid_stack));
            }
        }
    }
    proof {
        assert(stack@.map_values(|x: usize| x as int).len() == 0);
        assert(it@.map_values(|x: usize| x as int) + rem_walk(
            t,
            stack@.map_values(|x: usize| x as int),
        ) =~= it@.map_values(|x: usize| x as int));
        assert(it@.map_values(|x: usize| x as int) == dfs_seq(t, node_id as int));
        assert(dfs_seq(t, node_id as int)[0] == node_id as int);
        assert(it@.map_values(|x: usize| x as int)[0] == it@[0] as int);
    }
    if it.len() == 0 {
        return None;
    }
    Some(it)
}

/// Build the id-keyed tree and linearize it from the root in one step: the
/// finished tree is well formed, so the walk is owed a full pre-order
/// sequence whenever the input is nonempty, and `None` exactly on the empty
/// input.
pub fn build_and_walk_from_root(trajs: &Vec<Traj>) -> (r: Option<VecDeque<usize>>)
    requires
        crate::model::ids_fit(trajs_view(trajs@)),
    ensures
        trajs@.len() == 0 ==> r is None,
        trajs@.len() > 0 ==> (match r {
            Some(order) => {
                &&& order@.map_values(|x: usize| x as int) == dfs_seq(
                    crate::model::final_tree(trajs_view(trajs@)),
                    0,
                )
                &&& order@.len() > 0
                &&& order@[0] == 0
            },
            None => false,
        }),
{
    let tree = crate::builder::branch_vector(trajs);
    proof {
        crate::laws::lemma_final_tree_wf(trajs_view(trajs@));
    }
    tree_walk_dfs_for_hash_tree(&tree, 0)
}

} // verus!
