//! The alternate store: the same merge algorithm over an index-addressed,
//! append-only arena that owns every node, with parent and child links held
//! as plain indices. Node state is changed only through the store's guarded
//! accessors, never by reaching into another node's fields.

use vstd::prelude::*;

use crate::laws::{
    active_ok, ids_of, lemma_ids_of_concat, lemma_ids_of_push, lemma_map_of_active,
    lemma_state_ok, nodup_ids, tree_active_disjoint,
};
use crate::model::{
    child_node, final_tree, group_keys, group_members, ids_fit, lemma_run_nodes_count_ge,
    lemma_run_nodes_prefix_count, lemma_state_count_mono, map_of_active, max_len, run_nodes,
    state_at, BuildState, NodeModel,
};
use crate::builder::{group_points, partition_at};
use crate::tree::{trajs_view, Traj};

verus! {

/// What a node carries in the arena encoding: its accumulated path segment
/// and the trajectory indices that traverse it.
#[derive(Clone, Debug)]
pub struct ArenaPayload {
    pub path: Vec<i32>,
    pub trajs: Vec<usize>,
}

/// One arena slot: the payload plus the links the arena maintains.
#[derive(Clone, Debug)]
pub struct ArenaNode {
    pub payload: ArenaPayload,
    pub parent: Option<usize>,
    pub children: Vec<usize>,
}

/// A dense, append-only node store addressed by stable integer indices.
#[derive(Debug)]
pub struct ArenaStore {
    pub nodes: Vec<ArenaNode>,
}

/// The mathematical value of the arena slot `n` at index `id`.
pub open spec fn arena_node_model(id: int, n: ArenaNode) -> NodeModel {
    NodeModel {
        id: id,
        path: n.payload.path@,
        trajs: n.payload.trajs@,
        parent: match n.parent {
            Some(p) => Some(p as int),
            None => None,
        },
        children: n.children@.map_values(|c: usize| c as int),
    }
}

/// The mathematical value of the whole arena.
pub open spec fn arena_view(a: ArenaStore) -> Map<int, NodeModel> {
    Map::new(
        |i: int| 0 <= i < a.nodes@.len(),
        |i: int| arena_node_model(i, a.nodes@[i]),
    )
}

/// Every node of `tree` is stored in `nodes` at its own index.
pub open spec fn tree_corr(nodes: Seq<ArenaNode>, tree: Map<int, NodeModel>) -> bool {
    forall|k: int| #[trigger]
        tree.contains_key(k) ==> 0 <= k < nodes.len() && arena_node_model(k, nodes[k]) == tree[k]
}

/// The index list `list` names exactly the nodes of `ms`, in order, each
/// stored in `nodes` at its own index.
pub open spec fn list_corr(nodes: Seq<ArenaNode>, list: Seq<usize>, ms: Seq<NodeModel>) -> bool {
    &&& list.len() == ms.len()
    &&& forall|q: int|
        0 <= q < list.len() ==> (#[trigger] list[q]) as int == ms[q].id && arena_node_model(
            list[q] as int,
            nodes[list[q] as int],
        ) == ms[q]
}

impl ArenaStore {
    /// An empty arena.
    pub fn new() -> (r: Self)
        ensures
            r.nodes@.len() == 0,
            arena_view(r) == Map::<int, NodeModel>::empty(),
    {
        let r = ArenaStore { nodes: Vec::new() };
        proof {
            assert(arena_view(r) =~= Map::<int, NodeModel>::empty());
        }
        r
    }

    /// The number of nodes the arena owns.
    pub fn len(&self) -> (r: usize)
        ensures
            r == self.nodes@.len(),
    {
        self.nodes.len()
    }

    /// Append a fresh node with the given payload and parent link; the new
    /// index is the next unused one, and it is recorded in the parent's
    /// child list, preserving insertion order.
    pub fn add_new_node(&mut self, payload: ArenaPayload, parent: Option<usize>) -> (id: usize)
        requires
            old(self).nodes@.len() < usize::MAX,
            match parent {
                Some(p) => p < old(self).nodes@.len(),
                None => true,
            },
        ensures
            id == old(self).nodes@.len(),
            final(self).nodes@.len() == old(self).nodes@.len() + 1,
            final(self).nodes@[id as int].payload == payload,
            final(self).nodes@[id as int].parent == parent,
            final(self).nodes@[id as int].children@ =~= Seq::<usize>::empty(),
            match parent {
                Some(p) => {
                    &&& final(self).nodes@[p as int].payload == old(self).nodes@[p as int].payload
                    &&& final(self).nodes@[p as int].parent == old(self).nodes@[p as int].parent
                    &&& final(self).nodes@[p as int].children@ == old(self).nodes@[p as int].children@.push(id)
                    &&& forall|q: int|
                        0 <= q < old(self).nodes@.len() && q != p as int ==> final(self).nodes@[q] == old(self).nodes@[q]
                },
                None => forall|q: int|
                    0 <= q < old(self).nodes@.len() ==> final(self).nodes@[q] == old(self).nodes@[q],
            },
    {
        let id = self.nodes.len();
        self.nodes.push(ArenaNode { payload, parent, children: Vec::new() });
        if let Some(p) = parent {
            let ghost mid = self.nodes@;
            let mut pn = self.nodes.remove(p);
            pn.children.push(id);
            self.nodes.insert(p, pn);
            proof {
                assert(self.nodes@ =~= mid.update(p as int, pn));
            }
        }
        id
    }

    /// Read a node's trajectory set through the guarded accessor, as a
    /// fresh vector; `None` when the index is unused.
    pub fn get_trajs(&self, id: usize) -> (r: Option<Vec<usize>>)
        ensures
            match r {
                Some(v) => id < self.nodes@.len() && v@ == self.nodes@[id as int].payload.trajs@,
                None => id >= self.nodes@.len(),
            },
    {
        if id < self.nodes.len() {
            let src = &self.nodes[id].payload.trajs;
            let mut out: Vec<usize> = Vec::new();
            for q in 0..src.len()
                invariant
                    src@ == self.nodes@[id as int].payload.trajs@,
                    out@ == src@.take(q as int),
            {
                out.push(src[q]);
                proof {
                    assert(out@ =~= src@.take(q + 1));
                }
            }
            proof {
                assert(src@.take(src@.len() as int) =~= src@);
            }
            Some(out)
        } else {
            None
        }
    }

    /// Grow a node's path segment by one position through the guarded
    /// accessor; every other slot is untouched.
    pub fn push_point(&mut self, id: usize, point: i32)
        requires
            id < old(self).nodes@.len(),
        ensures
            final(self).nodes@.len() == old(self).nodes@.len(),
            final(self).nodes@[id as int].payload.path@ == old(self).nodes@[id as int].payload.path@.push(point),
            final(self).nodes@[id as int].payload.trajs == old(self).nodes@[id as int].payload.trajs,
            final(self).nodes@[id as int].parent == old(self).nodes@[id as int].parent,
            final(self).nodes@[id as int].children == old(self).nodes@[id as int].children,
            forall|q: int|
                0 <= q < old(self).nodes@.len() && q != id as int ==> final(self).nodes@[q] == old(self).nodes@[q],
    {
        let ghost pre = self.nodes@;
        let mut n = self.nodes.remove(id);
        n.payload.path.push(point);
        self.nodes.insert(id, n);
        proof {
            assert(self.nodes@ =~= pre.update(id as int, n));
        }
    }

    /// Borrow a node; `None` when the index is unused.
    pub fn get_node(&self, id: usize) -> (r: Option<&ArenaNode>)
        ensures
            match r {
                Some(n) => id < self.nodes@.len() && *n == self.nodes@[id as int],
                None => id >= self.nodes@.len(),
            },
    {
        if id < self.nodes.len() {
            Some(&self.nodes[id])
        } else {
            None
        }
    }
}

/// Build the tree in the arena encoding: the same level-synchronous merge
/// as the id-keyed builder, over the index-addressed store. The resulting
/// arena holds exactly the model's tree, node `i` at index `i`.
#[verifier::rlimit(100)]
pub fn arena_tree(trajs: &Vec<Traj>) -> (arena: ArenaStore)
    requires
        ids_fit(trajs_view(trajs@)),
    ensures
        arena_view(arena) == final_tree(trajs_view(trajs@)),
{
    let ghost ts = trajs_view(trajs@);
    let mut arena = ArenaStore::new();
    if trajs.len() == 0 {
        proof {
            assert(arena_view(arena) =~= final_tree(ts));
        }
        return arena;
    }
    let mut longest: usize = 0;
    for i in 0..trajs.len()
        invariant
            ts == trajs_view(trajs@),
            longest as int == max_len(ts.take(i as int)),
    {
        proof {
            assert(ts.take(i + 1).drop_last() =~= ts.take(i as int));
            assert(ts.take(i + 1).last() == ts[i as int]);
        }
        if trajs[i].path.len() > longest {
            longest = trajs[i].path.len();
        }
    }
    proof {
        assert(ts.take(ts.len() as int) =~= ts);
    }
    let mut root_trajs: Vec<usize> = Vec::new();
    for i in 0..trajs.len()
        invariant
            root_trajs@ =~= Seq::new(i as nat, |q: int| q as usize),
    {
        root_trajs.push(i);
        proof {
            assert(root_trajs@ =~= Seq::new((i + 1) as nat, |q: int| q as usize));
        }
    }
    let root_id = arena.add_new_node(ArenaPayload { path: Vec::new(), trajs: root_trajs }, None);
    let mut active: Vec<usize> = Vec::new();
    active.push(root_id);
    proof {
        assert(arena_node_model(0, arena.nodes@[0]) =~= crate::model::root_node(trajs@.len()));
        assert(state_at(ts, 0).active == seq![crate::model::root_node(trajs@.len())]);
        assert(tree_corr(arena.nodes@, state_at(ts, 0).tree));
        assert(list_corr(arena.nodes@, active@, state_at(ts, 0).active));
    }
    for index in 0..longest
        invariant
            ts == trajs_view(trajs@),
            ids_fit(ts),
            longest as int == max_len(ts),
            trajs@.len() > 0,
            arena.nodes@.len() as int == state_at(ts, index as int).count,
            tree_corr(arena.nodes@, state_at(ts, index as int).tree),
            list_corr(arena.nodes@, active@, state_at(ts, index as int).active),
    {
        let ghost st = state_at(ts, index as int);
        let ghost acts = st.active;
        proof {
            lemma_state_ok(ts, index as int);
        }
        let mut next_active: Vec<usize> = Vec::new();
        let ghost mut done_i: int = 0;
        proof {
            assert(acts.take(0) =~= Seq::<NodeModel>::empty());
            assert(tree_corr(arena.nodes@, st.tree));
            assert(list_corr(arena.nodes@, active@, acts));
            assert(acts.skip(0) =~= acts);
        }
        while active.len() > 0
            invariant
                ts == trajs_view(trajs@),
                ids_fit(ts),
                longest as int == max_len(ts),
                trajs@.len() > 0,
                0 <= index < longest,
                st == state_at(ts, index as int),
                acts == st.active,
                active_ok(acts, st.count),
                nodup_ids(acts),
                tree_active_disjoint(st.tree, acts),
                0 <= done_i <= acts.len(),
                arena.nodes@.len() as int == run_nodes(
                    ts,
                    acts.take(done_i),
                    index as int,
                    st.count,
                ).count,
                tree_corr(arena.nodes@, st.tree),
                tree_corr(
                    arena.nodes@,
                    run_nodes(ts, acts.take(done_i), index as int, st.count).done,
                ),
                forall|c: int| #[trigger]
                    run_nodes(ts, acts.take(done_i), index as int, st.count).done.contains_key(c)
                        ==> ids_of(acts.take(done_i)).contains(c),
                list_corr(
                    arena.nodes@,
                    next_active@,
                    run_nodes(ts, acts.take(done_i), index as int, st.count).next,
                ),
                forall|c: int| #[trigger]
                    ids_of(run_nodes(ts, acts.take(done_i), index as int, st.count).next).contains(
                        c,
                    ) ==> ids_of(acts.take(done_i)).contains(c) || st.count <= c < run_nodes(
                        ts,
                        acts.take(done_i),
                        index as int,
                        st.count,
                    ).count,
                list_corr(arena.nodes@, active@, acts.skip(done_i)),
            decreases active.len(),
        {
            let ghost lr_prior = run_nodes(ts, acts.take(done_i), index as int, st.count);
            let ghost elm = acts[done_i];
            let ghost keys = group_keys(ts, elm.trajs, index as int);
            let ghost pre_active = active@;
            let a_id = active.remove(0);
            proof {
                assert(list_corr(arena.nodes@, pre_active, acts.skip(done_i)));
                assert(pre_active.len() == acts.len() - done_i);
                assert(acts.skip(done_i)[0] == acts[done_i]);
                assert(forall|q: int|
                    0 <= q < acts.skip(done_i).len() ==> acts.skip(done_i)[q] == acts[done_i
                        + q]);
                assert(pre_active[0] == a_id);
                assert(a_id as int == elm.id);
                assert(arena_node_model(a_id as int, arena.nodes@[a_id as int]) == elm);
                assert(forall|q: int|
                    0 <= q < active@.len() ==> active@[q] == pre_active[q + 1]);
                lemma_run_nodes_count_ge(ts, acts.take(done_i), index as int, st.count);
                assert(0 <= elm.id < st.count);
                assert(acts.take(done_i + 1).drop_last() =~= acts.take(done_i));
                assert(acts.take(done_i + 1).last() == acts[done_i]);
            }
            let ghost lr_here = run_nodes(ts, acts.take(done_i + 1), index as int, st.count);
            let trajs_opt = arena.get_trajs(a_id);
            let parent_trajs = trajs_opt.unwrap();
            proof {
                assert(parent_trajs@ == elm.trajs);
            }
            let groups = partition_at(trajs, &parent_trajs, index);
            proof {
                assert(group_points(groups@) == keys);
                assert(groups@.len() == keys.len());
            }
            if groups.len() == 0 {
                proof {
                    assert(lr_here.done == lr_prior.done.insert(elm.id, elm));
                    assert(lr_here.next == lr_prior.next && lr_here.count == lr_prior.count);
                    assert(acts.take(done_i + 1) =~= acts.take(done_i).push(elm));
                    lemma_ids_of_push(acts.take(done_i), elm);
                    assert(ids_of(acts.take(done_i + 1)) =~= ids_of(acts.take(done_i)).insert(
                        elm.id,
                    ));
                    assert forall|k2: int| #[trigger]
                        run_nodes(ts, acts.take(done_i + 1), index as int, st.count).done
                            .contains_key(k2) implies 0 <= k2 < arena.nodes@.len()
                        && arena_node_model(k2, arena.nodes@[k2]) == run_nodes(
                        ts,
                        acts.take(done_i + 1),
                        index as int,
                        st.count,
                    ).done[k2] by {
                        if k2 != elm.id {
                            assert(lr_prior.done.contains_key(k2));
                        }
                    }
                    assert forall|c: int| #[trigger]
                        run_nodes(ts, acts.take(done_i + 1), index as int, st.count).done
                            .contains_key(c) implies ids_of(acts.take(done_i + 1)).contains(
                        c,
                    ) by {
                        if c != elm.id {
                            assert(lr_prior.done.contains_key(c));
                        }
                    }
                    assert forall|q: int| 0 <= q < next_active@.len() implies (
                    #[trigger] next_active@[q]) as int == run_nodes(
                        ts,
                        acts.take(done_i + 1),
                        index as int,
                        st.count,
                    ).next[q].id && arena_node_model(
                        next_active@[q] as int,
                        arena.nodes@[next_active@[q] as int],
                    ) == run_nodes(ts, acts.take(done_i + 1), index as int, st.count).next[q] by {
                        assert(lr_prior.next[q] == lr_here.next[q]);
                    }
                    assert forall|q: int| 0 <= q < active@.len() implies (
                    #[trigger] active@[q]) as int == acts[done_i + 1 + q].id && arena_node_model(
                        active@[q] as int,
                        arena.nodes@[active@[q] as int],
                    ) == acts[done_i + 1 + q] by {
                        assert(active@[q] == pre_active[q + 1]);
                    }
                    assert(tree_corr(
                        arena.nodes@,
                        run_nodes(ts, acts.take(done_i + 1), index as int, st.count).done,
                    ));
                    assert(list_corr(
                        arena.nodes@,
                        next_active@,
                        run_nodes(ts, acts.take(done_i + 1), index as int, st.count).next,
                    ));
                    assert(list_corr(arena.nodes@, active@, acts.skip(done_i + 1)));
                    done_i = done_i + 1;
                }
            } else if groups.len() == 1 {
                let p = groups[0].point;
                proof {
                    assert(group_points(groups@)[0] == p);
                    assert(keys[0] == p);
                }
                let ghost pre_nodes = arena.nodes@;
                let ghost pre_next1 = next_active@;
                arena.push_point(a_id, p);
                next_active.push(a_id);
                proof {
                    let grown = NodeModel {
                        id: elm.id,
                        path: elm.path.push(keys[0]),
                        trajs: elm.trajs,
                        parent: elm.parent,
                        children: elm.children,
                    };
                    assert(arena_node_model(a_id as int, arena.nodes@[a_id as int]) =~= grown);
                    assert(lr_here.next == lr_prior.next.push(grown));
                    assert(lr_here.done == lr_prior.done && lr_here.count == lr_prior.count);
                    assert(acts.take(done_i + 1) =~= acts.take(done_i).push(elm));
                    lemma_ids_of_push(acts.take(done_i), elm);
                    lemma_ids_of_push(lr_prior.next, grown);
                    // ids already placed elsewhere are untouched: they differ from elm.id.
                    assert forall|c: int| #[trigger]
                        ids_of(acts.take(done_i)).contains(c) implies c != elm.id by {
                        let i = choose|i: int|
                            0 <= i < acts.take(done_i).len() && (#[trigger] acts.take(
                                done_i,
                            )[i]).id == c;
                        assert(acts[i].id == c);
                    }
                    assert forall|k: int| #[trigger] st.tree.contains_key(k) implies k
                        != elm.id by {
                        assert(ids_of(acts).contains(elm.id)) by {
                            assert(acts[done_i].id == elm.id);
                        }
                    }
                    assert forall|c: int| #[trigger]
                        ids_of(acts.take(done_i)).contains(c) implies 0 <= c < st.count by {
                        let i = choose|i: int|
                            0 <= i < acts.take(done_i).len() && (#[trigger] acts.take(
                                done_i,
                            )[i]).id == c;
                        assert(acts[i].id == c);
                    }
                    assert(ids_of(acts.take(done_i + 1)) =~= ids_of(acts.take(done_i)).insert(
                        elm.id,
                    ));
                    assert(ids_of(lr_here.next) =~= ids_of(lr_prior.next).insert(elm.id));
                    assert forall|k2: int| #[trigger] st.tree.contains_key(k2) implies 0 <= k2
                        < arena.nodes@.len() && arena_node_model(k2, arena.nodes@[k2])
                        == st.tree[k2] by {
                        assert(arena.nodes@[k2] == pre_nodes[k2]);
                    }
                    assert forall|k2: int| #[trigger]
                        run_nodes(ts, acts.take(done_i + 1), index as int, st.count).done
                            .contains_key(k2) implies 0 <= k2 < arena.nodes@.len()
                        && arena_node_model(k2, arena.nodes@[k2]) == run_nodes(
                        ts,
                        acts.take(done_i + 1),
                        index as int,
                        st.count,
                    ).done[k2] by {
                        assert(lr_prior.done.contains_key(k2));
                        assert(ids_of(acts.take(done_i)).contains(k2));
                        assert(k2 != elm.id);
                        assert(arena.nodes@[k2] == pre_nodes[k2]);
                    }
                    assert forall|c: int| #[trigger]
                        run_nodes(ts, acts.take(done_i + 1), index as int, st.count).done
                            .contains_key(c) implies ids_of(acts.take(done_i + 1)).contains(
                        c,
                    ) by {
                        assert(lr_prior.done.contains_key(c));
                    }
                    assert forall|c: int| #[trigger]
                        ids_of(run_nodes(ts, acts.take(done_i + 1), index as int, st.count).next)
                            .contains(c) implies ids_of(acts.take(done_i + 1)).contains(c)
                        || st.count <= c < run_nodes(
                        ts,
                        acts.take(done_i + 1),
                        index as int,
                        st.count,
                    ).count by {}
                    assert(list_corr(pre_nodes, pre_next1, lr_prior.next));
                    assert forall|q: int| 0 <= q < next_active@.len() implies (
                    #[trigger] next_active@[q]) as int == run_nodes(
                        ts,
                        acts.take(done_i + 1),
                        index as int,
                        st.count,
                    ).next[q].id && arena_node_model(
                        next_active@[q] as int,
                        arena.nodes@[next_active@[q] as int],
                    ) == run_nodes(ts, acts.take(done_i + 1), index as int, st.count).next[q] by {
                        if q < pre_next1.len() {
                            assert(next_active@[q] == pre_next1[q]);
                            assert(lr_here.next[q] == lr_prior.next[q]);
                            assert(ids_of(lr_prior.next).contains(lr_prior.next[q].id)) by {
                                assert(lr_prior.next[q].id == lr_prior.next[q].id);
                            }
                            assert(pre_next1[q] as int != elm.id);
                            assert(arena.nodes@[pre_next1[q] as int] == pre_nodes[pre_next1[q] as int]);
                        } else {
                            assert(next_active@[q] == a_id);
                            assert(lr_here.next[q] == grown);
                        }
                    }
                    assert forall|q: int| 0 <= q < active@.len() implies (
                    #[trigger] active@[q]) as int == acts[done_i + 1 + q].id && arena_node_model(
                        active@[q] as int,
                        arena.nodes@[active@[q] as int],
                    ) == acts[done_i + 1 + q] by {
                        assert(active@[q] == pre_active[q + 1]);
                        assert(acts[done_i + 1 + q].id != elm.id);
                        assert(0 <= acts[done_i + 1 + q].id < st.count);
                        assert(arena.nodes@[active@[q] as int] == pre_nodes[active@[q] as int]);
                    }
                    assert(tree_corr(
                        arena.nodes@,
                        run_nodes(ts, acts.take(done_i + 1), index as int, st.count).done,
                    ));
                    assert(list_corr(
                        arena.nodes@,
                        next_active@,
                        run_nodes(ts, acts.take(done_i + 1), index as int, st.count).next,
                    ));
                    assert(list_corr(arena.nodes@, active@, acts.skip(done_i + 1)));
                    done_i = done_i + 1;
                }
            } else {
                let k = groups.len();
                let ghost base = arena.nodes@.len() as int;
                proof {
                    assert(base == lr_prior.count);
                    assert(lr_here.count == base + k);
                    lemma_run_nodes_prefix_count(ts, acts, index as int, st.count, done_i + 1);
                    assert(acts.take(acts.len() as int) =~= acts);
                    assert(state_at(ts, index as int + 1).count == run_nodes(
                        ts,
                        acts,
                        index as int,
                        st.count,
                    ).count);
                    lemma_state_count_mono(ts, index as int + 1, max_len(ts));
                    assert(base + k <= usize::MAX as int);
                    assert(elm.children.len() == 0);
                }
                let ghost pre_nodes = arena.nodes@;
                let ghost pre_next = next_active@;
                let mut rest_groups = groups;
                let ghost gseq = rest_groups@;
                let ghost mut j: int = 0;
                while rest_groups.len() > 0
                    invariant
                        ts == trajs_view(trajs@),
                        elm == acts[done_i],
                        keys == group_keys(ts, elm.trajs, index as int),
                        group_points(gseq) == keys,
                        forall|q: int|
                            0 <= q < gseq.len() ==> (#[trigger] gseq[q]).trajs@ == group_members(
                                ts,
                                elm.trajs,
                                index as int,
                                gseq[q].point,
                            ),
                        k == gseq.len(),
                        keys.len() == k,
                        2 <= k,
                        base + k <= usize::MAX as int,
                        0 <= elm.id < base,
                        a_id as int == elm.id,
                        0 <= j <= k,
                        rest_groups@ == gseq.skip(j),
                        arena.nodes@.len() as int == base + j,
                        pre_nodes.len() == base,
                        arena.nodes@[a_id as int].payload == pre_nodes[a_id as int].payload,
                        arena.nodes@[a_id as int].parent == pre_nodes[a_id as int].parent,
                        arena.nodes@[a_id as int].children@.map_values(|c: usize| c as int)
                            == Seq::new(j as nat, |q: int| base + q),
                        forall|q: int|
                            0 <= q < j ==> arena_node_model(
                                base + q,
                                arena.nodes@[base + q],
                            ) == child_node(ts, elm, index as int, base, q),
                        forall|q: int|
                            0 <= q < base && q != a_id as int ==> arena.nodes@[q] == pre_nodes[q],
                        next_active@.len() == pre_next.len() + j,
                        forall|q: int|
                            0 <= q < pre_next.len() ==> next_active@[q] == pre_next[q],
                        forall|q: int|
                            0 <= q < j ==> (#[trigger] next_active@[pre_next.len() + q]) as int
                                == base + q,
                    decreases rest_groups.len(),
                {
                    let g = rest_groups.remove(0);
                    proof {
                        assert(rest_groups@ =~= gseq.skip(j + 1));
                        assert(g == gseq.skip(j)[0]);
                        assert(g == gseq[j]);
                        assert(group_points(gseq)[j] == g.point);
                    }
                    let ghost before_nodes = arena.nodes@;
                    let cid = arena.add_new_node(
                        ArenaPayload { path: vec![g.point], trajs: g.trajs },
                        Some(a_id),
                    );
                    next_active.push(cid);
                    proof {
                        assert(cid as int == base + j);
                        assert(arena_node_model(base + j, arena.nodes@[base + j]) =~= child_node(
                            ts,
                            elm,
                            index as int,
                            base,
                            j,
                        )) by {
                            assert(arena.nodes@[base + j].payload.path@ =~= seq![keys[j]]);
                            assert(arena.nodes@[base + j].children@.map_values(|c: usize| c as int)
                                =~= Seq::<int>::empty());
                        }
                        assert(arena.nodes@[a_id as int].children@
                            == before_nodes[a_id as int].children@.push(cid));
                        assert(arena.nodes@[a_id as int].children@.map_values(|c: usize| c as int)
                            =~= before_nodes[a_id as int].children@.map_values(
                            |c: usize| c as int,
                        ).push(base + j));
                        assert(Seq::new(j as nat, |q: int| base + q).push(base + j) =~= Seq::new(
                            (j + 1) as nat,
                            |q: int| base + q,
                        ));
                        assert(forall|q: int|
                            0 <= q < j ==> #[trigger] arena.nodes@[base + q] == before_nodes[base
                                + q]);
                        j = j + 1;
                    }
                }
                proof {
                    assert(j == k);
                    let split = NodeModel {
                        id: elm.id,
                        path: elm.path,
                        trajs: elm.trajs,
                        parent: elm.parent,
                        children: elm.children + Seq::new(k as nat, |q: int| base + q),
                    };
                    assert(arena_node_model(a_id as int, arena.nodes@[a_id as int]) =~= split) by {
                        assert(arena_node_model(a_id as int, pre_nodes[a_id as int]) == elm);
                        assert(split.children =~= Seq::new(k as nat, |q: int| base + q));
                    }
                    let kids = Seq::new(
                        keys.len(),
                        |q: int| child_node(ts, elm, index as int, base, q),
                    );
                    assert(lr_here.done == lr_prior.done.insert(elm.id, split));
                    assert(lr_here.next == lr_prior.next + kids);
                    assert(lr_here.count == base + k);
                    assert(acts.take(done_i + 1) =~= acts.take(done_i).push(elm));
                    lemma_ids_of_push(acts.take(done_i), elm);
                    lemma_ids_of_concat(lr_prior.next, kids);
                    assert forall|c: int| #[trigger]
                        ids_of(acts.take(done_i)).contains(c) implies c != elm.id by {
                        let i = choose|i: int|
                            0 <= i < acts.take(done_i).len() && (#[trigger] acts.take(
                                done_i,
                            )[i]).id == c;
                        assert(acts[i].id == c);
                    }
                    assert forall|k2: int| #[trigger] st.tree.contains_key(k2) implies k2
                        != elm.id by {
                        assert(ids_of(acts).contains(elm.id)) by {
                            assert(acts[done_i].id == elm.id);
                        }
                    }
                    assert(forall|q: int|
                        0 <= q < kids.len() ==> (#[trigger] kids[q]).id == base + q);
                    assert forall|c: int| #[trigger] ids_of(kids).contains(c) implies base <= c
                        < base + k by {
                        let i = choose|i: int|
                            0 <= i < kids.len() && (#[trigger] kids[i]).id == c;
                    }
                    assert forall|c: int| #[trigger]
                        ids_of(acts.take(done_i)).contains(c) implies 0 <= c < st.count by {
                        let i = choose|i: int|
                            0 <= i < acts.take(done_i).len() && (#[trigger] acts.take(
                                done_i,
                            )[i]).id == c;
                        assert(acts[i].id == c);
                    }
                    assert(ids_of(acts.take(done_i + 1)) =~= ids_of(acts.take(done_i)).insert(
                        elm.id,
                    ));
                    assert(ids_of(lr_here.next) =~= ids_of(lr_prior.next) + ids_of(kids));
                    assert forall|k2: int| #[trigger] st.tree.contains_key(k2) implies 0 <= k2
                        < arena.nodes@.len() && arena_node_model(k2, arena.nodes@[k2])
                        == st.tree[k2] by {
                        assert(arena.nodes@[k2] == pre_nodes[k2]);
                    }
                    assert forall|k2: int| #[trigger]
                        run_nodes(ts, acts.take(done_i + 1), index as int, st.count).done
                            .contains_key(k2) implies 0 <= k2 < arena.nodes@.len()
                        && arena_node_model(k2, arena.nodes@[k2]) == run_nodes(
                        ts,
                        acts.take(done_i + 1),
                        index as int,
                        st.count,
                    ).done[k2] by {
                        if k2 != elm.id {
                            assert(lr_prior.done.contains_key(k2));
                            assert(ids_of(acts.take(done_i)).contains(k2));
                            assert(arena.nodes@[k2] == pre_nodes[k2]);
                        }
                    }
                    assert forall|c: int| #[trigger]
                        run_nodes(ts, acts.take(done_i + 1), index as int, st.count).done
                            .contains_key(c) implies ids_of(acts.take(done_i + 1)).contains(
                        c,
                    ) by {
                        if c != elm.id {
                            assert(lr_prior.done.contains_key(c));
                        }
                    }
                    assert forall|c: int| #[trigger]
                        ids_of(run_nodes(ts, acts.take(done_i + 1), index as int, st.count).next)
                            .contains(c) implies ids_of(acts.take(done_i + 1)).contains(c)
                        || st.count <= c < run_nodes(
                        ts,
                        acts.take(done_i + 1),
                        index as int,
                        st.count,
                    ).count by {
                        if ids_of(kids).contains(c) {
                            assert(st.count <= base);
                        }
                    }
                    // old next entries and their slots are untouched.
                    assert(list_corr(pre_nodes, pre_next, lr_prior.next));
                    assert forall|q: int| 0 <= q < pre_next.len() implies (
                    #[trigger] next_active@[q]) as int == lr_here.next[q].id && arena_node_model(
                        next_active@[q] as int,
                        arena.nodes@[next_active@[q] as int],
                    ) == lr_here.next[q] by {
                        assert(next_active@[q] == pre_next[q]);
                        assert(lr_here.next[q] == lr_prior.next[q]);
                        assert(ids_of(lr_prior.next).contains(lr_prior.next[q].id)) by {
                            assert(lr_prior.next[q].id == lr_prior.next[q].id);
                        }
                        assert(pre_next[q] as int != elm.id && (pre_next[q] as int) < base);
                        assert(arena.nodes@[pre_next[q] as int] == pre_nodes[pre_next[q] as int]);
                    }
                    assert forall|q: int| pre_next.len() <= q < next_active@.len() implies (
                    #[trigger] next_active@[q]) as int == lr_here.next[q].id && arena_node_model(
                        next_active@[q] as int,
                        arena.nodes@[next_active@[q] as int],
                    ) == lr_here.next[q] by {
                        let qq = q - pre_next.len();
                        assert(lr_here.next[q] == kids[qq]);
                        assert((#[trigger] next_active@[pre_next.len() + qq]) as int == base + qq);
                        assert(arena_node_model(base + qq, arena.nodes@[base + qq]) == child_node(
                            ts,
                            elm,
                            index as int,
                            base,
                            qq,
                        ));
                    }
                    assert forall|q: int| 0 <= q < active@.len() implies (
                    #[trigger] active@[q]) as int == acts[done_i + 1 + q].id && arena_node_model(
                        active@[q] as int,
                        arena.nodes@[active@[q] as int],
                    ) == acts[done_i + 1 + q] by {
                        assert(active@[q] == pre_active[q + 1]);
                        assert(acts[done_i + 1 + q].id != elm.id);
                        assert(0 <= acts[done_i + 1 + q].id < st.count);
                        assert(arena.nodes@[active@[q] as int] == pre_nodes[active@[q] as int]);
                    }
                    assert forall|q: int| 0 <= q < next_active@.len() implies (
                    #[trigger] next_active@[q]) as int == run_nodes(
                        ts,
                        acts.take(done_i + 1),
                        index as int,
                        st.count,
                    ).next[q].id && arena_node_model(
                        next_active@[q] as int,
                        arena.nodes@[next_active@[q] as int],
                    ) == run_nodes(ts, acts.take(done_i + 1), index as int, st.count).next[q] by {}
                    assert(tree_corr(
                        arena.nodes@,
                        run_nodes(ts, acts.take(done_i + 1), index as int, st.count).done,
                    ));
                    assert(list_corr(
                        arena.nodes@,
                        next_active@,
                        run_nodes(ts, acts.take(done_i + 1), index as int, st.count).next,
                    ));
                    assert(list_corr(arena.nodes@, active@, acts.skip(done_i + 1)));
                    done_i = done_i + 1;
                }
            }
        }
        proof {
            assert(done_i == acts.len());
            assert(acts.take(done_i) =~= acts);
            assert(state_at(ts, index as int + 1) =~= (BuildState {
                tree: st.tree.union_prefer_right(
                    run_nodes(ts, acts, index as int, st.count).done,
                ),
                active: run_nodes(ts, acts, index as int, st.count).next,
                count: run_nodes(ts, acts, index as int, st.count).count,
            }));
            assert(arena.nodes@.len() as int == state_at(ts, index as int + 1).count);
            assert forall|k: int| #[trigger]
                state_at(ts, index as int + 1).tree.contains_key(k) implies 0 <= k
                < arena.nodes@.len() && arena_node_model(k, arena.nodes@[k]) == state_at(
                ts,
                index as int + 1,
            ).tree[k] by {
                if run_nodes(ts, acts, index as int, st.count).done.contains_key(k) {
                    assert(run_nodes(ts, acts.take(done_i), index as int, st.count).done
                        .contains_key(k));
                } else {
                    assert(st.tree.contains_key(k));
                }
            }
            assert(state_at(ts, index as int + 1).active == run_nodes(
                ts,
                acts,
                index as int,
                st.count,
            ).next);
            assert forall|q: int| 0 <= q < next_active@.len() implies (
            #[trigger] next_active@[q]) as int == state_at(ts, index as int + 1).active[q].id
                && arena_node_model(
                next_active@[q] as int,
                arena.nodes@[next_active@[q] as int],
            ) == state_at(ts, index as int + 1).active[q] by {
                assert(run_nodes(ts, acts.take(done_i), index as int, st.count).next[q]
                    == state_at(ts, index as int + 1).active[q]);
            }
            assert(next_active@.len() == state_at(ts, index as int + 1).active.len());
            assert(tree_corr(arena.nodes@, state_at(ts, index as int + 1).tree));
            assert(list_corr(arena.nodes@, next_active@, state_at(ts, index as int + 1).active));
        }
        active = next_active;
    }
    proof {
        lemma_state_ok(ts, longest as int);
        let stf = state_at(ts, longest as int);
        let f = final_tree(ts);
        lemma_map_of_active(stf.active);
        assert(f == stf.tree.union_prefer_right(map_of_active(stf.active)));
        assert(arena.nodes@.len() as int == stf.count);
        assert(tree_corr(arena.nodes@, stf.tree));
        assert(list_corr(arena.nodes@, active@, stf.active));
        assert(active@.len() == stf.active.len());
        assert forall|i: int| #[trigger] f.contains_key(i) implies arena_view(arena).contains_key(
            i,
        ) && arena_view(arena)[i] == f[i] by {
            if map_of_active(stf.active).contains_key(i) {
                let q = choose|q: int|
                    0 <= q < stf.active.len() && (#[trigger] stf.active[q]).id == i
                        && map_of_active(stf.active)[i] == stf.active[q];
                assert(active@[q] as int == i);
                assert(arena_node_model(i, arena.nodes@[i]) == stf.active[q]);
                assert(0 <= i < stf.count);
            } else {
                assert(stf.tree.contains_key(i));
                assert(!map_of_active(stf.active).contains_key(i)) by {
                    if map_of_active(stf.active).contains_key(i) {
                        assert(ids_of(stf.active).contains(i));
                    }
                }
                assert(f[i] == stf.tree[i]);
            }
        }
        assert forall|i: int| #[trigger]
            arena_view(arena).contains_key(i) implies f.contains_key(i) by {
            assert(0 <= i < stf.count);
            assert((stf.tree.dom() + ids_of(stf.active)).contains(i)) by {
                assert(Set::new(|c: int| 0 <= c < stf.count).contains(i));
            }
            if ids_of(stf.active).contains(i) {
                assert(map_of_active(stf.active).dom().contains(i));
            }
        }
        assert(arena_view(arena) =~= final_tree(ts));
    }
    arena
}

} // verus!
