//! The mathematical model of the segment-merge construction.
//!
//! A trajectory store is a `Seq<Seq<i32>>`; a node is a `NodeModel`. The
//! builder is modelled level by level: `run_nodes` partitions every active
//! node at one position depth, `state_at` folds the levels, and `final_tree`
//! is the finished id-keyed tree. Both executable representations are proved
//! against this one model.

use vstd::prelude::*;

verus! {

/// The mathematical value of one tree node.
#[verifier::ext_equal]
pub ghost struct NodeModel {
    pub id: int,
    pub path: Seq<i32>,
    pub trajs: Seq<usize>,
    pub parent: Option<int>,
    pub children: Seq<int>,
}

/// The position of trajectory `tid` at depth `d`, or `None` when the
/// trajectory index lies outside the store or the trajectory is shorter
/// than `d + 1` positions: such a trajectory contributes nothing at `d`.
pub open spec fn point_at(ts: Seq<Seq<i32>>, tid: usize, d: int) -> Option<i32> {
    if tid < ts.len() && 0 <= d < ts[tid as int].len() {
        Some(ts[tid as int][d])
    } else {
        None
    }
}

/// The distinct positions that the members hold at depth `d`, in the order
/// in which each position is first observed while scanning the members.
pub open spec fn group_keys(ts: Seq<Seq<i32>>, members: Seq<usize>, d: int) -> Seq<i32>
    decreases members.len(),
{
    if members.len() == 0 {
        Seq::empty()
    } else {
        let prev = group_keys(ts, members.drop_last(), d);
        match point_at(ts, members.last(), d) {
            Some(p) => if prev.contains(p) {
                prev
            } else {
                prev.push(p)
            },
            None => prev,
        }
    }
}

/// The members that hold position `p` at depth `d`, in member order.
pub open spec fn group_members(ts: Seq<Seq<i32>>, members: Seq<usize>, d: int, p: i32) -> Seq<
    usize,
>
    decreases members.len(),
{
    if members.len() == 0 {
        Seq::empty()
    } else {
        let prev = group_members(ts, members.drop_last(), d, p);
        if point_at(ts, members.last(), d) == Some(p) {
            prev.push(members.last())
        } else {
            prev
        }
    }
}

/// The `j`-th child that a split of `el` at depth `d` creates, when ids are
/// handed out from `base`: a fresh segment of length one (the differing
/// position), the member subset that holds it, and `el` as parent.
pub open spec fn child_node(
    ts: Seq<Seq<i32>>,
    el: NodeModel,
    d: int,
    base: int,
    j: int,
) -> NodeModel {
    NodeModel {
        id: base + j,
        path: seq![group_keys(ts, el.trajs, d)[j]],
        trajs: group_members(ts, el.trajs, d, group_keys(ts, el.trajs, d)[j]),
        parent: Some(el.id),
        children: Seq::empty(),
    }
}

/// What one depth level produces: the nodes finalized at this level keyed by
/// id, the active nodes for the next level in order, and the next fresh id.
#[verifier::ext_equal]
pub ghost struct LevelResult {
    pub done: Map<int, NodeModel>,
    pub next: Seq<NodeModel>,
    pub count: int,
}

/// Process the active nodes in order at depth `d`, handing out ids from
/// `count`. Zero groups finalize a node as it stands; one group grows its
/// segment; two or more groups create one child per distinct position and
/// finalize the node with those children attached.
pub open spec fn run_nodes(ts: Seq<Seq<i32>>, active: Seq<NodeModel>, d: int, count: int) -> LevelResult
    decreases active.len(),
{
    if active.len() == 0 {
        LevelResult { done: Map::empty(), next: Seq::empty(), count: count }
    } else {
        let prior = run_nodes(ts, active.drop_last(), d, count);
        let el = active.last();
        let keys = group_keys(ts, el.trajs, d);
        if keys.len() == 0 {
            LevelResult {
                done: prior.done.insert(el.id, el),
                next: prior.next,
                count: prior.count,
            }
        } else if keys.len() == 1 {
            let grown = NodeModel {
                id: el.id,
                path: el.path.push(keys[0]),
                trajs: el.trajs,
                parent: el.parent,
                children: el.children,
            };
            LevelResult { done: prior.done, next: prior.next.push(grown), count: prior.count }
        } else {
            let kids = Seq::new(keys.len(), |j: int| child_node(ts, el, d, prior.count, j));
            let split = NodeModel {
                id: el.id,
                path: el.path,
                trajs: el.trajs,
                parent: el.parent,
                children: el.children + Seq::new(keys.len(), |j: int| prior.count + j),
            };
            LevelResult {
                done: prior.done.insert(el.id, split),
                next: prior.next + kids,
                count: prior.count + keys.len(),
            }
        }
    }
}

/// The length of the longest trajectory in the store.
pub open spec fn max_len(ts: Seq<Seq<i32>>) -> int
    decreases ts.len(),
{
    if ts.len() == 0 {
        0
    } else {
        let m = max_len(ts.drop_last());
        if ts.last().len() > m {
            ts.last().len() as int
        } else {
            m
        }
    }
}

/// The synthetic root: id 0, empty segment, owning every trajectory index.
pub open spec fn root_node(n: nat) -> NodeModel {
    NodeModel {
        id: 0,
        path: Seq::empty(),
        trajs: Seq::new(n, |i: int| i as usize),
        parent: None,
        children: Seq::empty(),
    }
}

/// The builder's whole state: the finalized nodes so far, the active nodes
/// in order, and the next fresh id.
#[verifier::ext_equal]
pub ghost struct BuildState {
    pub tree: Map<int, NodeModel>,
    pub active: Seq<NodeModel>,
    pub count: int,
}

/// The state before any depth level has run: only the root is active.
pub open spec fn init_state(n: nat) -> BuildState {
    BuildState { tree: Map::empty(), active: seq![root_node(n)], count: 1 }
}

/// The builder's state after the first `d` depth levels have run.
pub open spec fn state_at(ts: Seq<Seq<i32>>, d: int) -> BuildState
    decreases d,
{
    if d <= 0 {
        init_state(ts.len())
    } else {
        let prev = state_at(ts, d - 1);
        let lr = run_nodes(ts, prev.active, d - 1, prev.count);
        BuildState {
            tree: prev.tree.union_prefer_right(lr.done),
            active: lr.next,
            count: lr.count,
        }
    }
}

/// The nodes of `active` as an id-keyed map.
pub open spec fn map_of_active(active: Seq<NodeModel>) -> Map<int, NodeModel>
    decreases active.len(),
{
    if active.len() == 0 {
        Map::empty()
    } else {
        map_of_active(active.drop_last()).insert(active.last().id, active.last())
    }
}

/// The finished tree: the empty input yields the empty tree; otherwise the
/// depth loop runs to the longest length and every node still active at the
/// end is finalized as it stands.
pub open spec fn final_tree(ts: Seq<Seq<i32>>) -> Map<int, NodeModel> {
    if ts.len() == 0 {
        Map::empty()
    } else {
        let st = state_at(ts, max_len(ts));
        st.tree.union_prefer_right(map_of_active(st.active))
    }
}

/// Every id the construction ever hands out fits in a `usize`. This is the
/// one machine limit the builder needs; id allocation is monotone, so a
/// bound on the final count bounds every intermediate one.
pub open spec fn ids_fit(ts: Seq<Seq<i32>>) -> bool {
    state_at(ts, max_len(ts)).count <= usize::MAX as int
}

/// Running a level never lowers the id counter.
pub proof fn lemma_run_nodes_count_ge(ts: Seq<Seq<i32>>, active: Seq<NodeModel>, d: int, count: int)
    ensures
        run_nodes(ts, active, d, count).count >= count,
    decreases active.len(),
{
    if active.len() > 0 {
        lemma_run_nodes_count_ge(ts, active.drop_last(), d, count);
    }
}

/// Processing a prefix of a level allocates no more ids than the whole level.
pub proof fn lemma_run_nodes_prefix_count(
    ts: Seq<Seq<i32>>,
    active: Seq<NodeModel>,
    d: int,
    count: int,
    i: int,
)
    requires
        0 <= i <= active.len(),
    ensures
        run_nodes(ts, active.take(i), d, count).count <= run_nodes(ts, active, d, count).count,
    decreases active.len() - i,
{
    if i == active.len() {
        assert(active.take(i) =~= active);
    } else {
        assert(active.take(i + 1).drop_last() =~= active.take(i));
        assert(active.take(i + 1).last() == active[i]);
        lemma_run_nodes_prefix_count(ts, active, d, count, i + 1);
    }
}

/// The id counter is monotone over depth levels.
pub proof fn lemma_state_count_mono(ts: Seq<Seq<i32>>, d1: int, d2: int)
    requires
        0 <= d1 <= d2,
    ensures
        state_at(ts, d1).count <= state_at(ts, d2).count,
    decreases d2 - d1,
{
    if d1 < d2 {
        lemma_state_count_mono(ts, d1, d2 - 1);
        let prev = state_at(ts, d2 - 1);
        lemma_run_nodes_count_ge(ts, prev.active, d2 - 1, prev.count);
    }
}

} // verus!
