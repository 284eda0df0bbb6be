//! Coverage laws: how the trajectory indices are distributed over the
//! finished tree's leaves, proved by induction over the model's build
//! states.

use vstd::prelude::*;

use crate::laws::{lemma_map_of_active, lemma_map_of_active_at, lemma_state_ok};
use crate::model::{
    final_tree, group_keys, group_members, map_of_active, max_len, point_at, run_nodes, state_at,
    NodeModel,
};

verus! {

/// A trajectory that holds position `p` at depth `d` opens or joins the
/// group of `p`: its point is among the keys and it is among that group's
/// members.
proof fn lemma_group_membership(ts: Seq<Seq<i32>>, members: Seq<usize>, d: int, x: usize, p: i32)
    requires
        members.contains(x),
        point_at(ts, x, d) == Some(p),
    ensures
        group_keys(ts, members, d).contains(p),
        group_members(ts, members, d, p).contains(x),
    decreases members.len(),
{
    let i = choose|i: int| 0 <= i < members.len() && members[i] == x;
    let rest = members.drop_last();
    let prev_keys = group_keys(ts, rest, d);
    let prev_members = group_members(ts, rest, d, p);
    if i == members.len() - 1 && !rest.contains(x) {
        assert(members.last() == x);
        assert(group_members(ts, members, d, p) == prev_members.push(x));
        assert(prev_members.push(x)[prev_members.len() as int] == x);
        if prev_keys.contains(p) {
        } else {
            assert(group_keys(ts, members, d) == prev_keys.push(p));
            assert(prev_keys.push(p)[prev_keys.len() as int] == p);
        }
    } else {
        assert(rest.contains(x)) by {
            if i < members.len() - 1 {
                assert(rest[i] == x);
            }
        }
        lemma_group_membership(ts, rest, d, x, p);
        let j = choose|j: int| 0 <= j < prev_keys.len() && prev_keys[j] == p;
        let m = choose|m: int| 0 <= m < prev_members.len() && prev_members[m] == x;
        match point_at(ts, members.last(), d) {
            Some(q) => {
                if prev_keys.contains(q) {
                    assert(group_keys(ts, members, d)[j] == p);
                } else {
                    assert(group_keys(ts, members, d)[j] == p);
                }
                if q == p {
                    assert(group_members(ts, members, d, p)[m] == x);
                } else {
                    assert(group_members(ts, members, d, p)[m] == x);
                }
            },
            None => {
                assert(group_keys(ts, members, d)[j] == p);
                assert(group_members(ts, members, d, p)[m] == x);
            },
        }
    }
}

/// Every trajectory long enough to reach depth `d` is owned by some active
/// node.
pub open spec fn covered(ts: Seq<Seq<i32>>, active: Seq<NodeModel>, d: int) -> bool {
    forall|t: usize|
        t < ts.len() && (#[trigger] ts[t as int]).len() >= d ==> exists|i: int|
            0 <= i < active.len() && (#[trigger] active[i]).trajs.contains(t)
}

/// Running one level keeps every trajectory that still has a position in
/// some active node: it joins its own group when its node splits, rides
/// along when the node grows, and its node cannot finalize while it still
/// has a position to contribute.
proof fn lemma_run_nodes_covered(
    ts: Seq<Seq<i32>>,
    active: Seq<NodeModel>,
    d: int,
    count: int,
    t: usize,
)
    requires
        t < ts.len(),
        ts[t as int].len() >= d + 1,
        0 <= d,
        exists|i: int| 0 <= i < active.len() && (#[trigger] active[i]).trajs.contains(t),
    ensures
        exists|i: int|
            0 <= i < run_nodes(ts, active, d, count).next.len() && (#[trigger] run_nodes(
                ts,
                active,
                d,
                count,
            ).next[i]).trajs.contains(t),
    decreases active.len(),
{
    let i0 = choose|i: int| 0 <= i < active.len() && (#[trigger] active[i]).trajs.contains(t);
    let rest = active.drop_last();
    let el = active.last();
    let prior = run_nodes(ts, rest, d, count);
    let lr = run_nodes(ts, active, d, count);
    let keys = group_keys(ts, el.trajs, d);
    let p = ts[t as int][d];
    assert(point_at(ts, t, d) == Some(p));
    if i0 < active.len() - 1 {
        assert(rest[i0] == active[i0]);
        lemma_run_nodes_covered(ts, rest, d, count, t);
        let i1 = choose|i: int|
            0 <= i < prior.next.len() && (#[trigger] prior.next[i]).trajs.contains(t);
        assert(lr.next[i1].trajs.contains(t)) by {
            if keys.len() == 0 {
            } else if keys.len() == 1 {
                assert(lr.next[i1] == prior.next[i1]);
            } else {
                assert(lr.next[i1] == prior.next[i1]);
            }
        }
    } else {
        assert(el.trajs.contains(t));
        lemma_group_membership(ts, el.trajs, d, t, p);
        assert(keys.len() >= 1) by {
            let j = choose|j: int| 0 <= j < keys.len() && keys[j] == p;
        }
        if keys.len() == 1 {
            let grown = lr.next.last();
            assert(grown.trajs == el.trajs);
            assert(lr.next[lr.next.len() - 1].trajs.contains(t));
        } else {
            let j = choose|j: int| 0 <= j < keys.len() && keys[j] == p;
            let kid = lr.next[prior.next.len() + j];
            assert(kid.trajs == group_members(ts, el.trajs, d, p)) by {
                assert(lr.next[prior.next.len() + j] == Seq::new(
                    keys.len(),
                    |q: int| crate::model::child_node(ts, el, d, prior.count, q),
                )[j]);
            }
            assert(lr.next[prior.next.len() + j].trajs.contains(t));
        }
    }
}

/// At every build state, every trajectory that reaches the current depth is
/// owned by some active node.
proof fn lemma_state_covered(ts: Seq<Seq<i32>>, d: int)
    requires
        0 <= d,
    ensures
        covered(ts, state_at(ts, d).active, d),
    decreases d,
{
    if d == 0 {
        let root = crate::model::root_node(ts.len());
        assert forall|t: usize| t < ts.len() && (#[trigger] ts[t as int]).len() >= 0 implies exists|
            i: int,
        |
            0 <= i < state_at(ts, 0).active.len() && (#[trigger] state_at(
                ts,
                0,
            ).active[i]).trajs.contains(t) by {
            assert(root.trajs[t as int] == t);
            assert(root.trajs.contains(t));
            assert(state_at(ts, 0).active[0].trajs.contains(t));
        }
    } else {
        lemma_state_covered(ts, d - 1);
        let prev = state_at(ts, d - 1);
        assert forall|t: usize| t < ts.len() && (#[trigger] ts[t as int]).len() >= d implies exists|
            i: int,
        |
            0 <= i < state_at(ts, d).active.len() && (#[trigger] state_at(
                ts,
                d,
            ).active[i]).trajs.contains(t) by {
            assert(ts[t as int].len() >= d - 1);
            lemma_run_nodes_covered(ts, prev.active, d - 1, prev.count, t);
            assert(state_at(ts, d).active == run_nodes(ts, prev.active, d - 1, prev.count).next);
            let i2 = choose|i: int|
                0 <= i < run_nodes(ts, prev.active, d - 1, prev.count).next.len() && (
                #[trigger] run_nodes(ts, prev.active, d - 1, prev.count).next[i]).trajs.contains(
                    t,
                );
            assert(state_at(ts, d).active[i2].trajs.contains(t));
        }
    }
}

/// Coverage: a trajectory of maximal length is owned by a leaf of the
/// finished tree — its node is still active when the depth loop ends, and
/// every node finalized at that point becomes a leaf.
pub proof fn lemma_full_length_in_leaf(ts: Seq<Seq<i32>>, t: usize)
    requires
        t < ts.len(),
        ts[t as int].len() == max_len(ts),
    ensures
        exists|k: int|
            final_tree(ts).contains_key(k) && (#[trigger] final_tree(ts)[k]).children.len() == 0
                && final_tree(ts)[k].trajs.contains(t),
{
    assert(ts.len() > 0);
    let m = max_len(ts);
    assert(m >= 0) by {
        lemma_max_len_nonneg(ts);
    }
    lemma_state_covered(ts, m);
    lemma_state_ok(ts, m);
    let stf = state_at(ts, m);
    assert(ts[t as int].len() >= m);
    let i = choose|i: int|
        0 <= i < stf.active.len() && (#[trigger] stf.active[i]).trajs.contains(t);
    lemma_map_of_active_at(stf.active, i);
    let k = stf.active[i].id;
    assert(final_tree(ts).contains_key(k) && final_tree(ts)[k] == stf.active[i]) by {
        assert(map_of_active(stf.active).contains_key(k));
        assert(map_of_active(stf.active)[k] == stf.active[i]);
    }
    assert(stf.active[i].children.len() == 0);
    assert(final_tree(ts)[k].trajs.contains(t));
}

proof fn lemma_max_len_nonneg(ts: Seq<Seq<i32>>)
    ensures
        max_len(ts) >= 0,
    decreases ts.len(),
{
    if ts.len() > 0 {
        lemma_max_len_nonneg(ts.drop_last());
    }
}

/// No trajectory index lies in both sequences.
pub open spec fn disjoint_trajs(s1: Seq<usize>, s2: Seq<usize>) -> bool {
    forall|x: usize| #[trigger] s1.contains(x) ==> !s2.contains(x)
}

/// Every index of `s1` also lies in `s2`.
pub open spec fn sub_trajs(s1: Seq<usize>, s2: Seq<usize>) -> bool {
    forall|x: usize| #[trigger] s1.contains(x) ==> s2.contains(x)
}

/// A group member comes from the member list and holds the group's position.
proof fn lemma_group_members_source(ts: Seq<Seq<i32>>, members: Seq<usize>, d: int, p: i32, x: usize)
    requires
        group_members(ts, members, d, p).contains(x),
    ensures
        members.contains(x),
        point_at(ts, x, d) == Some(p),
    decreases members.len(),
{
    let prev = group_members(ts, members.drop_last(), d, p);
    if members.len() > 0 {
        if point_at(ts, members.last(), d) == Some(p) {
            let i = choose|i: int|
                0 <= i < prev.push(members.last()).len() && prev.push(members.last())[i] == x;
            if i < prev.len() {
                assert(prev[i] == x);
                lemma_group_members_source(ts, members.drop_last(), d, p, x);
                let q = choose|q: int|
                    0 <= q < members.drop_last().len() && members.drop_last()[q] == x;
                assert(members[q] == x);
            } else {
                assert(members.last() == x);
                assert(members[members.len() - 1] == x);
            }
        } else {
            lemma_group_members_source(ts, members.drop_last(), d, p, x);
            let q = choose|q: int|
                0 <= q < members.drop_last().len() && members.drop_last()[q] == x;
            assert(members[q] == x);
        }
    }
}

/// The partition's keys are distinct: a position value opens one group only.
proof fn lemma_group_keys_nodup(ts: Seq<Seq<i32>>, members: Seq<usize>, d: int)
    ensures
        forall|j1: int, j2: int|
            0 <= j1 < j2 < group_keys(ts, members, d).len() ==> group_keys(ts, members, d)[j1]
                != group_keys(ts, members, d)[j2],
    decreases members.len(),
{
    if members.len() > 0 {
        lemma_group_keys_nodup(ts, members.drop_last(), d);
        let prev = group_keys(ts, members.drop_last(), d);
        match point_at(ts, members.last(), d) {
            Some(p) => {
                if prev.contains(p) {
                } else {
                    assert forall|j1: int, j2: int|
                        0 <= j1 < j2 < prev.push(p).len() implies prev.push(p)[j1] != prev.push(
                        p,
                    )[j2] by {
                        if j2 == prev.len() {
                            if prev[j1] == p {
                                assert(prev.contains(p));
                            }
                        }
                    }
                }
            },
            None => {},
        }
    }
}

/// The trajectory sets of the active nodes and of the finalized leaves are
/// pairwise disjoint.
pub open spec fn leaves_disjoint(tree: Map<int, NodeModel>, active: Seq<NodeModel>) -> bool {
    &&& forall|i: int, j: int|
        #![trigger active[i], active[j]]
        0 <= i < j < active.len() ==> disjoint_trajs(active[i].trajs, active[j].trajs)
    &&& forall|k: int, i: int|
        #![trigger tree.contains_key(k), active[i]]
        tree.contains_key(k) && tree[k].children.len() == 0 && 0 <= i < active.len()
            ==> disjoint_trajs(tree[k].trajs, active[i].trajs)
    &&& forall|k1: int, k2: int|
        #![trigger tree.contains_key(k1), tree.contains_key(k2)]
        k1 != k2 && tree.contains_key(k1) && tree.contains_key(k2) && tree[k1].children.len()
            == 0 && tree[k2].children.len() == 0 ==> disjoint_trajs(
            tree[k1].trajs,
            tree[k2].trajs,
        )
}

/// Running one level keeps the leaf and active trajectory sets pairwise
/// disjoint: a split hands each member to exactly one child.
proof fn lemma_run_nodes_disjoint(
    ts: Seq<Seq<i32>>,
    active: Seq<NodeModel>,
    d: int,
    count: int,
    tree: Map<int, NodeModel>,
)
    requires
        leaves_disjoint(tree, active),
    ensures
        ({
            let lr = run_nodes(ts, active, d, count);
            &&& leaves_disjoint(tree.union_prefer_right(lr.done), lr.next)
            &&& forall|i: int|
                0 <= i < lr.next.len() ==> exists|i0: int|
                    0 <= i0 < active.len() && sub_trajs(
                        (#[trigger] lr.next[i]).trajs,
                        active[i0].trajs,
                    )
            &&& forall|k: int|
                #[trigger] lr.done.contains_key(k) && lr.done[k].children.len() == 0
                    ==> exists|i0: int|
                    0 <= i0 < active.len() && sub_trajs(lr.done[k].trajs, active[i0].trajs)
        }),
    decreases active.len(),
{
    let lr = run_nodes(ts, active, d, count);
    if active.len() == 0 {
        assert(tree.union_prefer_right(lr.done) =~= tree);
    } else {
        let rest = active.drop_last();
        let el = active.last();
        assert(forall|i: int| 0 <= i < rest.len() ==> rest[i] == active[i]);
        lemma_run_nodes_disjoint(ts, rest, d, count, tree);
        let prior = run_nodes(ts, rest, d, count);
        let keys = group_keys(ts, el.trajs, d);
        let tp = tree.union_prefer_right(prior.done);
        lemma_group_keys_nodup(ts, el.trajs, d);
        // anything inside a prior output is disjoint from el's set
        assert forall|i: int| 0 <= i < prior.next.len() implies disjoint_trajs(
            el.trajs,
            (#[trigger] prior.next[i]).trajs,
        ) by {
            let i0 = choose|i0: int|
                0 <= i0 < rest.len() && sub_trajs((#[trigger] prior.next[i]).trajs, rest[i0].trajs);
            assert(disjoint_trajs(active[i0].trajs, active[active.len() - 1].trajs));
            assert forall|x: usize| #[trigger] el.trajs.contains(x) implies !prior.next[i].trajs
                .contains(x) by {
                if prior.next[i].trajs.contains(x) {
                    assert(rest[i0].trajs.contains(x));
                }
            }
        }
        assert forall|k: int|
            #[trigger] tp.contains_key(k) && tp[k].children.len() == 0 implies disjoint_trajs(
            el.trajs,
            tp[k].trajs,
        ) by {
            if prior.done.contains_key(k) {
                let i0 = choose|i0: int|
                    0 <= i0 < rest.len() && sub_trajs(prior.done[k].trajs, rest[i0].trajs);
                assert(disjoint_trajs(active[i0].trajs, active[active.len() - 1].trajs));
                assert forall|x: usize| #[trigger] el.trajs.contains(x) implies !tp[k].trajs
                    .contains(x) by {
                    if tp[k].trajs.contains(x) {
                        assert(rest[i0].trajs.contains(x));
                    }
                }
            } else {
                assert(tree.contains_key(k) && tp[k] == tree[k]);
                assert(disjoint_trajs(tree[k].trajs, active[active.len() - 1].trajs));
                assert forall|x: usize| #[trigger] el.trajs.contains(x) implies !tp[k].trajs
                    .contains(x) by {
                    if tp[k].trajs.contains(x) {
                    }
                }
            }
        }
        if keys.len() == 0 {
            let u = tree.union_prefer_right(lr.done);
            assert(u =~= tp.insert(el.id, el));
            assert forall|i: int, j: int|
                #![trigger lr.next[i], lr.next[j]]
                0 <= i < j < lr.next.len() implies disjoint_trajs(
                lr.next[i].trajs,
                lr.next[j].trajs,
            ) by {
                assert(disjoint_trajs(prior.next[i].trajs, prior.next[j].trajs));
            }
            assert forall|k: int, i: int|
                #![trigger u.contains_key(k), lr.next[i]]
                u.contains_key(k) && u[k].children.len() == 0 && 0 <= i
                    < lr.next.len() implies disjoint_trajs(u[k].trajs, lr.next[i].trajs) by {
                if k == el.id {
                    assert(disjoint_trajs(el.trajs, prior.next[i].trajs));
                    assert forall|x: usize| #[trigger] u[k].trajs.contains(x) implies !lr.next[i]
                        .trajs.contains(x) by {}
                } else {
                    assert(tp.contains_key(k) && u[k] == tp[k]);
                    assert(disjoint_trajs(tp[k].trajs, prior.next[i].trajs));
                }
            }
            assert forall|k1: int, k2: int|
                #![trigger u.contains_key(k1), u.contains_key(k2)]
                k1 != k2 && u.contains_key(k1) && u.contains_key(k2) && u[k1].children.len() == 0
                    && u[k2].children.len() == 0 implies disjoint_trajs(
                u[k1].trajs,
                u[k2].trajs,
            ) by {
                if k1 == el.id {
                    assert(disjoint_trajs(el.trajs, tp[k2].trajs));
                } else if k2 == el.id {
                    assert(disjoint_trajs(el.trajs, tp[k1].trajs));
                    assert forall|x: usize| #[trigger] u[k1].trajs.contains(x) implies !u[k2].trajs
                        .contains(x) by {
                        if u[k2].trajs.contains(x) {
                            assert(el.trajs.contains(x));
                        }
                    }
                } else {
                    assert(disjoint_trajs(tp[k1].trajs, tp[k2].trajs));
                }
            }
            assert forall|k: int|
                #[trigger] lr.done.contains_key(k) && lr.done[k].children.len()
                    == 0 implies exists|i0: int|
                0 <= i0 < active.len() && sub_trajs(lr.done[k].trajs, active[i0].trajs) by {
                if k == el.id {
                    assert(sub_trajs(lr.done[k].trajs, active[active.len() - 1].trajs));
                } else {
                    let i0 = choose|i0: int|
                        0 <= i0 < rest.len() && sub_trajs(prior.done[k].trajs, rest[i0].trajs);
                    assert(sub_trajs(lr.done[k].trajs, active[i0].trajs));
                }
            }
        } else if keys.len() == 1 {
            let grown = lr.next.last();
            assert(grown.trajs == el.trajs);
            assert forall|i: int, j: int|
                #![trigger lr.next[i], lr.next[j]]
                0 <= i < j < lr.next.len() implies disjoint_trajs(
                lr.next[i].trajs,
                lr.next[j].trajs,
            ) by {
                if j < prior.next.len() {
                    assert(disjoint_trajs(prior.next[i].trajs, prior.next[j].trajs));
                } else {
                    assert(disjoint_trajs(el.trajs, prior.next[i].trajs));
                    assert forall|x: usize| #[trigger] lr.next[i].trajs.contains(x) implies !lr
                        .next[j].trajs.contains(x) by {
                        if lr.next[j].trajs.contains(x) {
                            assert(el.trajs.contains(x));
                        }
                    }
                }
            }
            assert forall|k: int, i: int|
                #![trigger tp.contains_key(k), lr.next[i]]
                tp.contains_key(k) && tp[k].children.len() == 0 && 0 <= i
                    < lr.next.len() implies disjoint_trajs(tp[k].trajs, lr.next[i].trajs) by {
                if i < prior.next.len() {
                    assert(disjoint_trajs(tp[k].trajs, prior.next[i].trajs));
                } else {
                    assert(disjoint_trajs(el.trajs, tp[k].trajs));
                    assert forall|x: usize| #[trigger] tp[k].trajs.contains(x) implies !lr.next[i]
                        .trajs.contains(x) by {
                        if lr.next[i].trajs.contains(x) {
                            assert(el.trajs.contains(x));
                        }
                    }
                }
            }
            assert(tree.union_prefer_right(lr.done) == tp);
            assert forall|i: int| 0 <= i < lr.next.len() implies exists|i0: int|
                0 <= i0 < active.len() && sub_trajs(
                    (#[trigger] lr.next[i]).trajs,
                    active[i0].trajs,
                ) by {
                if i < prior.next.len() {
                    let i0 = choose|i0: int|
                        0 <= i0 < rest.len() && sub_trajs(prior.next[i].trajs, rest[i0].trajs);
                    assert(sub_trajs(lr.next[i].trajs, active[i0].trajs));
                } else {
                    assert(sub_trajs(lr.next[i].trajs, active[active.len() - 1].trajs));
                }
            }
        } else {
            let base = prior.count;
            let kids = Seq::new(
                keys.len(),
                |q: int| crate::model::child_node(ts, el, d, base, q),
            );
            assert(lr.next == prior.next + kids);
            let u = tree.union_prefer_right(lr.done);
            let split = lr.done[el.id];
            assert(u =~= tp.insert(el.id, split));
            assert(split.children.len() >= 2);
            assert forall|q: int| 0 <= q < kids.len() implies sub_trajs(
                (#[trigger] kids[q]).trajs,
                el.trajs,
            ) by {
                assert(kids[q].trajs == group_members(ts, el.trajs, d, keys[q]));
                assert forall|x: usize| #[trigger] kids[q].trajs.contains(x) implies el.trajs
                    .contains(x) by {
                    lemma_group_members_source(ts, el.trajs, d, keys[q], x);
                }
            }
            assert forall|q1: int, q2: int|
                #![trigger kids[q1], kids[q2]]
                0 <= q1 < q2 < kids.len() implies disjoint_trajs(
                kids[q1].trajs,
                kids[q2].trajs,
            ) by {
                assert(keys[q1] != keys[q2]);
                assert forall|x: usize| #[trigger] kids[q1].trajs.contains(x) implies !kids[q2]
                    .trajs.contains(x) by {
                    lemma_group_members_source(ts, el.trajs, d, keys[q1], x);
                    if kids[q2].trajs.contains(x) {
                        lemma_group_members_source(ts, el.trajs, d, keys[q2], x);
                    }
                }
            }
            assert forall|i: int, j: int|
                #![trigger lr.next[i], lr.next[j]]
                0 <= i < j < lr.next.len() implies disjoint_trajs(
                lr.next[i].trajs,
                lr.next[j].trajs,
            ) by {
                if j < prior.next.len() {
                    assert(disjoint_trajs(prior.next[i].trajs, prior.next[j].trajs));
                } else if i >= prior.next.len() {
                    assert(lr.next[i] == kids[i - prior.next.len()]);
                    assert(lr.next[j] == kids[j - prior.next.len()]);
                    assert(disjoint_trajs(
                        kids[i - prior.next.len()].trajs,
                        kids[j - prior.next.len()].trajs,
                    ));
                } else {
                    assert(lr.next[j] == kids[j - prior.next.len()]);
                    assert(disjoint_trajs(el.trajs, prior.next[i].trajs));
                    assert(sub_trajs(kids[j - prior.next.len()].trajs, el.trajs));
                    assert forall|x: usize| #[trigger] lr.next[i].trajs.contains(x) implies !lr
                        .next[j].trajs.contains(x) by {
                        if lr.next[j].trajs.contains(x) {
                            assert(el.trajs.contains(x));
                        }
                    }
                }
            }
            assert forall|k: int, i: int|
                #![trigger u.contains_key(k), lr.next[i]]
                u.contains_key(k) && u[k].children.len() == 0 && 0 <= i
                    < lr.next.len() implies disjoint_trajs(u[k].trajs, lr.next[i].trajs) by {
                assert(k != el.id);
                assert(tp.contains_key(k) && u[k] == tp[k]);
                if i < prior.next.len() {
                    assert(disjoint_trajs(tp[k].trajs, prior.next[i].trajs));
                } else {
                    assert(lr.next[i] == kids[i - prior.next.len()]);
                    assert(disjoint_trajs(el.trajs, tp[k].trajs));
                    assert(sub_trajs(kids[i - prior.next.len()].trajs, el.trajs));
                    assert forall|x: usize| #[trigger] u[k].trajs.contains(x) implies !lr.next[i]
                        .trajs.contains(x) by {
                        if lr.next[i].trajs.contains(x) {
                            assert(el.trajs.contains(x));
                        }
                    }
                }
            }
            assert forall|k1: int, k2: int|
                #![trigger u.contains_key(k1), u.contains_key(k2)]
                k1 != k2 && u.contains_key(k1) && u.contains_key(k2) && u[k1].children.len() == 0
                    && u[k2].children.len() == 0 implies disjoint_trajs(
                u[k1].trajs,
                u[k2].trajs,
            ) by {
                assert(k1 != el.id && k2 != el.id);
                assert(disjoint_trajs(tp[k1].trajs, tp[k2].trajs));
            }
            assert forall|i: int| 0 <= i < lr.next.len() implies exists|i0: int|
                0 <= i0 < active.len() && sub_trajs(
                    (#[trigger] lr.next[i]).trajs,
                    active[i0].trajs,
                ) by {
                if i < prior.next.len() {
                    let i0 = choose|i0: int|
                        0 <= i0 < rest.len() && sub_trajs(prior.next[i].trajs, rest[i0].trajs);
                    assert(sub_trajs(lr.next[i].trajs, active[i0].trajs));
                } else {
                    assert(lr.next[i] == kids[i - prior.next.len()]);
                    assert(sub_trajs(lr.next[i].trajs, active[active.len() - 1].trajs));
                }
            }
            assert forall|k: int|
                #[trigger] lr.done.contains_key(k) && lr.done[k].children.len()
                    == 0 implies exists|i0: int|
                0 <= i0 < active.len() && sub_trajs(lr.done[k].trajs, active[i0].trajs) by {
                assert(k != el.id);
                let i0 = choose|i0: int|
                    0 <= i0 < rest.len() && sub_trajs(prior.done[k].trajs, rest[i0].trajs);
                assert(sub_trajs(lr.done[k].trajs, active[i0].trajs));
            }
        }
    }
}

/// At every build state the leaf and active trajectory sets are pairwise
/// disjoint.
proof fn lemma_state_disjoint(ts: Seq<Seq<i32>>, d: int)
    requires
        0 <= d,
    ensures
        leaves_disjoint(state_at(ts, d).tree, state_at(ts, d).active),
    decreases d,
{
    if d == 0 {
    } else {
        lemma_state_disjoint(ts, d - 1);
        let prev = state_at(ts, d - 1);
        lemma_run_nodes_disjoint(ts, prev.active, d - 1, prev.count, prev.tree);
    }
}

/// Coverage, uniqueness half: two distinct leaves of the finished tree own
/// disjoint trajectory sets, so no trajectory index lies in more than one
/// leaf.
pub proof fn lemma_leaves_partition(ts: Seq<Seq<i32>>, k1: int, k2: int)
    requires
        k1 != k2,
        final_tree(ts).contains_key(k1),
        final_tree(ts).contains_key(k2),
        final_tree(ts)[k1].children.len() == 0,
        final_tree(ts)[k2].children.len() == 0,
    ensures
        disjoint_trajs(final_tree(ts)[k1].trajs, final_tree(ts)[k2].trajs),
{
    if ts.len() == 0 {
        assert(final_tree(ts).dom() =~= Set::<int>::empty());
    } else {
        let m = max_len(ts);
        lemma_max_len_nonneg(ts);
        lemma_state_disjoint(ts, m);
        lemma_state_ok(ts, m);
        lemma_map_of_active(ts_active(ts));
        let stf = state_at(ts, m);
        let f = final_tree(ts);
        assert(f == stf.tree.union_prefer_right(map_of_active(stf.active)));
        let ma = map_of_active(stf.active);
        assert forall|x: usize| #[trigger] f[k1].trajs.contains(x) implies !f[k2].trajs.contains(
            x,
        ) by {
            if f[k2].trajs.contains(x) {
                if ma.contains_key(k1) {
                    let q1 = choose|q: int|
                        0 <= q < stf.active.len() && (#[trigger] stf.active[q]).id == k1
                            && ma[k1] == stf.active[q];
                    if ma.contains_key(k2) {
                        let q2 = choose|q: int|
                            0 <= q < stf.active.len() && (#[trigger] stf.active[q]).id == k2
                                && ma[k2] == stf.active[q];
                        if q1 < q2 {
                            assert(disjoint_trajs(stf.active[q1].trajs, stf.active[q2].trajs));
                        } else {
                            assert(q2 < q1);
                            assert(disjoint_trajs(stf.active[q2].trajs, stf.active[q1].trajs));
                        }
                    } else {
                        assert(stf.tree.contains_key(k2) && f[k2] == stf.tree[k2]);
                        assert(disjoint_trajs(stf.tree[k2].trajs, stf.active[q1].trajs));
                    }
                } else {
                    assert(stf.tree.contains_key(k1) && f[k1] == stf.tree[k1]);
                    if ma.contains_key(k2) {
                        let q2 = choose|q: int|
                            0 <= q < stf.active.len() && (#[trigger] stf.active[q]).id == k2
                                && ma[k2] == stf.active[q];
                        assert(disjoint_trajs(stf.tree[k1].trajs, stf.active[q2].trajs));
                    } else {
                        assert(stf.tree.contains_key(k2) && f[k2] == stf.tree[k2]);
                        assert(disjoint_trajs(stf.tree[k1].trajs, stf.tree[k2].trajs));
                    }
                }
            }
        }
    }
}

/// The active list of the final build state; a shorthand for the partition
/// lemma above.
pub open spec fn ts_active(ts: Seq<Seq<i32>>) -> Seq<NodeModel> {
    state_at(ts, max_len(ts)).active
}

} // verus!
