//! Structural laws of the finished tree, proved by induction over the
//! model's build states: every child link resolves to a node with a larger
//! id, ids are never duplicated, and every node has zero or at least two
//! children.

use vstd::prelude::*;

use crate::arena_store::{arena_view, ArenaStore};
use crate::model::{
    final_tree, init_state, map_of_active, max_len, run_nodes, state_at, NodeModel,
};
use crate::tree::{tree_view, HashElement};

verus! {

/// The ids of the nodes of an active list.
pub open spec fn ids_of(s: Seq<NodeModel>) -> Set<int> {
    Set::new(|c: int| exists|i: int| 0 <= i < s.len() && (#[trigger] s[i]).id == c)
}

/// No two active nodes share an id.
pub open spec fn nodup_ids(s: Seq<NodeModel>) -> bool {
    forall|i: int, j: int| 0 <= i < j < s.len() ==> s[i].id != s[j].id
}

/// The finalized nodes are well formed with respect to the set `owned` of
/// ids still held by active nodes: each is keyed by its own id, ids lie
/// below the counter, a node has zero or at least two children, and every
/// child link points above its parent at a finalized or an owned id.
pub open spec fn nodes_ok(tree: Map<int, NodeModel>, owned: Set<int>, count: int) -> bool {
    &&& tree.dom().finite()
    &&& forall|k: int| #[trigger]
        tree.contains_key(k) ==> {
            &&& tree[k].id == k
            &&& 0 <= k < count
            &&& (tree[k].children.len() == 0 || tree[k].children.len() >= 2)
            &&& forall|j: int|
                0 <= j < tree[k].children.len() ==> (#[trigger] tree[k].children[j]) > k && (
                tree.contains_key(tree[k].children[j]) || owned.contains(tree[k].children[j]))
        }
}

/// Active nodes carry ids below the counter and have no children yet.
pub open spec fn active_ok(s: Seq<NodeModel>, count: int) -> bool {
    forall|i: int|
        0 <= i < s.len() ==> 0 <= (#[trigger] s[i]).id < count && s[i].children.len() == 0
}

/// No finalized id is also an active id.
pub open spec fn tree_active_disjoint(tree: Map<int, NodeModel>, s: Seq<NodeModel>) -> bool {
    forall|k: int| #[trigger] tree.contains_key(k) ==> !ids_of(s).contains(k)
}

pub proof fn lemma_ids_of_push(s: Seq<NodeModel>, x: NodeModel)
    ensures
        ids_of(s.push(x)) =~= ids_of(s).insert(x.id),
{
    assert forall|c: int| ids_of(s.push(x)).contains(c) implies ids_of(s).insert(x.id).contains(
        c,
    ) by {
        let i = choose|i: int| 0 <= i < s.push(x).len() && (#[trigger] s.push(x)[i]).id == c;
        if i < s.len() {
            assert(s[i].id == c);
        }
    }
    assert forall|c: int| ids_of(s).insert(x.id).contains(c) implies ids_of(s.push(x)).contains(
        c,
    ) by {
        if c == x.id {
            assert(s.push(x)[s.len() as int].id == c);
        } else {
            let i = choose|i: int| 0 <= i < s.len() && (#[trigger] s[i]).id == c;
            assert(s.push(x)[i].id == c);
        }
    }
}

pub proof fn lemma_ids_of_concat(s1: Seq<NodeModel>, s2: Seq<NodeModel>)
    ensures
        ids_of(s1 + s2) =~= ids_of(s1) + ids_of(s2),
{
    assert forall|c: int| ids_of(s1 + s2).contains(c) implies (ids_of(s1) + ids_of(s2)).contains(
        c,
    ) by {
        let i = choose|i: int| 0 <= i < (s1 + s2).len() && (#[trigger] (s1 + s2)[i]).id == c;
        if i < s1.len() {
            assert(s1[i].id == c);
        } else {
            assert(s2[i - s1.len()].id == c);
        }
    }
    assert forall|c: int| (ids_of(s1) + ids_of(s2)).contains(c) implies ids_of(s1 + s2).contains(
        c,
    ) by {
        if ids_of(s1).contains(c) {
            let i = choose|i: int| 0 <= i < s1.len() && (#[trigger] s1[i]).id == c;
            assert((s1 + s2)[i].id == c);
        } else {
            let i = choose|i: int| 0 <= i < s2.len() && (#[trigger] s2[i]).id == c;
            assert((s1 + s2)[s1.len() + i].id == c);
        }
    }
}

proof fn lemma_nodes_ok_weaken(
    tree: Map<int, NodeModel>,
    owned1: Set<int>,
    owned2: Set<int>,
    c1: int,
    c2: int,
)
    requires
        nodes_ok(tree, owned1, c1),
        owned1.subset_of(owned2),
        c1 <= c2,
    ensures
        nodes_ok(tree, owned2, c2),
{
}

/// One level of the construction preserves the structural invariants.
proof fn lemma_run_nodes_ok(
    ts: Seq<Seq<i32>>,
    active: Seq<NodeModel>,
    d: int,
    count: int,
    tree: Map<int, NodeModel>,
    owned: Set<int>,
)
    requires
        nodes_ok(tree, owned + ids_of(active), count),
        active_ok(active, count),
        nodup_ids(active),
        tree_active_disjoint(tree, active),
    ensures
        ({
            let lr = run_nodes(ts, active, d, count);
            &&& nodes_ok(tree.union_prefer_right(lr.done), owned + ids_of(lr.next), lr.count)
            &&& active_ok(lr.next, lr.count)
            &&& nodup_ids(lr.next)
            &&& tree_active_disjoint(tree.union_prefer_right(lr.done), lr.next)
            &&& count <= lr.count
            &&& forall|c: int|
                tree.contains_key(c) || ids_of(active).contains(c)
                    ==> #[trigger] tree.union_prefer_right(lr.done).contains_key(c) || ids_of(
                    lr.next,
                ).contains(c)
            &&& forall|c: int| #[trigger]
                lr.done.contains_key(c) ==> tree.contains_key(c) || ids_of(active).contains(c)
            &&& forall|c: int| #[trigger]
                ids_of(lr.next).contains(c) ==> ids_of(active).contains(c) || count <= c
                    < lr.count
            &&& tree.union_prefer_right(lr.done).dom() + ids_of(lr.next) =~= tree.dom() + ids_of(
                active,
            ) + Set::new(|c: int| count <= c < lr.count)
        }),
    decreases active.len(),
{
    let lr = run_nodes(ts, active, d, count);
    if active.len() == 0 {
        assert(ids_of(active) =~= Set::<int>::empty());
        assert(tree.union_prefer_right(lr.done) =~= tree);
        assert(ids_of(lr.next) =~= Set::<int>::empty());
        assert(Set::new(|c: int| count <= c < lr.count) =~= Set::<int>::empty());
        assert(tree.union_prefer_right(lr.done).dom() + ids_of(lr.next) =~= tree.dom() + ids_of(
            active,
        ) + Set::new(|c: int| count <= c < lr.count));
    } else {
        let rest = active.drop_last();
        let el = active.last();
        assert(active =~= rest.push(el));
        lemma_ids_of_push(rest, el);
        assert(ids_of(active) =~= ids_of(rest).insert(el.id));
        assert(forall|i: int| 0 <= i < rest.len() ==> rest[i] == active[i]);
        lemma_nodes_ok_weaken(
            tree,
            owned + ids_of(active),
            (owned.insert(el.id)) + ids_of(rest),
            count,
            count,
        );
        lemma_run_nodes_ok(ts, rest, d, count, tree, owned.insert(el.id));
        let prior = run_nodes(ts, rest, d, count);
        let keys = crate::model::group_keys(ts, el.trajs, d);
        let tp = tree.union_prefer_right(prior.done);
        assert(active_ok(active, count));
        assert(el.id == active[active.len() - 1].id);
        assert(0 <= el.id < count && el.children.len() == 0) by {
            assert(active[active.len() - 1] == el);
        }
        // el's id is still free in the prior result.
        assert(!tp.contains_key(el.id) && !ids_of(prior.next).contains(el.id)) by {
            if prior.done.contains_key(el.id) {
                assert(tree.contains_key(el.id) || ids_of(rest).contains(el.id));
            }
            if tree.contains_key(el.id) {
                assert(ids_of(active).contains(el.id));
            }
            if ids_of(rest).contains(el.id) {
                let i = choose|i: int| 0 <= i < rest.len() && (#[trigger] rest[i]).id == el.id;
                assert(active[i].id == active[active.len() - 1].id);
            }
            if ids_of(prior.next).contains(el.id) {
                assert(ids_of(rest).contains(el.id) || count <= el.id < prior.count);
            }
        }
        if keys.len() == 0 {
            assert(lr.done == prior.done.insert(el.id, el));
            assert(tree.union_prefer_right(lr.done) =~= tp.insert(el.id, el));
            assert(nodes_ok(tp.insert(el.id, el), owned + ids_of(lr.next), lr.count)) by {
                assert(nodes_ok(tp, (owned.insert(el.id)) + ids_of(prior.next), prior.count));
                assert forall|k: int| #[trigger] tp.insert(el.id, el).contains_key(k) implies {
                    &&& tp.insert(el.id, el)[k].id == k
                    &&& 0 <= k < lr.count
                    &&& (tp.insert(el.id, el)[k].children.len() == 0 || tp.insert(
                        el.id,
                        el,
                    )[k].children.len() >= 2)
                    &&& forall|j: int|
                        0 <= j < tp.insert(el.id, el)[k].children.len() ==> (#[trigger] tp.insert(
                            el.id,
                            el,
                        )[k].children[j]) > k && (tp.insert(el.id, el).contains_key(
                            tp.insert(el.id, el)[k].children[j],
                        ) || (owned + ids_of(lr.next)).contains(tp.insert(el.id, el)[k].children[j]))
                } by {
                    if k != el.id {
                        assert(tp.contains_key(k));
                        assert forall|j: int| 0 <= j < tp[k].children.len() implies (
                        #[trigger] tp[k].children[j]) > k && (tp.insert(el.id, el).contains_key(
                            tp[k].children[j],
                        ) || (owned + ids_of(lr.next)).contains(tp[k].children[j])) by {
                            let c = tp[k].children[j];
                            if tp.contains_key(c) || c == el.id {
                            } else {
                                assert((owned.insert(el.id) + ids_of(prior.next)).contains(c));
                            }
                        }
                    }
                }
            }
            assert(tree.union_prefer_right(lr.done).dom() =~= tp.dom().insert(el.id));
            assert(lr.next == prior.next && lr.count == prior.count);
            assert(tree.union_prefer_right(lr.done).dom() + ids_of(lr.next) =~= tree.dom()
                + ids_of(active) + Set::new(|c: int| count <= c < lr.count)) by {
                let lhs0 = tp.dom() + ids_of(prior.next);
                let rhs0 = tree.dom() + ids_of(rest) + Set::new(|c: int| count <= c < prior.count);
                assert(lhs0 =~= rhs0);
                assert(forall|c: int|
                    #[trigger] ids_of(active).contains(c) <==> ids_of(rest).contains(c) || c
                        == el.id);
                assert forall|c: int|
                    (tree.union_prefer_right(lr.done).dom() + ids_of(lr.next)).contains(c)
                        <==> (tree.dom() + ids_of(active) + Set::new(
                        |c2: int| count <= c2 < lr.count,
                    )).contains(c) by {
                    assert(lhs0.contains(c) <==> rhs0.contains(c));
                    assert((tree.union_prefer_right(lr.done).dom() + ids_of(lr.next)).contains(c)
                        <==> lhs0.contains(c) || c == el.id);
                    assert((tree.dom() + ids_of(active) + Set::new(
                        |c2: int| count <= c2 < lr.count,
                    )).contains(c) <==> rhs0.contains(c) || c == el.id);
                }
            }
        } else if keys.len() == 1 {
            let grown = NodeModel {
                id: el.id,
                path: el.path.push(keys[0]),
                trajs: el.trajs,
                parent: el.parent,
                children: el.children,
            };
            assert(lr.next == prior.next.push(grown));
            lemma_ids_of_push(prior.next, grown);
            assert(owned.insert(el.id) + ids_of(prior.next) =~= owned + ids_of(lr.next));
            assert(nodup_ids(lr.next)) by {
                assert(forall|i: int|
                    0 <= i < prior.next.len() ==> lr.next[i] == prior.next[i]);
                assert(lr.next[lr.next.len() - 1] == grown);
                assert forall|i: int| 0 <= i < prior.next.len() implies prior.next[i].id
                    != grown.id by {
                    assert(ids_of(prior.next).contains(prior.next[i].id));
                }
            }
            assert(tree.union_prefer_right(lr.done) =~= tp);
            assert(lr.done == prior.done && lr.count == prior.count);
            assert(tree.union_prefer_right(lr.done).dom() + ids_of(lr.next) =~= tree.dom()
                + ids_of(active) + Set::new(|c: int| count <= c < lr.count)) by {
                assert(ids_of(lr.next) =~= ids_of(prior.next).insert(el.id));
                let lhs0 = tp.dom() + ids_of(prior.next);
                let rhs0 = tree.dom() + ids_of(rest) + Set::new(|c: int| count <= c < prior.count);
                assert(lhs0 =~= rhs0);
                assert(forall|c: int|
                    #[trigger] ids_of(active).contains(c) <==> ids_of(rest).contains(c) || c
                        == el.id);
                assert forall|c: int|
                    (tree.union_prefer_right(lr.done).dom() + ids_of(lr.next)).contains(c)
                        <==> (tree.dom() + ids_of(active) + Set::new(
                        |c2: int| count <= c2 < lr.count,
                    )).contains(c) by {
                    assert(lhs0.contains(c) <==> rhs0.contains(c));
                    assert((tree.union_prefer_right(lr.done).dom() + ids_of(lr.next)).contains(c)
                        <==> lhs0.contains(c) || c == el.id);
                    assert((tree.dom() + ids_of(active) + Set::new(
                        |c2: int| count <= c2 < lr.count,
                    )).contains(c) <==> rhs0.contains(c) || c == el.id);
                }
            }
        } else {
            let base = prior.count;
            let kids = Seq::new(
                keys.len(),
                |q: int| crate::model::child_node(ts, el, d, base, q),
            );
            let split = NodeModel {
                id: el.id,
                path: el.path,
                trajs: el.trajs,
                parent: el.parent,
                children: el.children + Seq::new(keys.len(), |q: int| base + q),
            };
            assert(lr.done == prior.done.insert(el.id, split));
            assert(lr.next == prior.next + kids);
            assert(lr.count == base + keys.len());
            lemma_ids_of_concat(prior.next, kids);
            assert(ids_of(lr.next) =~= ids_of(prior.next) + ids_of(kids));
            assert(tree.union_prefer_right(lr.done) =~= tp.insert(el.id, split));
            assert(split.children.len() == keys.len()) by {
                assert(el.children.len() == 0);
                assert(split.children =~= Seq::new(keys.len(), |q: int| base + q));
            }
            assert(forall|q: int|
                0 <= q < keys.len() ==> (#[trigger] kids[q]).id == base + q);
            assert forall|c: int| base <= c < base + keys.len() implies ids_of(kids).contains(
                c,
            ) by {
                assert(kids[c - base].id == c);
            }
            assert forall|c: int| #[trigger] ids_of(kids).contains(c) implies base <= c < base
                + keys.len() by {
                let i = choose|i: int| 0 <= i < kids.len() && (#[trigger] kids[i]).id == c;
            }
            assert(nodes_ok(tp.insert(el.id, split), owned + ids_of(lr.next), lr.count)) by {
                assert(nodes_ok(tp, (owned.insert(el.id)) + ids_of(prior.next), prior.count));
                assert forall|k: int| #[trigger]
                    tp.insert(el.id, split).contains_key(k) implies {
                    &&& tp.insert(el.id, split)[k].id == k
                    &&& 0 <= k < lr.count
                    &&& (tp.insert(el.id, split)[k].children.len() == 0 || tp.insert(
                        el.id,
                        split,
                    )[k].children.len() >= 2)
                    &&& forall|j: int|
                        0 <= j < tp.insert(el.id, split)[k].children.len() ==> (
                        #[trigger] tp.insert(el.id, split)[k].children[j]) > k && (tp.insert(
                            el.id,
                            split,
                        ).contains_key(tp.insert(el.id, split)[k].children[j]) || (owned + ids_of(
                            lr.next,
                        )).contains(tp.insert(el.id, split)[k].children[j]))
                } by {
                    if k == el.id {
                        assert(split.id == k);
                        assert(split.children.len() == keys.len() >= 2);
                        assert forall|j: int| 0 <= j < split.children.len() implies (
                        #[trigger] split.children[j]) > k && (tp.insert(el.id, split).contains_key(
                            split.children[j],
                        ) || (owned + ids_of(lr.next)).contains(split.children[j])) by {
                            assert(split.children[j] == base + j);
                            assert(ids_of(kids).contains(base + j));
                            assert(el.id < count <= base);
                        }
                    } else {
                        assert(tp.contains_key(k));
                        assert forall|j: int| 0 <= j < tp[k].children.len() implies (
                        #[trigger] tp[k].children[j]) > k && (tp.insert(
                            el.id,
                            split,
                        ).contains_key(tp[k].children[j]) || (owned + ids_of(lr.next)).contains(
                            tp[k].children[j],
                        )) by {
                            let c = tp[k].children[j];
                            if tp.contains_key(c) || c == el.id {
                            } else {
                                assert((owned.insert(el.id) + ids_of(prior.next)).contains(c));
                            }
                        }
                    }
                }
            }
            assert(active_ok(lr.next, lr.count)) by {
                assert(forall|i: int|
                    0 <= i < prior.next.len() ==> lr.next[i] == prior.next[i]);
                assert(forall|q: int|
                    0 <= q < kids.len() ==> lr.next[prior.next.len() + q] == kids[q]);
                assert(forall|q: int|
                    0 <= q < kids.len() ==> (#[trigger] kids[q]).children.len() == 0);
            }
            assert(nodup_ids(lr.next)) by {
                assert(forall|i: int|
                    0 <= i < prior.next.len() ==> lr.next[i] == prior.next[i]);
                assert(forall|q: int|
                    0 <= q < kids.len() ==> lr.next[prior.next.len() + q] == kids[q]);
                assert forall|i: int, j: int| 0 <= i < j < lr.next.len() implies lr.next[i].id
                    != lr.next[j].id by {
                    if j < prior.next.len() {
                    } else if i < prior.next.len() {
                        assert(ids_of(prior.next).contains(prior.next[i].id));
                        assert(lr.next[j].id == base + (j - prior.next.len()));
                        assert(ids_of(prior.next).contains(lr.next[i].id) ==> lr.next[i].id
                            < prior.count || ids_of(rest).contains(lr.next[i].id));
                    } else {
                        assert(lr.next[i].id == base + (i - prior.next.len()));
                        assert(lr.next[j].id == base + (j - prior.next.len()));
                    }
                }
            }
            assert(tree_active_disjoint(tree.union_prefer_right(lr.done), lr.next)) by {
                assert forall|k: int| #[trigger]
                    tp.insert(el.id, split).contains_key(k) implies !ids_of(lr.next).contains(
                    k,
                ) by {
                    if ids_of(lr.next).contains(k) {
                        if ids_of(prior.next).contains(k) {
                            if k == el.id {
                            } else {
                                assert(tp.contains_key(k));
                            }
                        } else {
                            assert(ids_of(kids).contains(k));
                            assert(base <= k < base + keys.len());
                            if k == el.id {
                                assert(el.id < count);
                            } else {
                                assert(tp.contains_key(k));
                                assert(k < prior.count);
                            }
                        }
                    }
                }
            }
            assert(tree.union_prefer_right(lr.done).dom() =~= tp.dom().insert(el.id));
            assert(lr.count == base + keys.len());
            assert(tree.union_prefer_right(lr.done).dom() + ids_of(lr.next) =~= tree.dom()
                + ids_of(active) + Set::new(|c: int| count <= c < lr.count)) by {
                assert(ids_of(lr.next) =~= ids_of(prior.next) + ids_of(kids));
                assert(forall|c: int| #[trigger] ids_of(kids).contains(c) <==> base <= c < base
                    + keys.len());
                assert(forall|c: int|
                    #[trigger] ids_of(active).contains(c) <==> ids_of(rest).contains(c) || c
                        == el.id);
                let lhs0 = tp.dom() + ids_of(prior.next);
                let rhs0 = tree.dom() + ids_of(rest) + Set::new(|c: int| count <= c < prior.count);
                assert(lhs0 =~= rhs0);
                assert forall|c: int|
                    (tree.union_prefer_right(lr.done).dom() + ids_of(lr.next)).contains(c)
                        <==> (tree.dom() + ids_of(active) + Set::new(
                        |c2: int| count <= c2 < lr.count,
                    )).contains(c) by {
                    assert(lhs0.contains(c) <==> rhs0.contains(c));
                    assert((tree.union_prefer_right(lr.done).dom() + ids_of(lr.next)).contains(c)
                        <==> lhs0.contains(c) || c == el.id || ids_of(kids).contains(c));
                    assert((tree.dom() + ids_of(active) + Set::new(
                        |c2: int| count <= c2 < lr.count,
                    )).contains(c) <==> rhs0.contains(c) || c == el.id || base <= c < base
                        + keys.len());
                }
            }
        }
    }
}

/// The structural invariants hold of every build state.
pub proof fn lemma_state_ok(ts: Seq<Seq<i32>>, d: int)
    requires
        0 <= d,
    ensures
        ({
            let st = state_at(ts, d);
            &&& nodes_ok(st.tree, ids_of(st.active), st.count)
            &&& active_ok(st.active, st.count)
            &&& nodup_ids(st.active)
            &&& tree_active_disjoint(st.tree, st.active)
            &&& st.count >= 1
            &&& (forall|c: int| #[trigger]
                st.tree.contains_key(c) || ids_of(st.active).contains(c) <== c == 0)
            &&& st.tree.dom() + ids_of(st.active) =~= Set::new(|c: int| 0 <= c < st.count)
        }),
    decreases d,
{
    if d == 0 {
        let st = init_state(ts.len());
        assert(st.active[0].id == 0);
        assert(ids_of(st.active).contains(0));
        assert(st.tree.dom().finite());
        assert forall|c: int| ids_of(st.active).contains(c) implies c == 0 by {
            let i = choose|i: int|
                0 <= i < st.active.len() && (#[trigger] st.active[i]).id == c;
        }
        assert(st.tree.dom() + ids_of(st.active) =~= Set::new(|c: int| 0 <= c < st.count));
    } else {
        lemma_state_ok(ts, d - 1);
        let prev = state_at(ts, d - 1);
        lemma_nodes_ok_weaken(
            prev.tree,
            ids_of(prev.active),
            Set::<int>::empty() + ids_of(prev.active),
            prev.count,
            prev.count,
        );
        lemma_run_nodes_ok(ts, prev.active, d - 1, prev.count, prev.tree, Set::<int>::empty());
        let lr = run_nodes(ts, prev.active, d - 1, prev.count);
        lemma_nodes_ok_weaken(
            prev.tree.union_prefer_right(lr.done),
            Set::<int>::empty() + ids_of(lr.next),
            ids_of(lr.next),
            lr.count,
            lr.count,
        );
        assert(ids_of(prev.active).contains(0) || prev.tree.contains_key(0));
        assert(state_at(ts, d).tree.dom() + ids_of(state_at(ts, d).active) =~= Set::new(
            |c: int| 0 <= c < state_at(ts, d).count,
        )) by {
            assert(prev.tree.union_prefer_right(lr.done).dom() + ids_of(lr.next) =~= prev.tree.dom()
                + ids_of(prev.active) + Set::new(|c: int| prev.count <= c < lr.count));
            assert(prev.tree.dom() + ids_of(prev.active) =~= Set::new(
                |c: int| 0 <= c < prev.count,
            ));
        }
    }
}

/// Every id of `map_of_active` is an active id, its node is some active
/// node, and the map is finite.
pub proof fn lemma_map_of_active(s: Seq<NodeModel>)
    ensures
        map_of_active(s).dom() =~= ids_of(s),
        forall|c: int| #[trigger]
            map_of_active(s).contains_key(c) ==> exists|i: int|
                0 <= i < s.len() && (#[trigger] s[i]).id == c && map_of_active(s)[c] == s[i],
        map_of_active(s).dom().finite(),
    decreases s.len(),
{
    if s.len() == 0 {
        assert(ids_of(s) =~= Set::<int>::empty());
    } else {
        let rest = s.drop_last();
        let el = s.last();
        lemma_map_of_active(rest);
        lemma_ids_of_push(rest, el);
        assert(s =~= rest.push(el));
        assert(ids_of(s) =~= ids_of(rest).insert(el.id));
        assert forall|c: int| #[trigger] map_of_active(s).contains_key(c) implies exists|i: int|
            0 <= i < s.len() && (#[trigger] s[i]).id == c && map_of_active(s)[c] == s[i] by {
            if c == el.id {
                assert(s[s.len() - 1].id == c && map_of_active(s)[c] == s[s.len() - 1]);
            } else {
                let i = choose|i: int|
                    0 <= i < rest.len() && (#[trigger] rest[i]).id == c && map_of_active(rest)[c]
                        == rest[i];
                assert(s[i].id == c && map_of_active(s)[c] == s[i]);
            }
        }
    }
}

/// With no duplicated ids, `map_of_active` maps each active node's id to
/// that very node.
pub proof fn lemma_map_of_active_at(s: Seq<NodeModel>, i: int)
    requires
        nodup_ids(s),
        0 <= i < s.len(),
    ensures
        map_of_active(s).contains_key(s[i].id),
        map_of_active(s)[s[i].id] == s[i],
    decreases s.len(),
{
    let rest = s.drop_last();
    if i == s.len() - 1 {
    } else {
        assert(forall|q: int| 0 <= q < rest.len() ==> rest[q] == s[q]);
        lemma_map_of_active_at(rest, i);
        assert(s.last().id != s[i].id);
    }
}

/// Every child link of a finished tree resolves inside it, to a node whose
/// id is strictly larger than its parent's; the key set is finite.
pub open spec fn wf_links(t: Map<int, NodeModel>) -> bool {
    &&& t.dom().finite()
    &&& forall|k: int, j: int|
        t.contains_key(k) && 0 <= j < t[k].children.len() ==> (#[trigger] t[k].children[j]) > k
            && t.contains_key(t[k].children[j])
}

/// The finished tree is well formed: links resolve and point upward in id,
/// every node has zero or at least two children, each node is keyed by its
/// own id, and the root id is present whenever the input is nonempty.
pub proof fn lemma_final_tree_wf(ts: Seq<Seq<i32>>)
    ensures
        wf_links(final_tree(ts)),
        forall|k: int| #[trigger]
            final_tree(ts).contains_key(k) ==> (final_tree(ts)[k].children.len() == 0
                || final_tree(ts)[k].children.len() >= 2) && final_tree(ts)[k].id == k,
        ts.len() > 0 ==> final_tree(ts).contains_key(0),
{
    if ts.len() == 0 {
        assert(final_tree(ts).dom() =~= Set::<int>::empty());
    } else {
        let m = max_len(ts);
        lemma_state_ok(ts, m);
        let st = state_at(ts, m);
        lemma_map_of_active(st.active);
        let f = final_tree(ts);
        assert(f == st.tree.union_prefer_right(map_of_active(st.active)));
        assert(f.dom() =~= st.tree.dom() + map_of_active(st.active).dom());
        assert forall|k: int, j: int|
            f.contains_key(k) && 0 <= j < f[k].children.len() implies (
        #[trigger] f[k].children[j]) > k && f.contains_key(f[k].children[j]) by {
            if map_of_active(st.active).contains_key(k) {
                let i = choose|i: int|
                    0 <= i < st.active.len() && (#[trigger] st.active[i]).id == k && map_of_active(
                        st.active,
                    )[k] == st.active[i];
                assert(st.active[i].children.len() == 0);
            } else {
                assert(st.tree.contains_key(k) && f[k] == st.tree[k]);
                let c = st.tree[k].children[j];
                assert(c > k);
                assert(st.tree.contains_key(c) || ids_of(st.active).contains(c));
                if ids_of(st.active).contains(c) {
                    assert(map_of_active(st.active).dom().contains(c));
                }
            }
        }
        assert forall|k: int| #[trigger] f.contains_key(k) implies (f[k].children.len() == 0
            || f[k].children.len() >= 2) && f[k].id == k by {
            if map_of_active(st.active).contains_key(k) {
                let i = choose|i: int|
                    0 <= i < st.active.len() && (#[trigger] st.active[i]).id == k && map_of_active(
                        st.active,
                    )[k] == st.active[i];
                assert(st.active[i].children.len() == 0);
            } else {
                assert(st.tree.contains_key(k) && f[k] == st.tree[k]);
            }
        }
        assert(st.tree.contains_key(0) || ids_of(st.active).contains(0));
        if ids_of(st.active).contains(0) {
            assert(map_of_active(st.active).dom().contains(0));
        }
    }
}

/// Branch arity: every node of a finished tree has either no children or at
/// least two; a unanimous position is absorbed into the segment instead of
/// spawning a lone child.
pub proof fn lemma_branch_arity(ts: Seq<Seq<i32>>, k: int)
    requires
        final_tree(ts).contains_key(k),
    ensures
        final_tree(ts)[k].children.len() == 0 || final_tree(ts)[k].children.len() >= 2,
{
    lemma_final_tree_wf(ts);
}

/// Idempotence of representation: an id-keyed table and an arena built from
/// the same trajectory store encode the same tree — the same segments, the
/// same trajectory partitions, the same topology, node for node and id for
/// id — since each is exactly the model's tree.
pub proof fn lemma_representation_agreement(
    m: Map<usize, HashElement>,
    a: ArenaStore,
    ts: Seq<Seq<i32>>,
)
    requires
        tree_view(m) == final_tree(ts),
        arena_view(a) == final_tree(ts),
    ensures
        tree_view(m) == arena_view(a),
{
}

/// The empty input yields the empty tree: it has no node under any id, so
/// a walk of it from any starting id is owed nothing.
pub proof fn lemma_empty_input(ts: Seq<Seq<i32>>)
    requires
        ts.len() == 0,
    ensures
        final_tree(ts) == Map::<int, NodeModel>::empty(),
        final_tree(ts).dom().len() == 0,
        forall|id: int| !final_tree(ts).contains_key(id),
{
    assert(final_tree(ts).dom() =~= Set::<int>::empty());
}

} // verus!
