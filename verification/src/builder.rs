//! The tree builder: a level-synchronous merge that partitions every active
//! node's trajectory set by the position value at the current depth, growing
//! a node's segment while its set stays unanimous and splitting it into
//! children the moment it diverges.

use std::collections::HashMap;

use vstd::prelude::*;

use crate::model::{
    child_node, group_keys, group_members, ids_fit, lemma_run_nodes_prefix_count,
    lemma_state_count_mono, map_of_active, max_len, final_tree, run_nodes, state_at, NodeModel,
};
use crate::model::BuildState;
use crate::tree::{
    element_model, elements_model, hash_element_model, lemma_tree_view_insert, trajs_view,
    tree_view, Element, HashElement, Traj,
};

verus! {

broadcast use vstd::std_specs::hash::group_hash_axioms;

/// One group of the partition step: the position value that opened the group
/// and the trajectory indices that hold it, in the order they were scanned.
pub struct Group {
    pub point: i32,
    pub trajs: Vec<usize>,
}

/// The position values of a group list, in order.
pub open spec fn group_points(groups: Seq<Group>) -> Seq<i32> {
    groups.map_values(|g: Group| g.point)
}

/// Partition `members` by the position each trajectory holds at depth `d`.
/// Groups are keyed by position value in order of first observation; a
/// member with no position at `d` (too short, or an index outside the
/// store) contributes to no group.
pub fn partition_at(trajs: &Vec<Traj>, members: &Vec<usize>, d: usize) -> (groups: Vec<Group>)
    ensures
        group_points(groups@) == group_keys(trajs_view(trajs@), members@, d as int),
        forall|j: int|
            0 <= j < groups@.len() ==> (#[trigger] groups@[j]).trajs@ == group_members(
                trajs_view(trajs@),
                members@,
                d as int,
                groups@[j].point,
            ),
{
    let ghost ts = trajs_view(trajs@);
    let mut groups: Vec<Group> = Vec::new();
    for i in 0..members.len()
        invariant
            ts == trajs_view(trajs@),
            group_points(groups@) == group_keys(ts, members@.take(i as int), d as int),
            forall|j: int|
                0 <= j < groups@.len() ==> (#[trigger] groups@[j]).trajs@ == group_members(
                    ts,
                    members@.take(i as int),
                    d as int,
                    groups@[j].point,
                ),
            forall|j1: int, j2: int|
                0 <= j1 < j2 < groups@.len() ==> groups@[j1].point != groups@[j2].point,
    {
        proof {
            assert(members@.take(i + 1).drop_last() =~= members@.take(i as int));
            assert(members@.take(i + 1).last() == members@[i as int]);
        }
        let tid = members[i];
        if tid < trajs.len() {
            if d < trajs[tid].path.len() {
                let p = trajs[tid].path[d];
                assert(crate::model::point_at(ts, tid, d as int) == Some(p));
                let mut gi: usize = 0;
                while gi < groups.len() && groups[gi].point != p
                    invariant
                        gi <= groups.len(),
                        forall|m: int| 0 <= m < gi ==> groups@[m].point != p,
                    decreases groups.len() - gi,
                {
                    gi = gi + 1;
                }
                if gi < groups.len() {
                    let ghost old_groups = groups@;
                    let mut g = groups.remove(gi);
                    g.trajs.push(tid);
                    groups.insert(gi, g);
                    proof {
                        assert(groups@ =~= old_groups.update(gi as int, g));
                        assert(group_points(groups@) =~= group_points(old_groups));
                        assert(group_keys(ts, members@.take(i as int), d as int).contains(p)) by {
                            assert(group_points(old_groups)[gi as int] == p);
                        }
                        assert(group_keys(ts, members@.take(i + 1), d as int) == group_points(
                            groups@,
                        ));
                        assert forall|j: int| 0 <= j < groups@.len() implies (
                        #[trigger] groups@[j]).trajs@ == group_members(
                            ts,
                            members@.take(i + 1),
                            d as int,
                            groups@[j].point,
                        ) by {
                            if j == gi {
                            } else {
                                assert(groups@[j].point != p);
                            }
                        }
                    }
                } else {
                    let ghost old_groups = groups@;
                    groups.push(Group { point: p, trajs: vec![tid] });
                    proof {
                        assert(!group_keys(ts, members@.take(i as int), d as int).contains(p)) by {
                            let keys = group_keys(ts, members@.take(i as int), d as int);
                            if keys.contains(p) {
                                let idx = choose|idx: int| 0 <= idx < keys.len() && keys[idx] == p;
                                assert(group_points(old_groups)[idx] == p);
                            }
                        }
                        assert(group_points(groups@) =~= group_points(old_groups).push(p));
                        lemma_members_empty_when_key_absent(
                            ts,
                            members@.take(i as int),
                            d as int,
                            p,
                        );
                        assert(groups@[groups@.len() - 1].trajs@ =~= group_members(
                            ts,
                            members@.take(i + 1),
                            d as int,
                            p,
                        ));
                        assert forall|j: int| 0 <= j < groups@.len() implies (
                        #[trigger] groups@[j]).trajs@ == group_members(
                            ts,
                            members@.take(i + 1),
                            d as int,
                            groups@[j].point,
                        ) by {
                            if j < groups@.len() - 1 {
                                assert(groups@[j] == old_groups[j]);
                                assert(group_points(old_groups)[j] == groups@[j].point);
                                assert(groups@[j].point != p);
                            }
                        }
                    }
                }
            }
        }
    }
    proof {
        assert(members@.take(members@.len() as int) =~= members@);
    }
    groups
}

/// Build the id-keyed tree from the trajectory store: exactly the tree the
/// model describes. The root (id 0) owns every trajectory index; each depth
/// level partitions every active node, growing unanimous nodes and splitting
/// divergent ones; the empty input yields the empty tree.
pub fn branch_vector(trajs: &Vec<Traj>) -> (result: HashMap<usize, HashElement>)
    requires
        ids_fit(trajs_view(trajs@)),
    ensures
        tree_view(result@) == final_tree(trajs_view(trajs@)),
        trajs@.len() == 0 ==> result@ == Map::<usize, HashElement>::empty(),
{
    let ghost ts = trajs_view(trajs@);
    let mut hash_tree: HashMap<usize, HashElement> = HashMap::new();
    if trajs.len() == 0 {
        proof {
            assert(tree_view(hash_tree@) =~= final_tree(ts));
        }
        return hash_tree;
    }
    // The length of the longest trajectory bounds the depth loop.
    let mut longest: usize = 0;
    for i in 0..trajs.len()
        invariant
            ts == trajs_view(trajs@),
            longest as int == max_len(ts.take(i as int)),
    {
        proof {
            assert(ts.take(i + 1).drop_last() =~= ts.take(i as int));
            assert(ts.take(i + 1).last() == ts[i as int]);
        }
        if trajs[i].path.len() > longest {
            longest = trajs[i].path.len();
        }
    }
    proof {
        assert(ts.take(ts.len() as int) =~= ts);
    }
    // The synthetic root owns every trajectory index in the store.
    let mut root = Element::new(0);
    for i in 0..trajs.len()
        invariant
            root.id == 0,
            root.path@ =~= Seq::<i32>::empty(),
            root.parent is None,
            root.children@ =~= Seq::<usize>::empty(),
            root.trajs@ =~= Seq::new(i as nat, |q: int| q as usize),
    {
        root.add_traj(i);
        proof {
            assert(root.trajs@ =~= Seq::new((i + 1) as nat, |q: int| q as usize));
        }
    }
    let mut active: Vec<Element> = Vec::new();
    active.push(root);
    let mut count: usize = 1;
    proof {
        assert(element_model(root) =~= crate::model::root_node(trajs@.len()));
        assert(elements_model(active@) =~= state_at(ts, 0).active);
        assert(tree_view(hash_tree@) =~= state_at(ts, 0).tree);
    }
    for index in 0..longest
        invariant
            ts == trajs_view(trajs@),
            ids_fit(ts),
            longest as int == max_len(ts),
            trajs@.len() > 0,
            tree_view(hash_tree@) == state_at(ts, index as int).tree,
            elements_model(active@) == state_at(ts, index as int).active,
            count as int == state_at(ts, index as int).count,
    {
        let ghost st = state_at(ts, index as int);
        let ghost acts = elements_model(active@);
        let mut next_active: Vec<Element> = Vec::new();
        let ghost mut done_i: int = 0;
        while active.len() > 0
            invariant
                ts == trajs_view(trajs@),
                ids_fit(ts),
                longest as int == max_len(ts),
                trajs@.len() > 0,
                0 <= index < longest,
                st == state_at(ts, index as int),
                acts == st.active,
                0 <= done_i <= acts.len(),
                elements_model(active@) == acts.skip(done_i),
                tree_view(hash_tree@) == st.tree.union_prefer_right(
                    run_nodes(ts, acts.take(done_i), index as int, st.count).done,
                ),
                elements_model(next_active@) == run_nodes(
                    ts,
                    acts.take(done_i),
                    index as int,
                    st.count,
                ).next,
                count as int == run_nodes(ts, acts.take(done_i), index as int, st.count).count,
            decreases active.len(),
        {
            let ghost lr_prior = run_nodes(ts, acts.take(done_i), index as int, st.count);
            let ghost pre_active = active@;
            let mut el = active.remove(0);
            proof {
                assert(elements_model(active@) =~= elements_model(pre_active).skip(1));
                assert(elements_model(pre_active).skip(1) =~= acts.skip(done_i + 1));
                assert(element_model(el) == acts.skip(done_i)[0]);
                assert(acts.skip(done_i)[0] == acts[done_i]);
                assert(acts.take(done_i + 1).drop_last() =~= acts.take(done_i));
                assert(acts.take(done_i + 1).last() == acts[done_i]);
            }
            let ghost elm = element_model(el);
            let ghost keys = group_keys(ts, elm.trajs, index as int);
            let ghost lr_here = run_nodes(ts, acts.take(done_i + 1), index as int, st.count);
            let groups = partition_at(trajs, &el.trajs, index);
            proof {
                assert(group_points(groups@) == keys);
                assert(groups@.len() == keys.len());
            }
            if groups.len() == 0 {
                let ghost oldm = hash_tree@;
                let id = el.id;
                hash_tree.insert(id, HashElement::from(el));
                proof {
                    lemma_tree_view_insert(
                        oldm,
                        id,
                        HashElement {
                            path: el.path,
                            trajs: el.trajs,
                            parent: el.parent,
                            children: el.children,
                        },
                    );
                    assert(hash_element_model(
                        id as int,
                        HashElement {
                            path: el.path,
                            trajs: el.trajs,
                            parent: el.parent,
                            children: el.children,
                        },
                    ) =~= elm);
                    assert(lr_here.done =~= lr_prior.done.insert(elm.id, elm));
                    assert(tree_view(hash_tree@) =~= st.tree.union_prefer_right(lr_here.done));
                }
            } else if groups.len() == 1 {
                let p = groups[0].point;
                proof {
                    assert(group_points(groups@)[0] == p);
                    assert(keys[0] == p);
                }
                el.add_point(p);
                next_active.push(el);
                proof {
                    assert(element_model(el) =~= (NodeModel {
                        id: elm.id,
                        path: elm.path.push(keys[0]),
                        trajs: elm.trajs,
                        parent: elm.parent,
                        children: elm.children,
                    }));
                    assert(elements_model(next_active@) =~= lr_prior.next.push(element_model(el)));
                    assert(lr_here.next =~= lr_prior.next.push(element_model(el)));
                }
            } else {
                let k = groups.len();
                let ghost base = count as int;
                proof {
                    assert(lr_here.count == base + k);
                    lemma_run_nodes_prefix_count(ts, acts, index as int, st.count, done_i + 1);
                    assert(state_at(ts, index as int + 1).count == run_nodes(
                        ts,
                        acts,
                        index as int,
                        st.count,
                    ).count);
                    lemma_state_count_mono(ts, index as int + 1, max_len(ts));
                    assert(base + k <= usize::MAX as int);
                }
                let mut rest = groups;
                let mut child_ids: Vec<usize> = Vec::new();
                let ghost gseq = rest@;
                let ghost mut j: int = 0;
                let el_id = el.id;
                while rest.len() > 0
                    invariant
                        ts == trajs_view(trajs@),
                        elm == element_model(el),
                        el.id == el_id,
                        keys == group_keys(ts, elm.trajs, index as int),
                        group_points(gseq) == keys,
                        forall|q: int|
                            0 <= q < gseq.len() ==> (#[trigger] gseq[q]).trajs@ == group_members(
                                ts,
                                elm.trajs,
                                index as int,
                                gseq[q].point,
                            ),
                        k == gseq.len(),
                        keys.len() == k,
                        2 <= k,
                        base + k <= usize::MAX as int,
                        0 <= j <= k,
                        rest@ == gseq.skip(j),
                        count as int == base + j,
                        child_ids@.map_values(|c: usize| c as int) == Seq::new(
                            j as nat,
                            |q: int| base + q,
                        ),
                        elements_model(next_active@) == lr_prior.next + Seq::new(
                            j as nat,
                            |q: int| child_node(ts, elm, index as int, base, q),
                        ),
                    decreases rest.len(),
                {
                    let ghost pre_rest = rest@;
                    let g = rest.remove(0);
                    proof {
                        assert(rest@ =~= gseq.skip(j + 1));
                        assert(g == gseq.skip(j)[0]);
                        assert(g == gseq[j]);
                        assert(group_points(gseq)[j] == g.point);
                    }
                    let child = Element {
                        id: count,
                        path: vec![g.point],
                        trajs: g.trajs,
                        parent: Some(el_id),
                        children: Vec::new(),
                    };
                    proof {
                        assert(element_model(child) =~= child_node(
                            ts,
                            elm,
                            index as int,
                            base,
                            j,
                        )) by {
                            assert(child.path@ =~= seq![keys[j]]);
                            assert(child.children@.map_values(|c: usize| c as int) =~= Seq::<
                                int,
                            >::empty());
                        }
                    }
                    let ghost pre_ids = child_ids@;
                    let ghost pre_next = next_active@;
                    child_ids.push(count);
                    next_active.push(child);
                    count = count + 1;
                    proof {
                        assert(child_ids@.map_values(|c: usize| c as int) =~= pre_ids.map_values(
                            |c: usize| c as int,
                        ).push(base + j));
                        assert(Seq::new(j as nat, |q: int| base + q).push(base + j) =~= Seq::new(
                            (j + 1) as nat,
                            |q: int| base + q,
                        ));
                        assert(elements_model(next_active@) =~= elements_model(pre_next).push(
                            element_model(child),
                        ));
                        assert((lr_prior.next + Seq::new(
                            j as nat,
                            |q: int| child_node(ts, elm, index as int, base, q),
                        )).push(child_node(ts, elm, index as int, base, j)) =~= lr_prior.next
                            + Seq::new(
                            (j + 1) as nat,
                            |q: int| child_node(ts, elm, index as int, base, q),
                        ));
                        j = j + 1;
                    }
                }
                proof {
                    assert(j == k);
                }
                el.add_children(&mut child_ids);
                let ghost oldm = hash_tree@;
                let id = el.id;
                hash_tree.insert(id, HashElement::from(el));
                proof {
                    let split = NodeModel {
                        id: elm.id,
                        path: elm.path,
                        trajs: elm.trajs,
                        parent: elm.parent,
                        children: elm.children + Seq::new(k as nat, |q: int| base + q),
                    };
                    assert(element_model(el) =~= split) by {
                        assert(el.children@.map_values(|c: usize| c as int) =~= elm.children
                            + Seq::new(k as nat, |q: int| base + q));
                    }
                    lemma_tree_view_insert(
                        oldm,
                        id,
                        HashElement {
                            path: el.path,
                            trajs: el.trajs,
                            parent: el.parent,
                            children: el.children,
                        },
                    );
                    assert(hash_element_model(
                        id as int,
                        HashElement {
                            path: el.path,
                            trajs: el.trajs,
                            parent: el.parent,
                            children: el.children,
                        },
                    ) =~= split);
                    assert(lr_here.done =~= lr_prior.done.insert(elm.id, split));
                    assert(lr_here.next =~= lr_prior.next + Seq::new(
                        k as nat,
                        |q: int| child_node(ts, elm, index as int, base, q),
                    ));
                    assert(tree_view(hash_tree@) =~= st.tree.union_prefer_right(lr_here.done));
                }
            }
            proof {
                done_i = done_i + 1;
            }
        }
        proof {
            assert(acts.skip(done_i).len() == 0);
            assert(done_i == acts.len());
            assert(acts.take(done_i) =~= acts);
            assert(state_at(ts, index as int + 1) =~= (BuildState {
                tree: st.tree.union_prefer_right(
                    run_nodes(ts, acts, index as int, st.count).done,
                ),
                active: run_nodes(ts, acts, index as int, st.count).next,
                count: run_nodes(ts, acts, index as int, st.count).count,
            }));
        }
        active = next_active;
    }
    // The depth loop is exhausted: every node still active is finalized as-is.
    let ghost stf = state_at(ts, longest as int);
    let ghost facts = elements_model(active@);
    let ghost mut fi: int = 0;
    while active.len() > 0
        invariant
            ts == trajs_view(trajs@),
            trajs@.len() > 0,
            longest as int == max_len(ts),
            stf == state_at(ts, longest as int),
            facts == stf.active,
            0 <= fi <= facts.len(),
            elements_model(active@) == facts.skip(fi),
            tree_view(hash_tree@) == stf.tree.union_prefer_right(map_of_active(facts.take(fi))),
        decreases active.len(),
    {
        let ghost pre_active = active@;
        let el = active.remove(0);
        proof {
            assert(elements_model(active@) =~= elements_model(pre_active).skip(1));
            assert(elements_model(pre_active).skip(1) =~= facts.skip(fi + 1));
            assert(element_model(el) == facts.skip(fi)[0]);
            assert(element_model(el) == facts[fi]);
            assert(facts.take(fi + 1).drop_last() =~= facts.take(fi));
            assert(facts.take(fi + 1).last() == facts[fi]);
        }
        let ghost oldm = hash_tree@;
        let id = el.id;
        hash_tree.insert(id, HashElement::from(el));
        proof {
            lemma_tree_view_insert(
                oldm,
                id,
                HashElement {
                    path: el.path,
                    trajs: el.trajs,
                    parent: el.parent,
                    children: el.children,
                },
            );
            assert(hash_element_model(
                id as int,
                HashElement {
                    path: el.path,
                    trajs: el.trajs,
                    parent: el.parent,
                    children: el.children,
                },
            ) =~= element_model(el));
            assert(map_of_active(facts.take(fi + 1)) =~= map_of_active(facts.take(fi)).insert(
                element_model(el).id,
                element_model(el),
            ));
            assert(tree_view(hash_tree@) =~= stf.tree.union_prefer_right(
                map_of_active(facts.take(fi + 1)),
            ));
            fi = fi + 1;
        }
    }
    proof {
        assert(facts.take(fi) =~= facts);
        assert(tree_view(hash_tree@) == final_tree(ts));
    }
    hash_tree
}

/// A position absent from the keys of a member list has no members.
proof fn lemma_members_empty_when_key_absent(ts: Seq<Seq<i32>>, members: Seq<usize>, d: int, p: i32)
    requires
        !group_keys(ts, members, d).contains(p),
    ensures
        group_members(ts, members, d, p) =~= Seq::<usize>::empty(),
    decreases members.len(),
{
    if members.len() > 0 {
        let prev_keys = group_keys(ts, members.drop_last(), d);
        assert forall|q: i32| prev_keys.contains(q) implies group_keys(ts, members, d).contains(
            q,
        ) by {
            let idx = choose|idx: int| 0 <= idx < prev_keys.len() && prev_keys[idx] == q;
            match crate::model::point_at(ts, members.last(), d) {
                Some(r) => {
                    if prev_keys.contains(r) {
                        assert(group_keys(ts, members, d)[idx] == q);
                    } else {
                        assert(group_keys(ts, members, d)[idx] == q);
                    }
                },
                None => {
                    assert(group_keys(ts, members, d)[idx] == q);
                },
            }
        }
        lemma_members_empty_when_key_absent(ts, members.drop_last(), d, p);
        if crate::model::point_at(ts, members.last(), d) == Some(p) {
            let keys = group_keys(ts, members, d);
            if prev_keys.contains(p) {
            } else {
                assert(keys == prev_keys.push(p));
                assert(keys[keys.len() - 1] == p);
            }
        }
    }
}

} // verus!
