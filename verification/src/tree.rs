//! The node types shared by both tree encodings: a trajectory, an `Element`
//! (a node still under construction, carrying its id), and a `HashElement`
//! (a finalized node as stored in the id-keyed table).

use vstd::prelude::*;

use crate::model::NodeModel;

verus! {

/// One trajectory: an ordered sequence of positions. A trajectory is
/// identified by its index in the trajectory store.
#[derive(Clone, Debug)]
pub struct Traj {
    pub path: Vec<i32>,
}

/// A tree node under construction: a maximal shared path segment, the set of
/// trajectory indices that traverse it, and links to its parent and children.
#[derive(Debug, Default)]
pub struct Element {
    pub id: usize,
    pub path: Vec<i32>,
    pub trajs: Vec<usize>,
    pub parent: Option<usize>,
    pub children: Vec<usize>,
}

/// The mathematical value of an `Element`: the same fields over `Seq`,
/// with the id widened to `int`.
pub open spec fn element_model(e: Element) -> NodeModel {
    NodeModel {
        id: e.id as int,
        path: e.path@,
        trajs: e.trajs@,
        parent: match e.parent {
            Some(p) => Some(p as int),
            None => None,
        },
        children: e.children@.map_values(|c: usize| c as int),
    }
}

impl Element {
    /// A fresh node with the given id: empty segment, no trajectories,
    /// no parent, no children.
    pub fn new(id: usize) -> (r: Self)
        ensures
            r.id == id,
            r.path@ =~= Seq::<i32>::empty(),
            r.trajs@ =~= Seq::<usize>::empty(),
            r.parent is None,
            r.children@ =~= Seq::<usize>::empty(),
    {
        Self { id, path: vec![], trajs: vec![], parent: None, children: vec![] }
    }

    /// Record the owning ancestor of this node.
    pub fn set_parent(&mut self, id: usize)
        ensures
            *final(self) == (Element { parent: Some(id), ..*old(self) }),
    {
        self.parent = Some(id);
    }

    /// Attach one child reference at the end of the child list.
    pub fn add_child(&mut self, id: usize)
        ensures
            final(self).id == old(self).id,
            final(self).path == old(self).path,
            final(self).trajs == old(self).trajs,
            final(self).parent == old(self).parent,
            final(self).children@ == old(self).children@.push(id),
    {
        self.children.push(id);
    }

    /// Record one more trajectory as passing through this node.
    pub fn add_traj(&mut self, id: usize)
        ensures
            final(self).id == old(self).id,
            final(self).path == old(self).path,
            final(self).parent == old(self).parent,
            final(self).children == old(self).children,
            final(self).trajs@ == old(self).trajs@.push(id),
    {
        self.trajs.push(id);
    }

    /// Grow this node's segment by one position.
    pub fn add_point(&mut self, point: i32)
        ensures
            final(self).id == old(self).id,
            final(self).trajs == old(self).trajs,
            final(self).parent == old(self).parent,
            final(self).children == old(self).children,
            final(self).path@ == old(self).path@.push(point),
    {
        self.path.push(point);
    }

    /// Attach a batch of child references, draining the argument.
    pub fn add_children(&mut self, children: &mut Vec<usize>)
        ensures
            final(self).id == old(self).id,
            final(self).path == old(self).path,
            final(self).trajs == old(self).trajs,
            final(self).parent == old(self).parent,
            final(self).children@ == old(self).children@ + old(children)@,
            final(children)@ =~= Seq::<usize>::empty(),
    {
        self.children.append(children);
    }
}

/// The mathematical values of a sequence of elements, in order.
pub open spec fn elements_model(s: Seq<Element>) -> Seq<NodeModel> {
    s.map_values(|e: Element| element_model(e))
}

/// The trajectory store as a sequence of position sequences.
pub open spec fn trajs_view(ts: Seq<Traj>) -> Seq<Seq<i32>> {
    ts.map_values(|t: Traj| t.path@)
}

/// A finalized node as stored in the id-keyed table; its id is the table key.
#[derive(Clone, Debug)]
pub struct HashElement {
    pub path: Vec<i32>,
    pub trajs: Vec<usize>,
    pub parent: Option<usize>,
    pub children: Vec<usize>,
}

/// The mathematical value of a `HashElement` stored under key `id`.
pub open spec fn hash_element_model(id: int, h: HashElement) -> NodeModel {
    NodeModel {
        id: id,
        path: h.path@,
        trajs: h.trajs@,
        parent: match h.parent {
            Some(p) => Some(p as int),
            None => None,
        },
        children: h.children@.map_values(|c: usize| c as int),
    }
}

/// The mathematical value of the whole id-keyed table.
pub open spec fn tree_view(m: Map<usize, HashElement>) -> Map<int, NodeModel> {
    Map::new(
        |i: int| 0 <= i <= usize::MAX as int && m.contains_key(i as usize),
        |i: int| hash_element_model(i, m[i as usize]),
    )
}

/// Inserting into the table inserts the corresponding node into its model.
pub proof fn lemma_tree_view_insert(m: Map<usize, HashElement>, k: usize, h: HashElement)
    ensures
        tree_view(m.insert(k, h)) =~= tree_view(m).insert(
            k as int,
            hash_element_model(k as int, h),
        ),
{
}

impl From<Element> for HashElement {
    /// Strip the id off a finalized `Element`; the table key carries it.
    fn from(value: Element) -> (r: Self) {
        Self {
            path: value.path,
            trajs: value.trajs,
            parent: value.parent,
            children: value.children,
        }
    }
}

impl vstd::std_specs::convert::FromSpecImpl<Element> for HashElement {
    open spec fn obeys_from_spec() -> bool {
        true
    }

    open spec fn from_spec(value: Element) -> Self {
        HashElement {
            path: value.path,
            trajs: value.trajs,
            parent: value.parent,
            children: value.children,
        }
    }
}

} // verus!
