//! A tree of entities held by position: every node owns one entity and the
//! handles of its children, and a traversal composes transforms top-down.
//! The nodes stand in an arena of fixed capacity.

use crate::arena::{lemma_handle_round_trip, Arena, ArenaID};
use crate::composition::{lemma_visit_by_node, traversed};
use vstd::prelude::*;

verus! {

/// Handle of one node of a [`Scenegraph`]: the position at which it was added.
#[derive(Clone, Copy, Debug)]
pub struct NodeID(usize);

impl NodeID {
    /// The position that this handle names.
    pub closed spec fn index(self) -> nat {
        self.0 as nat
    }
}

impl Default for NodeID {
    /// The handle of the root.
    fn default() -> (id: Self)
        ensures
            id.index() == 0,
    {
        NodeID(0)
    }
}

impl From<usize> for NodeID {
    fn from(value: usize) -> (id: Self) {
        NodeID(value)
    }
}

impl vstd::std_specs::convert::FromSpecImpl<usize> for NodeID {
    open spec fn obeys_from_spec() -> bool {
        true
    }

    closed spec fn from_spec(value: usize) -> Self {
        NodeID(value)
    }
}

impl From<NodeID> for usize {
    fn from(id: NodeID) -> (value: usize) {
        id.0
    }
}

impl vstd::std_specs::convert::FromSpecImpl<NodeID> for usize {
    open spec fn obeys_from_spec() -> bool {
        true
    }

    closed spec fn from_spec(id: NodeID) -> usize {
        id.0
    }
}

/// A handle made from a position names that position, and gives it back.
pub broadcast proof fn lemma_node_round_trip(value: usize)
    ensures
        (#[trigger] <NodeID as vstd::std_specs::convert::FromSpec<usize>>::from_spec(
            value,
        )).index() == value,
        <usize as vstd::std_specs::convert::FromSpec<NodeID>>::from_spec(
            <NodeID as vstd::std_specs::convert::FromSpec<usize>>::from_spec(value),
        ) == value,
{
}

/// The position that a handle converts to is the one that it names.
pub broadcast proof fn lemma_node_position(id: NodeID)
    ensures
        #[trigger] <usize as vstd::std_specs::convert::FromSpec<NodeID>>::from_spec(id)
            == id.index(),
{
}

/// The number of empty slots among `slots`.
pub open spec fn count_empty<E>(slots: Seq<Option<E>>) -> nat
    decreases slots.len(),
{
    if slots.len() == 0 {
        0
    } else {
        count_empty(slots.drop_last()) + if slots.last() is None {
            1nat
        } else {
            0nat
        }
    }
}

/// Every child stands behind its parent and inside the tree: the children
/// lists describe no cycle.
pub open spec fn ordered(tree: Seq<Seq<nat>>) -> bool {
    forall|i: int, k: int|
        0 <= i < tree.len() && 0 <= k < tree[i].len() ==> i < (#[trigger] tree[i][k]) < tree.len()
}

/// No node is listed twice: not under two parents, and not twice under one.
pub open spec fn single_parent(tree: Seq<Seq<nat>>) -> bool {
    forall|i: int, k: int, j: int, l: int|
        0 <= i < tree.len() && 0 <= k < tree[i].len() && 0 <= j < tree.len() && 0 <= l
            < tree[j].len() && #[trigger] tree[i][k] == #[trigger] tree[j][l] ==> i == j && k == l
}

/// Whether some node lists `c` as its child.
pub open spec fn has_parent(tree: Seq<Seq<nat>>, c: int) -> bool {
    exists|i: int, k: int|
        0 <= i < tree.len() && 0 <= k < tree[i].len() && #[trigger] tree[i][k] == c
}

/// Every node but the first is listed as some node's child.
pub open spec fn connected(tree: Seq<Seq<nat>>) -> bool {
    forall|c: int| 1 <= c < tree.len() ==> #[trigger] has_parent(tree, c)
}

/// Filling or emptying one slot moves the count of empty slots by the
/// difference between what the slot held and what it holds.
pub proof fn lemma_count_update<E>(slots: Seq<Option<E>>, at: int, slot: Option<E>)
    requires
        0 <= at < slots.len(),
    ensures
        count_empty(slots.update(at, slot)) + (if slots[at] is None {
            1nat
        } else {
            0nat
        }) == count_empty(slots) + (if slot is None {
            1nat
        } else {
            0nat
        }),
    decreases slots.len(),
{
    let changed = slots.update(at, slot);
    if at == slots.len() - 1 {
        assert(changed.drop_last() =~= slots.drop_last());
    } else {
        assert(changed.drop_last() =~= slots.drop_last().update(at, slot));
        lemma_count_update(slots.drop_last(), at, slot);
    }
}

/// There are no more empty slots than slots, and fewer where one is filled.
pub proof fn lemma_count_bound<E>(slots: Seq<Option<E>>)
    ensures
        count_empty(slots) <= slots.len(),
        (exists|i: int| 0 <= i < slots.len() && (#[trigger] slots[i]) is Some) ==> count_empty(
            slots,
        ) < slots.len(),
        count_empty(slots) == 0 <==> forall|i: int|
            0 <= i < slots.len() ==> (#[trigger] slots[i]) is Some,
    decreases slots.len(),
{
    if slots.len() > 0 {
        let front = slots.drop_last();
        lemma_count_bound(front);
        assert forall|i: int| 0 <= i < front.len() implies front[i] == slots[i] by {}
        if exists|i: int| 0 <= i < slots.len() && (#[trigger] slots[i]) is Some {
            let i = choose|i: int| 0 <= i < slots.len() && (#[trigger] slots[i]) is Some;
            if i < front.len() {
                assert(front[i] is Some);
            }
        }
        if count_empty(slots) == 0 {
            assert forall|i: int| 0 <= i < slots.len() implies (#[trigger] slots[i]) is Some by {
                if i < front.len() {
                    assert(front[i] is Some);
                }
            }
        }
        if forall|i: int| 0 <= i < slots.len() ==> (#[trigger] slots[i]) is Some {
            assert forall|i: int| 0 <= i < front.len() implies (#[trigger] front[i]) is Some by {
                assert(slots[i] is Some);
            }
            assert(slots[slots.len() - 1] is Some);
        }
    }
}

/// Checking an entity out and storing the same entity back leaves every
/// slot as it was.
pub proof fn lemma_check_in_restores<E>(slots: Seq<Option<E>>, at: int)
    requires
        0 <= at < slots.len(),
        slots[at] is Some,
    ensures
        slots.update(at, None).update(at, slots[at]) == slots,
        count_empty(slots.update(at, None)) == count_empty(slots) + 1,
        count_empty(slots.update(at, None).update(at, slots[at])) == count_empty(slots),
{
    assert(slots.update(at, None).update(at, slots[at]) =~= slots);
    lemma_count_update(slots, at, None);
}

/// A tree stays a tree when a new last node becomes the last child of `parent`.
pub proof fn lemma_grown_tree(tree: Seq<Seq<nat>>, parent: int)
    requires
        ordered(tree),
        single_parent(tree),
        connected(tree),
        0 <= parent < tree.len(),
    ensures
        ordered(tree.update(parent, tree[parent].push(tree.len())).push(Seq::<nat>::empty())),
        single_parent(
            tree.update(parent, tree[parent].push(tree.len())).push(Seq::<nat>::empty()),
        ),
        connected(tree.update(parent, tree[parent].push(tree.len())).push(Seq::<nat>::empty())),
{
    let grown = tree.update(parent, tree[parent].push(tree.len())).push(Seq::<nat>::empty());
    assert forall|i: int, k: int| 0 <= i < grown.len() && 0 <= k < grown[i].len() implies i < (
    #[trigger] grown[i][k]) < grown.len() by {
        if i < tree.len() && i != parent {
            assert(grown[i][k] == tree[i][k]);
        } else if i == parent && k < tree[parent].len() {
            assert(grown[i][k] == tree[i][k]);
        }
    }
    assert forall|i: int, k: int, j: int, l: int|
        0 <= i < grown.len() && 0 <= k < grown[i].len() && 0 <= j < grown.len() && 0 <= l
            < grown[j].len() && #[trigger] grown[i][k] == #[trigger] grown[j][l] implies i == j
        && k == l by {
        let old_i = i < tree.len() && k < tree[i].len();
        let old_j = j < tree.len() && l < tree[j].len();
        if old_i {
            assert(grown[i][k] == tree[i][k]);
        }
        if old_j {
            assert(grown[j][l] == tree[j][l]);
        }
    }
    assert forall|c: int| 1 <= c < grown.len() implies #[trigger] has_parent(grown, c) by {
        if c < tree.len() {
            assert(has_parent(tree, c));
            let (i, k) = choose|i: int, k: int|
                0 <= i < tree.len() && 0 <= k < tree[i].len() && #[trigger] tree[i][k] == c;
            assert(grown[i][k] == c);
        } else {
            assert(grown[parent][tree[parent].len() as int] == c);
        }
    }
}

/// What the scene graph asks of the entities that it holds: one step under
/// the matrix of the parent, and the descriptor under which the entity is
/// drawn, if it is drawn at all.
///
/// Both operations are functions of their arguments: the two spec functions
/// say which, and an implementation answers for their agreement.
pub trait EntityBehavior: Sized {
    /// The elapsed time of one step.
    type Step;

    /// A transform.
    type Matrix;

    /// The entity after one step of `dt` under the matrix `parent`, and the
    /// matrix that it hands on to its children.
    spec fn stepped(&self, dt: Self::Step, parent: Self::Matrix) -> (Self, Self::Matrix);

    /// The descriptor under which the entity is drawn; `None` if it is not drawn.
    spec fn descriptor(&self) -> Option<&'static str>;

    /// Advances the entity by `dt` under the matrix `parent` and returns the
    /// matrix to hand on to its children.
    fn update_matrix(&mut self, dt: Self::Step, parent: Self::Matrix) -> (m: Self::Matrix)
        ensures
            (*final(self), m) == old(self).stepped(dt, parent),
    ;

    /// The descriptor under which the entity is drawn, if it is drawn.
    fn shader_metadata(&self) -> (meta: Option<&'static str>)
        ensures
            meta == self.descriptor(),
    ;
}

/// One traversal from node `id` down, depth first and children in their
/// order, with `m` as the matrix of the parent: every entity on the way takes
/// one step under the matrix that its own parent handed on, and every drawn
/// entity leaves a record of its position and its own matrix. Gives the slots
/// after the traversal and the records in the order of the visits.
pub open spec fn visit<E: EntityBehavior>(
    tree: Seq<Seq<nat>>,
    slots: Seq<Option<E>>,
    id: nat,
    dt: E::Step,
    m: E::Matrix,
) -> (Seq<Option<E>>, Seq<(nat, E::Matrix)>)
    decreases tree.len() - id, 1nat, 0nat,
{
    if id >= tree.len() || id >= slots.len() || slots[id as int] is None {
        (slots, Seq::empty())
    } else {
        let (entity, own) = slots[id as int].unwrap().stepped(dt, m);
        let record = if entity.descriptor() is Some {
            seq![(id, own)]
        } else {
            Seq::empty()
        };
        let (after, below) = visit_children(
            tree,
            slots.update(id as int, Some(entity)),
            id,
            0,
            dt,
            own,
        );
        (after, record + below)
    }
}

/// The traversals from the children of node `id`, from its child number `k`
/// on, each with `m`, the matrix of node `id`, as the matrix of the parent.
pub open spec fn visit_children<E: EntityBehavior>(
    tree: Seq<Seq<nat>>,
    slots: Seq<Option<E>>,
    id: nat,
    k: nat,
    dt: E::Step,
    m: E::Matrix,
) -> (Seq<Option<E>>, Seq<(nat, E::Matrix)>)
    decreases tree.len() - id, 0nat, (if id < tree.len() {
        tree[id as int].len() - k
    } else {
        0
    }),
{
    if id >= tree.len() || k >= tree[id as int].len() {
        (slots, Seq::empty())
    } else {
        let child = tree[id as int][k as int];
        if child <= id || child >= tree.len() {
            (slots, Seq::empty())
        } else {
            let (first, records) = visit(tree, slots, child, dt, m);
            let (rest, more) = visit_children(tree, first, id, k + 1, dt, m);
            (rest, records + more)
        }
    }
}

/// The records of a traversal with positions in place of handles.
pub open spec fn positions<M>(records: Seq<(NodeID, M)>) -> Seq<(nat, M)> {
    records.map_values(|r: (NodeID, M)| (r.0.index(), r.1))
}

/// One node: the slot of its entity, empty while the entity is checked out,
/// and the handles of its children in the order in which they were added.
struct Node<E> {
    entity: Option<E>,
    children: Vec<NodeID>,
}

impl<E> Default for Node<E> {
    /// The filling of a slot that no node stands in yet.
    fn default() -> (node: Self) {
        Node { entity: None, children: Vec::new() }
    }
}

/// The slot of the arena in which node `id` stands.
fn slot(id: NodeID) -> (at: ArenaID)
    ensures
        at.index() == id.index(),
{
    proof {
        lemma_handle_round_trip(id.0);
    }
    ArenaID::from(id.0)
}

impl<E> Node<E> {
    /// The positions of the children.
    spec fn child_positions(&self) -> Seq<nat> {
        Seq::new(self.children@.len(), |k: int| self.children@[k].0 as nat)
    }

    /// A node that holds `entity` and has no child.
    fn new(entity: E) -> (node: Self)
        ensures
            node.entity == Some(entity),
            node.child_positions() == Seq::<nat>::empty(),
    {
        let node = Node { entity: Some(entity), children: Vec::new() };
        assert(node.child_positions() =~= Seq::<nat>::empty());
        node
    }
}

/// The tree of entities, of at most `N` nodes. Node 0 is the root; every
/// other node was added as the child of a node that was there before it.
pub struct Scenegraph<E, const N: usize> {
    nodes: Arena<Node<E>, N>,
    loaded: usize,
}

impl<E, const N: usize> Scenegraph<E, N> {
    /// The arena of the nodes is in order.
    pub closed spec fn stored(&self) -> bool {
        self.nodes.wf()
    }

    /// The number of nodes that the graph can hold.
    pub open spec fn capacity() -> nat {
        N as nat
    }

    /// The children of every node, by position, in the order of insertion.
    pub closed spec fn tree(&self) -> Seq<Seq<nat>> {
        Seq::new(self.nodes@.len(), |i: int| self.nodes@[i].child_positions())
    }

    /// The slot of every node: its entity, or `None` while that is checked out.
    pub closed spec fn entities(&self) -> Seq<Option<E>> {
        Seq::new(self.nodes@.len(), |i: int| self.nodes@[i].entity)
    }

    /// The number of check-outs that have not been returned.
    pub closed spec fn outstanding(&self) -> nat {
        self.loaded as nat
    }

    /// The nodes fit the capacity, the graph is a tree in insertion order,
    /// and the count of outstanding check-outs is the number of empty slots.
    pub open spec fn wf(&self) -> bool {
        &&& self.stored()
        &&& self.tree().len() <= Self::capacity()
        &&& self.entities().len() == self.tree().len()
        &&& ordered(self.tree())
        &&& single_parent(self.tree())
        &&& connected(self.tree())
        &&& self.outstanding() == count_empty(self.entities())
    }

    /// Whether `id` names a node of this graph.
    pub open spec fn contains(&self, id: NodeID) -> bool {
        id.index() < self.tree().len()
    }

    /// A graph without nodes.
    pub fn empty() -> (graph: Self)
        ensures
            graph.wf(),
            graph.tree() == Seq::<Seq<nat>>::empty(),
            graph.entities() == Seq::<Option<E>>::empty(),
            graph.outstanding() == 0,
    {
        let graph = Scenegraph { nodes: Arena::empty(), loaded: 0 };
        assert(graph.tree() =~= Seq::<Seq<nat>>::empty());
        assert(graph.entities() =~= Seq::<Option<E>>::empty());
        graph
    }

    /// The handle of the root. On a graph without nodes this makes the root
    /// first, with the default entity and no child; on any other graph it
    /// changes nothing. A graph of capacity 0 has no room for a root.
    pub fn root(&mut self) -> (id: NodeID) where E: Default
        requires
            old(self).wf(),
            1 <= Self::capacity(),
        ensures
            final(self).wf(),
            id.index() == 0,
            final(self).contains(id),
            final(self).outstanding() == old(self).outstanding(),
            old(self).tree().len() > 0 ==> final(self).tree() == old(self).tree()
                && final(self).entities() == old(self).entities(),
            old(self).tree().len() == 0 ==> final(self).tree() == seq![Seq::<nat>::empty()]
                && final(self).entities().len() == 1 && final(self).entities()[0] is Some
                && call_ensures(E::default, (), final(self).entities()[0].unwrap()),
    {
        if self.nodes.len() == 0 {
            let entity = E::default();
            self.nodes.add(Node::new(entity));
            assert(self.tree() =~= seq![Seq::<nat>::empty()]);
            assert(self.entities() =~= seq![Some(entity)]);
            assert(self.entities().drop_last() =~= Seq::<Option<E>>::empty());
            assert(old(self).entities() =~= Seq::<Option<E>>::empty());
        }
        NodeID(0)
    }

    /// Adds `entity` as the last child of `parent`. Returns the handle of the
    /// new node, which is the number of nodes before, and the descriptor of
    /// the entity, for the caller to register with the renderer. The graph
    /// must have room for the node.
    pub fn add_entity(&mut self, parent: NodeID, entity: E) -> (added: (
        NodeID,
        Option<&'static str>,
    )) where E: EntityBehavior
        requires
            old(self).wf(),
            old(self).contains(parent),
            old(self).tree().len() < Self::capacity(),
        ensures
            final(self).wf(),
            added.0.index() == old(self).tree().len(),
            added.1 == entity.descriptor(),
            final(self).tree() == old(self).tree().update(
                parent.index() as int,
                old(self).tree()[parent.index() as int].push(added.0.index()),
            ).push(Seq::<nat>::empty()),
            final(self).entities() == old(self).entities().push(Some(entity)),
            final(self).outstanding() == old(self).outstanding(),
    {
        let meta = entity.shader_metadata();
        let at: usize = self.nodes.len();
        self.nodes.add(Node::new(entity));
        let id = NodeID(at);
        let node = self.nodes.get_mut(slot(parent));
        node.children.push(id);
        proof {
            let before = old(self).tree();
            let after = before.update(
                parent.index() as int,
                before[parent.index() as int].push(at as nat),
            ).push(Seq::<nat>::empty());
            assert forall|i: int| 0 <= i < after.len() implies self.tree()[i] =~= after[i] by {}
            assert(self.tree() =~= after);
            assert(self.entities() =~= old(self).entities().push(Some(entity)));
            assert(self.entities().drop_last() =~= old(self).entities());
            lemma_grown_tree(before, parent.index() as int);
        }
        (id, meta)
    }

    /// Checks the entity of node `id` out: hands it over and leaves the slot
    /// empty until it is stored back.
    pub fn load(&mut self, id: NodeID) -> (entity: E)
        requires
            old(self).wf(),
            old(self).contains(id),
            old(self).entities()[id.index() as int] is Some,
        ensures
            final(self).wf(),
            Some(entity) == old(self).entities()[id.index() as int],
            final(self).entities() == old(self).entities().update(id.index() as int, None),
            final(self).tree() == old(self).tree(),
            final(self).outstanding() == old(self).outstanding() + 1,
    {
        let total: usize = self.nodes.len();
        proof {
            lemma_count_bound(self.entities());
            assert(self.entities()[id.index() as int] is Some);
            assert(self.loaded < total);
            lemma_count_update(self.entities(), id.index() as int, None);
        }
        self.loaded = self.loaded + 1;
        let node = self.nodes.get_mut(slot(id));
        let taken = node.entity.take();
        assert(self.entities() =~= old(self).entities().update(id.index() as int, None));
        assert(self.tree() =~= old(self).tree());
        taken.unwrap()
    }

    /// Returns a checked-out entity to the empty slot of node `id`.
    pub fn store(&mut self, id: NodeID, entity: E)
        requires
            old(self).wf(),
            old(self).contains(id),
            old(self).entities()[id.index() as int] is None,
        ensures
            final(self).wf(),
            final(self).entities() == old(self).entities().update(
                id.index() as int,
                Some(entity),
            ),
            final(self).tree() == old(self).tree(),
            final(self).outstanding() == old(self).outstanding() - 1,
    {
        proof {
            lemma_count_bound(self.entities());
            lemma_count_update(self.entities(), id.index() as int, Some(entity));
        }
        self.loaded = self.loaded - 1;
        let node = self.nodes.get_mut(slot(id));
        node.entity = Some(entity);
        assert(self.entities() =~= old(self).entities().update(id.index() as int, Some(entity)));
        assert(self.tree() =~= old(self).tree());
    }

    /// Edits the entity of node `id` in place: the entity is converted to the
    /// type that `func` works on, handed to `func`, and what `func` returns is
    /// converted back and put into the slot. Nothing else changes, and no
    /// check-out stays outstanding.
    pub fn with<T, F>(&mut self, id: NodeID, func: F) where
        F: FnOnce(T) -> T,
        T: From<E>,
        E: From<T>,

        requires
            old(self).wf(),
            old(self).contains(id),
            old(self).entities()[id.index() as int] is Some,
            forall|t: T| Self::converted(old(self).entities()[id.index() as int].unwrap(), t)
                    ==> call_requires(func, (t,)),
        ensures
            final(self).wf(),
            final(self).tree() == old(self).tree(),
            final(self).outstanding() == old(self).outstanding(),
            final(self).entities()[id.index() as int] is Some,
            final(self).entities() == old(self).entities().update(
                id.index() as int,
                final(self).entities()[id.index() as int],
            ),
            exists|t: T, u: T|
                Self::converted(old(self).entities()[id.index() as int].unwrap(), t)
                    && call_ensures(func, (t,), u) && Self::converted_back(
                    u,
                    final(self).entities()[id.index() as int].unwrap(),
                ),
    {
        let entity = self.load(id);
        let given = T::from(entity);
        assert(Self::converted(old(self).entities()[id.index() as int].unwrap(), given));
        let edited = func(given);
        let back = E::from(edited);
        self.store(id, back);
        assert(self.entities() =~= old(self).entities().update(id.index() as int, Some(back)));
        assert(Self::converted(entity, given) && call_ensures(func, (given,), edited)
            && Self::converted_back(edited, back));
    }

    /// Whether `t` is what `entity` converts to, by the conversion of `T`.
    pub open spec fn converted<T: From<E>>(entity: E, t: T) -> bool {
        call_ensures(<T as From<E>>::from, (entity,), t)
    }

    /// Whether `entity` is what `t` converts back to, by the conversion of
    /// the entity type.
    pub open spec fn converted_back<T>(t: T, entity: E) -> bool where E: From<T> {
        call_ensures(<E as From<T>>::from, (t,), entity)
    }

    /// One tick of the tree below node `id`, with `m` as the matrix above it.
    /// Every entity from `id` down takes one step under the matrix that its
    /// parent handed on, depth first, and every drawn entity appends a record
    /// of its handle and its own matrix to `records`. No check-out may be
    /// outstanding.
    pub fn recursive_update(
        &mut self,
        id: NodeID,
        dt: E::Step,
        m: E::Matrix,
        records: &mut Vec<(NodeID, E::Matrix)>,
    ) where E: EntityBehavior, E::Step: Copy, E::Matrix: Copy
        requires
            old(self).wf(),
            old(self).contains(id),
            old(self).outstanding() == 0,
        ensures
            final(self).wf(),
            final(self).tree() == old(self).tree(),
            final(self).outstanding() == 0,
            final(self).entities() == visit(
                old(self).tree(),
                old(self).entities(),
                id.index(),
                dt,
                m,
            ).0,
            positions(final(records)@) == positions(old(records)@) + visit(
                old(self).tree(),
                old(self).entities(),
                id.index(),
                dt,
                m,
            ).1,
            traversed(
                old(self).tree(),
                old(self).entities(),
                id.index(),
                dt,
                m,
                final(self).entities(),
                positions(final(records)@).skip(old(records)@.len() as int),
            ),
        decreases old(self).tree().len() - id.index(),
    {
        let ghost tree = self.tree();
        let ghost goal = visit(tree, self.entities(), id.index(), dt, m);
        proof {
            lemma_count_bound(self.entities());
            assert(self.entities()[id.index() as int] is Some);
            lemma_visit_by_node(tree, self.entities(), id.index(), dt, m);
            assert((positions(old(records)@) + goal.1).skip(old(records)@.len() as int)
                =~= goal.1);
        }
        let mut entity = self.load(id);
        let own = entity.update_matrix(dt, m);
        if entity.shader_metadata().is_some() {
            records.push((id, own));
        }
        self.store(id, entity);
        let count: usize = self.nodes.get(slot(id)).children.len();
        let mut k: usize = 0;
        proof {
            assert(self.entities() =~= old(self).entities().update(
                id.index() as int,
                Some(entity),
            ));
            assert(count == tree[id.index() as int].len());
            let below = visit_children(tree, self.entities(), id.index(), 0, dt, own);
            if entity.descriptor() is Some {
                assert(positions(records@) =~= positions(old(records)@) + seq![
                    (id.index(), own),
                ]);
            } else {
                assert(positions(records@) =~= positions(old(records)@));
            }
            assert(positions(records@) + below.1 =~= positions(old(records)@) + goal.1);
        }
        while k < count
            invariant
                self.wf(),
                self.tree() == tree,
                self.outstanding() == 0,
                self.contains(id),
                tree == old(self).tree(),
                count == tree[id.index() as int].len(),
                k <= count,
                visit_children(tree, self.entities(), id.index(), k as nat, dt, own).0 == goal.0,
                positions(records@) + visit_children(
                    tree,
                    self.entities(),
                    id.index(),
                    k as nat,
                    dt,
                    own,
                ).1 == positions(old(records)@) + goal.1,
            decreases count - k,
        {
            let child = self.nodes.get(slot(id)).children[k];
            let ghost before = self.entities();
            let ghost written = positions(records@);
            proof {
                assert(child.index() == tree[id.index() as int][k as int]);
            }
            self.recursive_update(child, dt, own, records);
            proof {
                let step = visit(tree, before, child.index(), dt, own);
                let rest = visit_children(tree, step.0, id.index(), (k + 1) as nat, dt, own);
                assert(positions(records@) + rest.1 =~= written + (step.1 + rest.1));
            }
            k = k + 1;
        }
    }

    /// Whether the entity of node `id` is checked out.
    pub fn is_loaded(&self, id: NodeID) -> (out: bool)
        requires
            self.wf(),
            self.contains(id),
        ensures
            out == (self.entities()[id.index() as int] is None),
    {
        self.nodes.get(slot(id)).entity.is_none()
    }

    /// The number of check-outs that have not been returned.
    pub fn loaded(&self) -> (n: usize)
        ensures
            n == self.outstanding(),
    {
        self.loaded
    }

    /// The number of nodes.
    pub fn len(&self) -> (n: usize)
        requires
            self.wf(),
        ensures
            n == self.tree().len(),
            n == self.entities().len(),
            n <= N,
    {
        self.nodes.len()
    }
}

} // verus!
