//! What a traversal of the scene graph does to each node, stated node by
//! node and proved of the traversal as the graph runs it.

use crate::scenegraph::{has_parent, ordered, single_parent, visit, visit_children, EntityBehavior};
use vstd::prelude::*;

verus! {

/// Two rows of slots hold the same everywhere but, perhaps, at position `at`.
pub open spec fn agree_besides<E>(a: Seq<Option<E>>, b: Seq<Option<E>>, at: nat) -> bool {
    &&& a.len() == b.len()
    &&& forall|i: int| 0 <= i < a.len() && i != at ==> a[i] == b[i]
}

/// The records of the nodes other than `at`, in their order.
pub open spec fn without<M>(records: Seq<(nat, M)>, at: nat) -> Seq<(nat, M)> {
    records.filter(|r: (nat, M)| r.0 != at)
}

/// Leaving a node out of two rows of records leaves it out of their sum.
pub proof fn lemma_without_sum<M>(a: Seq<(nat, M)>, b: Seq<(nat, M)>, at: nat)
    ensures
        without(a + b, at) == without(a, at) + without(b, at),
{
    Seq::filter_distributes_over_add(a, b, |r: (nat, M)| r.0 != at);
}

/// A row of records of one node holds nothing once that node is left out.
pub proof fn lemma_without_own<M>(records: Seq<(nat, M)>, at: nat)
    requires
        records.len() <= 1,
        forall|i: int| 0 <= i < records.len() ==> records[i].0 == at,
    ensures
        without(records, at) == Seq::<(nat, M)>::empty(),
{
    reveal_with_fuel(Seq::filter, 2);
    if records.len() == 1 {
        assert(records.drop_last().len() == 0);
    }
    assert(without(records, at) =~= Seq::<(nat, M)>::empty());
}

/// A leaf keeps to itself: where two graphs of one shape differ only in the
/// entity of a node without children, a traversal leaves them differing only
/// there, and every other node leaves the same record, with the same matrix,
/// in both.
pub proof fn lemma_leaf_is_private<E: EntityBehavior>(
    tree: Seq<Seq<nat>>,
    a: Seq<Option<E>>,
    b: Seq<Option<E>>,
    leaf: nat,
    id: nat,
    dt: E::Step,
    m: E::Matrix,
)
    requires
        agree_besides(a, b, leaf),
        leaf < tree.len() ==> tree[leaf as int].len() == 0,
    ensures
        agree_besides(visit(tree, a, id, dt, m).0, visit(tree, b, id, dt, m).0, leaf),
        without(visit(tree, a, id, dt, m).1, leaf) == without(visit(tree, b, id, dt, m).1, leaf),
    decreases tree.len() - id, 1nat, 0nat,
{
    let none = Seq::<(nat, E::Matrix)>::empty();
    lemma_without_own(none, leaf);
    if id >= tree.len() || id >= a.len() {
    } else if id == leaf {
        lemma_own_visit(tree, a, leaf, dt, m);
        lemma_own_visit(tree, b, leaf, dt, m);
    } else if a[id as int] is None {
    } else {
        let (entity, own) = a[id as int].unwrap().stepped(dt, m);
        let record = if entity.descriptor() is Some {
            seq![(id, own)]
        } else {
            none
        };
        let a1 = a.update(id as int, Some(entity));
        let b1 = b.update(id as int, Some(entity));
        lemma_leaf_is_private_below(tree, a1, b1, leaf, id, 0, dt, own);
        lemma_without_sum(record, visit_children(tree, a1, id, 0, dt, own).1, leaf);
        lemma_without_sum(record, visit_children(tree, b1, id, 0, dt, own).1, leaf);
    }
}

/// The visit of a node without children changes its own slot at most, and
/// leaves no record but its own.
proof fn lemma_own_visit<E: EntityBehavior>(
    tree: Seq<Seq<nat>>,
    slots: Seq<Option<E>>,
    leaf: nat,
    dt: E::Step,
    m: E::Matrix,
)
    requires
        leaf < tree.len() ==> tree[leaf as int].len() == 0,
    ensures
        agree_besides(visit(tree, slots, leaf, dt, m).0, slots, leaf),
        without(visit(tree, slots, leaf, dt, m).1, leaf) == Seq::<(nat, E::Matrix)>::empty(),
{
    let records = visit(tree, slots, leaf, dt, m).1;
    if leaf >= tree.len() || leaf >= slots.len() || slots[leaf as int] is None {
        lemma_without_own(records, leaf);
    } else {
        let (entity, own) = slots[leaf as int].unwrap().stepped(dt, m);
        let after = slots.update(leaf as int, Some(entity));
        assert(visit_children(tree, after, leaf, 0, dt, own) == (
            after,
            Seq::<(nat, E::Matrix)>::empty(),
        ));
        assert(records.len() <= 1);
        lemma_without_own(records, leaf);
    }
}

/// The same, of the traversals from the children of node `id`, from its
/// child number `k` on.
proof fn lemma_leaf_is_private_below<E: EntityBehavior>(
    tree: Seq<Seq<nat>>,
    a: Seq<Option<E>>,
    b: Seq<Option<E>>,
    leaf: nat,
    id: nat,
    k: nat,
    dt: E::Step,
    m: E::Matrix,
)
    requires
        agree_besides(a, b, leaf),
        leaf < tree.len() ==> tree[leaf as int].len() == 0,
    ensures
        agree_besides(
            visit_children(tree, a, id, k, dt, m).0,
            visit_children(tree, b, id, k, dt, m).0,
            leaf,
        ),
        without(visit_children(tree, a, id, k, dt, m).1, leaf) == without(
            visit_children(tree, b, id, k, dt, m).1,
            leaf,
        ),
    decreases tree.len() - id, 0nat, (if id < tree.len() {
        tree[id as int].len() - k
    } else {
        0
    }),
{
    if id >= tree.len() || k >= tree[id as int].len() {
    } else {
        let child = tree[id as int][k as int];
        if child <= id || child >= tree.len() {
        } else {
            lemma_leaf_is_private(tree, a, b, leaf, child, dt, m);
            let (a1, ra) = visit(tree, a, child, dt, m);
            let (b1, rb) = visit(tree, b, child, dt, m);
            lemma_leaf_is_private_below(tree, a1, b1, leaf, id, k + 1, dt, m);
            lemma_without_sum(ra, visit_children(tree, a1, id, k + 1, dt, m).1, leaf);
            lemma_without_sum(rb, visit_children(tree, b1, id, k + 1, dt, m).1, leaf);
        }
    }
}

/// The node that lists `c` as its child.
pub open spec fn parent_of(tree: Seq<Seq<nat>>, c: nat) -> nat {
    let (i, k) = choose|i: int, k: int|
        0 <= i < tree.len() && 0 <= k < tree[i].len() && #[trigger] tree[i][k] == c;
    i as nat
}

/// Whether node `j` is `top` or stands below it: whether the way up from `j`,
/// from parent to parent, leads through `top`.
pub open spec fn below(tree: Seq<Seq<nat>>, top: nat, j: nat) -> bool
    decreases j,
{
    if j == top {
        true
    } else if j < top {
        false
    } else {
        has_parent(tree, j as int) && parent_of(tree, j) < j && below(
            tree,
            top,
            parent_of(tree, j),
        )
    }
}

/// In a tree, a node that lists `c` is the parent of `c`, and stands before it.
pub proof fn lemma_parent(tree: Seq<Seq<nat>>, i: int, k: int)
    requires
        ordered(tree),
        single_parent(tree),
        0 <= i < tree.len(),
        0 <= k < tree[i].len(),
    ensures
        has_parent(tree, tree[i][k] as int),
        parent_of(tree, tree[i][k]) == i,
        i < tree[i][k] < tree.len(),
{
    let c = tree[i][k];
    let (i2, k2) = choose|i2: int, k2: int|
        0 <= i2 < tree.len() && 0 <= k2 < tree[i2].len() && #[trigger] tree[i2][k2] == c;
    assert(tree[i2][k2] == tree[i][k]);
}

/// What stands below a node stands behind it.
pub proof fn lemma_below_is_behind(tree: Seq<Seq<nat>>, top: nat, j: nat)
    requires
        below(tree, top, j),
    ensures
        top <= j,
{
}

/// What stands below a child of a node stands below that node.
pub proof fn lemma_below_child(tree: Seq<Seq<nat>>, id: nat, k: int, j: nat)
    requires
        ordered(tree),
        single_parent(tree),
        id < tree.len(),
        0 <= k < tree[id as int].len(),
        below(tree, tree[id as int][k], j),
    ensures
        below(tree, id, j),
        j != id,
    decreases j,
{
    let c = tree[id as int][k];
    lemma_parent(tree, id as int, k);
    if j == c {
        assert(below(tree, id, id));
    } else {
        lemma_below_child(tree, id, k, parent_of(tree, j));
    }
}

/// What stands below a node, and is not that node, stands below one of its children.
pub proof fn lemma_below_some_child(tree: Seq<Seq<nat>>, id: nat, j: nat) -> (k: int)
    requires
        ordered(tree),
        single_parent(tree),
        id < tree.len(),
        below(tree, id, j),
        j != id,
    ensures
        0 <= k < tree[id as int].len(),
        below(tree, tree[id as int][k], j),
    decreases j,
{
    let p = parent_of(tree, j);
    let (i, k) = choose|i: int, k: int|
        0 <= i < tree.len() && 0 <= k < tree[i].len() && #[trigger] tree[i][k] == j;
    lemma_parent(tree, i, k);
    if p == id {
        assert(below(tree, j, j));
        k
    } else {
        let k2 = lemma_below_some_child(tree, id, p);
        let c = tree[id as int][k2];
        lemma_parent(tree, id as int, k2);
        lemma_below_is_behind(tree, c, p);
        k2
    }
}

/// Nothing stands below two children of one node.
pub proof fn lemma_children_apart(tree: Seq<Seq<nat>>, id: nat, k: int, l: int, j: nat)
    requires
        ordered(tree),
        single_parent(tree),
        id < tree.len(),
        0 <= k < tree[id as int].len(),
        0 <= l < tree[id as int].len(),
        k != l,
    ensures
        !(below(tree, tree[id as int][k], j) && below(tree, tree[id as int][l], j)),
    decreases j,
{
    let c = tree[id as int][k];
    let d = tree[id as int][l];
    lemma_parent(tree, id as int, k);
    lemma_parent(tree, id as int, l);
    if below(tree, c, j) && below(tree, d, j) {
        if j == c || j == d {
            assert(!below(tree, c, id));
            assert(!below(tree, d, id));
        } else {
            lemma_children_apart(tree, id, k, l, parent_of(tree, j));
        }
    }
}

/// The matrix that a traversal from `top`, begun with `m`, hands to node `j`
/// below `top`: `m` itself for `top`, and for any other node the matrix that
/// its parent makes of what the parent was handed.
pub open spec fn matrix_above<E: EntityBehavior>(
    tree: Seq<Seq<nat>>,
    slots: Seq<Option<E>>,
    top: nat,
    dt: E::Step,
    m: E::Matrix,
    j: nat,
) -> E::Matrix
    decreases j,
{
    if j == top || !(has_parent(tree, j as int) && parent_of(tree, j) < j) {
        m
    } else {
        let p = parent_of(tree, j);
        slots[p as int].unwrap().stepped(dt, matrix_above(tree, slots, top, dt, m, p)).1
    }
}

/// The world matrix of node `j` in a traversal from `top` begun with `m`:
/// what the entity of `j` makes of the matrix that it is handed.
pub open spec fn world_matrix<E: EntityBehavior>(
    tree: Seq<Seq<nat>>,
    slots: Seq<Option<E>>,
    top: nat,
    dt: E::Step,
    m: E::Matrix,
    j: nat,
) -> E::Matrix {
    slots[j as int].unwrap().stepped(dt, matrix_above(tree, slots, top, dt, m, j)).1
}

/// The entity of node `j` after a traversal from `top` begun with `m`.
pub open spec fn entity_after<E: EntityBehavior>(
    tree: Seq<Seq<nat>>,
    slots: Seq<Option<E>>,
    top: nat,
    dt: E::Step,
    m: E::Matrix,
    j: nat,
) -> E {
    slots[j as int].unwrap().stepped(dt, matrix_above(tree, slots, top, dt, m, j)).0
}

/// The world matrix of a child is what the child makes of the world matrix
/// of its parent.
pub proof fn lemma_world_matrix_composes<E: EntityBehavior>(
    tree: Seq<Seq<nat>>,
    slots: Seq<Option<E>>,
    top: nat,
    dt: E::Step,
    m: E::Matrix,
    parent: nat,
    k: int,
)
    requires
        ordered(tree),
        single_parent(tree),
        parent < tree.len(),
        0 <= k < tree[parent as int].len(),
        below(tree, top, parent),
    ensures
        world_matrix(tree, slots, top, dt, m, tree[parent as int][k]) == slots[tree[parent as int][k] as int].unwrap().stepped(
            dt,
            world_matrix(tree, slots, top, dt, m, parent),
        ).1,
        world_matrix(tree, slots, top, dt, m, top) == slots[top as int].unwrap().stepped(dt, m).1,
{
    lemma_parent(tree, parent as int, k);
    lemma_below_is_behind(tree, top, parent);
}

/// The matrix handed to a node depends on the entities above it only: two
/// rows of slots that agree below `top` hand every node below `top` the same.
pub proof fn lemma_matrix_above_reads_ancestors<E: EntityBehavior>(
    tree: Seq<Seq<nat>>,
    a: Seq<Option<E>>,
    b: Seq<Option<E>>,
    top: nat,
    dt: E::Step,
    m: E::Matrix,
    j: nat,
)
    requires
        forall|i: nat| i < tree.len() && #[trigger] below(tree, top, i) ==> a[i as int] == b[i as int],
        below(tree, top, j),
    ensures
        matrix_above(tree, a, top, dt, m, j) == matrix_above(tree, b, top, dt, m, j),
    decreases j,
{
    if j != top {
        let p = parent_of(tree, j);
        let (i, k) = choose|i: int, k: int|
            0 <= i < tree.len() && 0 <= k < tree[i].len() && #[trigger] tree[i][k] == j;
        assert(below(tree, top, p));
        lemma_matrix_above_reads_ancestors(tree, a, b, top, dt, m, p);
    }
}

/// A traversal from a node hands the nodes below one of its children what a
/// traversal from that child, begun with the node's own matrix, hands them.
pub proof fn lemma_matrix_above_from_child<E: EntityBehavior>(
    tree: Seq<Seq<nat>>,
    slots: Seq<Option<E>>,
    id: nat,
    k: int,
    dt: E::Step,
    m: E::Matrix,
    j: nat,
)
    requires
        ordered(tree),
        single_parent(tree),
        id < tree.len(),
        0 <= k < tree[id as int].len(),
        below(tree, tree[id as int][k], j),
    ensures
        matrix_above(tree, slots, id, dt, m, j) == matrix_above(
            tree,
            slots,
            tree[id as int][k],
            dt,
            slots[id as int].unwrap().stepped(dt, m).1,
            j,
        ),
    decreases j,
{
    let c = tree[id as int][k];
    lemma_parent(tree, id as int, k);
    lemma_below_is_behind(tree, c, j);
    if j != c {
        lemma_matrix_above_from_child(tree, slots, id, k, dt, m, parent_of(tree, j));
    } else {
        assert(matrix_above(tree, slots, id, dt, m, id) == m);
    }
}

/// Every slot holds its entity: nothing is checked out.
pub open spec fn all_present<E>(slots: Seq<Option<E>>) -> bool {
    forall|i: int| 0 <= i < slots.len() ==> (#[trigger] slots[i]) is Some
}

/// Whether node `j` stands below one of the first `k` children of node `id`.
pub open spec fn below_first(tree: Seq<Seq<nat>>, id: nat, k: nat, j: nat) -> bool {
    exists|i: int|
        0 <= i < k && i < tree[id as int].len() && below(tree, #[trigger] tree[id as int][i], j)
}

/// Whether node `j` stands below one of the children of node `id` from
/// child number `k` on.
pub open spec fn below_from(tree: Seq<Seq<nat>>, id: nat, k: nat, j: nat) -> bool {
    exists|i: int|
        k <= i < tree[id as int].len() && below(tree, #[trigger] tree[id as int][i], j)
}

/// Whether node `j` is drawn after a traversal from `top` begun with `m`.
pub open spec fn drawn_after<E: EntityBehavior>(
    tree: Seq<Seq<nat>>,
    slots: Seq<Option<E>>,
    top: nat,
    dt: E::Step,
    m: E::Matrix,
    j: nat,
) -> bool {
    entity_after(tree, slots, top, dt, m, j).descriptor() is Some
}

/// Whether `record` is the record that a traversal from `top`, begun with
/// `m`, owes a drawn node: the position of the node and its world matrix.
pub open spec fn record_of_node<E: EntityBehavior>(
    tree: Seq<Seq<nat>>,
    slots: Seq<Option<E>>,
    top: nat,
    dt: E::Step,
    m: E::Matrix,
    record: (nat, E::Matrix),
) -> bool {
    &&& record.0 < slots.len()
    &&& below(tree, top, record.0)
    &&& drawn_after(tree, slots, top, dt, m, record.0)
    &&& record.1 == world_matrix(tree, slots, top, dt, m, record.0)
}

/// Whether some record of `records` is that of node `j`.
pub open spec fn recorded<M>(records: Seq<(nat, M)>, j: nat) -> bool {
    exists|r: int| 0 <= r < records.len() && (#[trigger] records[r]).0 == j
}

/// No node has two records in `records`.
pub open spec fn one_record_each<M>(records: Seq<(nat, M)>) -> bool {
    forall|r: int, q: int|
        0 <= r < q < records.len() ==> (#[trigger] records[r]).0 != (#[trigger] records[q]).0
}

/// What a traversal from `top`, begun with `m` on `slots`, comes to, node by
/// node: every node below `top` holds its entity one step on, taken under the
/// matrix that its parent handed it; every other node is untouched; and the
/// records are those of the drawn nodes below `top`, one for each, with the
/// world matrix of the node.
pub open spec fn traversed<E: EntityBehavior>(
    tree: Seq<Seq<nat>>,
    slots: Seq<Option<E>>,
    top: nat,
    dt: E::Step,
    m: E::Matrix,
    after: Seq<Option<E>>,
    records: Seq<(nat, E::Matrix)>,
) -> bool {
    &&& after.len() == slots.len()
    &&& forall|j: nat|
        j < slots.len() ==> #[trigger] after[j as int] == if below(tree, top, j) {
            Some(entity_after(tree, slots, top, dt, m, j))
        } else {
            slots[j as int]
        }
    &&& forall|r: int|
        0 <= r < records.len() ==> record_of_node(tree, slots, top, dt, m, #[trigger] records[r])
    &&& forall|j: nat|
        j < slots.len() && below(tree, top, j) && drawn_after(tree, slots, top, dt, m, j)
            ==> #[trigger] recorded(records, j)
    &&& one_record_each(records)
}

/// What stands below child number `k` of a node stands below none of the
/// children before it, and is not the node itself.
proof fn lemma_next_child_is_fresh(tree: Seq<Seq<nat>>, id: nat, k: nat, j: nat)
    requires
        ordered(tree),
        single_parent(tree),
        id < tree.len(),
        k < tree[id as int].len(),
        below(tree, tree[id as int][k as int], j),
    ensures
        !below_first(tree, id, k, j),
        below_first(tree, id, k + 1, j),
        !below_from(tree, id, k + 1, j),
        below_from(tree, id, k, j),
        below(tree, id, j),
        j != id,
{
    lemma_below_child(tree, id, k as int, j);
    if below_first(tree, id, k, j) {
        let i = choose|i: int|
            0 <= i < k && i < tree[id as int].len() && below(
                tree,
                #[trigger] tree[id as int][i],
                j,
            );
        lemma_children_apart(tree, id, i, k as int, j);
    }
    if below_from(tree, id, k + 1, j) {
        let i = choose|i: int|
            k + 1 <= i < tree[id as int].len() && below(tree, #[trigger] tree[id as int][i], j);
        lemma_children_apart(tree, id, i, k as int, j);
    }
}

/// What stands below a child of a node from number `k` on stands below
/// child number `k` or below a later one; and it stands below the node and
/// is not the node.
proof fn lemma_below_from_splits(tree: Seq<Seq<nat>>, id: nat, k: nat, j: nat)
    requires
        ordered(tree),
        single_parent(tree),
        id < tree.len(),
        k < tree[id as int].len(),
        below_from(tree, id, k, j),
    ensures
        below(tree, tree[id as int][k as int], j) || below_from(tree, id, k + 1, j),
        below(tree, id, j),
        j != id,
{
    let i = choose|i: int|
        k <= i < tree[id as int].len() && below(tree, #[trigger] tree[id as int][i], j);
    lemma_below_child(tree, id, i, j);
    if i != k {
        assert(below_from(tree, id, k + 1, j));
    }
}

/// A traversal, node by node. In a tree with every entity in place, the
/// traversal that the graph runs from `id` comes to what [`traversed`] says:
/// every node below `id` takes exactly one step, under the world matrix of
/// its parent, and every drawn node below `id` leaves exactly one record,
/// which carries its world matrix.
pub proof fn lemma_visit_by_node<E: EntityBehavior>(
    tree: Seq<Seq<nat>>,
    slots: Seq<Option<E>>,
    id: nat,
    dt: E::Step,
    m: E::Matrix,
)
    requires
        ordered(tree),
        single_parent(tree),
        slots.len() == tree.len(),
        all_present(slots),
        id < tree.len(),
    ensures
        traversed(
            tree,
            slots,
            id,
            dt,
            m,
            visit(tree, slots, id, dt, m).0,
            visit(tree, slots, id, dt, m).1,
        ),
    decreases tree.len() - id, 1nat, 0nat,
{
    assert(slots[id as int] is Some);
    let (entity, own) = slots[id as int].unwrap().stepped(dt, m);
    let first = slots.update(id as int, Some(entity));
    assert(matrix_above(tree, slots, id, dt, m, id) == m);
    assert forall|j: nat| j < tree.len() implies #[trigger] first[j as int] == if j == id
        || below_first(tree, id, 0, j) {
        Some(entity_after(tree, slots, id, dt, m, j))
    } else {
        slots[j as int]
    } by {}
    lemma_visit_children_by_node(tree, slots, first, id, 0, dt, m);
    let (after, records) = visit(tree, slots, id, dt, m);
    let lower = visit_children(tree, first, id, 0, dt, own).1;
    let shift: int = if entity.descriptor() is Some {
        1
    } else {
        0
    };
    assert(records.len() == lower.len() + shift);
    assert forall|r: int| shift <= r < records.len() implies records[r] == lower[r - shift] by {}
    assert forall|r: int| 0 <= r < records.len() implies record_of_node(
        tree,
        slots,
        id,
        dt,
        m,
        #[trigger] records[r],
    ) by {
        if r >= shift {
            assert(records[r] == lower[r - shift]);
        }
    }
    assert forall|j: nat|
        j < slots.len() && below(tree, id, j) && drawn_after(
            tree,
            slots,
            id,
            dt,
            m,
            j,
        ) implies #[trigger] recorded(records, j) by {
        if j == id {
            assert(records[0].0 == j);
        } else {
            let k = lemma_below_some_child(tree, id, j);
            assert(below_from(tree, id, 0, j));
            assert(recorded(lower, j));
            let r = choose|r: int| 0 <= r < lower.len() && (#[trigger] lower[r]).0 == j;
            assert(records[r + shift] == lower[r]);
        }
    }
    assert forall|r: int, q: int| 0 <= r < q < records.len() implies (#[trigger] records[r]).0
        != (#[trigger] records[q]).0 by {
        assert(records[q] == lower[q - shift]);
        if r >= shift {
            assert(records[r] == lower[r - shift]);
        } else {
            lemma_below_from_splits(tree, id, 0, lower[q - shift].0);
        }
    }
}

/// The same, of the traversals from the children of node `id`, from child
/// number `k` on: `cur` is what the traversal has made of `slots` so far.
proof fn lemma_visit_children_by_node<E: EntityBehavior>(
    tree: Seq<Seq<nat>>,
    slots: Seq<Option<E>>,
    cur: Seq<Option<E>>,
    id: nat,
    k: nat,
    dt: E::Step,
    m: E::Matrix,
)
    requires
        ordered(tree),
        single_parent(tree),
        slots.len() == tree.len(),
        cur.len() == tree.len(),
        all_present(slots),
        id < tree.len(),
        k <= tree[id as int].len(),
        forall|j: nat|
            j < tree.len() ==> #[trigger] cur[j as int] == if j == id || below_first(
                tree,
                id,
                k,
                j,
            ) {
                Some(entity_after(tree, slots, id, dt, m, j))
            } else {
                slots[j as int]
            },
    ensures
        ({
            let own = world_matrix(tree, slots, id, dt, m, id);
            let (after, records) = visit_children(tree, cur, id, k, dt, own);
            &&& after.len() == slots.len()
            &&& forall|j: nat|
                j < slots.len() ==> #[trigger] after[j as int] == if below(tree, id, j) {
                    Some(entity_after(tree, slots, id, dt, m, j))
                } else {
                    slots[j as int]
                }
            &&& forall|r: int|
                0 <= r < records.len() ==> record_of_node(
                    tree,
                    slots,
                    id,
                    dt,
                    m,
                    #[trigger] records[r],
                ) && below_from(tree, id, k, records[r].0)
            &&& forall|j: nat|
                j < slots.len() && below_from(tree, id, k, j) && drawn_after(
                    tree,
                    slots,
                    id,
                    dt,
                    m,
                    j,
                ) ==> #[trigger] recorded(records, j)
            &&& one_record_each(records)
        }),
    decreases tree.len() - id, 0nat, tree[id as int].len() - k,
{
    let own = world_matrix(tree, slots, id, dt, m, id);
    assert(matrix_above(tree, slots, id, dt, m, id) == m);
    let n = tree[id as int].len();
    if k >= n {
        assert forall|j: nat| j < slots.len() implies #[trigger] cur[j as int] == if below(
            tree,
            id,
            j,
        ) {
            Some(entity_after(tree, slots, id, dt, m, j))
        } else {
            slots[j as int]
        } by {
            if below_first(tree, id, k, j) {
                let i = choose|i: int|
                    0 <= i < k && i < tree[id as int].len() && below(
                        tree,
                        #[trigger] tree[id as int][i],
                        j,
                    );
                lemma_below_child(tree, id, i, j);
            }
            if below(tree, id, j) && j != id {
                let i = lemma_below_some_child(tree, id, j);
                assert(below_first(tree, id, k, j));
            }
        }
    } else {
        let c = tree[id as int][k as int];
        lemma_parent(tree, id as int, k as int);
        assert(all_present(cur)) by {
            assert forall|i: int| 0 <= i < cur.len() implies (#[trigger] cur[i]) is Some by {
                assert(slots[i] is Some);
                assert(cur[i as nat as int] == cur[i]);
            }
        }
        lemma_visit_by_node(tree, cur, c, dt, own);
        let (first, records) = visit(tree, cur, c, dt, own);
        assert forall|i: nat| i < tree.len() && #[trigger] below(tree, c, i) implies cur[i as int]
            == slots[i as int] by {
            lemma_next_child_is_fresh(tree, id, k, i);
        }
        assert forall|j: nat| j < tree.len() && below(tree, c, j) implies #[trigger] matrix_above(
            tree,
            cur,
            c,
            dt,
            own,
            j,
        ) == matrix_above(tree, slots, id, dt, m, j) by {
            lemma_matrix_above_reads_ancestors(tree, cur, slots, c, dt, own, j);
            lemma_matrix_above_from_child(tree, slots, id, k as int, dt, m, j);
        }
        assert forall|j: nat| j < tree.len() implies #[trigger] first[j as int] == if j == id
            || below_first(tree, id, k + 1, j) {
            Some(entity_after(tree, slots, id, dt, m, j))
        } else {
            slots[j as int]
        } by {
            if below(tree, c, j) {
                lemma_next_child_is_fresh(tree, id, k, j);
                assert(matrix_above(tree, cur, c, dt, own, j) == matrix_above(
                    tree,
                    slots,
                    id,
                    dt,
                    m,
                    j,
                ));
            } else {
                if below_first(tree, id, k + 1, j) {
                    let i = choose|i: int|
                        0 <= i < k + 1 && i < tree[id as int].len() && below(
                            tree,
                            #[trigger] tree[id as int][i],
                            j,
                        );
                    assert(i < k);
                    assert(below_first(tree, id, k, j));
                }
                if below_first(tree, id, k, j) {
                    let i = choose|i: int|
                        0 <= i < k && i < tree[id as int].len() && below(
                            tree,
                            #[trigger] tree[id as int][i],
                            j,
                        );
                    assert(below_first(tree, id, k + 1, j));
                }
            }
        }
        lemma_visit_children_by_node(tree, slots, first, id, k + 1, dt, m);
        let (after, more) = visit_children(tree, first, id, k + 1, dt, own);
        let all = records + more;
        assert forall|r: int| 0 <= r < records.len() implies record_of_node(
            tree,
            slots,
            id,
            dt,
            m,
            #[trigger] records[r],
        ) && below(tree, c, records[r].0) by {
            let j = records[r].0;
            assert(record_of_node(tree, cur, c, dt, own, records[r]));
            lemma_next_child_is_fresh(tree, id, k, j);
            assert(matrix_above(tree, cur, c, dt, own, j) == matrix_above(
                tree,
                slots,
                id,
                dt,
                m,
                j,
            ));
        }
        assert forall|r: int| 0 <= r < all.len() implies record_of_node(
            tree,
            slots,
            id,
            dt,
            m,
            #[trigger] all[r],
        ) && below_from(tree, id, k, all[r].0) by {
            if r < records.len() {
                assert(all[r] == records[r]);
                assert(record_of_node(tree, slots, id, dt, m, records[r]));
                lemma_next_child_is_fresh(tree, id, k, records[r].0);
            } else {
                assert(all[r] == more[r - records.len()]);
                let j = more[r - records.len()].0;
                let i = choose|i: int|
                    k + 1 <= i < tree[id as int].len() && below(
                        tree,
                        #[trigger] tree[id as int][i],
                        j,
                    );
                assert(below_from(tree, id, k, j));
            }
        }
        assert forall|j: nat|
            j < slots.len() && below_from(tree, id, k, j) && drawn_after(
                tree,
                slots,
                id,
                dt,
                m,
                j,
            ) implies #[trigger] recorded(all, j) by {
            lemma_below_from_splits(tree, id, k, j);
            if below(tree, c, j) {
                lemma_next_child_is_fresh(tree, id, k, j);
                assert(matrix_above(tree, cur, c, dt, own, j) == matrix_above(
                    tree,
                    slots,
                    id,
                    dt,
                    m,
                    j,
                ));
                assert(drawn_after(tree, cur, c, dt, own, j));
                assert(recorded(records, j));
                let r = choose|r: int| 0 <= r < records.len() && (#[trigger] records[r]).0 == j;
                assert(all[r] == records[r]);
            } else {
                assert(recorded(more, j));
                let r = choose|r: int| 0 <= r < more.len() && (#[trigger] more[r]).0 == j;
                assert(all[r + records.len()] == more[r]);
            }
        }
        assert forall|r: int, q: int| 0 <= r < q < all.len() implies (#[trigger] all[r]).0 != (
        #[trigger] all[q]).0 by {
            if q < records.len() {
                assert(all[r] == records[r] && all[q] == records[q]);
            } else if r >= records.len() {
                assert(all[r] == more[r - records.len()] && all[q] == more[q - records.len()]);
            } else {
                assert(all[r] == records[r] && all[q] == more[q - records.len()]);
                assert(below(tree, c, records[r].0));
                lemma_next_child_is_fresh(tree, id, k, records[r].0);
            }
        }
    }
}

} // verus!
