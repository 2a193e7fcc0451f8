//! Entity rows as the database returns them, and the forest of entity
//! closures that is built from them: every entity without an owner is a root,
//! and the children of an entity are the entities whose owner it is.
use vstd::prelude::*;

use crate::util::copy_opt_string;
use crate::util::entity_tree::{
    lemma_node_ids_contains,
    lemma_preorder_closed,
    lemma_preorder_has_roots,
    node_ids,
    preorder,
    EntityNode,
};

verus! {

/// A row of the `entity` table.
#[derive(Clone, Debug)]
pub struct EntityTable {
    pub entity_id: u32,
    pub user_id: u32,
    pub tag_uid: Option<String>,
    pub name: String,
    pub parent_id: Option<u32>,
}

/// A row of the `entity` table joined with the name of its owner entity.
#[derive(Clone, Debug)]
pub struct EntityRich {
    pub entity_id: u32,
    pub user_id: u32,
    pub tag_uid: Option<String>,
    pub name: String,
    pub parent_id: Option<u32>,
    pub parent_name: Option<String>,
}

/// An entity together with all the entities that it (transitively) owns.
#[derive(Debug)]
pub struct EntityClosure {
    pub entity_id: u32,
    pub user_id: u32,
    pub tag_uid: Option<String>,
    pub name: String,
    pub parent_id: Option<u32>,
    pub parent_name: Option<String>,
    pub children: Vec<EntityClosure>,
}

// ---------------------------------------------------------------------------
// The model: rows are read as a map from id to row, in which a later row with
// the same id replaces an earlier one, and ids keep the order in which they
// first occur.
// ---------------------------------------------------------------------------
/// The map from entity id to row; a later row with an id overrides an earlier one.
pub open spec fn row_table(rows: Seq<EntityRich>) -> Map<u32, EntityRich>
    decreases rows.len(),
{
    if rows.len() == 0 {
        Map::empty()
    } else {
        row_table(rows.drop_last()).insert(rows.last().entity_id, rows.last())
    }
}

/// The distinct ids of the rows, in the order of their first occurrence.
pub open spec fn row_ids(rows: Seq<EntityRich>) -> Seq<u32>
    decreases rows.len(),
{
    if rows.len() == 0 {
        Seq::empty()
    } else {
        let earlier = row_ids(rows.drop_last());
        if earlier.contains(rows.last().entity_id) {
            earlier
        } else {
            earlier.push(rows.last().entity_id)
        }
    }
}

/// The ids (in the given order) whose row names `parent` as its owner;
/// `parent == None` selects the entities without an owner.
pub open spec fn ids_with_parent(
    ids: Seq<u32>,
    tbl: Map<u32, EntityRich>,
    parent: Option<u32>,
) -> Seq<u32>
    decreases ids.len(),
{
    if ids.len() == 0 {
        Seq::empty()
    } else {
        let earlier = ids_with_parent(ids.drop_last(), tbl, parent);
        if tbl[ids.last()].parent_id == parent {
            earlier.push(ids.last())
        } else {
            earlier
        }
    }
}

/// The model of a closure: its entity's fields and the models of the
/// closures below it.
pub open spec fn closure_node(c: EntityClosure) -> EntityNode
    decreases c,
{
    EntityNode {
        id: c.entity_id,
        user_id: c.user_id,
        tag_uid: c.tag_uid,
        name: c.name,
        parent_id: c.parent_id,
        parent_name: c.parent_name,
        children: Seq::new(
            c.children@.len(),
            |i: int|
                if 0 <= i < c.children@.len() {
                    closure_node(c.children@[i])
                } else {
                    arbitrary()
                },
        ),
    }
}

impl View for EntityClosure {
    type V = EntityNode;

    open spec fn view(&self) -> EntityNode {
        closure_node(*self)
    }
}

/// The models of a sequence of closures.
pub open spec fn closure_nodes(s: Seq<EntityClosure>) -> Seq<EntityNode> {
    Seq::new(s.len(), |i: int| s[i]@)
}

/// The model of a closure's children is the sequence of the children's models.
pub proof fn lemma_closure_children(c: EntityClosure)
    ensures
        c@.children == closure_nodes(c.children@),
{
    assert(c@.children =~= closure_nodes(c.children@));
}

/// The node carries exactly the fields of the row.
pub open spec fn node_matches_row(n: EntityNode, r: EntityRich) -> bool {
    &&& n.id == r.entity_id
    &&& n.user_id == r.user_id
    &&& n.tag_uid == r.tag_uid
    &&& n.name == r.name
    &&& n.parent_id == r.parent_id
    &&& n.parent_name == r.parent_name
}

/// `n` is the closure of its entity in the table: its fields are those of the
/// entity's row, its children are exactly the entities owned by it (in the
/// order of `ids`), and each child is itself such a closure.
pub open spec fn node_built(ids: Seq<u32>, tbl: Map<u32, EntityRich>, n: EntityNode) -> bool
    decreases n,
{
    &&& tbl.contains_key(n.id)
    &&& node_matches_row(n, tbl[n.id])
    &&& node_ids(n.children) == ids_with_parent(ids, tbl, Some(n.id))
    &&& forall|i: int|
        #![trigger n.children[i]]
        0 <= i < n.children.len() ==> node_built(ids, tbl, n.children[i])
}

/// Each node of the sequence is built from the table.
pub open spec fn all_built(ids: Seq<u32>, tbl: Map<u32, EntityRich>, s: Seq<EntityNode>) -> bool {
    forall|i: int| 0 <= i < s.len() ==> #[trigger] node_built(ids, tbl, s[i])
}

/// The children of a built node are built.
pub proof fn lemma_node_built_children(ids: Seq<u32>, tbl: Map<u32, EntityRich>, n: EntityNode)
    requires
        node_built(ids, tbl, n),
    ensures
        all_built(ids, tbl, n.children),
{
    assert forall|i: int| 0 <= i < n.children.len() implies #[trigger] node_built(
        ids,
        tbl,
        n.children[i],
    ) by {
        assert(decreases_to!(n => n.children));
        assert(decreases_to!(n => n.children[i]));
    }
}

/// `f` is the forest of the rows: its roots are the entities without an owner
/// (in the order in which ids first occur) and each tree is built from the
/// rows' table.
pub open spec fn forest_built(rows: Seq<EntityRich>, f: Seq<EntityNode>) -> bool {
    &&& node_ids(f) == ids_with_parent(row_ids(rows), row_table(rows), None)
    &&& all_built(row_ids(rows), row_table(rows), f)
}

/// A node is built from the table when its own fields and children ids are
/// right and each child is built.
pub proof fn lemma_node_built_intro(ids: Seq<u32>, tbl: Map<u32, EntityRich>, n: EntityNode)
    requires
        tbl.contains_key(n.id),
        node_matches_row(n, tbl[n.id]),
        node_ids(n.children) == ids_with_parent(ids, tbl, Some(n.id)),
        all_built(ids, tbl, n.children),
    ensures
        node_built(ids, tbl, n),
{
    assert forall|i: int| 0 <= i < n.children.len() implies node_built(
        ids,
        tbl,
        #[trigger] n.children[i],
    ) && decreases_to!(n => n.children[i]) by {
        assert(decreases_to!(n => n.children));
    }
}

// ---------------------------------------------------------------------------
// Facts about the model.
// ---------------------------------------------------------------------------
/// The ids are distinct and are exactly the keys of the table.
pub proof fn lemma_row_ids(rows: Seq<EntityRich>)
    ensures
        row_ids(rows).no_duplicates(),
        forall|k: u32| #[trigger] row_table(rows).contains_key(k) <==> row_ids(rows).contains(k),
    decreases rows.len(),
{
    if rows.len() > 0 {
        lemma_row_ids(rows.drop_last());
        let earlier = row_ids(rows.drop_last());
        let id = rows.last().entity_id;
        assert forall|k: u32| #[trigger] row_table(rows).contains_key(k) <==> (row_table(
            rows.drop_last(),
        ).contains_key(k) || k == id) by {}
        if !earlier.contains(id) {
            assert forall|k: u32| row_ids(rows).contains(k) <==> (earlier.contains(k) || k == id) by {
                if earlier.contains(k) {
                    let j = choose|j: int| 0 <= j < earlier.len() && earlier[j] == k;
                    assert(row_ids(rows)[j] == k);
                }
                if k == id {
                    assert(row_ids(rows)[earlier.len() as int] == k);
                }
            }
        }
    }
}

/// `ids_with_parent` keeps the order of `ids` and selects exactly the ids
/// whose owner is `parent`.
pub proof fn lemma_ids_with_parent(ids: Seq<u32>, tbl: Map<u32, EntityRich>, parent: Option<u32>)
    ensures
        forall|k: u32|
            #[trigger] ids_with_parent(ids, tbl, parent).contains(k) <==> (ids.contains(k)
                && tbl[k].parent_id == parent),
        ids.no_duplicates() ==> ids_with_parent(ids, tbl, parent).no_duplicates(),
        ids_with_parent(ids, tbl, parent).len() <= ids.len(),
    decreases ids.len(),
{
    if ids.len() > 0 {
        let earlier_ids = ids.drop_last();
        lemma_ids_with_parent(earlier_ids, tbl, parent);
        let earlier = ids_with_parent(earlier_ids, tbl, parent);
        let r = ids_with_parent(ids, tbl, parent);
        assert forall|k: u32| ids.contains(k) <==> (earlier_ids.contains(k) || k == ids.last()) by {
            if ids.contains(k) {
                let j = choose|j: int| 0 <= j < ids.len() && ids[j] == k;
                if j < ids.len() - 1 {
                    assert(earlier_ids[j] == k);
                }
            }
            if earlier_ids.contains(k) {
                let j = choose|j: int| 0 <= j < earlier_ids.len() && earlier_ids[j] == k;
                assert(ids[j] == k);
            }
        }
        assert forall|k: u32| r.contains(k) <==> (earlier.contains(k) || (k == ids.last()
            && tbl[k].parent_id == parent)) by {
            if tbl[ids.last()].parent_id == parent {
                if earlier.contains(k) {
                    let j = choose|j: int| 0 <= j < earlier.len() && earlier[j] == k;
                    assert(r[j] == k);
                }
                if k == ids.last() {
                    assert(r[earlier.len() as int] == k);
                }
            }
        }
        if ids.no_duplicates() {
            assert(earlier_ids.no_duplicates());
            assert(!earlier_ids.contains(ids.last()));
            assert(!earlier.contains(ids.last()));
        }
    }
}

/// `path` goes down from an entity that is on no cycle of owners: each
/// entity after the first is in the table and owned by the one before it,
/// and no entity repeats.  (The first entity need not be in the table.)
pub open spec fn descent(tbl: Map<u32, EntityRich>, path: Seq<u32>) -> bool {
    &&& path.len() > 0
    &&& path.no_duplicates()
    &&& forall|i: int| 0 < i < path.len() ==> #[trigger] tbl.contains_key(path[i])
    &&& forall|i: int| 0 < i < path.len() ==> tbl[#[trigger] path[i]].parent_id == Some(path[i - 1])
    &&& !on_owner_cycle(tbl, path[0])
}

/// `x` is a proper descendant of `a`: following owners upward from `x` reaches `a`.
pub open spec fn descends_from(tbl: Map<u32, EntityRich>, x: u32, a: u32) -> bool {
    exists|path: Seq<u32>| path.len() >= 2 && path[0] == x && path.last() == a && owner_path(tbl, path)
}

/// An entity without an owner, or whose owner is not in the table, is on no
/// cycle of owners.
pub proof fn lemma_top_not_on_cycle(tbl: Map<u32, EntityRich>, c: u32)
    requires
        tbl.contains_key(c),
        match tbl[c].parent_id {
            None => true,
            Some(k) => !tbl.contains_key(k),
        },
    ensures
        !on_owner_cycle(tbl, c),
{
    if on_owner_cycle(tbl, c) {
        let path = choose|path: Seq<u32>|
            path.len() >= 2 && path[0] == c && path.last() == c && owner_path(tbl, path);
        assert(owned_by_next(tbl, path, 0));
        if path.len() > 2 {
            assert(owned_by_next(tbl, path, 1));
        }
    }
}

/// When an entity is on a cycle of owners, so is its owner.
pub proof fn lemma_cycle_reaches_owner(tbl: Map<u32, EntityRich>, x: u32, p: u32)
    requires
        tbl.contains_key(x),
        tbl[x].parent_id == Some(p),
        on_owner_cycle(tbl, x),
    ensures
        on_owner_cycle(tbl, p),
{
    let c = choose|path: Seq<u32>|
        path.len() >= 2 && path[0] == x && path.last() == x && owner_path(tbl, path);
    assert(owned_by_next(tbl, c, 0));
    let n = c.len();
    let q = c.subrange(1, n as int).push(p);
    assert forall|i: int| 0 <= i < q.len() - 1 implies #[trigger] owned_by_next(tbl, q, i) by {
        if i < n - 2 {
            assert(owned_by_next(tbl, c, i + 1));
        } else {
            assert(q[i] == x);
        }
    }
    assert(q.len() >= 2 && q[0] == p && q.last() == p && owner_path(tbl, q));
}

/// A path of distinct ids drawn from a sequence is no longer than the
/// sequence.
pub proof fn lemma_distinct_subseq_len(path: Seq<u32>, ids: Seq<u32>)
    requires
        path.no_duplicates(),
        forall|i: int| 0 <= i < path.len() ==> ids.contains(#[trigger] path[i]),
    ensures
        path.len() <= ids.len(),
{
    path.unique_seq_to_set();
    ids.lemma_cardinality_of_set();
    assert(path.to_set().subset_of(ids.to_set())) by {
        assert forall|x: u32| path.to_set().contains(x) implies ids.to_set().contains(x) by {
            let i = choose|i: int| 0 <= i < path.len() && path[i] == x;
            assert(ids.contains(path[i]));
        }
    }
    vstd::set_lib::lemma_len_subset(path.to_set(), ids.to_set());
}

/// The entity at position `i` of the path is in the table and owned by the
/// entity at position `i + 1`.
pub open spec fn owned_by_next(tbl: Map<u32, EntityRich>, path: Seq<u32>, i: int) -> bool {
    tbl.contains_key(path[i]) && tbl[path[i]].parent_id == Some(path[i + 1])
}

/// `path` follows owners upward: each entity but the last is owned by the next.
pub open spec fn owner_path(tbl: Map<u32, EntityRich>, path: Seq<u32>) -> bool {
    forall|i: int| 0 <= i < path.len() - 1 ==> #[trigger] owned_by_next(tbl, path, i)
}

/// Following owners upward from `x` comes back to `x`.
pub open spec fn on_owner_cycle(tbl: Map<u32, EntityRich>, x: u32) -> bool {
    exists|path: Seq<u32>| path.len() >= 2 && path[0] == x && path.last() == x && owner_path(tbl, path)
}

/// Every node in the preorder of a built forest is built.
pub proof fn lemma_preorder_built(ids: Seq<u32>, tbl: Map<u32, EntityRich>, s: Seq<EntityNode>, x: EntityNode)
    requires
        all_built(ids, tbl, s),
        preorder(s).contains(x),
    ensures
        node_built(ids, tbl, x),
    decreases s,
{
    let rest = s.subrange(1, s.len() as int);
    let a = preorder(s[0].children);
    let b = preorder(rest);
    assert(preorder(s) == seq![s[0]] + a + b);
    let k = choose|k: int| 0 <= k < preorder(s).len() && preorder(s)[k] == x;
    if k == 0 {
        assert(node_built(ids, tbl, s[0]));
    } else if k < 1 + a.len() {
        assert(a[k - 1] == x);
        assert(node_built(ids, tbl, s[0]));
        lemma_node_built_children(ids, tbl, s[0]);
        assert(decreases_to!(s => s[0].children)) by {
            assert(decreases_to!(s => s[0]));
        }
        lemma_preorder_built(ids, tbl, s[0].children, x);
    } else {
        assert(b[k - 1 - a.len()] == x);
        assert forall|i: int| 0 <= i < rest.len() implies #[trigger] node_built(ids, tbl, rest[i]) by {
            assert(rest[i] == s[i + 1]);
        }
        lemma_preorder_built(ids, tbl, rest, x);
    }
}

/// Every entity whose owners lead up to a built node is below that node:
/// its id is among the ids of the preorder of the node's children.
pub proof fn lemma_owned_below(ids: Seq<u32>, tbl: Map<u32, EntityRich>, n: EntityNode, q: Seq<u32>)
    requires
        node_built(ids, tbl, n),
        forall|k: u32| tbl.contains_key(k) ==> #[trigger] ids.contains(k),
        q.len() >= 2,
        q.last() == n.id,
        owner_path(tbl, q),
    ensures
        node_ids(preorder(n.children)).contains(q[0]),
    decreases q.len(),
{
    assert(owned_by_next(tbl, q, 0));
    if q.len() == 2 {
        let x = q[0];
        lemma_ids_with_parent(ids, tbl, Some(n.id));
        assert(ids.contains(x));
        assert(node_ids(n.children).contains(x));
        lemma_node_ids_contains(n.children, x);
        let j = choose|j: int| 0 <= j < n.children.len() && #[trigger] n.children[j].id == x;
        lemma_preorder_has_roots(n.children);
        assert(preorder(n.children).contains(n.children[j]));
        let m = choose|m: int|
            0 <= m < preorder(n.children).len() && preorder(n.children)[m] == n.children[j];
        assert(node_ids(preorder(n.children))[m] == x);
    } else {
        let q1 = q.drop_first();
        assert forall|i: int| 0 <= i < q1.len() - 1 implies #[trigger] owned_by_next(tbl, q1, i) by {
            assert(owned_by_next(tbl, q, i + 1));
        }
        lemma_owned_below(ids, tbl, n, q1);
        let p = preorder(n.children);
        lemma_node_ids_contains(p, q[1]);
        let j = choose|j: int| 0 <= j < p.len() && #[trigger] p[j].id == q[1];
        let d = p[j];
        assert(p.contains(d));
        lemma_node_built_children(ids, tbl, n);
        lemma_preorder_built(ids, tbl, n.children, d);
        let q2 = seq![q[0], q[1]];
        assert(owned_by_next(tbl, q2, 0));
        lemma_owned_below(ids, tbl, d, q2);
        lemma_node_ids_contains(preorder(d.children), q[0]);
        let k = choose|k: int|
            0 <= k < preorder(d.children).len() && #[trigger] preorder(d.children)[k].id == q[0];
        assert(preorder(d.children).contains(preorder(d.children)[k]));
        lemma_preorder_closed(n.children, d, preorder(d.children)[k]);
        lemma_node_ids_contains(p, q[0]);
        let m = choose|m: int| 0 <= m < p.len() && p[m] == preorder(d.children)[k];
        assert(p[m].id == q[0]);
    }
}

/// Following owners upward from `x` ends at an entity of the table that has
/// no owner.
pub open spec fn rooted(tbl: Map<u32, EntityRich>, x: u32) -> bool {
    exists|path: Seq<u32>|
        path.len() >= 1 && path[0] == x && owner_path(tbl, path) && tbl.contains_key(path.last())
            && tbl[path.last()].parent_id is None
}

/// A node of the preorder of a forest is one of its trees or lies below one
/// of them.
pub proof fn lemma_preorder_member(s: Seq<EntityNode>, d: EntityNode) -> (j: int)
    requires
        preorder(s).contains(d),
    ensures
        0 <= j < s.len(),
        d == s[j] || preorder(s[j].children).contains(d),
    decreases s.len(),
{
    let rest = s.subrange(1, s.len() as int);
    let a = preorder(s[0].children);
    let b = preorder(rest);
    assert(preorder(s) == seq![s[0]] + a + b);
    let k = choose|k: int| 0 <= k < preorder(s).len() && preorder(s)[k] == d;
    if k == 0 {
        0
    } else if k < 1 + a.len() {
        assert(a[k - 1] == d);
        0
    } else {
        assert(b[k - 1 - a.len()] == d);
        let j = lemma_preorder_member(rest, d);
        assert(rest[j] == s[j + 1]);
        j + 1
    }
}

/// Every node below the trees of a built forest whose trees are all owned by
/// `p` has owners leading up to `p`.
pub proof fn lemma_below_has_owner_path(
    ids: Seq<u32>,
    tbl: Map<u32, EntityRich>,
    s: Seq<EntityNode>,
    p: u32,
    d: EntityNode,
) -> (path: Seq<u32>)
    requires
        all_built(ids, tbl, s),
        forall|i: int| 0 <= i < s.len() ==> tbl[(#[trigger] s[i]).id].parent_id == Some(p),
        preorder(s).contains(d),
    ensures
        path.len() >= 2,
        path[0] == d.id,
        path.last() == p,
        owner_path(tbl, path),
    decreases s,
{
    let j = lemma_preorder_member(s, d);
    let t = s[j];
    assert(node_built(ids, tbl, t));
    if d == t {
        let path = seq![d.id, p];
        assert(owned_by_next(tbl, path, 0));
        path
    } else {
        lemma_node_built_children(ids, tbl, t);
        lemma_ids_with_parent(ids, tbl, Some(t.id));
        assert forall|i: int| 0 <= i < t.children.len() implies tbl[(
        #[trigger] t.children[i]).id].parent_id == Some(t.id) by {
            assert(node_ids(t.children)[i] == t.children[i].id);
            assert(ids_with_parent(ids, tbl, Some(t.id)).contains(t.children[i].id));
        }
        assert(decreases_to!(s => t.children)) by {
            assert(decreases_to!(s => s[j]));
        }
        let inner = lemma_below_has_owner_path(ids, tbl, t.children, t.id, d);
        let path = inner.push(p);
        assert forall|i: int| 0 <= i < path.len() - 1 implies #[trigger] owned_by_next(tbl, path, i) by {
            if i < inner.len() - 1 {
                assert(owned_by_next(tbl, inner, i));
            } else {
                assert(path[i] == t.id);
            }
        }
        path
    }
}

// ---------------------------------------------------------------------------
// Executable code.
// ---------------------------------------------------------------------------
/// A copy of a row that is equal to it.
fn copy_row(r: &EntityRich) -> (c: EntityRich)
    ensures
        c == *r,
{
    EntityRich {
        entity_id: r.entity_id,
        user_id: r.user_id,
        tag_uid: copy_opt_string(&r.tag_uid),
        name: r.name.clone(),
        parent_id: r.parent_id,
        parent_name: copy_opt_string(&r.parent_name),
    }
}

/// The position of the row with the given id, if there is one.
fn position_of(rows: &Vec<EntityRich>, id: u32) -> (p: Option<usize>)
    ensures
        match p {
            Some(j) => j < rows.len() && rows@[j as int].entity_id == id,
            None => forall|j: int| 0 <= j < rows.len() ==> rows@[j].entity_id != id,
        },
{
    let mut j: usize = 0;
    while j < rows.len()
        invariant
            j <= rows.len(),
            forall|k: int| 0 <= k < j ==> rows@[k].entity_id != id,
        decreases rows.len() - j,
    {
        if rows[j].entity_id == id {
            return Some(j);
        }
        j = j + 1;
    }
    None
}

/// The rows keyed by id: one row per distinct id, in the order in which the
/// ids first occur, each being the last row with that id.
pub fn unique_rows(rows: &Vec<EntityRich>) -> (u: Vec<EntityRich>)
    ensures
        rows_ids(u@) == row_ids(rows@),
        forall|i: int| 0 <= i < u.len() ==> #[trigger] u@[i] == row_table(rows@)[u@[i].entity_id],
{
    let mut u: Vec<EntityRich> = Vec::new();
    let mut i: usize = 0;
    while i < rows.len()
        invariant
            i <= rows.len(),
            rows_ids(u@) == row_ids(rows@.take(i as int)),
            forall|j: int|
                0 <= j < u.len() ==> #[trigger] u@[j] == row_table(rows@.take(i as int))[u@[j].entity_id],
        decreases rows.len() - i,
    {
        let ghost before = u@;
        assert(rows@.take(i + 1).drop_last() == rows@.take(i as int));
        let row = copy_row(&rows[i]);
        let id = row.entity_id;
        assert(row_table(rows@.take(i + 1)) == row_table(rows@.take(i as int)).insert(id, row));
        match position_of(&u, id) {
            Some(j) => {
                proof {
                    lemma_row_ids(rows@.take(i as int));
                }
                u.set(j, row);
                assert forall|k: int| 0 <= k < u.len() && k != j implies u@[k].entity_id != id by {
                    assert(rows_ids(before)[k] == before[k].entity_id);
                    assert(rows_ids(before)[j as int] == before[j as int].entity_id);
                }
                assert(rows_ids(u@) == rows_ids(before));
                assert(row_ids(rows@.take(i as int)).contains(id)) by {
                    assert(rows_ids(before)[j as int] == id);
                }
            },
            None => {
                u.push(row);
                assert(!row_ids(rows@.take(i as int)).contains(id)) by {
                    if row_ids(rows@.take(i as int)).contains(id) {
                        let k = choose|k: int|
                            0 <= k < before.len() && rows_ids(before)[k] == id;
                        assert(before[k].entity_id == id);
                    }
                }
                assert(rows_ids(u@) == rows_ids(before).push(id));
            },
        }
        i = i + 1;
    }
    assert(rows@.take(rows.len() as int) == rows@);
    u
}

/// Each row is the table's entry for its id.
pub open spec fn rows_in_table(u: Seq<EntityRich>, tbl: Map<u32, EntityRich>) -> bool {
    forall|i: int|
        0 <= i < u.len() ==> tbl.contains_key(#[trigger] u[i].entity_id) && tbl[u[i].entity_id]
            == u[i]
}

/// A copy of a row as a closure with the given children.
fn closure_of_row(r: &EntityRich, children: Vec<EntityClosure>) -> (c: EntityClosure)
    ensures
        node_matches_row(c@, *r),
        c.entity_id == r.entity_id,
        c.user_id == r.user_id,
        c.tag_uid == r.tag_uid,
        c.name == r.name,
        c.parent_id == r.parent_id,
        c.parent_name == r.parent_name,
        c.children == children,
{
    EntityClosure {
        entity_id: r.entity_id,
        user_id: r.user_id,
        tag_uid: copy_opt_string(&r.tag_uid),
        name: r.name.clone(),
        parent_id: r.parent_id,
        parent_name: copy_opt_string(&r.parent_name),
        children,
    }
}

/// The closures of the entities owned by `entity_id`, built over the rows `u`
/// (distinct ids, the entries of `tbl`); `path` is the descent that leads to
/// `entity_id` and bounds the depth of the recursion.
fn closures_owned_by(
    entity_id: u32,
    u: &Vec<EntityRich>,
    Ghost(tbl): Ghost<Map<u32, EntityRich>>,
    Ghost(path): Ghost<Seq<u32>>,
) -> (r: Vec<EntityClosure>)
    requires
        rows_ids(u@).no_duplicates(),
        rows_in_table(u@, tbl),
        forall|k: u32| tbl.contains_key(k) ==> #[trigger] rows_ids(u@).contains(k),
        descent(tbl, path),
        path.last() == entity_id,
    ensures
        node_ids(closure_nodes(r@)) == ids_with_parent(rows_ids(u@), tbl, Some(entity_id)),
        all_built(rows_ids(u@), tbl, closure_nodes(r@)),
    decreases u.len() + 1 - path.len(),
{
    let ghost ids = rows_ids(u@);
    proof {
        assert forall|i: int| 0 <= i < path.drop_first().len() implies ids.contains(
            #[trigger] path.drop_first()[i],
        ) by {
            assert(tbl.contains_key(path[i + 1]));
        }
        lemma_distinct_subseq_len(path.drop_first(), ids);
    }
    let mut r: Vec<EntityClosure> = Vec::new();
    let mut j: usize = 0;
    while j < u.len()
        invariant
            j <= u.len(),
            ids == rows_ids(u@),
            ids.no_duplicates(),
            rows_in_table(u@, tbl),
            forall|k: u32| tbl.contains_key(k) ==> #[trigger] ids.contains(k),
            descent(tbl, path),
            path.last() == entity_id,
            path.len() <= u.len() + 1,
            node_ids(closure_nodes(r@)) == ids_with_parent(ids.take(j as int), tbl, Some(entity_id)),
            all_built(ids, tbl, closure_nodes(r@)),
        decreases u.len() - j,
    {
        let ghost before = r@;
        assert(ids.take(j + 1).drop_last() == ids.take(j as int));
        assert(ids.take(j + 1).last() == u@[j as int].entity_id);
        if u[j].parent_id == Some(entity_id) {
            let c = u[j].entity_id;
            assert(tbl.contains_key(c) && tbl[c] == u@[j as int]);
            let ghost next = path.push(c);
            assert(!path.contains(c)) by {
                if path.contains(c) {
                    let k = choose|k: int| 0 <= k < path.len() && path[k] == c;
                    let n = path.len() as int;
                    if k == 0 {
                        // `c` would be the first entity, owned by the last one: a cycle.
                        let cyc = Seq::new(
                            (n + 1) as nat,
                            |i: int|
                                if i == 0 {
                                    c
                                } else {
                                    path[n - i]
                                },
                        );
                        assert forall|i: int| 0 <= i < cyc.len() - 1 implies #[trigger] owned_by_next(
                            tbl,
                            cyc,
                            i,
                        ) by {
                            if i > 0 {
                                assert(tbl.contains_key(path[n - i]));
                                assert(tbl[path[n - i]].parent_id == Some(path[n - i - 1]));
                            }
                        }
                        assert(cyc.len() >= 2 && cyc[0] == path[0] && cyc.last() == path[0]
                            && owner_path(tbl, cyc));
                    } else {
                        assert(tbl[path[k]].parent_id == Some(path[k - 1]));
                        assert(path[k - 1] == path[path.len() - 1]);
                    }
                }
            }
            assert(descent(tbl, next)) by {
                assert(forall|i: int| 0 <= i < path.len() ==> next[i] == path[i]);
                assert(tbl.contains_key(c));
            }
            proof {
                assert forall|i: int| 0 <= i < next.drop_first().len() implies ids.contains(
                    #[trigger] next.drop_first()[i],
                ) by {
                    assert(tbl.contains_key(next[i + 1]));
                }
                lemma_distinct_subseq_len(next.drop_first(), ids);
            }
            let children = closures_owned_by(c, u, Ghost(tbl), Ghost(next));
            let node = closure_of_row(&u[j], children);
            proof {
                lemma_closure_children(node);
                lemma_node_built_intro(ids, tbl, node@);
            }
            r.push(node);
            assert(closure_nodes(r@) == closure_nodes(before).push(node@));
            assert(node_ids(closure_nodes(r@)) == node_ids(closure_nodes(before)).push(c));
        } else {
            assert(r@ == before);
        }
        j = j + 1;
    }
    assert(ids.take(u.len() as int) == ids);
    r
}

/// The closures of the entities whose owner is `key` over the rows `u`
/// (distinct ids, the entries of `tbl`), where `key` is no owner or an owner
/// that is not in the table, so that each such entity starts a descent.
fn closures_of_tops(
    u: &Vec<EntityRich>,
    Ghost(tbl): Ghost<Map<u32, EntityRich>>,
    key: Option<u32>,
) -> (r: Vec<EntityClosure>)
    requires
        rows_ids(u@).no_duplicates(),
        rows_in_table(u@, tbl),
        forall|k: u32| tbl.contains_key(k) ==> #[trigger] rows_ids(u@).contains(k),
        key matches Some(k) ==> !tbl.contains_key(k),
    ensures
        node_ids(closure_nodes(r@)) == ids_with_parent(rows_ids(u@), tbl, key),
        all_built(rows_ids(u@), tbl, closure_nodes(r@)),
{
    let ghost ids = rows_ids(u@);
    let mut r: Vec<EntityClosure> = Vec::new();
    let mut j: usize = 0;
    while j < u.len()
        invariant
            j <= u.len(),
            ids == rows_ids(u@),
            ids.no_duplicates(),
            rows_in_table(u@, tbl),
            forall|k: u32| tbl.contains_key(k) ==> #[trigger] ids.contains(k),
            key matches Some(k) ==> !tbl.contains_key(k),
            node_ids(closure_nodes(r@)) == ids_with_parent(ids.take(j as int), tbl, key),
            all_built(ids, tbl, closure_nodes(r@)),
        decreases u.len() - j,
    {
        let ghost before = r@;
        assert(ids.take(j + 1).drop_last() == ids.take(j as int));
        assert(ids.take(j + 1).last() == u@[j as int].entity_id);
        if u[j].parent_id == key {
            let c = u[j].entity_id;
            assert(tbl.contains_key(c) && tbl[c] == u@[j as int]);
            let ghost path = seq![c];
            proof {
                lemma_top_not_on_cycle(tbl, c);
            }
            assert(descent(tbl, path));
            let children = closures_owned_by(c, u, Ghost(tbl), Ghost(path));
            let node = closure_of_row(&u[j], children);
            proof {
                lemma_closure_children(node);
                lemma_node_built_intro(ids, tbl, node@);
            }
            r.push(node);
            assert(closure_nodes(r@) == closure_nodes(before).push(node@));
            assert(node_ids(closure_nodes(r@)) == node_ids(closure_nodes(before)).push(c));
        } else {
            assert(r@ == before);
        }
        j = j + 1;
    }
    assert(ids.take(u.len() as int) == ids);
    r
}

/// At most one distinct id per row.
pub proof fn lemma_row_ids_len(rows: Seq<EntityRich>)
    ensures
        row_ids(rows).len() <= rows.len(),
    decreases rows.len(),
{
    if rows.len() > 0 {
        lemma_row_ids_len(rows.drop_last());
    }
}

/// The closures of the entities that `entity` owns, among `entities` (read
/// as a map from id to row: a later row with an id replaces an earlier one);
/// the children keep the order in which ids first occur.  The entity must
/// not be on a cycle of owners (the entities below it then form a finite
/// tree).  Every proper descendant of the entity appears exactly once, the
/// entity itself never, so there are no more nodes than rows.
pub fn get_children_recursively(entity: &EntityRich, entities: &Vec<EntityRich>) -> (r: Vec<
    EntityClosure,
>)
    requires
        !on_owner_cycle(row_table(entities@), entity.entity_id),
    ensures
        node_ids(closure_nodes(r@)) == ids_with_parent(
            row_ids(entities@),
            row_table(entities@),
            Some(entity.entity_id),
        ),
        all_built(row_ids(entities@), row_table(entities@), closure_nodes(r@)),
        forall|x: u32|
            #[trigger] node_ids(preorder(closure_nodes(r@))).contains(x) <==> descends_from(
                row_table(entities@),
                x,
                entity.entity_id,
            ),
        !node_ids(preorder(closure_nodes(r@))).contains(entity.entity_id),
        node_ids(preorder(closure_nodes(r@))).no_duplicates(),
        preorder(closure_nodes(r@)).len() <= entities.len(),
{
    let ghost tbl = row_table(entities@);
    let u = unique_rows(entities);
    let ghost ids = rows_ids(u@);
    let ghost path = seq![entity.entity_id];
    proof {
        lemma_row_ids(entities@);
        lemma_row_ids_len(entities@);
        assert forall|i: int| 0 <= i < u.len() implies tbl.contains_key(#[trigger] u@[i].entity_id)
            && tbl[u@[i].entity_id] == u@[i] by {
            assert(ids[i] == u@[i].entity_id);
        }
        assert(ids.len() == u.len());
    }
    let r = closures_owned_by(entity.entity_id, &u, Ghost(tbl), Ghost(path));
    proof {
        crate::database::dao::forest_laws::lemma_descendants_once(
            ids,
            tbl,
            closure_nodes(r@),
            entity.entity_id,
        );
    }
    r
}

/// The forest of entity closures built from the rows: one root per entity
/// without an owner, and below each entity the entities that it owns.  Rows
/// are read as a map from id to row (a later row with an id replaces an
/// earlier one); roots and children keep the order in which ids first occur.
pub fn get_entity_closures(entities: Vec<EntityRich>) -> (r: Vec<EntityClosure>)
    ensures
        forest_built(entities@, closure_nodes(r@)),
{
    let ghost tbl = row_table(entities@);
    let u = unique_rows(&entities);
    let ghost ids = rows_ids(u@);
    proof {
        lemma_row_ids(entities@);
        assert forall|i: int| 0 <= i < u.len() implies tbl.contains_key(#[trigger] u@[i].entity_id)
            && tbl[u@[i].entity_id] == u@[i] by {
            assert(ids[i] == u@[i].entity_id);
        }
    }
    closures_of_tops(&u, Ghost(tbl), None)
}

/// The ids of a sequence of rows.
pub open spec fn rows_ids(s: Seq<EntityRich>) -> Seq<u32> {
    s.map_values(|r: EntityRich| r.entity_id)
}

} // verus!
