//! Entities as the service layer hands them out, and the decisions of the
//! entity operations: finding an entity's closure, refusing an owner that
//! would put an entity below itself, and merging a patch into an entity.
use vstd::prelude::*;

use crate::database::dao::entity_dao;
use crate::database::dao::entity_dao::{
    all_built,
    forest_built,
    ids_with_parent,
    lemma_below_has_owner_path,
    lemma_ids_with_parent,
    lemma_node_built_children,
    lemma_owned_below,
    lemma_preorder_built,
    lemma_row_ids,
    on_owner_cycle,
    owned_by_next,
    owner_path,
    row_ids,
    row_table,
    rooted,
    EntityRich,
    EntityTable,
};
use crate::database::dao::forest_laws::{lemma_forest_holds_rooted, lemma_rooted_not_on_cycle};
use crate::services::errors::ServiceError;
use crate::util::entity_tree::{
    first_with_id,
    lemma_node_ids_contains,
    lemma_first_with_id,
    lemma_first_with_id_append,
    lemma_preorder_cons,
    node_ids,
    preorder,
    EntityNode,
};
use crate::util::Maybe;

verus! {

/// The user that all entity operations act for.
pub const USER_ID: u32 = 1;

/// The fields of an entity to create, or to replace those of an entity with.
#[derive(Debug)]
pub struct CreateEntity {
    pub tag_uid: Option<String>,
    pub name: String,
    pub parent_id: Option<u32>,
}

/// A partial update of an entity: a field that is `None` is left alone.
#[derive(Debug)]
pub struct PatchEntity {
    pub tag_uid: Option<String>,
    pub name: Option<String>,
    pub parent_id: Option<Maybe<u32>>,
}

/// An entity with the name of its owner.
pub struct Entity {
    pub id: u32,
    pub user_id: u32,
    pub tag_uid: Option<String>,
    pub name: String,
    pub parent_id: Option<u32>,
    pub parent_name: Option<String>,
}

impl Entity {
    /// The entity of a joined row.
    pub fn from_rich_entity(entity: EntityRich) -> (e: Self)
        ensures
            e.id == entity.entity_id,
            e.user_id == entity.user_id,
            e.tag_uid == entity.tag_uid,
            e.name == entity.name,
            e.parent_id == entity.parent_id,
            e.parent_name == entity.parent_name,
    {
        Self {
            id: entity.entity_id,
            user_id: entity.user_id,
            tag_uid: entity.tag_uid,
            name: entity.name,
            parent_id: entity.parent_id,
            parent_name: entity.parent_name,
        }
    }
}

/// An entity together with all the entities that it (transitively) owns.
#[derive(Debug)]
pub struct EntityClosure {
    pub id: u32,
    pub user_id: u32,
    pub tag_uid: Option<String>,
    pub name: String,
    pub parent_id: Option<u32>,
    pub parent_name: Option<String>,
    pub children: Vec<EntityClosure>,
}

/// The model of a closure: its entity's fields and the models of the
/// closures below it.
pub open spec fn service_node(c: EntityClosure) -> EntityNode
    decreases c,
{
    EntityNode {
        id: c.id,
        user_id: c.user_id,
        tag_uid: c.tag_uid,
        name: c.name,
        parent_id: c.parent_id,
        parent_name: c.parent_name,
        children: Seq::new(
            c.children@.len(),
            |i: int|
                if 0 <= i < c.children@.len() {
                    service_node(c.children@[i])
                } else {
                    arbitrary()
                },
        ),
    }
}

impl View for EntityClosure {
    type V = EntityNode;

    open spec fn view(&self) -> EntityNode {
        service_node(*self)
    }
}

/// The models of a sequence of closures.
pub open spec fn service_nodes(s: Seq<EntityClosure>) -> Seq<EntityNode> {
    Seq::new(s.len(), |i: int| s[i]@)
}

/// The model of a closure's children is the sequence of the children's models.
pub proof fn lemma_service_children(c: EntityClosure)
    ensures
        c@.children == service_nodes(c.children@),
{
    assert(c@.children =~= service_nodes(c.children@));
}

impl EntityClosure {
    /// The closure of the service layer with the same entities as the
    /// database layer's closure.
    pub fn from_entity_closure(e: entity_dao::EntityClosure) -> (r: Self)
        ensures
            r@ == e@,
        decreases e,
    {
        let ghost e0 = e;
        let entity_dao::EntityClosure {
            entity_id,
            user_id,
            tag_uid,
            name,
            parent_id,
            parent_name,
            children,
        } = e;
        let ghost orig = children@;
        let mut rest = children;
        let mut out: Vec<Self> = Vec::new();
        while rest.len() > 0
            invariant
                e0 == e,
                orig == e0.children@,
                out.len() <= orig.len(),
                rest@ == orig.subrange(out.len() as int, orig.len() as int),
                forall|k: int| 0 <= k < out.len() ==> #[trigger] out@[k]@ == orig[k]@,
            decreases rest.len(),
        {
            let ghost k = out.len() as int;
            assert(rest@[0] == orig[k]);
            let c = rest.remove(0);
            proof {
                assert(decreases_to!(e0 => e0.children));
                assert(decreases_to!(e0.children => e0.children@));
                assert(decreases_to!(e0.children@ => e0.children@[k]));
                assert(decreases_to!(e0 => c));
            }
            let sc = Self::from_entity_closure(c);
            out.push(sc);
            assert(rest@ == orig.subrange(out.len() as int, orig.len() as int));
        }
        let r = Self { id: entity_id, user_id, tag_uid, name, parent_id, parent_name, children: out };
        proof {
            entity_dao::lemma_closure_children(e0);
            lemma_service_children(r);
            assert(r@.children =~= e0@.children);
        }
        r
    }

    /// The first closure, in preorder over the given forest, of the entity
    /// with the given id; `None` when no entity of the forest has that id.
    pub fn find_entity(entity_closures: Vec<Self>, id: u32) -> (r: Option<Self>)
        ensures
            r matches Some(c) ==> first_with_id(preorder(service_nodes(entity_closures@)), id)
                == Some(c@),
            r is None ==> first_with_id(preorder(service_nodes(entity_closures@)), id) is None,
        decreases entity_closures@,
    {
        let ghost orig = entity_closures@;
        let mut rest = entity_closures;
        while rest.len() > 0
            invariant
                orig == entity_closures@,
                rest.len() <= orig.len(),
                rest@ == orig.subrange(orig.len() - rest.len(), orig.len() as int),
                first_with_id(preorder(service_nodes(orig)), id) == first_with_id(
                    preorder(service_nodes(rest@)),
                    id,
                ),
            decreases rest.len(),
        {
            let ghost before = rest@;
            let ghost k = orig.len() - rest.len();
            assert(before[0] == orig[k]);
            let c = rest.remove(0);
            proof {
                let nodes = service_nodes(before);
                lemma_preorder_cons(nodes);
                assert(nodes[0] == c@);
                assert(nodes.drop_first() =~= service_nodes(rest@));
                lemma_service_children(c);
                let a = seq![c@];
                let b = preorder(c@.children);
                let cc = preorder(service_nodes(rest@));
                assert(a + b + cc == a + (b + cc));
                lemma_first_with_id_append(a, b + cc, id);
                lemma_first_with_id_append(b, cc, id);
                assert(a.subrange(1, 1) =~= Seq::<EntityNode>::empty());
                assert(a[0] == c@);
                assert(first_with_id(a.subrange(1, 1), id) is None);
                assert(first_with_id(a, id) == (if c.id == id {
                    Some(c@)
                } else {
                    None
                }));
                assert(decreases_to!(orig => orig[k]));
                assert(decreases_to!(orig[k] => orig[k].children));
                assert(decreases_to!(orig[k].children => orig[k].children@));
                assert(decreases_to!(orig => c.children@));
            }
            if c.id == id {
                return Some(c);
            }
            let found = Self::find_entity(c.children, id);
            if found.is_some() {
                return found;
            }
            assert(rest@ == orig.subrange(orig.len() - rest.len(), orig.len() as int));
        }
        None
    }
}

/// The closures of the service layer for the forest of the database layer.
pub fn get_entity_closures(entities: Vec<entity_dao::EntityClosure>) -> (r: Vec<EntityClosure>)
    ensures
        service_nodes(r@) == entity_dao::closure_nodes(entities@),
{
    let ghost orig = entities@;
    let mut rest = entities;
    let mut out: Vec<EntityClosure> = Vec::new();
    while rest.len() > 0
        invariant
            out.len() <= orig.len(),
            rest@ == orig.subrange(out.len() as int, orig.len() as int),
            forall|k: int| 0 <= k < out.len() ==> #[trigger] out@[k]@ == orig[k]@,
        decreases rest.len(),
    {
        assert(rest@[0] == orig[out.len() as int]);
        let c = rest.remove(0);
        out.push(EntityClosure::from_entity_closure(c));
        assert(rest@ == orig.subrange(out.len() as int, orig.len() as int));
    }
    assert(service_nodes(out@) =~= entity_dao::closure_nodes(orig));
    out
}

/// The closure of the entity with the given id in the forest of the database
/// layer: the first one in preorder, or `NotFound` when the forest has no
/// entity with that id.
pub fn get_entity_closure(entities: Vec<entity_dao::EntityClosure>, id: u32) -> (r: Result<
    EntityClosure,
    ServiceError,
>)
    ensures
        r matches Ok(c) ==> first_with_id(preorder(entity_dao::closure_nodes(entities@)), id)
            == Some(c@),
        r is Err ==> r == Err::<EntityClosure, ServiceError>(ServiceError::NotFound)
            && first_with_id(preorder(entity_dao::closure_nodes(entities@)), id) is None,
{
    let closures = get_entity_closures(entities);
    match EntityClosure::find_entity(closures, id) {
        Some(c) => Ok(c),
        None => Err(ServiceError::NotFound),
    }
}

/// Whether the entity `entity_id`, whose closure is `existing`, may take
/// `parent_id` as its owner: it may not own itself, nor be owned by an
/// entity below it.
pub fn check_parent_update(existing: EntityClosure, entity_id: u32, parent_id: Option<u32>) -> (r:
    Result<(), ServiceError>)
    ensures
        r is Err <==> (parent_id matches Some(p) && (p == entity_id || node_ids(
            preorder(existing@.children),
        ).contains(p))),
        r is Err ==> r == Err::<(), ServiceError>(ServiceError::CircularReference),
{
    if let Some(update_parent_id) = parent_id {
        if update_parent_id == entity_id {
            return Err(ServiceError::CircularReference);
        }
        let ghost kids = existing@.children;
        proof {
            lemma_service_children(existing);
            lemma_first_with_id(preorder(kids), update_parent_id);
        }
        if let Some(_) = EntityClosure::find_entity(existing.children, update_parent_id) {
            return Err(ServiceError::CircularReference);
        }
    }
    Ok(())
}

/// The fields that a patch leaves an entity with: each field given in the
/// patch replaces the entity's, the others are kept.
pub open spec fn patched(entity: EntityTable, patch: PatchEntity) -> CreateEntity {
    CreateEntity {
        tag_uid: match patch.tag_uid {
            Some(t) => Some(t),
            None => entity.tag_uid,
        },
        name: match patch.name {
            Some(n) => n,
            None => entity.name,
        },
        parent_id: match patch.parent_id {
            Some(m) => m.value,
            None => entity.parent_id,
        },
    }
}

/// The fields that a patch leaves an entity with: each field given in the
/// patch replaces the entity's, the others are kept.
pub fn patched_entity(entity: EntityTable, patch: PatchEntity) -> (update: CreateEntity)
    ensures
        update == patched(entity, patch),
        patch.tag_uid matches Some(t) ==> update.tag_uid == Some(t),
        patch.tag_uid is None ==> update.tag_uid == entity.tag_uid,
        patch.name matches Some(n) ==> update.name == n,
        patch.name is None ==> update.name == entity.name,
        patch.parent_id matches Some(m) ==> update.parent_id == m.value,
        patch.parent_id is None ==> update.parent_id == entity.parent_id,
{
    let mut entity = entity;
    if let Some(tag_uid) = patch.tag_uid {
        entity.tag_uid = Some(tag_uid);
    }
    if let Some(name) = patch.name {
        entity.name = name;
    }
    if let Some(parent_id) = patch.parent_id {
        entity.parent_id = parent_id.value;
    }
    CreateEntity { tag_uid: entity.tag_uid, name: entity.name, parent_id: entity.parent_id }
}

/// Each field of a patch is applied on its own: a field that the patch gives
/// is the result's field whatever the other fields of the patch are, and a
/// field that the patch leaves out keeps the entity's value.
pub proof fn lemma_patch_fields_independent(entity: EntityTable, patch: PatchEntity)
    ensures
        patch.tag_uid matches Some(t) ==> patched(entity, patch).tag_uid == Some(t),
        patch.tag_uid is None ==> patched(entity, patch).tag_uid == entity.tag_uid,
        patch.name matches Some(n) ==> patched(entity, patch).name == n,
        patch.name is None ==> patched(entity, patch).name == entity.name,
        patch.parent_id matches Some(m) ==> patched(entity, patch).parent_id == m.value,
        patch.parent_id is None ==> patched(entity, patch).parent_id == entity.parent_id,
{
}

/// Two patches that give the same value for a field give results that agree
/// on that field, whatever else either patch holds or the entity was.
pub proof fn lemma_patch_field_agrees(
    e1: EntityTable,
    p1: PatchEntity,
    e2: EntityTable,
    p2: PatchEntity,
)
    ensures
        p1.tag_uid is Some && p1.tag_uid == p2.tag_uid ==> patched(e1, p1).tag_uid == patched(
            e2,
            p2,
        ).tag_uid,
        p1.name is Some && p1.name == p2.name ==> patched(e1, p1).name == patched(e2, p2).name,
        p1.parent_id is Some && p1.parent_id == p2.parent_id ==> patched(e1, p1).parent_id
            == patched(e2, p2).parent_id,
{
    lemma_patch_fields_independent(e1, p1);
    lemma_patch_fields_independent(e2, p2);
}

/// Within `s`, from position `j` on, there is a first position that holds
/// `x`, provided the last one does.
proof fn lemma_first_occurrence(s: Seq<u32>, x: u32, j: int) -> (m: int)
    requires
        0 <= j < s.len(),
        s.last() == x,
    ensures
        j <= m < s.len(),
        s[m] == x,
        forall|k: int| j <= k < m ==> s[k] != x,
    decreases s.len() - j,
{
    if s[j] == x {
        j
    } else {
        lemma_first_occurrence(s, x, j + 1)
    }
}

/// An owner that the update check accepts creates no cycle of owners.
///
/// Let `forest` be the forest built from `rows`, `existing` the closure of
/// entity `e` found in it, and `new_parent` an owner that the check accepts
/// (no owner, or an entity that is neither `e` nor below `e`).  In any table
/// that differs from the rows' table only in the owner of `e`, which is now
/// `new_parent`, following owners from `e` never leads back to `e`, and every
/// cycle of owners was already a cycle before.
pub proof fn lemma_accepted_owner_creates_no_cycle(
    rows: Seq<EntityRich>,
    forest: Seq<EntityNode>,
    e: u32,
    existing: EntityNode,
    new_parent: Option<u32>,
    updated: Map<u32, EntityRich>,
)
    requires
        forest_built(rows, forest),
        first_with_id(preorder(forest), e) == Some(existing),
        !(new_parent matches Some(p) && (p == e || node_ids(preorder(existing.children)).contains(p))),
        updated.contains_key(e),
        updated[e].parent_id == new_parent,
        forall|k: u32| k != e ==> (#[trigger] updated.contains_key(k) <==> row_table(rows).contains_key(k)),
        forall|k: u32|
            k != e && updated.contains_key(k) ==> #[trigger] updated[k].parent_id == row_table(
                rows,
            )[k].parent_id,
    ensures
        !on_owner_cycle(updated, e),
        forall|x: u32| on_owner_cycle(updated, x) ==> #[trigger] on_owner_cycle(row_table(rows), x),
{
    let tbl = row_table(rows);
    let ids = row_ids(rows);
    lemma_row_ids(rows);
    lemma_first_with_id(preorder(forest), e);
    lemma_preorder_built(ids, tbl, forest, existing);
    if on_owner_cycle(updated, e) {
        let path = choose|path: Seq<u32>|
            path.len() >= 2 && path[0] == e && path.last() == e && owner_path(updated, path);
        assert(owned_by_next(updated, path, 0));
        let p = path[1];
        assert(new_parent == Some(p));
        let m = lemma_first_occurrence(path, e, 1);
        let q = path.subrange(1, m + 1);
        assert forall|i: int| 0 <= i < q.len() - 1 implies #[trigger] owned_by_next(tbl, q, i) by {
            assert(owned_by_next(updated, path, i + 1));
            assert(path[i + 1] != e);
            assert(q[i] == path[i + 1] && q[i + 1] == path[i + 2]);
        }
        lemma_owned_below(ids, tbl, existing, q);
        assert(false);
    }
    assert forall|x: u32| on_owner_cycle(updated, x) implies #[trigger] on_owner_cycle(tbl, x) by {
        let path = choose|path: Seq<u32>|
            path.len() >= 2 && path[0] == x && path.last() == x && owner_path(updated, path);
        if exists|k: int| 0 <= k < path.len() && path[k] == e {
            let k = choose|k: int| 0 <= k < path.len() && path[k] == e;
            let n = path.len();
            let r = path.subrange(k, n as int) + path.subrange(1, k + 1);
            assert(r[0] == e);
            assert(r.last() == e);
            assert forall|i: int| 0 <= i < r.len() - 1 implies #[trigger] owned_by_next(
                updated,
                r,
                i,
            ) by {
                if i < n - k - 1 {
                    assert(owned_by_next(updated, path, k + i));
                    assert(r[i] == path[k + i] && r[i + 1] == path[k + i + 1]);
                } else if i == n - k - 1 {
                    assert(owned_by_next(updated, path, 0));
                    assert(r[i] == path[n - 1] && r[i + 1] == path[1]);
                } else {
                    let j = i - (n - k) + 1;
                    assert(owned_by_next(updated, path, j));
                    assert(r[i] == path[j] && r[i + 1] == path[j + 1]);
                }
            }
            assert(on_owner_cycle(updated, e));
        } else {
            assert forall|i: int| 0 <= i < path.len() - 1 implies #[trigger] owned_by_next(tbl, path, i) by {
                assert(owned_by_next(updated, path, i));
                assert(path[i] != e);
            }
        }
    }
}

/// An accepted update keeps the entities a forest.
///
/// If no entity of the rows' table lies on a cycle of owners, and entity `e`
/// takes an owner that the update check accepts, then no entity of the
/// updated table lies on a cycle of owners either.
pub proof fn lemma_accepted_update_keeps_forest(
    rows: Seq<EntityRich>,
    forest: Seq<EntityNode>,
    e: u32,
    existing: EntityNode,
    new_parent: Option<u32>,
    updated: Map<u32, EntityRich>,
)
    requires
        forall|x: u32| !on_owner_cycle(row_table(rows), x),
        forest_built(rows, forest),
        first_with_id(preorder(forest), e) == Some(existing),
        !(new_parent matches Some(p) && (p == e || node_ids(preorder(existing.children)).contains(p))),
        updated.contains_key(e),
        updated[e].parent_id == new_parent,
        forall|k: u32| k != e ==> (#[trigger] updated.contains_key(k) <==> row_table(rows).contains_key(k)),
        forall|k: u32|
            k != e && updated.contains_key(k) ==> #[trigger] updated[k].parent_id == row_table(
                rows,
            )[k].parent_id,
    ensures
        forall|x: u32| !on_owner_cycle(updated, x),
{
    lemma_accepted_owner_creates_no_cycle(rows, forest, e, existing, new_parent, updated);
    assert forall|x: u32| !on_owner_cycle(updated, x) by {
        if on_owner_cycle(updated, x) {
            assert(on_owner_cycle(row_table(rows), x));
        }
    }
}

/// An owner that the update check refuses would create a cycle of owners.
///
/// Let `forest` be the forest built from `rows` and `existing` the closure of
/// entity `e` found in it.  If `p` is `e` itself or an entity below `e`, then
/// in any table that differs from the rows' table only in the owner of `e`,
/// which is now `p`, following owners from `e` leads back to `e`.
pub proof fn lemma_refused_owner_creates_cycle(
    rows: Seq<EntityRich>,
    forest: Seq<EntityNode>,
    e: u32,
    existing: EntityNode,
    p: u32,
    updated: Map<u32, EntityRich>,
)
    requires
        forest_built(rows, forest),
        first_with_id(preorder(forest), e) == Some(existing),
        p == e || node_ids(preorder(existing.children)).contains(p),
        updated.contains_key(e),
        updated[e].parent_id == Some(p),
        forall|k: u32| k != e ==> (#[trigger] updated.contains_key(k) <==> row_table(rows).contains_key(k)),
        forall|k: u32|
            k != e && updated.contains_key(k) ==> #[trigger] updated[k].parent_id == row_table(
                rows,
            )[k].parent_id,
    ensures
        on_owner_cycle(updated, e),
{
    let tbl = row_table(rows);
    let ids = row_ids(rows);
    if p == e {
        let c = seq![e, e];
        assert(owned_by_next(updated, c, 0));
        assert(c.len() >= 2 && c[0] == e && c.last() == e && owner_path(updated, c));
    } else {
        lemma_row_ids(rows);
        lemma_first_with_id(preorder(forest), e);
        lemma_preorder_built(ids, tbl, forest, existing);
        lemma_node_built_children(ids, tbl, existing);
        lemma_ids_with_parent(ids, tbl, Some(e));
        assert forall|i: int| 0 <= i < existing.children.len() implies tbl[(
        #[trigger] existing.children[i]).id].parent_id == Some(e) by {
            assert(node_ids(existing.children)[i] == existing.children[i].id);
            assert(ids_with_parent(ids, tbl, Some(e)).contains(existing.children[i].id));
        }
        lemma_node_ids_contains(preorder(existing.children), p);
        let k = choose|k: int|
            0 <= k < preorder(existing.children).len() && #[trigger] preorder(
                existing.children,
            )[k].id == p;
        let y = preorder(existing.children)[k];
        assert(preorder(existing.children).contains(y));
        let path = lemma_below_has_owner_path(ids, tbl, existing.children, e, y);
        let m = lemma_first_occurrence(path, e, 0);
        let c = seq![e] + path.subrange(0, m + 1);
        assert forall|i: int| 0 <= i < c.len() - 1 implies #[trigger] owned_by_next(updated, c, i) by {
            if i > 0 {
                assert(owned_by_next(tbl, path, i - 1));
                assert(path[i - 1] != e);
                assert(c[i] == path[i - 1] && c[i + 1] == path[i]);
            }
        }
        assert(c.len() >= 2 && c[0] == e && c.last() == e && owner_path(updated, c));
    }
}

/// The update check is exact: it refuses a new owner of `e` exactly when
/// taking that owner would put `e` on a cycle of owners.
pub proof fn lemma_owner_check_exact(
    rows: Seq<EntityRich>,
    forest: Seq<EntityNode>,
    e: u32,
    existing: EntityNode,
    new_parent: Option<u32>,
    updated: Map<u32, EntityRich>,
)
    requires
        forest_built(rows, forest),
        first_with_id(preorder(forest), e) == Some(existing),
        updated.contains_key(e),
        updated[e].parent_id == new_parent,
        forall|k: u32| k != e ==> (#[trigger] updated.contains_key(k) <==> row_table(rows).contains_key(k)),
        forall|k: u32|
            k != e && updated.contains_key(k) ==> #[trigger] updated[k].parent_id == row_table(
                rows,
            )[k].parent_id,
    ensures
        (new_parent matches Some(p) && (p == e || node_ids(preorder(existing.children)).contains(p)))
            <==> on_owner_cycle(updated, e),
{
    if new_parent matches Some(p) && (p == e || node_ids(preorder(existing.children)).contains(p)) {
        lemma_refused_owner_creates_cycle(rows, forest, e, existing, new_parent.unwrap(), updated);
    } else {
        lemma_accepted_owner_creates_no_cycle(rows, forest, e, existing, new_parent, updated);
    }
}

/// An entity's closure is found in the forest of the rows exactly when the
/// entity's owners lead up to an entity without an owner; the closure found
/// is that entity's.
pub proof fn lemma_closure_found_iff_rooted(rows: Seq<EntityRich>, forest: Seq<EntityNode>, e: u32)
    requires
        forest_built(rows, forest),
    ensures
        first_with_id(preorder(forest), e) is Some <==> rooted(row_table(rows), e),
        first_with_id(preorder(forest), e) matches Some(n) ==> n.id == e,
{
    lemma_first_with_id(preorder(forest), e);
    lemma_forest_holds_rooted(rows, forest, e);
}

/// A patch that gives no field leaves the entity's fields as they are.
pub proof fn lemma_empty_patch_keeps_entity(entity: EntityTable)
    ensures
        patched(entity, PatchEntity { tag_uid: None, name: None, parent_id: None }) == (CreateEntity {
            tag_uid: entity.tag_uid,
            name: entity.name,
            parent_id: entity.parent_id,
        }),
{
}

/// The update check accepts the owner that an entity of the forest already
/// has: keeping it creates no cycle.
pub proof fn lemma_current_owner_accepted(
    rows: Seq<EntityRich>,
    forest: Seq<EntityNode>,
    e: u32,
    existing: EntityNode,
)
    requires
        forest_built(rows, forest),
        first_with_id(preorder(forest), e) == Some(existing),
    ensures
        existing.parent_id == row_table(rows)[e].parent_id,
        !(existing.parent_id matches Some(p) && (p == e || node_ids(
            preorder(existing.children),
        ).contains(p))),
{
    let tbl = row_table(rows);
    let ids = row_ids(rows);
    lemma_row_ids(rows);
    lemma_first_with_id(preorder(forest), e);
    lemma_preorder_built(ids, tbl, forest, existing);
    lemma_closure_found_iff_rooted(rows, forest, e);
    lemma_rooted_not_on_cycle(tbl, e);
    lemma_owner_check_exact(rows, forest, e, existing, existing.parent_id, tbl);
}

/// Patching with a patch that gives no field is accepted by the update check
/// and writes back the entity's own fields.
pub proof fn lemma_empty_patch_accepted(
    rows: Seq<EntityRich>,
    forest: Seq<EntityNode>,
    existing: EntityNode,
    entity: EntityTable,
)
    requires
        forest_built(rows, forest),
        first_with_id(preorder(forest), entity.entity_id) == Some(existing),
        entity.parent_id == row_table(rows)[entity.entity_id].parent_id,
    ensures
        ({
            let update = patched(entity, PatchEntity { tag_uid: None, name: None, parent_id: None });
            &&& update.tag_uid == entity.tag_uid
            &&& update.name == entity.name
            &&& update.parent_id == entity.parent_id
            &&& !(update.parent_id matches Some(p) && (p == entity.entity_id || node_ids(
                preorder(existing.children),
            ).contains(p)))
        }),
{
    lemma_current_owner_accepted(rows, forest, entity.entity_id, existing);
}

} // verus!
