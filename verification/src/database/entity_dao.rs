//! The first form of the entity table, whose lookup returns an entity with
//! its owner and the entities it owns directly.
use vstd::prelude::*;

use crate::util::{decimal, decimal_string};

verus! {

/// A row of the `entity` table.
#[derive(Clone)]
pub struct EntityTable {
    pub id: u32,
    pub user_id: u32,
    pub tag_uid: String,
    pub name: String,
    pub parrent_id: Option<u32>,
}

/// An entity with its owner (when the owner is among the rows) and the
/// entities that it owns directly.
pub struct EntityClosure {
    pub entity: EntityTable,
    pub parrent: Option<EntityTable>,
    pub children: Vec<EntityTable>,
}

/// The lookup found no row with the requested id.
#[derive(Debug)]
pub struct EntityNotFound {
    pub id: u32,
}

impl EntityNotFound {
    /// The text of the error: `Entity with id={id} not found`.
    pub fn message(&self) -> (text: String)
        ensures
            text@ == "Entity with id="@ + decimal(self.id as nat) + " not found"@,
    {
        let mut text = "Entity with id=".to_owned();
        text.append(decimal_string(self.id).as_str());
        text.append(" not found");
        text
    }
}

/// The last row with the given id: rows are read as a map from id to row, in
/// which a later row replaces an earlier one.
pub open spec fn last_row(rows: Seq<EntityTable>, id: u32) -> Option<EntityTable>
    decreases rows.len(),
{
    if rows.len() == 0 {
        None
    } else if rows.last().id == id {
        Some(rows.last())
    } else {
        last_row(rows.drop_last(), id)
    }
}

/// The distinct ids of the rows, in the order of their first occurrence.
pub open spec fn first_ids(rows: Seq<EntityTable>) -> Seq<u32>
    decreases rows.len(),
{
    if rows.len() == 0 {
        Seq::empty()
    } else {
        let earlier = first_ids(rows.drop_last());
        if earlier.contains(rows.last().id) {
            earlier
        } else {
            earlier.push(rows.last().id)
        }
    }
}

/// The entities (as `last_row` reads them) among `ids`, in that order, that
/// are owned by `parent`.
pub open spec fn rows_owned_by(ids: Seq<u32>, rows: Seq<EntityTable>, parent: u32) -> Seq<
    EntityTable,
>
    decreases ids.len(),
{
    if ids.len() == 0 {
        Seq::empty()
    } else {
        let earlier = rows_owned_by(ids.drop_last(), rows, parent);
        let r = last_row(rows, ids.last()).unwrap();
        if r.parrent_id == Some(parent) {
            earlier.push(r)
        } else {
            earlier
        }
    }
}

/// The entity's closure as the lookup reads the rows.
pub open spec fn entity_closure_of(
    rows: Seq<EntityTable>,
    id: u32,
    c: EntityClosure,
) -> bool {
    &&& last_row(rows, id) == Some(c.entity)
    &&& c.parrent == (match c.entity.parrent_id {
        Some(p) => last_row(rows, p),
        None => None,
    })
    &&& c.children@ == rows_owned_by(first_ids(rows), rows, id)
}

/// There is a last row with an id exactly when some row has it, and it has
/// that id.
pub proof fn lemma_last_row(rows: Seq<EntityTable>, id: u32)
    ensures
        last_row(rows, id) is Some <==> exists|j: int| 0 <= j < rows.len() && rows[j].id == id,
        last_row(rows, id) matches Some(r) ==> r.id == id,
    decreases rows.len(),
{
    if rows.len() > 0 {
        lemma_last_row(rows.drop_last(), id);
        if exists|j: int| 0 <= j < rows.len() && rows[j].id == id {
            let j = choose|j: int| 0 <= j < rows.len() && rows[j].id == id;
            if j < rows.len() - 1 {
                assert(rows.drop_last()[j].id == id);
            }
        }
        if exists|j: int| 0 <= j < rows.len() - 1 && rows.drop_last()[j].id == id {
            let j = choose|j: int| 0 <= j < rows.len() - 1 && rows.drop_last()[j].id == id;
            assert(rows[j].id == id);
        }
    }
}

/// An id is among the first ids exactly when some row has it.
pub proof fn lemma_first_ids(rows: Seq<EntityTable>, id: u32)
    ensures
        first_ids(rows).contains(id) <==> exists|j: int| 0 <= j < rows.len() && rows[j].id == id,
    decreases rows.len(),
{
    if rows.len() > 0 {
        let front = rows.drop_last();
        lemma_first_ids(front, id);
        let earlier = first_ids(front);
        if earlier.contains(id) {
            let j = choose|j: int| 0 <= j < front.len() && front[j].id == id;
            assert(rows[j].id == id);
            if !earlier.contains(rows.last().id) {
                let k = choose|k: int| 0 <= k < earlier.len() && earlier[k] == id;
                assert(first_ids(rows)[k] == id);
            }
        } else {
            if exists|j: int| 0 <= j < rows.len() && rows[j].id == id {
                let j = choose|j: int| 0 <= j < rows.len() && rows[j].id == id;
                if j < rows.len() - 1 {
                    assert(front[j].id == id);
                }
                assert(rows.last().id == id);
                assert(first_ids(rows)[earlier.len() as int] == id);
            }
            if first_ids(rows).contains(id) {
                if !earlier.contains(rows.last().id) {
                    let k = choose|k: int| 0 <= k < first_ids(rows).len() && first_ids(rows)[k] == id;
                    if k < earlier.len() {
                        assert(earlier[k] == id);
                    }
                }
            }
        }
    }
}

/// The last row with an id is a row of the sequence with that id, and no
/// later row has the id.
pub proof fn lemma_last_row_is_last(rows: Seq<EntityTable>, id: u32)
    ensures
        last_row(rows, id) matches Some(r) ==> exists|j: int|
            0 <= j < rows.len() && rows[j] == r && r.id == id && forall|l: int|
                j < l < rows.len() ==> #[trigger] rows[l].id != id,
    decreases rows.len(),
{
    if rows.len() > 0 {
        let front = rows.drop_last();
        lemma_last_row_is_last(front, id);
        if rows.last().id == id {
            let j = rows.len() - 1;
            assert(rows[j] == rows.last());
        } else if let Some(r) = last_row(front, id) {
            let j = choose|j: int|
                0 <= j < front.len() && front[j] == r && r.id == id && forall|l: int|
                    j < l < front.len() ==> #[trigger] front[l].id != id;
            assert(rows[j] == r);
            assert forall|l: int| j < l < rows.len() implies #[trigger] rows[l].id != id by {
                if l < rows.len() - 1 {
                    assert(front[l] == rows[l]);
                }
            }
        }
    }
}

/// The owned rows picked from `ids` are last rows, each of an id of `ids`,
/// each naming `parent` as owner; and every id of `ids` whose last row names
/// `parent` as owner is among them.
proof fn lemma_rows_owned_by(ids: Seq<u32>, rows: Seq<EntityTable>, parent: u32)
    requires
        forall|i: int| 0 <= i < ids.len() ==> #[trigger] last_row(rows, ids[i]) is Some,
    ensures
        forall|i: int|
            0 <= i < rows_owned_by(ids, rows, parent).len() ==> {
                let c = #[trigger] rows_owned_by(ids, rows, parent)[i];
                &&& ids.contains(c.id)
                &&& last_row(rows, c.id) == Some(c)
                &&& c.parrent_id == Some(parent)
            },
        forall|k: u32|
            ids.contains(k) && (#[trigger] last_row(rows, k)).unwrap().parrent_id == Some(parent)
                ==> exists|i: int|
                0 <= i < rows_owned_by(ids, rows, parent).len() && rows_owned_by(ids, rows, parent)[i].id
                    == k,
        ids.no_duplicates() ==> forall|i: int, m: int|
            0 <= i < m < rows_owned_by(ids, rows, parent).len() ==> #[trigger] rows_owned_by(
                ids,
                rows,
                parent,
            )[i].id != #[trigger] rows_owned_by(ids, rows, parent)[m].id,
    decreases ids.len(),
{
    if ids.len() > 0 {
        let front = ids.drop_last();
        let x = ids.last();
        assert forall|i: int| 0 <= i < front.len() implies #[trigger] last_row(rows, front[i]) is Some by {
            assert(front[i] == ids[i]);
        }
        lemma_rows_owned_by(front, rows, parent);
        assert(last_row(rows, ids[ids.len() - 1]) is Some);
        lemma_last_row(rows, x);
        let earlier = rows_owned_by(front, rows, parent);
        let all = rows_owned_by(ids, rows, parent);
        let r = last_row(rows, x).unwrap();
        assert forall|i: int| 0 <= i < all.len() implies {
            let c = #[trigger] all[i];
            &&& ids.contains(c.id)
            &&& last_row(rows, c.id) == Some(c)
            &&& c.parrent_id == Some(parent)
        } by {
            if i < earlier.len() {
                assert(all[i] == earlier[i]);
                let c = earlier[i];
                let m = choose|m: int| 0 <= m < front.len() && front[m] == c.id;
                assert(ids[m] == c.id);
            } else {
                assert(all[i] == r);
                assert(ids[ids.len() - 1] == x);
            }
        }
        if ids.no_duplicates() {
            assert(front.no_duplicates());
            assert(!front.contains(x)) by {
                if front.contains(x) {
                    let m = choose|m: int| 0 <= m < front.len() && front[m] == x;
                    assert(ids[m] == ids[ids.len() - 1]);
                }
            }
            assert forall|i: int, m: int| 0 <= i < m < all.len() implies #[trigger] all[i].id
                != #[trigger] all[m].id by {
                assert(all[i] == earlier[i]);
                if m < earlier.len() {
                    assert(all[m] == earlier[m]);
                } else {
                    assert(all[m] == r);
                    assert(r.id == x);
                }
            }
        }
        assert forall|k: u32|
            ids.contains(k) && (#[trigger] last_row(rows, k)).unwrap().parrent_id == Some(parent)
                implies exists|i: int| 0 <= i < all.len() && all[i].id == k by {
            let m = choose|m: int| 0 <= m < ids.len() && ids[m] == k;
            if m < ids.len() - 1 {
                assert(front[m] == k);
                assert(front.contains(k));
                let i = choose|i: int| 0 <= i < earlier.len() && earlier[i].id == k;
                assert(all[i] == earlier[i]);
            } else {
                assert(k == x);
                assert(all[earlier.len() as int] == r);
            }
        }
    }
}

/// The first ids hold no id twice.
proof fn lemma_first_ids_distinct(rows: Seq<EntityTable>)
    ensures
        first_ids(rows).no_duplicates(),
    decreases rows.len(),
{
    if rows.len() > 0 {
        lemma_first_ids_distinct(rows.drop_last());
    }
}

/// The lookup returns every entity that the looked-up entity owns: for every
/// id that some row has, if the last row with that id names `id` as owner,
/// a child has that id; every child is the last row of its id and names
/// `id` as owner; and no two children share an id.
pub proof fn lemma_lookup_children(rows: Seq<EntityTable>, id: u32, c: EntityClosure)
    requires
        entity_closure_of(rows, id, c),
    ensures
        forall|k: u32|
            (exists|j: int| 0 <= j < rows.len() && rows[j].id == k) && (#[trigger] last_row(
                rows,
                k,
            )).unwrap().parrent_id == Some(id) ==> exists|i: int|
                0 <= i < c.children.len() && c.children@[i].id == k,
        forall|i: int|
            0 <= i < c.children.len() ==> {
                let ch = #[trigger] c.children@[i];
                &&& ch.parrent_id == Some(id)
                &&& exists|j: int|
                    0 <= j < rows.len() && rows[j] == ch && forall|l: int|
                        j < l < rows.len() ==> #[trigger] rows[l].id != ch.id
            },
        forall|i: int, m: int|
            0 <= i < m < c.children.len() ==> #[trigger] c.children@[i].id
                != #[trigger] c.children@[m].id,
{
    let ids = first_ids(rows);
    lemma_first_ids_distinct(rows);
    assert forall|i: int| 0 <= i < ids.len() implies #[trigger] last_row(rows, ids[i]) is Some by {
        lemma_first_ids(rows, ids[i]);
        assert(ids.contains(ids[i]));
        lemma_last_row(rows, ids[i]);
    }
    lemma_rows_owned_by(ids, rows, id);
    assert forall|k: u32|
        (exists|j: int| 0 <= j < rows.len() && rows[j].id == k) && (#[trigger] last_row(
            rows,
            k,
        )).unwrap().parrent_id == Some(id) implies exists|i: int|
        0 <= i < c.children.len() && c.children@[i].id == k by {
        lemma_first_ids(rows, k);
    }
    assert forall|i: int| 0 <= i < c.children.len() implies {
        let ch = #[trigger] c.children@[i];
        &&& ch.parrent_id == Some(id)
        &&& exists|j: int|
            0 <= j < rows.len() && rows[j] == ch && forall|l: int|
                j < l < rows.len() ==> #[trigger] rows[l].id != ch.id
    } by {
        let ch = c.children@[i];
        assert(rows_owned_by(ids, rows, id)[i] == ch);
        lemma_last_row_is_last(rows, ch.id);
    }
}

/// The lookup returns the looked-up entity as its last row, and its owner:
/// when the entity names an owner `p` and some row has id `p`, the returned
/// owner is the last row with id `p`; otherwise no owner is returned.
pub proof fn lemma_lookup_owner(rows: Seq<EntityTable>, id: u32, c: EntityClosure)
    requires
        entity_closure_of(rows, id, c),
    ensures
        c.entity.id == id,
        exists|j: int|
            0 <= j < rows.len() && rows[j] == c.entity && forall|l: int|
                j < l < rows.len() ==> #[trigger] rows[l].id != id,
        c.entity.parrent_id is None ==> c.parrent is None,
        c.entity.parrent_id matches Some(p) ==> ((exists|j: int| 0 <= j < rows.len() && rows[j].id
            == p) <==> c.parrent is Some),
        c.entity.parrent_id matches Some(p) ==> (c.parrent matches Some(r) ==> r.id == p
            && exists|j: int|
            0 <= j < rows.len() && rows[j] == r && forall|l: int|
                j < l < rows.len() ==> #[trigger] rows[l].id != p),
{
    lemma_last_row(rows, id);
    lemma_last_row_is_last(rows, id);
    if let Some(p) = c.entity.parrent_id {
        lemma_last_row(rows, p);
        lemma_last_row_is_last(rows, p);
    }
}

/// A copy of a row that is equal to it.
fn copy_row(r: &EntityTable) -> (c: EntityTable)
    ensures
        c == *r,
{
    EntityTable {
        id: r.id,
        user_id: r.user_id,
        tag_uid: r.tag_uid.clone(),
        name: r.name.clone(),
        parrent_id: r.parrent_id,
    }
}

/// A copy of the last row with the given id, if there is one.
fn find_last_row(rows: &Vec<EntityTable>, id: u32) -> (r: Option<EntityTable>)
    ensures
        r == last_row(rows@, id),
{
    let mut i: usize = rows.len();
    assert(rows@.take(i as int) == rows@);
    while i > 0
        invariant
            i <= rows.len(),
            last_row(rows@, id) == last_row(rows@.take(i as int), id),
        decreases i,
    {
        assert(rows@.take(i as int).drop_last() == rows@.take(i - 1));
        if rows[i - 1].id == id {
            return Some(copy_row(&rows[i - 1]));
        }
        i = i - 1;
    }
    None
}

/// Whether no row before position `i` has the id of the row at `i`.
fn is_first_occurrence(rows: &Vec<EntityTable>, i: usize) -> (b: bool)
    requires
        i < rows.len(),
    ensures
        b <==> forall|j: int| 0 <= j < i ==> rows@[j].id != rows@[i as int].id,
{
    let mut j: usize = 0;
    while j < i
        invariant
            j <= i < rows.len(),
            forall|k: int| 0 <= k < j ==> rows@[k].id != rows@[i as int].id,
        decreases i - j,
    {
        if rows[j].id == rows[i].id {
            return false;
        }
        j = j + 1;
    }
    true
}

/// The entity with the given id, its owner and the entities it owns
/// directly, as read from the rows (a later row with an id replaces an
/// earlier one; the owned entities keep the order in which their ids first
/// occur); `EntityNotFound` for that id when no row has it.
pub fn get_entity(entities: Vec<EntityTable>, id: u32) -> (r: Result<EntityClosure, EntityNotFound>)
    ensures
        r is Err <==> !(exists|j: int| 0 <= j < entities@.len() && entities@[j].id == id),
        r matches Err(e) ==> e.id == id,
        r matches Ok(c) ==> entity_closure_of(entities@, id, c),
{
    proof {
        lemma_last_row(entities@, id);
    }
    let main_entity = match find_last_row(&entities, id) {
        Some(e) => e,
        None => {
            return Err(EntityNotFound { id });
        },
    };
    let parrent_entity = match main_entity.parrent_id {
        Some(p) => find_last_row(&entities, p),
        None => None,
    };
    let mut children: Vec<EntityTable> = Vec::new();
    let mut i: usize = 0;
    while i < entities.len()
        invariant
            i <= entities.len(),
            children@ == rows_owned_by(first_ids(entities@.take(i as int)), entities@, main_entity.id),
            main_entity.id == id,
        decreases entities.len() - i,
    {
        let ghost front = entities@.take(i as int);
        assert(entities@.take(i + 1).drop_last() == front);
        assert(entities@.take(i + 1).last() == entities@[i as int]);
        proof {
            lemma_first_ids(front, entities@[i as int].id);
        }
        if is_first_occurrence(&entities, i) {
            assert(!first_ids(front).contains(entities@[i as int].id));
            let ghost ids = first_ids(entities@.take(i + 1));
            assert(ids == first_ids(front).push(entities@[i as int].id));
            assert(ids.drop_last() == first_ids(front));
            let last = find_last_row(&entities, entities[i].id);
            proof {
                lemma_last_row(entities@, entities@[i as int].id);
            }
            let last = last.unwrap();
            if last.parrent_id == Some(id) {
                children.push(last);
            }
        } else {
            assert(first_ids(front).contains(entities@[i as int].id)) by {
                let j = choose|j: int| 0 <= j < i && entities@[j].id == entities@[i as int].id;
                assert(front[j].id == entities@[i as int].id);
            }
        }
        i = i + 1;
    }
    assert(entities@.take(entities.len() as int) == entities@);
    Ok(EntityClosure { entity: main_entity, parrent: parrent_entity, children })
}

} // verus!
