//! Entities as the HTTP API shows them, and the order in which it lists
//! them: by id at every level of the forest.
use vstd::multiset::Multiset;
use vstd::prelude::*;

use crate::database::dao::entity_dao::{forest_built, rooted, row_table, EntityRich};
use crate::database::dao::forest_laws::{lemma_forest_entities_distinct, lemma_forest_holds_rooted};
use crate::services::entity_service;
use crate::services::entity_service::{lemma_service_children, service_nodes, CreateEntity, Entity};
use crate::util::entity_tree::{node_ids, preorder, EntityNode};

verus! {

/// The body of a request that creates or replaces an entity.
pub struct CreateEntityDTO {
    pub tag_uid: String,
    pub name: String,
    pub parent_id: Option<u32>,
}

impl From<CreateEntityDTO> for CreateEntity {
    fn from(dto: CreateEntityDTO) -> (r: CreateEntity)
        ensures
            r.tag_uid == Some(dto.tag_uid),
            r.name == dto.name,
            r.parent_id == dto.parent_id,
    {
        CreateEntity { tag_uid: Some(dto.tag_uid), name: dto.name, parent_id: dto.parent_id }
    }
}

impl vstd::std_specs::convert::FromSpecImpl<CreateEntityDTO> for CreateEntity {
    open spec fn obeys_from_spec() -> bool {
        true
    }

    open spec fn from_spec(dto: CreateEntityDTO) -> CreateEntity {
        CreateEntity { tag_uid: Some(dto.tag_uid), name: dto.name, parent_id: dto.parent_id }
    }
}

/// The conversion of a request keeps every field of it: the tag (always
/// present in a request), the name and the owner.
pub proof fn lemma_create_entity_keeps_request(dto: CreateEntityDTO)
    ensures
        <CreateEntity as vstd::std_specs::convert::FromSpec<CreateEntityDTO>>::obeys_from_spec(),
        <CreateEntity as vstd::std_specs::convert::FromSpec<CreateEntityDTO>>::from_spec(
            dto,
        ).tag_uid == Some(dto.tag_uid),
        <CreateEntity as vstd::std_specs::convert::FromSpec<CreateEntityDTO>>::from_spec(dto).name
            == dto.name,
        <CreateEntity as vstd::std_specs::convert::FromSpec<CreateEntityDTO>>::from_spec(
            dto,
        ).parent_id == dto.parent_id,
{
}

/// An entity as the API shows it.
pub struct EntityDTO {
    pub id: u32,
    pub tag_uid: Option<String>,
    pub name: String,
    pub parent_id: Option<u32>,
    pub parent_name: Option<String>,
}

impl EntityDTO {
    /// The API form of an entity.
    pub fn from(e: Entity) -> (d: Self)
        ensures
            d.id == e.id,
            d.tag_uid == e.tag_uid,
            d.name == e.name,
            d.parent_id == e.parent_id,
            d.parent_name == e.parent_name,
    {
        Self {
            id: e.id,
            tag_uid: e.tag_uid,
            name: e.name,
            parent_id: e.parent_id,
            parent_name: e.parent_name,
        }
    }
}

/// An entity with all the entities it (transitively) owns, as the API shows it.
pub struct EntityClosureDTO {
    pub id: u32,
    pub user_id: u32,
    pub tag_uid: Option<String>,
    pub name: String,
    pub parent_id: Option<u32>,
    pub parent_name: Option<String>,
    pub children: Vec<EntityClosureDTO>,
}

/// The model of a closure: its entity's fields and the models of the
/// closures below it.
pub open spec fn dto_node(c: EntityClosureDTO) -> EntityNode
    decreases c,
{
    EntityNode {
        id: c.id,
        user_id: c.user_id,
        tag_uid: c.tag_uid,
        name: c.name,
        parent_id: c.parent_id,
        parent_name: c.parent_name,
        children: Seq::new(
            c.children@.len(),
            |i: int|
                if 0 <= i < c.children@.len() {
                    dto_node(c.children@[i])
                } else {
                    arbitrary()
                },
        ),
    }
}

impl View for EntityClosureDTO {
    type V = EntityNode;

    open spec fn view(&self) -> EntityNode {
        dto_node(*self)
    }
}

/// The models of a sequence of closures.
pub open spec fn dto_nodes(s: Seq<EntityClosureDTO>) -> Seq<EntityNode> {
    Seq::new(s.len(), |i: int| s[i]@)
}

/// The model of a closure's children is the sequence of the children's models.
pub proof fn lemma_dto_children(c: EntityClosureDTO)
    ensures
        c@.children == dto_nodes(c.children@),
{
    assert(c@.children =~= dto_nodes(c.children@));
}

impl EntityClosureDTO {
    /// The API form of a closure, with the same entities.
    pub fn from_entity_closure(e: entity_service::EntityClosure) -> (r: Self)
        ensures
            r@ == e@,
        decreases e,
    {
        let ghost e0 = e;
        let entity_service::EntityClosure {
            id,
            user_id,
            tag_uid,
            name,
            parent_id,
            parent_name,
            children,
        } = e;
        let ghost orig = children@;
        let mut rest = children;
        let mut out: Vec<Self> = Vec::new();
        while rest.len() > 0
            invariant
                e0 == e,
                orig == e0.children@,
                out.len() <= orig.len(),
                rest@ == orig.subrange(out.len() as int, orig.len() as int),
                forall|k: int| 0 <= k < out.len() ==> #[trigger] out@[k]@ == orig[k]@,
            decreases rest.len(),
        {
            let ghost k = out.len() as int;
            assert(rest@[0] == orig[k]);
            let c = rest.remove(0);
            proof {
                assert(decreases_to!(e0 => e0.children));
                assert(decreases_to!(e0.children => e0.children@));
                assert(decreases_to!(e0.children@ => e0.children@[k]));
                assert(decreases_to!(e0 => c));
            }
            let dc = Self::from_entity_closure(c);
            out.push(dc);
            assert(rest@ == orig.subrange(out.len() as int, orig.len() as int));
        }
        let r = Self { id, user_id, tag_uid, name, parent_id, parent_name, children: out };
        proof {
            lemma_service_children(e0);
            lemma_dto_children(r);
            assert(r@.children =~= e0@.children);
        }
        r
    }
}

// ---------------------------------------------------------------------------
// Sorting by id at every level.
// ---------------------------------------------------------------------------
/// The two nodes carry the same entity fields (their children aside).
pub open spec fn same_fields(a: EntityNode, b: EntityNode) -> bool {
    &&& a.id == b.id
    &&& a.user_id == b.user_id
    &&& a.tag_uid == b.tag_uid
    &&& a.name == b.name
    &&& a.parent_id == b.parent_id
    &&& a.parent_name == b.parent_name
}

/// `b` holds the elements of `a` reordered by the bijection `p` (position `i`
/// of `b` takes element `p[i]` of `a`), ordered by id, with elements of equal
/// id in the order they had.
pub open spec fn stable_order(a: Seq<EntityNode>, b: Seq<EntityNode>, p: Seq<int>) -> bool {
    &&& p.len() == a.len()
    &&& b.len() == a.len()
    &&& forall|i: int| 0 <= i < p.len() ==> 0 <= #[trigger] p[i] < a.len()
    &&& forall|i: int, j: int| 0 <= i < j < p.len() ==> p[i] != p[j]
    &&& forall|i: int, j: int| 0 <= i < j < b.len() ==> b[i].id <= b[j].id
    &&& forall|i: int, j: int| 0 <= i < j < b.len() && b[i].id == b[j].id ==> p[i] < p[j]
}

/// `b` is `a` sorted by id at every level: it is a stable reordering of `a` by
/// id, and each of its elements has the fields of the element of `a` it comes
/// from and that element's children, likewise sorted.
pub open spec fn sorted_copy(a: Seq<EntityNode>, b: Seq<EntityNode>) -> bool
    decreases a,
{
    exists|p: Seq<int>|
        {
            &&& stable_order(a, b, p)
            &&& forall|i: int|
                #![trigger b[i]]
                0 <= i < b.len() ==> {
                    &&& same_fields(a[p[i]], b[i])
                    &&& sorted_copy(a[p[i]].children, b[i].children)
                }
        }
}

/// `b` is sorted from `a` when the witness reordering `p` shows it.
pub proof fn lemma_sorted_copy_intro(a: Seq<EntityNode>, b: Seq<EntityNode>, p: Seq<int>)
    requires
        stable_order(a, b, p),
        forall|i: int|
            #![trigger b[i]]
            0 <= i < b.len() ==> same_fields(a[p[i]], b[i]) && sorted_copy(
                a[p[i]].children,
                b[i].children,
            ),
    ensures
        sorted_copy(a, b),
{
    assert forall|i: int| #![trigger b[i]] 0 <= i < b.len() implies decreases_to!(a => a[p[i]].children)
        && same_fields(a[p[i]], b[i]) && sorted_copy(a[p[i]].children, b[i].children) by {
        assert(0 <= p[i] < a.len());
        assert(decreases_to!(a => a[p[i]]));
    }
}

/// The position at which an entity with id `id` goes into `r`, which is
/// sorted by id: after every entity with an id up to `id`.
fn insertion_point(r: &Vec<EntityClosureDTO>, id: u32) -> (pos: usize)
    requires
        forall|i: int, j: int| 0 <= i < j < r.len() ==> r@[i].id <= r@[j].id,
    ensures
        pos <= r.len(),
        forall|i: int| 0 <= i < pos ==> r@[i].id <= id,
        forall|i: int| pos <= i < r.len() ==> r@[i].id > id,
{
    let mut pos: usize = 0;
    while pos < r.len() && r[pos].id <= id
        invariant
            pos <= r.len(),
            forall|i: int| 0 <= i < pos ==> r@[i].id <= id,
        decreases r.len() - pos,
    {
        pos = pos + 1;
    }
    pos
}

/// The closures sorted by id, and below each of them its children sorted in
/// the same way.
fn sorted_entities(v: Vec<EntityClosureDTO>) -> (r: Vec<EntityClosureDTO>)
    ensures
        sorted_copy(dto_nodes(v@), dto_nodes(r@)),
    decreases v@,
{
    let ghost orig = v@;
    let ghost a = dto_nodes(orig);
    // First sort the children below each closure.
    let mut rest = v;
    let mut w: Vec<EntityClosureDTO> = Vec::new();
    while rest.len() > 0
        invariant
            orig == v@,
            a == dto_nodes(orig),
            w.len() <= orig.len(),
            rest@ == orig.subrange(w.len() as int, orig.len() as int),
            forall|k: int|
                #![trigger w@[k]]
                0 <= k < w.len() ==> same_fields(a[k], w@[k]@) && sorted_copy(
                    a[k].children,
                    w@[k]@.children,
                ),
        decreases rest.len(),
    {
        let ghost k = w.len() as int;
        assert(rest@[0] == orig[k]);
        let c = rest.remove(0);
        proof {
            assert(decreases_to!(orig => orig[k]));
            assert(decreases_to!(orig[k] => orig[k].children));
            assert(decreases_to!(orig[k].children => orig[k].children@));
            assert(decreases_to!(orig => c.children@));
            lemma_dto_children(c);
        }
        let EntityClosureDTO { id, user_id, tag_uid, name, parent_id, parent_name, children } = c;
        let kids = sorted_entities(children);
        let d = EntityClosureDTO { id, user_id, tag_uid, name, parent_id, parent_name, children: kids };
        proof {
            lemma_dto_children(d);
        }
        w.push(d);
        assert(w@[k] == d);
        assert(rest@ == orig.subrange(w.len() as int, orig.len() as int));
    }
    // Then order the closures by id, keeping equal ids in their order.
    let ghost ws = w@;
    let n = w.len();
    let mut rest = w;
    let mut r: Vec<EntityClosureDTO> = Vec::new();
    let ghost mut p: Seq<int> = Seq::empty();
    while rest.len() > 0
        invariant
            ws.len() == n,
            r.len() <= n,
            rest@ == ws.subrange(r.len() as int, n as int),
            p.len() == r.len(),
            forall|i: int| 0 <= i < p.len() ==> 0 <= #[trigger] p[i] < r.len(),
            forall|i: int, j: int| 0 <= i < j < p.len() ==> p[i] != p[j],
            forall|i: int| #![trigger r@[i]] 0 <= i < r.len() ==> r@[i] == ws[p[i]],
            forall|i: int, j: int| 0 <= i < j < r.len() ==> r@[i].id <= r@[j].id,
            forall|i: int, j: int| 0 <= i < j < r.len() && r@[i].id == r@[j].id ==> p[i] < p[j],
        decreases rest.len(),
    {
        let ghost i = r.len() as int;
        let ghost before = r@;
        let ghost pb = p;
        assert(rest@[0] == ws[i]);
        let x = rest.remove(0);
        let pos = insertion_point(&r, x.id);
        r.insert(pos, x);
        proof {
            p = p.insert(pos as int, i);
            assert forall|k: int| #![trigger r@[k]] 0 <= k < r.len() implies r@[k] == ws[p[k]] by {
                if k < pos {
                    assert(r@[k] == before[k] && p[k] == pb[k]);
                } else if k > pos {
                    assert(r@[k] == before[k - 1] && p[k] == pb[k - 1]);
                }
            }
            assert forall|k: int| 0 <= k < p.len() implies 0 <= #[trigger] p[k] < r.len() by {
                if k < pos {
                    assert(p[k] == pb[k]);
                } else if k > pos {
                    assert(p[k] == pb[k - 1]);
                }
            }
            assert forall|k: int, l: int| 0 <= k < l < p.len() implies p[k] != p[l] by {
                if k < pos {
                    assert(p[k] == pb[k]);
                } else if k > pos {
                    assert(p[k] == pb[k - 1]);
                }
                if l < pos {
                    assert(p[l] == pb[l]);
                } else if l > pos {
                    assert(p[l] == pb[l - 1]);
                }
            }
            assert forall|k: int, l: int| 0 <= k < l < r.len() implies r@[k].id <= r@[l].id && (
            r@[k].id == r@[l].id ==> p[k] < p[l]) by {
                if k < pos {
                    assert(r@[k] == before[k] && p[k] == pb[k]);
                } else if k > pos {
                    assert(r@[k] == before[k - 1] && p[k] == pb[k - 1]);
                }
                if l < pos {
                    assert(r@[l] == before[l] && p[l] == pb[l]);
                } else if l > pos {
                    assert(r@[l] == before[l - 1] && p[l] == pb[l - 1]);
                }
            }
        }
        assert(rest@ == ws.subrange(r.len() as int, n as int));
    }
    proof {
        let b = dto_nodes(r@);
        assert forall|k: int| #![trigger b[k]] 0 <= k < b.len() implies same_fields(a[p[k]], b[k])
            && sorted_copy(a[p[k]].children, b[k].children) by {
            assert(r@[k] == ws[p[k]]);
            assert(ws[p[k]] == w@[p[k]]);
        }
        lemma_sorted_copy_intro(a, b, p);
    }
    r
}

/// Sorts the closures by id, and below each of them its children in the same
/// way, all the way down; closures with equal ids keep their order.
pub fn sort_entities(entities: &mut Vec<EntityClosureDTO>)
    ensures
        sorted_copy(dto_nodes(old(entities)@), dto_nodes(final(entities)@)),
{
    let mut taken: Vec<EntityClosureDTO> = Vec::new();
    std::mem::swap(&mut taken, entities);
    let sorted = sorted_entities(taken);
    *entities = sorted;
}

/// The listing of the entities: each closure in its API form, sorted by id
/// at every level.
pub fn sorted_entity_dtos(closures: Vec<entity_service::EntityClosure>) -> (r: Vec<EntityClosureDTO>)
    ensures
        sorted_copy(service_nodes(closures@), dto_nodes(r@)),
{
    let ghost orig = closures@;
    let mut rest = closures;
    let mut out: Vec<EntityClosureDTO> = Vec::new();
    while rest.len() > 0
        invariant
            out.len() <= orig.len(),
            rest@ == orig.subrange(out.len() as int, orig.len() as int),
            forall|k: int| 0 <= k < out.len() ==> #[trigger] out@[k]@ == orig[k]@,
        decreases rest.len(),
    {
        let ghost k = out.len() as int;
        assert(rest@[0] == orig[k]);
        let c = rest.remove(0);
        out.push(EntityClosureDTO::from_entity_closure(c));
        assert(rest@ == orig.subrange(out.len() as int, orig.len() as int));
    }
    let ghost unsorted = out@;
    assert(dto_nodes(unsorted) =~= service_nodes(orig));
    sort_entities(&mut out);
    out
}

// ---------------------------------------------------------------------------
// Sorting keeps the entities.
// ---------------------------------------------------------------------------
/// The ids of all entities of a forest, counted with multiplicity.
pub open spec fn forest_ids(s: Seq<EntityNode>) -> Multiset<u32> {
    node_ids(preorder(s)).to_multiset()
}

/// The ids of a tree: its root's id and the ids of the forest below it.
pub open spec fn tree_ids(x: EntityNode) -> Multiset<u32> {
    Multiset::singleton(x.id).add(forest_ids(x.children))
}

/// The ids of the trees of a forest, tree by tree.
pub open spec fn trees_ids(s: Seq<EntityNode>) -> Multiset<u32>
    decreases s.len(),
{
    if s.len() == 0 {
        Multiset::empty()
    } else {
        tree_ids(s[0]).add(trees_ids(s.subrange(1, s.len() as int)))
    }
}

/// The ids of a forest are the ids of its trees.
proof fn lemma_forest_ids_by_trees(s: Seq<EntityNode>)
    ensures
        forest_ids(s) == trees_ids(s),
    decreases s.len(),
{
    broadcast use {
        vstd::seq_lib::lemma_multiset_commutative,
        vstd::seq_lib::group_to_multiset_ensures,
        vstd::multiset::lemma_multiset_empty_len,
    };

    if s.len() == 0 {
        assert(node_ids(preorder(s)) =~= Seq::<u32>::empty());
        assert(forest_ids(s) =~= Multiset::empty());
    } else {
        let rest = s.subrange(1, s.len() as int);
        lemma_forest_ids_by_trees(rest);
        let a = preorder(s[0].children);
        let b = preorder(rest);
        assert(preorder(s) == seq![s[0]] + a + b);
        assert(node_ids(preorder(s)) == node_ids(seq![s[0]]) + node_ids(a) + node_ids(b));
        assert(node_ids(seq![s[0]]) =~= seq![s[0].id]);
        assert(seq![s[0].id].to_multiset() =~= Multiset::singleton(s[0].id)) by {
            assert(seq![s[0].id] == Seq::<u32>::empty().push(s[0].id));
            vstd::seq_lib::to_multiset_build(Seq::<u32>::empty(), s[0].id);
            assert(Seq::<u32>::empty().to_multiset() =~= Multiset::empty());
        }
        assert(forest_ids(s) =~= tree_ids(s[0]).add(forest_ids(rest)));
    }
}

/// The trees' ids of a forest are those of one tree and of the others.
proof fn lemma_trees_ids_remove(s: Seq<EntityNode>, k: int)
    requires
        0 <= k < s.len(),
    ensures
        trees_ids(s) == tree_ids(s[k]).add(trees_ids(s.remove(k))),
    decreases s.len(),
{
    let rest = s.subrange(1, s.len() as int);
    if k == 0 {
        assert(s.remove(0) == rest);
    } else {
        lemma_trees_ids_remove(rest, k - 1);
        assert(s.remove(k)[0] == s[0]);
        assert(s.remove(k).subrange(1, s.len() - 1) == rest.remove(k - 1));
        assert(rest[k - 1] == s[k]);
        assert(trees_ids(s) =~= tree_ids(s[k]).add(trees_ids(s.remove(k))));
    }
}

/// Reordering the trees of a forest by a bijection keeps the trees' ids.
proof fn lemma_trees_ids_reorder(s: Seq<EntityNode>, t: Seq<EntityNode>, p: Seq<int>)
    requires
        t.len() == s.len(),
        p.len() == s.len(),
        forall|i: int| 0 <= i < p.len() ==> 0 <= #[trigger] p[i] < s.len(),
        forall|i: int, j: int| 0 <= i < j < p.len() ==> p[i] != p[j],
        forall|i: int| 0 <= i < t.len() ==> tree_ids(#[trigger] t[i]) == tree_ids(s[p[i]]),
    ensures
        trees_ids(t) == trees_ids(s),
    decreases s.len(),
{
    if s.len() > 0 {
        let k = p[0];
        lemma_trees_ids_remove(s, k);
        let s2 = s.remove(k);
        let t2 = t.subrange(1, t.len() as int);
        let p2 = Seq::new(
            (p.len() - 1) as nat,
            |i: int|
                if p[i + 1] > k {
                    p[i + 1] - 1
                } else {
                    p[i + 1]
                },
        );
        assert forall|i: int| 0 <= i < t2.len() implies tree_ids(#[trigger] t2[i]) == tree_ids(
            s2[p2[i]],
        ) by {
            assert(t2[i] == t[i + 1]);
            assert(p[i + 1] != p[0]);
            if p[i + 1] > k {
                assert(s2[p2[i]] == s[p[i + 1]]);
            } else {
                assert(s2[p2[i]] == s[p[i + 1]]);
            }
        }
        assert forall|i: int, j: int| 0 <= i < j < p2.len() implies p2[i] != p2[j] by {
            assert(p[i + 1] != p[j + 1]);
            assert(p[i + 1] != p[0] && p[j + 1] != p[0]);
        }
        assert forall|i: int| 0 <= i < p2.len() implies 0 <= #[trigger] p2[i] < s2.len() by {
            assert(p[i + 1] != p[0]);
        }
        lemma_trees_ids_reorder(s2, t2, p2);
    }
}

/// Sorting keeps the entities of a forest: every id occurs in the sorted
/// forest as often as in the unsorted one.
pub proof fn lemma_sorted_copy_keeps_ids(a: Seq<EntityNode>, b: Seq<EntityNode>)
    requires
        sorted_copy(a, b),
    ensures
        forest_ids(b) == forest_ids(a),
    decreases a,
{
    let p = choose|p: Seq<int>|
        {
            &&& stable_order(a, b, p)
            &&& forall|i: int|
                #![trigger b[i]]
                0 <= i < b.len() ==> {
                    &&& same_fields(a[p[i]], b[i])
                    &&& sorted_copy(a[p[i]].children, b[i].children)
                }
        };
    assert forall|i: int| 0 <= i < b.len() implies tree_ids(#[trigger] b[i]) == tree_ids(a[p[i]]) by {
        assert(decreases_to!(a => a[p[i]]));
        assert(decreases_to!(a => a[p[i]].children));
        lemma_sorted_copy_keeps_ids(a[p[i]].children, b[i].children);
    }
    lemma_trees_ids_reorder(a, b, p);
    lemma_forest_ids_by_trees(a);
    lemma_forest_ids_by_trees(b);
}

/// The entity list that the API answers with holds every entity whose owners
/// lead up to an entity without an owner exactly once, and no other entity:
/// `b` is the forest `f` of the rows sorted at every level.
pub proof fn lemma_listing_holds_rooted_once(
    rows: Seq<EntityRich>,
    f: Seq<EntityNode>,
    b: Seq<EntityNode>,
    x: u32,
)
    requires
        forest_built(rows, f),
        sorted_copy(f, b),
    ensures
        forest_ids(b).count(x) == (if rooted(row_table(rows), x) {
            1nat
        } else {
            0nat
        }),
{
    broadcast use vstd::seq_lib::group_to_multiset_ensures;

    lemma_sorted_copy_keeps_ids(f, b);
    lemma_forest_entities_distinct(rows, f);
    lemma_forest_holds_rooted(rows, f, x);
    node_ids(preorder(f)).lemma_multiset_has_no_duplicates();
    assert(node_ids(preorder(f)).contains(x) <==> node_ids(preorder(f)).to_multiset().count(x) > 0);
}

// ---------------------------------------------------------------------------
// Sorting a sorted forest changes nothing.
// ---------------------------------------------------------------------------
/// Every level of the forest is ordered by id.
pub open spec fn deep_sorted(b: Seq<EntityNode>) -> bool
    decreases b,
{
    &&& forall|i: int, j: int| 0 <= i < j < b.len() ==> b[i].id <= b[j].id
    &&& forall|i: int| #![trigger b[i]] 0 <= i < b.len() ==> deep_sorted(b[i].children)
}

/// The result of sorting is ordered by id at every level.
pub proof fn lemma_sorted_copy_is_sorted(a: Seq<EntityNode>, b: Seq<EntityNode>)
    requires
        sorted_copy(a, b),
    ensures
        deep_sorted(b),
    decreases a,
{
    let p = choose|p: Seq<int>|
        {
            &&& stable_order(a, b, p)
            &&& forall|i: int|
                #![trigger b[i]]
                0 <= i < b.len() ==> {
                    &&& same_fields(a[p[i]], b[i])
                    &&& sorted_copy(a[p[i]].children, b[i].children)
                }
        };
    assert forall|i: int| #![trigger b[i]] 0 <= i < b.len() implies deep_sorted(b[i].children)
        && decreases_to!(b => b[i].children) by {
        assert(decreases_to!(a => a[p[i]]));
        assert(decreases_to!(a => a[p[i]].children));
        lemma_sorted_copy_is_sorted(a[p[i]].children, b[i].children);
        assert(decreases_to!(b => b[i]));
    }
}

/// A bijection of `0..n` onto itself reaches every position.
proof fn lemma_bijection_onto(p: Seq<int>, v: int)
    requires
        forall|i: int| 0 <= i < p.len() ==> 0 <= #[trigger] p[i] < p.len(),
        forall|i: int, j: int| 0 <= i < j < p.len() ==> p[i] != p[j],
        0 <= v < p.len(),
    ensures
        p.contains(v),
{
    broadcast use vstd::seq_lib::seq_to_set_is_finite;

    assert(p.no_duplicates()) by {
        assert forall|i: int, j: int| 0 <= i < p.len() && 0 <= j < p.len() && i != j implies p[i]
            != p[j] by {
            if i > j {
                assert(p[j] != p[i]);
            }
        }
    }
    p.unique_seq_to_set();
    vstd::set_lib::lemma_int_range(0, p.len() as int);
    let r = vstd::set_lib::set_int_range(0, p.len() as int);
    assert(p.to_set().subset_of(r));
    vstd::set_lib::lemma_subset_equality(p.to_set(), r);
    assert(r.contains(v));
}

/// A stable reordering by id of a sequence that is already ordered by id
/// keeps every element in place.
proof fn lemma_stable_order_identity(b: Seq<EntityNode>, c: Seq<EntityNode>, p: Seq<int>, i: int)
    requires
        stable_order(b, c, p),
        forall|k: int| 0 <= k < c.len() ==> #[trigger] c[k].id == b[p[k]].id,
        forall|k: int, l: int| 0 <= k < l < b.len() ==> b[k].id <= b[l].id,
        0 <= i < p.len(),
    ensures
        p[i] == i,
    decreases i,
{
    assert forall|k: int| 0 <= k < i implies #[trigger] p[k] == k by {
        lemma_stable_order_identity(b, c, p, k);
    }
    if p[i] < i {
        assert(p[p[i]] == p[i]);
    }
    if p[i] > i {
        lemma_bijection_onto(p, i);
        let j = choose|j: int| 0 <= j < p.len() && p[j] == i;
        if j < i {
            assert(p[j] == j);
        }
        assert(c[i].id == b[p[i]].id && c[j].id == b[i].id);
        assert(b[i].id <= b[p[i]].id);
        assert(c[i].id <= c[j].id);
    }
}

/// Sorting a forest that is ordered by id at every level gives it back.
pub proof fn lemma_sorted_copy_of_sorted(b: Seq<EntityNode>, c: Seq<EntityNode>)
    requires
        deep_sorted(b),
        sorted_copy(b, c),
    ensures
        c == b,
    decreases b,
{
    let p = choose|p: Seq<int>|
        {
            &&& stable_order(b, c, p)
            &&& forall|i: int|
                #![trigger c[i]]
                0 <= i < c.len() ==> {
                    &&& same_fields(b[p[i]], c[i])
                    &&& sorted_copy(b[p[i]].children, c[i].children)
                }
        };
    assert forall|k: int| 0 <= k < c.len() implies #[trigger] c[k].id == b[p[k]].id by {
        assert(same_fields(b[p[k]], c[k]));
    }
    assert forall|i: int| 0 <= i < c.len() implies #[trigger] c[i] == b[i] by {
        lemma_stable_order_identity(b, c, p, i);
        assert(same_fields(b[i], c[i]));
        assert(decreases_to!(b => b[i]));
        assert(decreases_to!(b => b[i].children));
        assert(deep_sorted(b[i].children));
        lemma_sorted_copy_of_sorted(b[i].children, c[i].children);
        assert(c[i] =~= b[i]);
    }
    assert(c =~= b);
}

/// Sorting twice gives the same as sorting once.
pub proof fn lemma_sort_idempotent(a: Seq<EntityNode>, b: Seq<EntityNode>, c: Seq<EntityNode>)
    requires
        sorted_copy(a, b),
        sorted_copy(b, c),
    ensures
        c == b,
{
    lemma_sorted_copy_is_sorted(a, b);
    lemma_sorted_copy_of_sorted(b, c);
}

} // verus!
