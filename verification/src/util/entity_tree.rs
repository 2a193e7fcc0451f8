//! The mathematical model of an entity closure: an entity's fields and the
//! closures of the entities that it owns.  The closure types of the database,
//! service and controller layers all view to this model.
use vstd::prelude::*;

verus! {

/// An entity with the closures of the entities that it owns.
#[verifier::ext_equal]
pub struct EntityNode {
    pub id: u32,
    pub user_id: u32,
    pub tag_uid: Option<String>,
    pub name: String,
    pub parent_id: Option<u32>,
    pub parent_name: Option<String>,
    pub children: Seq<EntityNode>,
}

/// The ids of a sequence of nodes.
pub open spec fn node_ids(s: Seq<EntityNode>) -> Seq<u32> {
    s.map_values(|n: EntityNode| n.id)
}

/// All nodes of a forest in preorder: each node, then the nodes below it,
/// then the following trees.
pub open spec fn preorder(s: Seq<EntityNode>) -> Seq<EntityNode>
    decreases s,
{
    if s.len() == 0 {
        Seq::empty()
    } else {
        seq![s[0]] + preorder(s[0].children) + preorder(s.subrange(1, s.len() as int))
    }
}

/// The first node of the sequence with the given id.
pub open spec fn first_with_id(p: Seq<EntityNode>, id: u32) -> Option<EntityNode>
    decreases p.len(),
{
    if p.len() == 0 {
        None
    } else if p[0].id == id {
        Some(p[0])
    } else {
        first_with_id(p.subrange(1, p.len() as int), id)
    }
}

/// The first node with an id in a concatenation is the first one in the
/// front part, if it has one, else the first one in the back part.
pub proof fn lemma_first_with_id_append(a: Seq<EntityNode>, b: Seq<EntityNode>, id: u32)
    ensures
        first_with_id(a + b, id) == (match first_with_id(a, id) {
            Some(n) => Some(n),
            None => first_with_id(b, id),
        }),
    decreases a.len(),
{
    if a.len() > 0 {
        assert((a + b).subrange(1, (a + b).len() as int) == a.subrange(1, a.len() as int) + b);
        lemma_first_with_id_append(a.subrange(1, a.len() as int), b, id);
    } else {
        assert(a + b == b);
    }
}

/// The first node with an id is a node of the sequence with that id, and
/// there is none exactly when no node has the id.
pub proof fn lemma_first_with_id(p: Seq<EntityNode>, id: u32)
    ensures
        first_with_id(p, id) is None <==> !node_ids(p).contains(id),
        first_with_id(p, id) matches Some(n) ==> n.id == id && p.contains(n),
    decreases p.len(),
{
    if p.len() > 0 {
        let rest = p.subrange(1, p.len() as int);
        lemma_first_with_id(rest, id);
        if p[0].id == id {
            assert(node_ids(p)[0] == id);
            assert(p.contains(p[0]));
        } else {
            assert forall|k: int| 0 <= k < node_ids(p).len() implies node_ids(p)[k] != id
                || (k > 0 && node_ids(rest)[k - 1] == id) by {
                if k > 0 {
                    assert(node_ids(p)[k] == node_ids(rest)[k - 1]);
                }
            }
            if node_ids(rest).contains(id) {
                let k = choose|k: int| 0 <= k < node_ids(rest).len() && node_ids(rest)[k] == id;
                assert(node_ids(p)[k + 1] == id);
            }
            if first_with_id(rest, id) is Some {
                let n = first_with_id(rest, id).unwrap();
                let k = choose|k: int| 0 <= k < rest.len() && rest[k] == n;
                assert(p[k + 1] == n);
            }
        }
    }
}

/// The preorder of a sequence that starts with a node: the node, the
/// preorder of its children, then the preorder of the rest.
pub proof fn lemma_preorder_cons(s: Seq<EntityNode>)
    requires
        s.len() > 0,
    ensures
        preorder(s) == seq![s[0]] + preorder(s[0].children) + preorder(s.drop_first()),
{
    assert(s.drop_first() == s.subrange(1, s.len() as int));
}

/// An id is among the ids of a sequence exactly when a node of it has the id.
pub proof fn lemma_node_ids_contains(s: Seq<EntityNode>, id: u32)
    ensures
        node_ids(s).contains(id) <==> exists|j: int| 0 <= j < s.len() && #[trigger] s[j].id == id,
{
    if node_ids(s).contains(id) {
        let j = choose|j: int| 0 <= j < node_ids(s).len() && node_ids(s)[j] == id;
        assert(s[j].id == id);
    }
    if exists|j: int| 0 <= j < s.len() && #[trigger] s[j].id == id {
        let j = choose|j: int| 0 <= j < s.len() && #[trigger] s[j].id == id;
        assert(node_ids(s)[j] == id);
    }
}

/// Every tree root of a forest is a node of its preorder.
pub proof fn lemma_preorder_has_roots(s: Seq<EntityNode>)
    ensures
        forall|i: int| 0 <= i < s.len() ==> preorder(s).contains(#[trigger] s[i]),
    decreases s.len(),
{
    if s.len() > 0 {
        let rest = s.subrange(1, s.len() as int);
        lemma_preorder_has_roots(rest);
        assert(preorder(s)[0] == s[0]);
        assert forall|i: int| 0 < i < s.len() implies preorder(s).contains(#[trigger] s[i]) by {
            assert(rest[i - 1] == s[i]);
            let k = choose|k: int| 0 <= k < preorder(rest).len() && preorder(rest)[k] == s[i];
            let off = 1 + preorder(s[0].children).len();
            assert(preorder(s)[off + k] == s[i]);
        }
    }
}

/// The preorder of the children of a node of a forest's preorder is part of
/// that preorder.
pub proof fn lemma_preorder_closed(s: Seq<EntityNode>, d: EntityNode, x: EntityNode)
    requires
        preorder(s).contains(d),
        preorder(d.children).contains(x),
    ensures
        preorder(s).contains(x),
    decreases s,
{
    let rest = s.subrange(1, s.len() as int);
    let a = preorder(s[0].children);
    let b = preorder(rest);
    assert(preorder(s) == seq![s[0]] + a + b);
    let k = choose|k: int| 0 <= k < preorder(s).len() && preorder(s)[k] == d;
    if k == 0 {
        let m = choose|m: int| 0 <= m < a.len() && a[m] == x;
        assert(preorder(s)[1 + m] == x);
    } else if k < 1 + a.len() {
        assert(a[k - 1] == d);
        assert(decreases_to!(s => s[0].children)) by {
            assert(decreases_to!(s => s[0]));
        }
        lemma_preorder_closed(s[0].children, d, x);
        let m = choose|m: int| 0 <= m < a.len() && a[m] == x;
        assert(preorder(s)[1 + m] == x);
    } else {
        assert(b[k - 1 - a.len()] == d);
        lemma_preorder_closed(rest, d, x);
        let m = choose|m: int| 0 <= m < b.len() && b[m] == x;
        assert(preorder(s)[1 + a.len() + m] == x);
    }
}

} // verus!
