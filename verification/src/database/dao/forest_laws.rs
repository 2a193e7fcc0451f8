//! Laws of the entity forest: an entity whose owners lead up to an entity
//! without an owner is on no cycle of owners, and no entity appears twice
//! in the forest.
use vstd::prelude::*;

use crate::database::dao::entity_dao::{
    all_built,
    forest_built,
    ids_with_parent,
    lemma_below_has_owner_path,
    descends_from,
    lemma_cycle_reaches_owner,
    lemma_distinct_subseq_len,
    lemma_ids_with_parent,
    lemma_node_built_children,
    lemma_top_not_on_cycle,
    lemma_owned_below,
    lemma_preorder_built,
    lemma_preorder_member,
    lemma_row_ids,
    node_built,
    on_owner_cycle,
    owned_by_next,
    owner_path,
    rooted,
    row_ids,
    row_table,
    EntityRich,
};
use crate::util::entity_tree::{
    lemma_node_ids_contains,
    lemma_preorder_closed,
    lemma_preorder_has_roots,
    node_ids,
    preorder,
    EntityNode,
};

verus! {

/// Two owner paths from the same entity agree as far as both go: an entity
/// has one owner.
pub proof fn lemma_owner_paths_agree(tbl: Map<u32, EntityRich>, a: Seq<u32>, b: Seq<u32>, i: int)
    requires
        owner_path(tbl, a),
        owner_path(tbl, b),
        a.len() >= 1,
        b.len() >= 1,
        a[0] == b[0],
        0 <= i < a.len(),
        i < b.len(),
    ensures
        a[i] == b[i],
    decreases i,
{
    if i > 0 {
        lemma_owner_paths_agree(tbl, a, b, i - 1);
        assert(owned_by_next(tbl, a, i - 1));
        assert(owned_by_next(tbl, b, i - 1));
    }
}

/// Following owners from `x` for `i` steps stays on a cycle through `x`.
proof fn lemma_path_stays_on_cycle(tbl: Map<u32, EntityRich>, r: Seq<u32>, c: Seq<u32>, i: int) -> (j: int)
    requires
        owner_path(tbl, r),
        owner_path(tbl, c),
        c.len() >= 2,
        r.len() >= 1,
        r[0] == c[0],
        c.last() == c[0],
        0 <= i < r.len(),
    ensures
        0 <= j < c.len() - 1,
        r[i] == c[j],
    decreases i,
{
    if i == 0 {
        0
    } else {
        let k = lemma_path_stays_on_cycle(tbl, r, c, i - 1);
        assert(owned_by_next(tbl, r, i - 1));
        assert(owned_by_next(tbl, c, k));
        if k + 1 == c.len() - 1 {
            0
        } else {
            k + 1
        }
    }
}

/// An entity whose owners lead up to an entity without an owner is on no
/// cycle of owners.
pub proof fn lemma_rooted_not_on_cycle(tbl: Map<u32, EntityRich>, x: u32)
    requires
        rooted(tbl, x),
    ensures
        !on_owner_cycle(tbl, x),
{
    if on_owner_cycle(tbl, x) {
        let r = choose|path: Seq<u32>|
            path.len() >= 1 && path[0] == x && owner_path(tbl, path) && tbl.contains_key(path.last())
                && tbl[path.last()].parent_id is None;
        let c = choose|path: Seq<u32>|
            path.len() >= 2 && path[0] == x && path.last() == x && owner_path(tbl, path);
        let j = lemma_path_stays_on_cycle(tbl, r, c, r.len() - 1);
        assert(owned_by_next(tbl, c, j));
    }
}

/// A path of owners that leads from one entity owned by `key` to another
/// entity owned by `key` (or to the same one) cannot exist when `key` is no
/// owner or an entity whose owners lead up to an entity without an owner.
proof fn lemma_no_path_between_siblings(
    tbl: Map<u32, EntityRich>,
    key: Option<u32>,
    path: Seq<u32>,
)
    requires
        key matches Some(p) ==> !on_owner_cycle(tbl, p),
    ensures
        !(path.len() >= 2 && owner_path(tbl, path) && tbl.contains_key(path.last())
            && tbl[path[0]].parent_id == key && tbl[path.last()].parent_id == key),
{
    if path.len() >= 2 && owner_path(tbl, path) && tbl.contains_key(path.last())
        && tbl[path[0]].parent_id == key && tbl[path.last()].parent_id == key {
        assert(owned_by_next(tbl, path, 0));
        let p = path[1];
        assert(key == Some(p));
        let n = path.len();
        let q = path.subrange(1, n as int).push(p);
        assert forall|i: int| 0 <= i < q.len() - 1 implies #[trigger] owned_by_next(tbl, q, i) by {
            if i < n - 2 {
                assert(owned_by_next(tbl, path, i + 1));
            } else {
                assert(q[i] == path.last());
            }
        }
        assert(q[0] == p && q.last() == p);
        assert(on_owner_cycle(tbl, p));
    }
}

/// The ids of a concatenation have no duplicates when neither part has and
/// no id is in both.
proof fn lemma_ids_concat_distinct(a: Seq<EntityNode>, b: Seq<EntityNode>)
    requires
        node_ids(a).no_duplicates(),
        node_ids(b).no_duplicates(),
        forall|x: u32| node_ids(a).contains(x) ==> !node_ids(b).contains(x),
    ensures
        node_ids(a + b).no_duplicates(),
{
    assert(node_ids(a + b) == node_ids(a) + node_ids(b));
    let s = node_ids(a) + node_ids(b);
    assert forall|i: int, j: int| 0 <= i < s.len() && 0 <= j < s.len() && i != j implies s[i]
        != s[j] by {
        if i < a.len() && j >= a.len() {
            assert(node_ids(a)[i] == s[i]);
            assert(node_ids(b)[j - a.len()] == s[j]);
            assert(node_ids(a).contains(s[i]));
        } else if j < a.len() && i >= a.len() {
            assert(node_ids(a)[j] == s[j]);
            assert(node_ids(b)[i - a.len()] == s[i]);
            assert(node_ids(a).contains(s[j]));
        } else if i < a.len() {
            assert(node_ids(a)[i] == s[i] && node_ids(a)[j] == s[j]);
        } else {
            assert(node_ids(b)[i - a.len()] == s[i] && node_ids(b)[j - a.len()] == s[j]);
        }
    }
}

/// A node of the preorder with the given id.
proof fn lemma_node_with_id(s: Seq<EntityNode>, x: u32) -> (y: EntityNode)
    requires
        node_ids(s).contains(x),
    ensures
        s.contains(y),
        y.id == x,
{
    let k = choose|k: int| 0 <= k < node_ids(s).len() && node_ids(s)[k] == x;
    assert(s[k].id == x);
    s[k]
}

/// For entities owned by `key` (no owner, or an entity whose owners lead up
/// to an entity without an owner), built from the table with distinct ids,
/// no entity appears twice in the preorder of their closures.
pub proof fn lemma_preorder_distinct(
    ids: Seq<u32>,
    tbl: Map<u32, EntityRich>,
    s: Seq<EntityNode>,
    key: Option<u32>,
)
    requires
        ids.no_duplicates(),
        forall|k: u32| tbl.contains_key(k) ==> #[trigger] ids.contains(k),
        all_built(ids, tbl, s),
        node_ids(s).no_duplicates(),
        forall|i: int| 0 <= i < s.len() ==> tbl[(#[trigger] s[i]).id].parent_id == key,
        key matches Some(p) ==> !on_owner_cycle(tbl, p),
    ensures
        node_ids(preorder(s)).no_duplicates(),
    decreases s,
{
    if s.len() == 0 {
        assert(node_ids(preorder(s)) =~= Seq::<u32>::empty());
    } else {
        let s0 = s[0];
        let rest = s.subrange(1, s.len() as int);
        let a = preorder(s0.children);
        let b = preorder(rest);
        assert(preorder(s) == seq![s0] + a + b);
        assert(node_built(ids, tbl, s0));
        assert(tbl[s[0].id].parent_id == key);
        // The entity at the front is on no cycle of owners.
        assert(!on_owner_cycle(tbl, s0.id)) by {
            match key {
                None => {
                    lemma_top_not_on_cycle(tbl, s0.id);
                },
                Some(p) => {
                    if on_owner_cycle(tbl, s0.id) {
                        lemma_cycle_reaches_owner(tbl, s0.id, p);
                    }
                },
            }
        }
        // The children of the front entity.
        lemma_node_built_children(ids, tbl, s0);
        lemma_ids_with_parent(ids, tbl, Some(s0.id));
        assert forall|i: int| 0 <= i < s0.children.len() implies tbl[(
        #[trigger] s0.children[i]).id].parent_id == Some(s0.id) by {
            assert(node_ids(s0.children)[i] == s0.children[i].id);
            assert(ids_with_parent(ids, tbl, Some(s0.id)).contains(s0.children[i].id));
        }
        assert(decreases_to!(s => s0.children)) by {
            assert(decreases_to!(s => s[0]));
        }
        lemma_preorder_distinct(ids, tbl, s0.children, Some(s0.id));
        // The entities after it.
        assert forall|i: int| 0 <= i < rest.len() implies #[trigger] node_built(ids, tbl, rest[i]) by {
            assert(rest[i] == s[i + 1]);
        }
        assert(node_ids(rest) == node_ids(s).subrange(1, s.len() as int));
        assert forall|i: int| 0 <= i < rest.len() implies tbl[(#[trigger] rest[i]).id].parent_id
            == key by {
            assert(rest[i] == s[i + 1]);
        }
        lemma_preorder_distinct(ids, tbl, rest, key);
        // No entity below the front one is the front one.
        assert forall|x: u32| node_ids(seq![s0]).contains(x) implies !node_ids(a).contains(x) by {
            assert(node_ids(seq![s0])[0] == s0.id);
            if node_ids(a).contains(x) {
                let y = lemma_node_with_id(a, x);
                let path = lemma_below_has_owner_path(ids, tbl, s0.children, s0.id, y);
                assert(s[0] == s0);
                lemma_no_path_between_siblings(tbl, key, path);
            }
        }
        lemma_ids_concat_distinct(seq![s0], a);
        // No entity of the front tree is in the following trees.
        assert forall|x: u32| node_ids(seq![s0] + a).contains(x) implies !node_ids(b).contains(x) by {
            if node_ids(b).contains(x) {
                let y2 = lemma_node_with_id(b, x);
                let j = lemma_preorder_member(rest, y2);
                let t = rest[j];
                assert(t == s[j + 1]);
                assert(node_ids(s)[0] == s0.id && node_ids(s)[j + 1] == t.id);
                let y1 = lemma_node_with_id(seq![s0] + a, x);
                let k1 = choose|k: int| 0 <= k < (seq![s0] + a).len() && (seq![s0] + a)[k] == y1;
                if y2 == t {
                    // x names a following sibling.
                    if k1 == 0 {
                        assert(s0.id == t.id);
                    } else {
                        assert(a[k1 - 1] == y1);
                        assert(a.contains(y1));
                        let p1 = lemma_below_has_owner_path(ids, tbl, s0.children, s0.id, y1);
                        lemma_no_path_between_siblings(tbl, key, p1);
                    }
                } else {
                    assert(node_built(ids, tbl, t));
                    lemma_node_built_children(ids, tbl, t);
                    lemma_ids_with_parent(ids, tbl, Some(t.id));
                    assert forall|i: int| 0 <= i < t.children.len() implies tbl[(
                    #[trigger] t.children[i]).id].parent_id == Some(t.id) by {
                        assert(node_ids(t.children)[i] == t.children[i].id);
                        assert(ids_with_parent(ids, tbl, Some(t.id)).contains(t.children[i].id));
                    }
                    let p2 = lemma_below_has_owner_path(ids, tbl, t.children, t.id, y2);
                    if k1 == 0 {
                        // x is the front entity, below a following sibling.
                        lemma_no_path_between_siblings(tbl, key, p2);
                    } else {
                        assert(a[k1 - 1] == y1);
                        assert(a.contains(y1));
                        let p1 = lemma_below_has_owner_path(ids, tbl, s0.children, s0.id, y1);
                        if p1.len() <= p2.len() {
                            lemma_owner_paths_agree(tbl, p1, p2, p1.len() - 1);
                            let rest_path = p2.subrange(p1.len() - 1, p2.len() as int);
                            if rest_path.len() == 1 {
                                assert(s0.id == t.id);
                            } else {
                                assert forall|i: int|
                                    0 <= i < rest_path.len() - 1 implies #[trigger] owned_by_next(
                                    tbl,
                                    rest_path,
                                    i,
                                ) by {
                                    assert(owned_by_next(tbl, p2, i + p1.len() - 1));
                                }
                                assert(tbl.contains_key(t.id));
                                lemma_no_path_between_siblings(tbl, key, rest_path);
                            }
                        } else {
                            lemma_owner_paths_agree(tbl, p1, p2, p2.len() - 1);
                            let rest_path = p1.subrange(p2.len() - 1, p1.len() as int);
                            assert forall|i: int|
                                0 <= i < rest_path.len() - 1 implies #[trigger] owned_by_next(
                                tbl,
                                rest_path,
                                i,
                            ) by {
                                assert(owned_by_next(tbl, p1, i + p2.len() - 1));
                            }
                            assert(tbl.contains_key(s0.id));
                            lemma_no_path_between_siblings(tbl, key, rest_path);
                        }
                    }
                }
            }
        }
        lemma_ids_concat_distinct(seq![s0] + a, b);
    }
}

/// The forest holds exactly the entities whose owners lead up to an entity
/// without an owner: an entity on a cycle of owners, or below an owner that
/// is not among the rows, is in no tree.
pub proof fn lemma_forest_holds_rooted(rows: Seq<EntityRich>, f: Seq<EntityNode>, x: u32)
    requires
        forest_built(rows, f),
    ensures
        node_ids(preorder(f)).contains(x) <==> rooted(row_table(rows), x),
{
    let tbl = row_table(rows);
    let ids = row_ids(rows);
    lemma_row_ids(rows);
    lemma_ids_with_parent(ids, tbl, None);
    lemma_preorder_has_roots(f);
    if node_ids(preorder(f)).contains(x) {
        lemma_node_ids_contains(preorder(f), x);
        let k = choose|k: int| 0 <= k < preorder(f).len() && #[trigger] preorder(f)[k].id == x;
        let d = preorder(f)[k];
        assert(preorder(f).contains(d));
        let j = lemma_preorder_member(f, d);
        let t = f[j];
        assert(node_built(ids, tbl, t));
        assert(node_ids(f)[j] == t.id);
        assert(ids_with_parent(ids, tbl, None).contains(t.id));
        if d == t {
            let path = seq![x];
            assert(owner_path(tbl, path));
        } else {
            lemma_node_built_children(ids, tbl, t);
            lemma_ids_with_parent(ids, tbl, Some(t.id));
            assert forall|i: int| 0 <= i < t.children.len() implies tbl[(
            #[trigger] t.children[i]).id].parent_id == Some(t.id) by {
                assert(node_ids(t.children)[i] == t.children[i].id);
                assert(ids_with_parent(ids, tbl, Some(t.id)).contains(t.children[i].id));
            }
            let path = lemma_below_has_owner_path(ids, tbl, t.children, t.id, d);
            assert(path.last() == t.id);
        }
    }
    if rooted(tbl, x) {
        let path = choose|path: Seq<u32>|
            path.len() >= 1 && path[0] == x && owner_path(tbl, path) && tbl.contains_key(path.last())
                && tbl[path.last()].parent_id is None;
        let r = path.last();
        assert(ids.contains(r));
        assert(ids_with_parent(ids, tbl, None).contains(r));
        lemma_node_ids_contains(f, r);
        let j = choose|j: int| 0 <= j < f.len() && #[trigger] f[j].id == r;
        let t = f[j];
        assert(node_built(ids, tbl, t));
        assert(preorder(f).contains(t));
        if path.len() == 1 {
            lemma_node_ids_contains(preorder(f), x);
            let k = choose|k: int| 0 <= k < preorder(f).len() && preorder(f)[k] == t;
            assert(preorder(f)[k].id == x);
        } else {
            lemma_owned_below(ids, tbl, t, path);
            lemma_node_ids_contains(preorder(t.children), x);
            let k = choose|k: int|
                0 <= k < preorder(t.children).len() && #[trigger] preorder(t.children)[k].id == x;
            assert(preorder(t.children).contains(preorder(t.children)[k]));
            lemma_preorder_closed(f, t, preorder(t.children)[k]);
            lemma_node_ids_contains(preorder(f), x);
            let m = choose|m: int| 0 <= m < preorder(f).len() && preorder(f)[m] == preorder(
                t.children,
            )[k];
            assert(preorder(f)[m].id == x);
        }
    }
}

/// Below an entity on no cycle of owners, the built closures of the entities
/// it owns hold exactly its proper descendants, each once, and never the
/// entity itself; so there are no more of them than ids.
pub proof fn lemma_descendants_once(
    ids: Seq<u32>,
    tbl: Map<u32, EntityRich>,
    s: Seq<EntityNode>,
    x: u32,
)
    requires
        ids.no_duplicates(),
        forall|k: u32| tbl.contains_key(k) ==> #[trigger] ids.contains(k),
        all_built(ids, tbl, s),
        node_ids(s) == ids_with_parent(ids, tbl, Some(x)),
        !on_owner_cycle(tbl, x),
    ensures
        forall|z: u32| #[trigger] node_ids(preorder(s)).contains(z) <==> descends_from(tbl, z, x),
        !node_ids(preorder(s)).contains(x),
        node_ids(preorder(s)).no_duplicates(),
        preorder(s).len() <= ids.len(),
{
    lemma_ids_with_parent(ids, tbl, Some(x));
    assert forall|i: int| 0 <= i < s.len() implies tbl[(#[trigger] s[i]).id].parent_id == Some(x) by {
        assert(node_ids(s)[i] == s[i].id);
        assert(ids_with_parent(ids, tbl, Some(x)).contains(s[i].id));
    }
    lemma_preorder_distinct(ids, tbl, s, Some(x));
    lemma_preorder_has_roots(s);
    let p = preorder(s);
    assert forall|z: u32| #[trigger] node_ids(p).contains(z) <==> descends_from(tbl, z, x) by {
        if node_ids(p).contains(z) {
            let y = lemma_node_with_id(p, z);
            let path = lemma_below_has_owner_path(ids, tbl, s, x, y);
            assert(path.len() >= 2 && path[0] == z && path.last() == x && owner_path(tbl, path));
        }
        if descends_from(tbl, z, x) {
            let q = choose|path: Seq<u32>|
                path.len() >= 2 && path[0] == z && path.last() == x && owner_path(tbl, path);
            let n = q.len();
            let w = q[n - 2];
            assert(owned_by_next(tbl, q, n - 2));
            assert(ids.contains(w));
            assert(ids_with_parent(ids, tbl, Some(x)).contains(w));
            lemma_node_ids_contains(s, w);
            let j = choose|j: int| 0 <= j < s.len() && #[trigger] s[j].id == w;
            assert(node_built(ids, tbl, s[j]));
            assert(p.contains(s[j]));
            if n == 2 {
                let k = choose|k: int| 0 <= k < p.len() && p[k] == s[j];
                assert(node_ids(p)[k] == z);
            } else {
                let q1 = q.subrange(0, n - 1);
                assert forall|i: int| 0 <= i < q1.len() - 1 implies #[trigger] owned_by_next(
                    tbl,
                    q1,
                    i,
                ) by {
                    assert(owned_by_next(tbl, q, i));
                }
                lemma_owned_below(ids, tbl, s[j], q1);
                let y = lemma_node_with_id(preorder(s[j].children), z);
                lemma_preorder_closed(s, s[j], y);
                let k = choose|k: int| 0 <= k < p.len() && p[k] == y;
                assert(node_ids(p)[k] == z);
            }
        }
    }
    if node_ids(p).contains(x) {
        assert(descends_from(tbl, x, x));
        let q = choose|path: Seq<u32>|
            path.len() >= 2 && path[0] == x && path.last() == x && owner_path(tbl, path);
        assert(on_owner_cycle(tbl, x));
    }
    assert forall|i: int| 0 <= i < node_ids(p).len() implies ids.contains(#[trigger] node_ids(p)[i]) by {
        assert(p.contains(p[i]));
        lemma_preorder_built(ids, tbl, s, p[i]);
        assert(node_ids(p)[i] == p[i].id);
    }
    lemma_distinct_subseq_len(node_ids(p), ids);
}

/// No entity appears twice in the forest built from the rows.
pub proof fn lemma_forest_entities_distinct(rows: Seq<EntityRich>, f: Seq<EntityNode>)
    requires
        forest_built(rows, f),
    ensures
        node_ids(preorder(f)).no_duplicates(),
{
    let tbl = row_table(rows);
    let ids = row_ids(rows);
    lemma_row_ids(rows);
    lemma_ids_with_parent(ids, tbl, None);
    assert forall|i: int| 0 <= i < f.len() implies tbl[(#[trigger] f[i]).id].parent_id is None by {
        assert(node_ids(f)[i] == f[i].id);
        assert(ids_with_parent(ids, tbl, None).contains(f[i].id));
    }
    lemma_preorder_distinct(ids, tbl, f, None);
}

/// Every node of the forest built from the rows carries its own row: the
/// entity's id is in the table and the node's user, tag, name, owner and
/// owner's name are those of the row with that id, whether or not the node
/// owns anything; and its children are exactly the entities whose row names
/// it as owner.
pub proof fn lemma_forest_nodes_carry_rows(rows: Seq<EntityRich>, forest: Seq<EntityNode>)
    requires
        forest_built(rows, forest),
    ensures
        forall|n: EntityNode|
            #[trigger] preorder(forest).contains(n) ==> {
                let r = row_table(rows)[n.id];
                &&& row_table(rows).contains_key(n.id)
                &&& r.entity_id == n.id
                &&& n.user_id == r.user_id
                &&& n.tag_uid == r.tag_uid
                &&& n.name == r.name
                &&& n.parent_id == r.parent_id
                &&& n.parent_name == r.parent_name
                &&& forall|k: u32|
                    #[trigger] node_ids(n.children).contains(k) <==> (row_table(rows).contains_key(k)
                        && row_table(rows)[k].parent_id == Some(n.id))
            },
{
    let ids = row_ids(rows);
    let tbl = row_table(rows);
    lemma_row_ids(rows);
    lemma_row_table_keys(rows);
    assert forall|n: EntityNode| #[trigger] preorder(forest).contains(n) implies {
        let r = tbl[n.id];
        &&& tbl.contains_key(n.id)
        &&& r.entity_id == n.id
        &&& n.user_id == r.user_id
        &&& n.tag_uid == r.tag_uid
        &&& n.name == r.name
        &&& n.parent_id == r.parent_id
        &&& n.parent_name == r.parent_name
        &&& forall|k: u32|
            #[trigger] node_ids(n.children).contains(k) <==> (tbl.contains_key(k) && tbl[k].parent_id
                == Some(n.id))
    } by {
        lemma_preorder_built(ids, tbl, forest, n);
        lemma_ids_with_parent(ids, tbl, Some(n.id));
    }
}

/// The table maps each id to a row with that id.
proof fn lemma_row_table_keys(rows: Seq<EntityRich>)
    ensures
        forall|k: u32| #[trigger] row_table(rows).contains_key(k) ==> row_table(rows)[k].entity_id == k,
    decreases rows.len(),
{
    if rows.len() > 0 {
        lemma_row_table_keys(rows.drop_last());
    }
}

} // verus!
