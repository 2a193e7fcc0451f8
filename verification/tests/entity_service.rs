use nfc_scanner::database::dao::entity_dao::{self, EntityRich, EntityTable};
use nfc_scanner::services::entity_service::{
    check_parent_update, get_entity_closure, get_entity_closures, patched_entity, Entity,
    EntityClosure, PatchEntity, USER_ID,
};
use nfc_scanner::services::errors::ServiceError;
use nfc_scanner::util::Maybe;

fn row(id: u32, parent: Option<u32>, name: &str) -> EntityRich {
    EntityRich {
        entity_id: id,
        user_id: 1,
        tag_uid: Some(format!("tag{}", id)),
        name: name.to_string(),
        parent_id: parent,
        parent_name: None,
    }
}

/// 1 -> 2 -> (3, 4), 5; and 6 below 3.
fn forest() -> Vec<entity_dao::EntityClosure> {
    entity_dao::get_entity_closures(vec![
        row(1, None, "a"),
        row(2, Some(1), "b"),
        row(3, Some(2), "c"),
        row(4, Some(2), "d"),
        row(5, None, "e"),
        row(6, Some(3), "f"),
    ])
}

fn ids(s: &[EntityClosure]) -> Vec<u32> {
    s.iter().map(|c| c.id).collect()
}

#[test]
fn user_id_is_fixed() {
    assert_eq!(USER_ID, 1);
}

#[test]
fn service_closures_keep_the_forest() {
    let closures = get_entity_closures(forest());
    assert_eq!(ids(&closures), vec![1, 5]);
    assert_eq!(closures[0].name, "a");
    assert_eq!(closures[0].tag_uid, Some("tag1".to_string()));
    assert_eq!(ids(&closures[0].children), vec![2]);
    assert_eq!(ids(&closures[0].children[0].children), vec![3, 4]);
    assert_eq!(ids(&closures[0].children[0].children[0].children), vec![6]);
}

#[test]
fn find_entity_at_any_depth() {
    let found = EntityClosure::find_entity(get_entity_closures(forest()), 3).unwrap();
    assert_eq!(found.id, 3);
    assert_eq!(found.name, "c");
    assert_eq!(ids(&found.children), vec![6]);
    let found = EntityClosure::find_entity(get_entity_closures(forest()), 5).unwrap();
    assert_eq!(found.id, 5);
    assert!(EntityClosure::find_entity(get_entity_closures(forest()), 42).is_none());
    assert!(EntityClosure::find_entity(Vec::new(), 1).is_none());
}

#[test]
fn find_entity_takes_first_in_preorder() {
    let leaf = |id: u32, name: &str| EntityClosure {
        id,
        user_id: 1,
        tag_uid: None,
        name: name.to_string(),
        parent_id: None,
        parent_name: None,
        children: Vec::new(),
    };
    let mut first = leaf(1, "first");
    first.children.push(leaf(7, "deep"));
    let forest = vec![first, leaf(7, "shallow")];
    let found = EntityClosure::find_entity(forest, 7).unwrap();
    assert_eq!(found.name, "deep");
}

#[test]
fn entity_closure_by_id() {
    let c = get_entity_closure(forest(), 2).unwrap();
    assert_eq!(c.id, 2);
    assert_eq!(ids(&c.children), vec![3, 4]);
    assert!(matches!(get_entity_closure(forest(), 99), Err(ServiceError::NotFound)));
}

#[test]
fn owner_may_not_be_the_entity_itself() {
    let existing = get_entity_closure(forest(), 2).unwrap();
    assert!(matches!(
        check_parent_update(existing, 2, Some(2)),
        Err(ServiceError::CircularReference)
    ));
}

#[test]
fn owner_may_not_be_below_the_entity() {
    let existing = get_entity_closure(forest(), 1).unwrap();
    assert!(matches!(
        check_parent_update(existing, 1, Some(6)),
        Err(ServiceError::CircularReference)
    ));
    let existing = get_entity_closure(forest(), 2).unwrap();
    assert!(matches!(
        check_parent_update(existing, 2, Some(3)),
        Err(ServiceError::CircularReference)
    ));
}

#[test]
fn other_owners_are_accepted() {
    let existing = get_entity_closure(forest(), 2).unwrap();
    assert!(check_parent_update(existing, 2, Some(5)).is_ok());
    let existing = get_entity_closure(forest(), 3).unwrap();
    assert!(check_parent_update(existing, 3, Some(1)).is_ok());
    let existing = get_entity_closure(forest(), 3).unwrap();
    assert!(check_parent_update(existing, 3, None).is_ok());
    // An owner that is not an entity at all is not the check's concern.
    let existing = get_entity_closure(forest(), 4).unwrap();
    assert!(check_parent_update(existing, 4, Some(1000)).is_ok());
}

fn table() -> EntityTable {
    EntityTable {
        entity_id: 9,
        user_id: 1,
        tag_uid: Some("old-tag".to_string()),
        name: "old".to_string(),
        parent_id: Some(3),
    }
}

#[test]
fn empty_patch_keeps_everything() {
    let update = patched_entity(table(), PatchEntity { tag_uid: None, name: None, parent_id: None });
    assert_eq!(update.tag_uid, Some("old-tag".to_string()));
    assert_eq!(update.name, "old");
    assert_eq!(update.parent_id, Some(3));
}

#[test]
fn patch_replaces_given_fields() {
    let update = patched_entity(
        table(),
        PatchEntity {
            tag_uid: Some("new-tag".to_string()),
            name: Some("new".to_string()),
            parent_id: Some(Maybe { value: Some(4) }),
        },
    );
    assert_eq!(update.tag_uid, Some("new-tag".to_string()));
    assert_eq!(update.name, "new");
    assert_eq!(update.parent_id, Some(4));
}

#[test]
fn patch_can_clear_the_owner() {
    let update = patched_entity(
        table(),
        PatchEntity { tag_uid: None, name: Some("n".to_string()), parent_id: Some(Maybe { value: None }) },
    );
    assert_eq!(update.parent_id, None);
    assert_eq!(update.tag_uid, Some("old-tag".to_string()));
}

#[test]
fn entity_from_joined_row() {
    let mut r = row(2, Some(1), "b");
    r.parent_name = Some("a".to_string());
    let e = Entity::from_rich_entity(r);
    assert_eq!(e.id, 2);
    assert_eq!(e.user_id, 1);
    assert_eq!(e.tag_uid, Some("tag2".to_string()));
    assert_eq!(e.name, "b");
    assert_eq!(e.parent_id, Some(1));
    assert_eq!(e.parent_name, Some("a".to_string()));
}

#[test]
fn current_owner_and_empty_patch_are_accepted() {
    let existing = get_entity_closure(forest(), 3).unwrap();
    let owner = existing.parent_id;
    assert_eq!(owner, Some(2));
    assert!(check_parent_update(existing, 3, owner).is_ok());
    let entity = EntityTable { entity_id: 3, user_id: 1, tag_uid: Some("tag3".to_string()), name: "c".to_string(), parent_id: Some(2) };
    let update = patched_entity(entity, PatchEntity { tag_uid: None, name: None, parent_id: None });
    assert_eq!(update.parent_id, Some(2));
    let existing = get_entity_closure(forest(), 3).unwrap();
    assert!(check_parent_update(existing, 3, update.parent_id).is_ok());
}
