use nfc_scanner::database::entity_dao::{get_entity, EntityNotFound, EntityTable};

fn row(id: u32, parent: Option<u32>, name: &str) -> EntityTable {
    EntityTable {
        id,
        user_id: 1,
        tag_uid: format!("tag{}", id),
        name: name.to_string(),
        parrent_id: parent,
    }
}

#[test]
fn entity_with_owner_and_children() {
    let rows = vec![
        row(1, None, "grandparent"),
        row(2, Some(1), "main"),
        row(3, Some(2), "child 1"),
        row(4, Some(2), "child 2"),
    ];
    let c = get_entity(rows, 2).ok().unwrap();
    assert_eq!(c.entity.id, 2);
    assert_eq!(c.entity.name, "main");
    assert_eq!(c.parrent.as_ref().map(|p| p.id), Some(1));
    let child_ids: Vec<u32> = c.children.iter().map(|e| e.id).collect();
    assert_eq!(child_ids, vec![3, 4]);
}

#[test]
fn missing_entity_is_an_error_naming_the_id() {
    let rows = vec![row(1, None, "a")];
    let e = get_entity(rows, 7).err().unwrap();
    assert_eq!(e.id, 7);
    assert_eq!(e.message(), "Entity with id=7 not found");
    let e = get_entity(Vec::new(), 1).err().unwrap();
    assert_eq!(e.message(), "Entity with id=1 not found");
}

#[test]
fn not_found_message_renders_the_id_in_decimal() {
    assert_eq!(EntityNotFound { id: 42 }.message(), "Entity with id=42 not found");
    assert_eq!(EntityNotFound { id: 0 }.message(), "Entity with id=0 not found");
    assert_eq!(EntityNotFound { id: 100 }.message(), "Entity with id=100 not found");
    assert_eq!(EntityNotFound { id: u32::MAX }.message(), "Entity with id=4294967295 not found");
}

#[test]
fn entity_without_owner_or_with_owner_not_in_rows() {
    let c = get_entity(vec![row(1, None, "a")], 1).ok().unwrap();
    assert!(c.parrent.is_none());
    assert!(c.children.is_empty());
    let c = get_entity(vec![row(1, Some(9), "a")], 1).ok().unwrap();
    assert!(c.parrent.is_none());
}

#[test]
fn later_rows_replace_earlier_ones() {
    let rows = vec![row(1, None, "old"), row(2, Some(1), "child"), row(1, None, "new"), row(2, Some(1), "child2")];
    let c = get_entity(rows, 1).ok().unwrap();
    assert_eq!(c.entity.name, "new");
    assert_eq!(c.children.len(), 1);
    assert_eq!(c.children[0].name, "child2");
}

#[test]
fn entity_owning_itself_is_its_own_owner_and_child() {
    let c = get_entity(vec![row(1, Some(1), "loop")], 1).ok().unwrap();
    assert_eq!(c.parrent.as_ref().map(|p| p.id), Some(1));
    assert_eq!(c.children.len(), 1);
}
