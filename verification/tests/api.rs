use nfc_scanner::controllers::audit_log_routes::ParentHistoryEntry;
use nfc_scanner::controllers::entity_routes::{
    sort_entities, sorted_entity_dtos, CreateEntityDTO, EntityClosureDTO, EntityDTO,
};
use nfc_scanner::controllers::errors::AppError;
use nfc_scanner::controllers::user_routes::UserDTO;
use nfc_scanner::database::dao::audit_log_dao::ParentHistoryTable;
use nfc_scanner::database::dao::entity_dao::{self, EntityRich};
use nfc_scanner::database::errors::DatabaseError;
use nfc_scanner::services::entity_service::{self, CreateEntity, Entity};
use nfc_scanner::services::errors::ServiceError;
use nfc_scanner::services::user_service::User;

fn dto(id: u32, name: &str, children: Vec<EntityClosureDTO>) -> EntityClosureDTO {
    EntityClosureDTO {
        id,
        user_id: 1,
        tag_uid: None,
        name: name.to_string(),
        parent_id: None,
        parent_name: None,
        children,
    }
}

fn ids(s: &[EntityClosureDTO]) -> Vec<u32> {
    s.iter().map(|c| c.id).collect()
}

#[test]
fn sort_orders_every_level_by_id() {
    let mut v = vec![
        dto(5, "e", vec![dto(9, "i", vec![]), dto(7, "g", vec![dto(8, "h", vec![]), dto(6, "f", vec![])])]),
        dto(1, "a", vec![dto(3, "c", vec![]), dto(2, "b", vec![])]),
    ];
    sort_entities(&mut v);
    assert_eq!(ids(&v), vec![1, 5]);
    assert_eq!(ids(&v[0].children), vec![2, 3]);
    assert_eq!(ids(&v[1].children), vec![7, 9]);
    assert_eq!(ids(&v[1].children[0].children), vec![6, 8]);
    assert_eq!(v[1].children[0].children[1].name, "h");
}

#[test]
fn sort_keeps_equal_ids_in_order() {
    let mut v = vec![dto(2, "x", vec![]), dto(1, "y", vec![]), dto(2, "z", vec![]), dto(1, "w", vec![])];
    sort_entities(&mut v);
    let names: Vec<&str> = v.iter().map(|c| c.name.as_str()).collect();
    assert_eq!(names, vec!["y", "w", "x", "z"]);
}

#[test]
fn sort_of_empty_and_sorted_lists() {
    let mut v: Vec<EntityClosureDTO> = Vec::new();
    sort_entities(&mut v);
    assert!(v.is_empty());
    let mut v = vec![dto(1, "a", vec![]), dto(2, "b", vec![])];
    sort_entities(&mut v);
    assert_eq!(ids(&v), vec![1, 2]);
}

#[test]
fn closure_dto_keeps_the_tree() {
    let rows = vec![
        EntityRich { entity_id: 1, user_id: 3, tag_uid: Some("t".to_string()), name: "a".to_string(), parent_id: None, parent_name: None },
        EntityRich { entity_id: 2, user_id: 3, tag_uid: None, name: "b".to_string(), parent_id: Some(1), parent_name: Some("a".to_string()) },
    ];
    let closures = entity_service::get_entity_closures(entity_dao::get_entity_closures(rows));
    let d: Vec<EntityClosureDTO> = closures.into_iter().map(EntityClosureDTO::from_entity_closure).collect();
    assert_eq!(ids(&d), vec![1]);
    assert_eq!(d[0].user_id, 3);
    assert_eq!(d[0].tag_uid, Some("t".to_string()));
    assert_eq!(ids(&d[0].children), vec![2]);
    assert_eq!(d[0].children[0].parent_name, Some("a".to_string()));
}

#[test]
fn listing_is_sorted_by_id_at_every_level() {
    let rich = |id: u32, parent: Option<u32>| EntityRich {
        entity_id: id,
        user_id: 1,
        tag_uid: None,
        name: format!("e{}", id),
        parent_id: parent,
        parent_name: parent.map(|p| format!("e{}", p)),
    };
    let rows = vec![rich(5, None), rich(2, None), rich(9, Some(2)), rich(3, Some(2)), rich(7, Some(5))];
    let closures = entity_service::get_entity_closures(entity_dao::get_entity_closures(rows));
    let d = sorted_entity_dtos(closures);
    assert_eq!(ids(&d), vec![2, 5]);
    assert_eq!(ids(&d[0].children), vec![3, 9]);
    assert_eq!(ids(&d[1].children), vec![7]);
    assert_eq!(d[0].children[1].name, "e9");
    assert!(sorted_entity_dtos(Vec::new()).is_empty());
}

#[test]
fn create_entity_dto_becomes_create_entity() {
    let c: CreateEntity = CreateEntityDTO { tag_uid: "abc".to_string(), name: "n".to_string(), parent_id: Some(4) }.into();
    assert_eq!(c.tag_uid, Some("abc".to_string()));
    assert_eq!(c.name, "n");
    assert_eq!(c.parent_id, Some(4));
}

#[test]
fn entity_dto_and_user_dto() {
    let e = Entity { id: 4, user_id: 1, tag_uid: Some("t".to_string()), name: "n".to_string(), parent_id: Some(2), parent_name: Some("p".to_string()) };
    let d = EntityDTO::from(e);
    assert_eq!(d.id, 4);
    assert_eq!(d.tag_uid, Some("t".to_string()));
    assert_eq!(d.name, "n");
    assert_eq!(d.parent_id, Some(2));
    assert_eq!(d.parent_name, Some("p".to_string()));
    let u = UserDTO::from_user(User { id: 7, name: "Mark".to_string(), username: "Static".to_string() });
    assert_eq!((u.id, u.name.as_str(), u.username.as_str()), (7, "Mark", "Static"));
}

#[test]
fn history_entry_keeps_the_change() {
    let at = chrono::NaiveDate::from_ymd_opt(2024, 5, 1).unwrap().and_hms_opt(12, 0, 0).unwrap();
    let h = ParentHistoryEntry::from_history(ParentHistoryTable {
        parent_history_id: 1,
        entity_name: "Glock".to_string(),
        old_parent_name: Some("BankBox".to_string()),
        new_parent_name: Some("Lasse".to_string()),
        created_at: at,
    });
    assert_eq!(h.entity_name, "Glock");
    assert_eq!(h.old_parent_name, Some("BankBox".to_string()));
    assert_eq!(h.new_parent_name, Some("Lasse".to_string()));
    assert_eq!(h.created_at, at);
}

#[test]
fn database_errors() {
    assert!(matches!(DatabaseError::from_query_failure(true, "x".to_string()), DatabaseError::NotFound));
    assert!(matches!(
        DatabaseError::from_query_failure(false, "broken".to_string()),
        DatabaseError::DatabaseError(m) if m == "broken"
    ));
}

#[test]
fn service_errors_from_database_errors() {
    assert!(matches!(ServiceError::from(DatabaseError::NotFound), ServiceError::NotFound));
    assert!(matches!(
        ServiceError::from(DatabaseError::DatabaseError("db".to_string())),
        ServiceError::InternalServerError(m) if m == "db"
    ));
    assert!(matches!(
        ServiceError::from(DatabaseError::InternalServerError("other".to_string())),
        ServiceError::InternalServerError(m) if m == "other"
    ));
}

#[test]
fn app_errors_and_their_responses() {
    let e = AppError::from(ServiceError::NotFound);
    assert!(matches!(e, AppError::NotFound));
    assert_eq!(e.status_code(), 404);
    assert_eq!(e.message(), "Not found");
    let e = AppError::from(ServiceError::InternalServerError("disk full".to_string()));
    assert_eq!(e.status_code(), 500);
    assert_eq!(e.message(), "Internal server error: disk full");
    let e = AppError::from(ServiceError::CircularReference);
    assert_eq!(e.status_code(), 400);
    assert_eq!(e.message(), "Bad request: Circular reference");
    assert_eq!(AppError::BadRequest("x".to_string()).message(), "Bad request: x");
}

fn flatten(s: &[EntityClosureDTO], out: &mut Vec<u32>) {
    for c in s {
        out.push(c.id);
        flatten(&c.children, out);
    }
}

#[test]
fn listing_holds_each_rooted_entity_once_in_order() {
    let r = |id: u32, parent: Option<u32>| EntityRich {
        entity_id: id,
        user_id: 1,
        tag_uid: None,
        name: format!("e{}", id),
        parent_id: parent,
        parent_name: None,
    };
    let rows = vec![r(9, None), r(4, Some(9)), r(2, Some(9)), r(7, None), r(3, Some(2)), r(8, Some(8)), r(1, Some(4))];
    let closures = entity_service::get_entity_closures(entity_dao::get_entity_closures(rows));
    let mut listing: Vec<EntityClosureDTO> = closures.into_iter().map(EntityClosureDTO::from_entity_closure).collect();
    sort_entities(&mut listing);
    let mut all = Vec::new();
    flatten(&listing, &mut all);
    assert_eq!(all, vec![7, 9, 2, 3, 4, 1]);
}

#[test]
fn database_error_messages() {
    assert_eq!(DatabaseError::NotFound.message(), "Not found");
    assert_eq!(DatabaseError::DatabaseError("x".to_string()).message(), "Bad request: x");
    assert_eq!(DatabaseError::InternalServerError("y".to_string()).message(), "Internal server error: y");
}

#[test]
fn sorting_a_sorted_listing_changes_nothing() {
    let mut v = vec![dto(3, "c", vec![dto(5, "e", vec![]), dto(4, "d", vec![])]), dto(1, "a", vec![])];
    sort_entities(&mut v);
    let mut once = Vec::new();
    flatten(&v, &mut once);
    sort_entities(&mut v);
    let mut twice = Vec::new();
    flatten(&v, &mut twice);
    assert_eq!(once, twice);
    assert_eq!(twice, vec![1, 3, 4, 5]);
}
