use nfc_scanner::database::dao::entity_dao::{
    get_children_recursively, get_entity_closures, unique_rows, EntityClosure, EntityRich,
};

fn row(id: u32, parent: Option<u32>, name: &str) -> EntityRich {
    EntityRich {
        entity_id: id,
        user_id: 1,
        tag_uid: None,
        name: name.to_string(),
        parent_id: parent,
        parent_name: None,
    }
}

fn ids(s: &[EntityClosure]) -> Vec<u32> {
    s.iter().map(|c| c.entity_id).collect()
}

/// The entities that the service adds as sample data.
fn sample_rows() -> Vec<EntityRich> {
    let mut main1 = row(2, Some(1), "Main entity 1");
    main1.tag_uid = Some("049F3972FE4A80".to_string());
    main1.parent_name = Some("Original Grandparent".to_string());
    vec![
        row(1, None, "Original Grandparent"),
        main1,
        row(3, Some(2), "Child 1"),
        row(4, Some(2), "Child 2"),
        row(5, None, "Main entity 2"),
    ]
}

#[test]
fn forest_of_sample_entities() {
    let forest = get_entity_closures(sample_rows());
    assert_eq!(ids(&forest), vec![1, 5]);
    let grandparent = &forest[0];
    assert_eq!(grandparent.name, "Original Grandparent");
    assert_eq!(ids(&grandparent.children), vec![2]);
    let main1 = &grandparent.children[0];
    assert_eq!(main1.tag_uid, Some("049F3972FE4A80".to_string()));
    assert_eq!(main1.parent_id, Some(1));
    assert_eq!(main1.parent_name, Some("Original Grandparent".to_string()));
    assert_eq!(ids(&main1.children), vec![3, 4]);
    assert!(main1.children[0].children.is_empty());
    assert!(main1.children[1].children.is_empty());
    assert!(forest[1].children.is_empty());
}

#[test]
fn forest_of_no_rows_is_empty() {
    assert!(get_entity_closures(Vec::new()).is_empty());
}

#[test]
fn later_row_with_same_id_replaces_earlier() {
    let rows = vec![row(1, None, "old"), row(2, Some(1), "child"), row(1, None, "new")];
    let forest = get_entity_closures(rows);
    assert_eq!(ids(&forest), vec![1]);
    assert_eq!(forest[0].name, "new");
    assert_eq!(ids(&forest[0].children), vec![2]);
}

#[test]
fn replacing_row_can_move_an_entity() {
    // The second row for id 2 makes it a root; its position stays that of the first row.
    let rows = vec![row(1, None, "a"), row(2, Some(1), "b"), row(3, None, "c"), row(2, None, "b2")];
    let forest = get_entity_closures(rows);
    assert_eq!(ids(&forest), vec![1, 2, 3]);
    assert!(forest[0].children.is_empty());
    assert_eq!(forest[1].name, "b2");
}

#[test]
fn entities_on_a_cycle_or_below_a_missing_owner_are_left_out() {
    let rows = vec![
        row(1, None, "root"),
        row(2, Some(3), "cycle a"),
        row(3, Some(2), "cycle b"),
        row(4, Some(2), "below cycle"),
        row(5, Some(99), "missing owner"),
        row(6, Some(5), "below missing owner"),
        row(7, Some(7), "own owner"),
        row(8, Some(1), "child"),
    ];
    let forest = get_entity_closures(rows);
    assert_eq!(ids(&forest), vec![1]);
    assert_eq!(ids(&forest[0].children), vec![8]);
}

#[test]
fn deep_chain_is_built() {
    let rows: Vec<EntityRich> = (1..=50u32)
        .map(|i| row(i, if i == 1 { None } else { Some(i - 1) }, "n"))
        .collect();
    let forest = get_entity_closures(rows);
    let mut node = &forest[0];
    let mut depth = 1;
    while !node.children.is_empty() {
        assert_eq!(node.children.len(), 1);
        node = &node.children[0];
        depth += 1;
        assert_eq!(node.entity_id, depth);
    }
    assert_eq!(depth, 50);
}

#[test]
fn children_of_an_entity() {
    let rows = unique_rows(&sample_rows());
    let children = get_children_recursively(&rows[1], &rows);
    assert_eq!(ids(&children), vec![3, 4]);
    let children = get_children_recursively(&rows[0], &rows);
    assert_eq!(ids(&children), vec![2]);
    assert_eq!(ids(&children[0].children), vec![3, 4]);
    let children = get_children_recursively(&rows[4], &rows);
    assert!(children.is_empty());
}

#[test]
fn children_from_rows_with_repeated_ids() {
    // A later row with an id replaces an earlier one: entity 3 moves from
    // entity 1 to entity 2, and entity 2 appears once, where its id first occurs.
    let rows = vec![
        row(1, None, "a"),
        row(2, Some(1), "b"),
        row(3, Some(1), "c"),
        row(2, Some(1), "b2"),
        row(3, Some(2), "c2"),
    ];
    let children = get_children_recursively(&rows[0], &rows);
    assert_eq!(ids(&children), vec![2]);
    assert_eq!(children[0].name, "b2");
    assert_eq!(ids(&children[0].children), vec![3]);
    assert_eq!(children[0].children[0].name, "c2");
}

#[test]
fn children_below_a_missing_owner() {
    // Entity 5's owner is not among the rows; its own children are still found.
    let rows = vec![row(5, Some(99), "top"), row(6, Some(5), "child")];
    let children = get_children_recursively(&rows[0], &rows);
    assert_eq!(ids(&children), vec![6]);
}

#[test]
fn unique_rows_keep_first_position_and_last_value() {
    let rows = vec![row(3, None, "x"), row(1, None, "y"), row(3, Some(1), "z")];
    let u = unique_rows(&rows);
    assert_eq!(u.len(), 2);
    assert_eq!(u[0].entity_id, 3);
    assert_eq!(u[0].name, "z");
    assert_eq!(u[0].parent_id, Some(1));
    assert_eq!(u[1].entity_id, 1);
}

fn flatten(s: &[EntityClosure], out: &mut Vec<u32>) {
    for c in s {
        out.push(c.entity_id);
        flatten(&c.children, out);
    }
}

#[test]
fn every_rooted_entity_appears_exactly_once() {
    let rows = vec![
        row(4, Some(2), "d"),
        row(1, None, "a"),
        row(2, Some(1), "b"),
        row(3, Some(2), "c"),
        row(2, Some(1), "b again"),
        row(6, Some(7), "cycle"),
        row(7, Some(6), "cycle"),
        row(5, Some(3), "e"),
    ];
    let forest = get_entity_closures(rows);
    let mut all = Vec::new();
    flatten(&forest, &mut all);
    all.sort();
    assert_eq!(all, vec![1, 2, 3, 4, 5]);
}

#[test]
fn children_of_an_entity_that_is_not_among_the_rows() {
    let rows = vec![row(2, Some(1), "b"), row(3, Some(2), "c"), row(4, Some(9), "d")];
    let children = get_children_recursively(&row(1, None, "a"), &rows);
    assert_eq!(ids(&children), vec![2]);
    assert_eq!(ids(&children[0].children), vec![3]);
}

#[test]
fn children_of_an_entity_below_a_cycle_of_owners() {
    // 2 and 3 own each other; 1 is owned by 2 and owns 4 and 5, and 4 owns 6.
    let rows = vec![
        row(1, Some(2), "x"),
        row(2, Some(3), "y"),
        row(3, Some(2), "z"),
        row(4, Some(1), "a"),
        row(5, Some(1), "b"),
        row(6, Some(4), "c"),
    ];
    let children = get_children_recursively(&rows[0], &rows);
    assert_eq!(ids(&children), vec![4, 5]);
    assert_eq!(ids(&children[0].children), vec![6]);
    assert!(children[1].children.is_empty());
    let mut all = Vec::new();
    flatten(&children, &mut all);
    assert_eq!(all, vec![4, 6, 5]);
}
