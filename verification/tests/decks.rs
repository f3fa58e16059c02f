use std::collections::HashSet;

use ankimarkable::decks::{deck_infos, visible_decks, DeckInfo, DeckNode};

fn node(id: i64, name: &str, children: Vec<DeckNode>) -> DeckNode {
    DeckNode {
        deck_id: id,
        name: name.to_string(),
        collapsed: id % 2 == 0,
        new_count: 1,
        learn_count: 2,
        review_count: id as u32,
        children,
    }
}

fn empty_default() -> DeckNode {
    DeckNode {
        deck_id: 1,
        name: "Default".to_string(),
        collapsed: false,
        new_count: 0,
        learn_count: 0,
        review_count: 0,
        children: vec![],
    }
}

fn names(rows: &[DeckInfo]) -> Vec<(String, u32)> {
    rows.iter().map(|d| (d.name.clone(), d.level)).collect()
}

fn tree() -> Vec<DeckNode> {
    vec![
        node(10, "zoo", vec![]),
        empty_default(),
        node(11, "Art", vec![node(12, "b", vec![]), node(13, "A", vec![node(14, "x", vec![])])]),
        node(15, "uni", vec![node(16, "Uni", vec![]), node(17, "ALGO", vec![])]),
        node(18, "art", vec![]),
    ]
}

#[test]
fn the_tree_is_listed_in_order() {
    let rows = deck_infos(&tree());
    assert_eq!(
        names(&rows),
        vec![
            ("uni".to_string(), 0),
            ("ALGO".to_string(), 1),
            ("Uni".to_string(), 1),
            ("Art".to_string(), 0),
            ("A".to_string(), 1),
            ("x".to_string(), 2),
            ("b".to_string(), 1),
            ("art".to_string(), 0),
            ("zoo".to_string(), 0),
        ]
    );
    assert_eq!(rows[0].id, 15);
    assert!(rows[0].has_children);
    assert!(!rows[1].has_children);
    assert!(!rows[0].collapsed);
    assert!(rows[2].collapsed);
    assert_eq!((rows[3].new, rows[3].learn, rows[3].review), (1, 2, 11));
}

#[test]
fn case_is_ignored_by_the_order() {
    let rows = deck_infos(&vec![
        node(1, "ÄPFEL", vec![]),
        node(2, "b", vec![]),
        node(3, "C", vec![]),
        node(4, "äpfel2", vec![]),
    ]);
    let ids: Vec<i64> = rows.iter().map(|d| d.id).collect();
    assert_eq!(ids, vec![2, 3, 1, 4]);
}

#[test]
fn a_default_deck_with_cards_or_subdecks_stays() {
    let mut with_cards = empty_default();
    with_cards.learn_count = 1;
    assert_eq!(deck_infos(&vec![with_cards]).len(), 1);
    let mut with_subdeck = empty_default();
    with_subdeck.children.push(node(2, "Default", vec![]));
    assert_eq!(deck_infos(&vec![with_subdeck]).len(), 2);
    assert_eq!(deck_infos(&vec![node(5, "x", vec![empty_default()])]).len(), 2);
    assert!(deck_infos(&vec![empty_default()]).is_empty());
}

#[test]
fn rows_below_collapsed_decks_are_hidden() {
    let rows = deck_infos(&tree());
    let none: HashSet<i64> = HashSet::new();
    let all = visible_decks(&rows, &none);
    assert_eq!(names(&all), names(&rows));
    assert!(all.iter().all(|d| !d.collapsed));
    let some: HashSet<i64> = [15, 13, 14].into_iter().collect();
    let v = visible_decks(&rows, &some);
    assert_eq!(names(&visible_decks(&v, &some)), names(&v));
    assert_eq!(
        names(&v),
        vec![
            ("uni".to_string(), 0),
            ("Art".to_string(), 0),
            ("A".to_string(), 1),
            ("b".to_string(), 1),
            ("art".to_string(), 0),
            ("zoo".to_string(), 0),
        ]
    );
    assert!(v[0].collapsed);
    assert!(!v[1].collapsed);
    assert!(v[2].collapsed);
}

#[test]
fn a_hidden_collapsed_deck_changes_nothing() {
    let rows = deck_infos(&tree());
    let outer: HashSet<i64> = [11].into_iter().collect();
    let both: HashSet<i64> = [11, 13].into_iter().collect();
    assert_eq!(names(&visible_decks(&rows, &outer)), names(&visible_decks(&rows, &both)));
    assert_eq!(rows[3].clone().name, "Art");
}
