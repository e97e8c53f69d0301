use scoreboard_merger::merge::{merge_document, merge_scores, MergeOutcome, NavError};
use scoreboard_merger::node::Node;

fn entry(name: &str, objective: &str, score: i32, locked: i8) -> Node {
    Node::Compound(vec![
        ("Name".to_string(), Node::Str(name.to_string())),
        ("Objective".to_string(), Node::Str(objective.to_string())),
        ("Score".to_string(), Node::Int(score)),
        ("Locked".to_string(), Node::Byte(locked)),
    ])
}

fn entry3(name: &str, objective: &str, score: i32) -> Node {
    Node::Compound(vec![
        ("Name".to_string(), Node::Str(name.to_string())),
        ("Objective".to_string(), Node::Str(objective.to_string())),
        ("Score".to_string(), Node::Int(score)),
    ])
}

fn document(scores: Vec<Node>) -> Node {
    Node::Compound(vec![
        ("DataVersion".to_string(), Node::Int(3465)),
        (
            "data".to_string(),
            Node::Compound(vec![
                ("Objectives".to_string(), Node::List(vec![])),
                ("PlayerScores".to_string(), Node::List(scores)),
            ]),
        ),
    ])
}

fn scores_of(doc: &Node) -> &Vec<Node> {
    match doc {
        Node::Compound(f) => match &f[1].1 {
            Node::Compound(g) => match &g[1].1 {
                Node::List(l) => l,
                _ => panic!("no list"),
            },
            _ => panic!("no data"),
        },
        _ => panic!("no root"),
    }
}

fn score_field(e: &Node) -> Option<i32> {
    match e {
        Node::Compound(f) => f.iter().find(|(k, _)| k == "Score").and_then(|(_, v)| match v {
            Node::Int(x) => Some(*x),
            _ => None,
        }),
        _ => None,
    }
}

#[test]
fn merge_a_into_b_single_objective() {
    let mut list = vec![entry3("A", "kills", 5), entry3("B", "kills", 3)];
    let r = merge_scores(&mut list, "A", "B");
    assert_eq!(list, vec![entry3("B", "kills", 8)]);
    assert_eq!(r, MergeOutcome { found_from: true, found_into: true });
}

#[test]
fn shared_objective_adds_and_keeps_lock() {
    let mut list = vec![entry("A", "kills", 10, 0), entry("B", "kills", 25, 1)];
    merge_scores(&mut list, "A", "B");
    assert_eq!(list, vec![entry("B", "kills", 35, 1)]);
}

#[test]
fn score_addition_wraps() {
    let mut list = vec![entry("A", "kills", 1, 0), entry("B", "kills", i32::MAX, 0)];
    merge_scores(&mut list, "A", "B");
    assert_eq!(list, vec![entry("B", "kills", i32::MIN, 0)]);
}

#[test]
fn missing_objective_is_appended_unlocked() {
    let mut list = vec![entry("A", "deaths", 7, 1), entry("B", "kills", 2, 0)];
    let r = merge_scores(&mut list, "A", "B");
    assert_eq!(list, vec![entry("B", "kills", 2, 0), entry("B", "deaths", 7, 0)]);
    assert!(r.found_from && r.found_into);
}

#[test]
fn absent_destination_gets_new_entries_in_order() {
    let mut list = vec![entry("A", "kills", 4, 0), entry("A", "deaths", 9, 0)];
    let r = merge_scores(&mut list, "A", "C");
    assert_eq!(list, vec![entry("C", "kills", 4, 0), entry("C", "deaths", 9, 0)]);
    assert_eq!(r, MergeOutcome { found_from: true, found_into: false });
}

#[test]
fn later_source_score_wins_for_repeated_objective() {
    let mut list = vec![entry("A", "kills", 4, 0), entry("A", "kills", 6, 0)];
    merge_scores(&mut list, "A", "B");
    assert_eq!(list, vec![entry("B", "kills", 6, 0)]);
}

#[test]
fn other_players_untouched_in_order() {
    let mut list = vec![
        entry("X", "kills", 1, 0),
        entry("A", "kills", 5, 0),
        entry("Y", "deaths", 2, 1),
        entry("B", "kills", 3, 0),
        Node::Long(77),
        entry("Z", "kills", 9, 0),
    ];
    merge_scores(&mut list, "A", "B");
    assert_eq!(
        list,
        vec![
            entry("X", "kills", 1, 0),
            entry("Y", "deaths", 2, 1),
            entry("B", "kills", 8, 0),
            Node::Long(77),
            entry("Z", "kills", 9, 0),
        ]
    );
}

#[test]
fn source_entry_without_score_stays() {
    let malformed = || {
        Node::Compound(vec![
            ("Name".to_string(), Node::Str("A".to_string())),
            ("Objective".to_string(), Node::Str("kills".to_string())),
        ])
    };
    let mut list = vec![malformed(), entry("B", "kills", 3, 0)];
    let r = merge_scores(&mut list, "A", "B");
    assert_eq!(list, vec![malformed(), entry("B", "kills", 3, 0)]);
    assert_eq!(r, MergeOutcome { found_from: false, found_into: true });
}

#[test]
fn second_merge_finds_nothing_and_changes_nothing() {
    let mut list = vec![entry("A", "kills", 5, 0), entry("B", "kills", 3, 0), entry("A", "deaths", 1, 0)];
    let first = merge_scores(&mut list, "A", "B");
    assert!(first.found_from);
    assert_eq!(list, vec![entry("B", "kills", 8, 0), entry("B", "deaths", 1, 0)]);
    let second = merge_scores(&mut list, "A", "B");
    assert_eq!(second, MergeOutcome { found_from: false, found_into: true });
    assert_eq!(list, vec![entry("B", "kills", 8, 0), entry("B", "deaths", 1, 0)]);
}

#[test]
fn destination_entry_with_non_int_score_drops_pending() {
    let odd = || {
        Node::Compound(vec![
            ("Name".to_string(), Node::Str("B".to_string())),
            ("Objective".to_string(), Node::Str("kills".to_string())),
            ("Score".to_string(), Node::Long(3)),
        ])
    };
    let mut list = vec![entry("A", "kills", 5, 0), odd()];
    merge_scores(&mut list, "A", "B");
    assert_eq!(list, vec![odd()]);
}

#[test]
fn only_first_destination_entry_is_credited() {
    let mut list = vec![entry("A", "kills", 5, 0), entry("B", "kills", 1, 0), entry("B", "kills", 2, 0)];
    merge_scores(&mut list, "A", "B");
    assert_eq!(list, vec![entry("B", "kills", 6, 0), entry("B", "kills", 2, 0)]);
}

#[test]
fn empty_list_stays_empty() {
    let mut list: Vec<Node> = vec![];
    let r = merge_scores(&mut list, "A", "B");
    assert!(list.is_empty());
    assert_eq!(r, MergeOutcome { found_from: false, found_into: false });
}

#[test]
fn document_merge_updates_the_score_list() {
    let mut doc = document(vec![entry("A", "kills", 5, 0), entry("B", "kills", 3, 0)]);
    let r = merge_document(&mut doc, "A", "B");
    assert_eq!(r, Ok(MergeOutcome { found_from: true, found_into: true }));
    assert_eq!(scores_of(&doc), &vec![entry("B", "kills", 8, 0)]);
    assert_eq!(score_field(&scores_of(&doc)[0]), Some(8));
    match &doc {
        Node::Compound(f) => assert_eq!(f[0], ("DataVersion".to_string(), Node::Int(3465))),
        _ => panic!("root changed shape"),
    }
}

#[test]
fn document_root_not_compound() {
    let mut doc = Node::List(vec![]);
    assert_eq!(merge_document(&mut doc, "A", "B"), Err(NavError::NotACompound));
    assert_eq!(doc, Node::List(vec![]));
}

#[test]
fn document_data_not_compound() {
    let mut doc = Node::Compound(vec![("data".to_string(), Node::Int(1))]);
    assert_eq!(merge_document(&mut doc, "A", "B"), Err(NavError::NotACompound));
}

#[test]
fn document_missing_data() {
    let mut doc = Node::Compound(vec![("other".to_string(), Node::Int(1))]);
    assert_eq!(merge_document(&mut doc, "A", "B"), Err(NavError::MissingField));
}

#[test]
fn document_missing_player_scores() {
    let mut doc = Node::Compound(vec![("data".to_string(), Node::Compound(vec![]))]);
    assert_eq!(merge_document(&mut doc, "A", "B"), Err(NavError::MissingField));
}

#[test]
fn document_player_scores_not_a_list() {
    let mut doc = Node::Compound(vec![(
        "data".to_string(),
        Node::Compound(vec![("PlayerScores".to_string(), Node::Str("x".to_string()))]),
    )]);
    assert_eq!(merge_document(&mut doc, "A", "B"), Err(NavError::WrongType));
}

#[test]
fn opaque_values_are_carried_through() {
    let mut list = vec![
        Node::Opaque(fastnbt::Value::Double(1.5)),
        entry("A", "kills", 5, 0),
    ];
    merge_scores(&mut list, "A", "B");
    assert_eq!(list, vec![Node::Opaque(fastnbt::Value::Double(1.5)), entry("B", "kills", 5, 0)]);
}
