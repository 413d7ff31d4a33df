//! Tests of the tree assembler and the filter engine.
use doist::filter::{filter_by_selection, filter_forest, Predicate};
use doist::model::{Priority, Record};
use doist::tree::{assemble, AssemblyError, Node};

fn rec(id: &str, parent: Option<&str>) -> Record {
    Record {
        id: id.to_string(),
        parent_id: parent.map(|p| p.to_string()),
        project_id: "p".to_string(),
        section_id: None,
        labels: Vec::new(),
        priority: Priority::Normal,
        due: None,
        duration: None,
        created_at: 0,
        order: 0,
    }
}

fn ids(forest: &[Node]) -> Vec<String> {
    forest.iter().map(|n| n.record.id.clone()).collect()
}

#[test]
fn assembles_flat_records_as_roots() {
    let forest = assemble(vec![rec("a", None), rec("b", None)]).unwrap();
    assert_eq!(ids(&forest), vec!["a".to_string(), "b".to_string()]);
    assert!(forest.iter().all(|n| n.depth == 0 && n.children.is_empty()));
}

#[test]
fn assembles_nested_records() {
    let forest = assemble(vec![rec("a", None), rec("b", Some("a")), rec("c", Some("b"))]).unwrap();
    assert_eq!(forest.len(), 1);
    let a = &forest[0];
    assert_eq!(a.record.id, "a");
    assert_eq!(a.depth, 0);
    assert_eq!(a.children.len(), 1);
    let b = &a.children[0];
    assert_eq!(b.record.id, "b");
    assert_eq!(b.depth, 1);
    assert_eq!(b.children.len(), 1);
    let c = &b.children[0];
    assert_eq!(c.record.id, "c");
    assert_eq!(c.depth, 2);
    assert!(c.children.is_empty());
}

#[test]
fn keeps_sibling_input_order() {
    let forest = assemble(vec![
        rec("r", None),
        rec("z", Some("r")),
        rec("a", Some("r")),
        rec("m", Some("r")),
    ])
    .unwrap();
    assert_eq!(ids(&forest[0].children), vec!["z".to_string(), "a".to_string(), "m".to_string()]);
}

#[test]
fn duplicate_ids_abort_assembly() {
    let err = assemble(vec![rec("a", None), rec("a", None)]).unwrap_err();
    assert_eq!(err, AssemblyError::DuplicateID);
}

#[test]
fn dangling_parent_becomes_root() {
    let forest = assemble(vec![rec("a", Some("missing")), rec("b", None)]).unwrap();
    assert_eq!(ids(&forest), vec!["a".to_string(), "b".to_string()]);
    assert!(forest.iter().all(|n| n.depth == 0));
}

#[test]
fn three_cycle_is_severed_into_roots() {
    let forest = assemble(vec![rec("a", Some("b")), rec("b", Some("c")), rec("c", Some("a"))])
        .unwrap();
    assert_eq!(ids(&forest), vec!["a".to_string(), "b".to_string(), "c".to_string()]);
    assert!(forest.iter().all(|n| n.depth == 0 && n.children.is_empty()));
}

#[test]
fn two_cycle_under_a_parent() {
    // x points into a two-cycle between y and z: the cycle is severed, x's
    // own link stands.
    let forest = assemble(vec![rec("y", Some("z")), rec("z", Some("y")), rec("x", Some("y"))])
        .unwrap();
    assert_eq!(ids(&forest), vec!["y".to_string(), "z".to_string()]);
    let y = &forest[0];
    assert_eq!(ids(&y.children), vec!["x".to_string()]);
    assert_eq!(y.children[0].depth, 1);
}

fn two_level_tree() -> Vec<Node> {
    let mut p = rec("parent", None);
    p.project_id = "other".to_string();
    let mut c = rec("child", Some("parent"));
    c.project_id = "wanted".to_string();
    assemble(vec![p, c]).unwrap()
}

#[test]
fn strict_filter_drops_failing_parent_with_matching_child() {
    let forest = two_level_tree();
    let out = filter_forest(forest, &Predicate::Project("wanted".to_string()), false);
    assert!(out.is_empty());
}

#[test]
fn expanding_filter_keeps_parent_for_matching_child() {
    let forest = two_level_tree();
    let out = filter_forest(forest, &Predicate::Project("wanted".to_string()), true);
    assert_eq!(out.len(), 1);
    assert_eq!(out[0].record.id, "parent");
    assert_eq!(out[0].depth, 0);
    assert_eq!(ids(&out[0].children), vec!["child".to_string()]);
}

#[test]
fn strict_filter_keeps_matching_subtree_members_only() {
    let mut a = rec("a", None);
    a.section_id = Some("s1".to_string());
    let mut b = rec("b", Some("a"));
    b.section_id = Some("s2".to_string());
    let mut c = rec("c", Some("a"));
    c.section_id = Some("s1".to_string());
    let forest = assemble(vec![a, b, c]).unwrap();
    let out = filter_forest(forest, &Predicate::Section("s1".to_string()), false);
    assert_eq!(out.len(), 1);
    assert_eq!(ids(&out[0].children), vec!["c".to_string()]);
}

#[test]
fn label_filter_matches_any_selected_label() {
    let mut a = rec("a", None);
    a.labels = vec!["urgent".to_string()];
    let b = rec("b", None);
    let forest = assemble(vec![a, b]).unwrap();
    let out = filter_forest(
        forest,
        &Predicate::AnyLabel(vec!["urgent".to_string(), "soon".to_string()]),
        false,
    );
    assert_eq!(ids(&out), vec!["a".to_string()]);
}

#[test]
fn selection_chain_applies_all_passes() {
    let mut a = rec("a", None);
    a.project_id = "p1".to_string();
    a.labels = vec!["l".to_string()];
    let mut b = rec("b", None);
    b.project_id = "p1".to_string();
    let mut c = rec("c", None);
    c.project_id = "p2".to_string();
    c.labels = vec!["l".to_string()];
    let forest = assemble(vec![a, b, c]).unwrap();
    let out = filter_by_selection(
        forest,
        Some("p1".to_string()),
        None,
        vec!["l".to_string()],
        false,
    );
    assert_eq!(ids(&out), vec!["a".to_string()]);
}
