//! Tests of the sort engine, the listing, and the group engine.
use doist::group::{count_all_subtasks, count_all_tasks, group_by_project, ProjectName};
use doist::model::{DueDate, Duration, DurationUnit, Priority, Record};
use doist::sort::{listing_rows, sort_nodes, SortBy};
use doist::tree::assemble;

fn rec(id: &str, parent: Option<&str>) -> Record {
    Record {
        id: id.to_string(),
        parent_id: parent.map(|p| p.to_string()),
        project_id: "p".to_string(),
        section_id: None,
        labels: Vec::new(),
        priority: Priority::Normal,
        due: None,
        duration: None,
        created_at: 0,
        order: 0,
    }
}

fn due(date: &str) -> Option<DueDate> {
    Some(DueDate {
        string: date.to_string(),
        date: date.to_string(),
        timezone: None,
        lang: "en".to_string(),
        is_recurring: false,
    })
}

fn row_ids(rows: &[doist::sort::Row]) -> Vec<String> {
    rows.iter().map(|r| r.record.id.clone()).collect()
}

#[test]
fn default_sort_ties_break_on_id() {
    // Identical priority, order and due info: the identifier decides,
    // whatever the input order was.
    let f1 = assemble(vec![rec("2", None), rec("1", None)]).unwrap();
    let f2 = assemble(vec![rec("1", None), rec("2", None)]).unwrap();
    let r1 = listing_rows(f1, &None);
    let r2 = listing_rows(f2, &None);
    assert_eq!(row_ids(&r1), vec!["1".to_string(), "2".to_string()]);
    assert_eq!(row_ids(&r2), vec!["1".to_string(), "2".to_string()]);
}

#[test]
fn exact_due_outranks_priority() {
    let mut dated = rec("dated", None);
    dated.due = due("2025-01-01T09:00:00Z");
    let mut urgent = rec("urgent", None);
    urgent.priority = Priority::Urgent;
    let forest = assemble(vec![urgent, dated]).unwrap();
    let rows = listing_rows(forest, &None);
    assert_eq!(row_ids(&rows), vec!["dated".to_string(), "urgent".to_string()]);
}

#[test]
fn exact_due_dates_compare_ascending() {
    let mut later = rec("later", None);
    later.due = due("2025-03-01T09:00:00Z");
    let mut sooner = rec("sooner", None);
    sooner.due = due("2025-01-01T09:00:00Z");
    let forest = assemble(vec![later, sooner]).unwrap();
    let rows = listing_rows(forest, &None);
    assert_eq!(row_ids(&rows), vec!["sooner".to_string(), "later".to_string()]);
}

#[test]
fn bare_dates_are_not_exact_times() {
    // A date without a time of day does not outrank priority.
    let mut dated = rec("dated", None);
    dated.due = due("2025-01-01");
    let mut urgent = rec("urgent", None);
    urgent.priority = Priority::Urgent;
    let forest = assemble(vec![dated, urgent]).unwrap();
    let rows = listing_rows(forest, &None);
    assert_eq!(row_ids(&rows), vec!["urgent".to_string(), "dated".to_string()]);
}

#[test]
fn priority_descends_then_order_ascends() {
    let mut low = rec("low", None);
    low.priority = Priority::Normal;
    low.order = 0;
    let mut high = rec("high", None);
    high.priority = Priority::Urgent;
    let mut second = rec("second", None);
    second.priority = Priority::Urgent;
    second.order = 5;
    high.order = 2;
    let forest = assemble(vec![low, second, high]).unwrap();
    let rows = listing_rows(forest, &None);
    assert_eq!(
        row_ids(&rows),
        vec!["high".to_string(), "second".to_string(), "low".to_string()]
    );
}

#[test]
fn duration_normalizes_days_to_minutes() {
    // 100 minutes sort before 2 days (2880 minutes); a duration sorts
    // before none.
    let mut days = rec("days", None);
    days.duration = Some(Duration { amount: 2, unit: DurationUnit::Day });
    let mut minutes = rec("minutes", None);
    minutes.duration = Some(Duration { amount: 100, unit: DurationUnit::Minute });
    let none = rec("none", None);
    let forest = assemble(vec![none, days, minutes]).unwrap();
    let rows = listing_rows(forest, &Some(SortBy::Duration));
    assert_eq!(
        row_ids(&rows),
        vec!["minutes".to_string(), "days".to_string(), "none".to_string()]
    );
}

#[test]
fn created_sort_is_oldest_first() {
    let mut old = rec("old", None);
    old.created_at = 100;
    let mut new = rec("new", None);
    new.created_at = 900;
    let forest = assemble(vec![new, old]).unwrap();
    let rows = listing_rows(forest, &Some(SortBy::Created));
    assert_eq!(row_ids(&rows), vec!["old".to_string(), "new".to_string()]);
}

#[test]
fn listing_sorts_each_sibling_group() {
    let mut root_b = rec("b", None);
    root_b.order = 1;
    let mut root_a = rec("a", None);
    root_a.order = 2;
    let mut kid_late = rec("kid-late", Some("b"));
    kid_late.order = 9;
    let mut kid_early = rec("kid-early", Some("b"));
    kid_early.order = 1;
    let forest = assemble(vec![root_b, root_a, kid_late, kid_early]).unwrap();
    let rows = listing_rows(forest, &None);
    assert_eq!(
        row_ids(&rows),
        vec![
            "b".to_string(),
            "kid-early".to_string(),
            "kid-late".to_string(),
            "a".to_string()
        ]
    );
    assert_eq!(rows[1].depth, 1);
    assert_eq!(rows[3].depth, 0);
}

#[test]
fn sort_nodes_orders_one_sibling_list() {
    let forest = assemble(vec![rec("2", None), rec("1", None)]).unwrap();
    let mut nodes = forest;
    sort_nodes(&mut nodes, &None);
    assert_eq!(nodes[0].record.id, "1");
    assert_eq!(nodes[1].record.id, "2");
}

#[test]
fn counts_include_all_descendants() {
    let forest =
        assemble(vec![rec("a", None), rec("b", Some("a")), rec("c", Some("b"))]).unwrap();
    assert_eq!(count_all_tasks(&forest), 3);
    assert_eq!(count_all_subtasks(&forest[0]), 2);
}

#[test]
fn grouping_counts_direct_against_total() {
    // A matched root with two nested descendants in the same project
    // reports one directly placed member and three in total.
    let forest =
        assemble(vec![rec("a", None), rec("b", Some("a")), rec("c", Some("b"))]).unwrap();
    let projects = vec![ProjectName { id: "p".to_string(), name: "Inbox".to_string() }];
    let buckets = group_by_project(forest, &projects, &None);
    assert_eq!(buckets.len(), 1);
    let bucket = &buckets[0];
    assert_eq!(bucket.project_id, "p");
    assert_eq!(bucket.name, "Inbox");
    assert_eq!(bucket.direct, 1);
    assert_eq!(bucket.total, 3);
    assert_eq!(bucket.rows.len(), 3);
}

#[test]
fn grouping_orders_buckets_by_display_name() {
    let mut a = rec("a", None);
    a.project_id = "zzz".to_string();
    let mut b = rec("b", None);
    b.project_id = "aaa".to_string();
    let forest = assemble(vec![a, b]).unwrap();
    let projects = vec![
        ProjectName { id: "zzz".to_string(), name: "Alpha".to_string() },
        ProjectName { id: "aaa".to_string(), name: "Omega".to_string() },
    ];
    let buckets = group_by_project(forest, &projects, &None);
    assert_eq!(buckets.len(), 2);
    assert_eq!(buckets[0].name, "Alpha");
    assert_eq!(buckets[1].name, "Omega");
}

#[test]
fn grouping_falls_back_to_raw_id_for_unknown_projects() {
    let forest = assemble(vec![rec("a", None)]).unwrap();
    let buckets = group_by_project(forest, &Vec::new(), &None);
    assert_eq!(buckets.len(), 1);
    assert_eq!(buckets[0].name, "p");
}

#[test]
fn grouping_flat_bucket_reports_equal_counts() {
    let forest = assemble(vec![rec("a", None), rec("b", None)]).unwrap();
    let buckets = group_by_project(forest, &Vec::new(), &None);
    assert_eq!(buckets.len(), 1);
    assert_eq!(buckets[0].direct, 2);
    assert_eq!(buckets[0].total, 2);
}

#[test]
fn grouping_splits_nested_tasks_across_projects() {
    // a(p) -> b(q) -> c(p): every task lands in its own project's bucket;
    // a and c are both direct in p's bucket, and each contributes its own
    // subtree size to the total.
    let mut a = rec("a", None);
    a.project_id = "p".to_string();
    let mut b = rec("b", Some("a"));
    b.project_id = "q".to_string();
    let mut c = rec("c", Some("b"));
    c.project_id = "p".to_string();
    let forest = assemble(vec![a, b, c]).unwrap();
    let buckets = group_by_project(forest, &Vec::new(), &None);
    assert_eq!(buckets.len(), 2);
    let p = buckets.iter().find(|bk| bk.project_id == "p").unwrap();
    let q = buckets.iter().find(|bk| bk.project_id == "q").unwrap();
    assert_eq!(p.direct, 2);
    assert_eq!(p.total, 4);
    assert_eq!(p.rows.len(), 2);
    assert_eq!(q.direct, 1);
    assert_eq!(q.total, 2);
    assert_eq!(q.rows.len(), 1);
}

#[test]
fn grouping_sorts_rows_within_a_bucket() {
    let mut low = rec("low", None);
    low.priority = Priority::Normal;
    let mut high = rec("high", None);
    high.priority = Priority::Urgent;
    let forest = assemble(vec![low, high]).unwrap();
    let buckets = group_by_project(forest, &Vec::new(), &None);
    assert_eq!(buckets.len(), 1);
    assert_eq!(row_ids(&buckets[0].rows), vec!["high".to_string(), "low".to_string()]);
}
