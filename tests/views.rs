use std::collections::HashSet;
use task_manager::process::ProcessInfo;
use task_manager::view::{
    compare_names, goes_before, project, project_table, project_tree, Projection, ProcessFilter,
    SortCriterion, SortDirection, ViewConfig, ViewMode,
};

fn rec(pid: u32, parent: u32, user: &str, cpu: u64) -> ProcessInfo {
    ProcessInfo {
        pid,
        parent_pid: parent,
        name: format!("p{}", pid),
        cpu,
        memory: 0,
        exe: "Unknown".to_string(),
        user: user.to_string(),
        child: Vec::new(),
    }
}

fn named(pid: u32, name: &str, cpu: u64, memory: u64) -> ProcessInfo {
    let mut p = rec(pid, 0, "alice", cpu);
    p.name = name.to_string();
    p.memory = memory;
    p
}

fn alice_bob() -> Vec<ProcessInfo> {
    let mut root = rec(1, 0, "alice", 10);
    root.child.push(rec(2, 1, "bob", 90));
    vec![root]
}

fn chain() -> Vec<ProcessInfo> {
    let mut p2 = rec(2, 1, "alice", 5);
    p2.child.push(rec(3, 2, "alice", 5));
    let mut p1 = rec(1, 0, "alice", 5);
    p1.child.push(p2);
    vec![p1]
}

fn table_pids(rows: &[&ProcessInfo]) -> Vec<u32> {
    rows.iter().map(|p| p.pid).collect()
}

fn tree_pids(rows: &[(&ProcessInfo, usize)]) -> Vec<(u32, usize)> {
    rows.iter().map(|(p, d)| (p.pid, *d)).collect()
}

#[test]
fn table_all_by_cpu_descending() {
    let forest = alice_bob();
    let rows = project_table(
        &forest,
        SortCriterion::Cpu,
        SortDirection::Descending,
        ProcessFilter::All,
        &"alice".to_string(),
    );
    assert_eq!(table_pids(&rows), vec![2, 1]);
    assert_eq!(rows[0].cpu, 90);
    assert_eq!(rows[1].cpu, 10);
}

#[test]
fn table_owned_by_current_user() {
    let forest = alice_bob();
    let rows = project_table(
        &forest,
        SortCriterion::Cpu,
        SortDirection::Descending,
        ProcessFilter::OwnedByCurrentUser,
        &"alice".to_string(),
    );
    assert_eq!(table_pids(&rows), vec![1]);
}

#[test]
fn table_not_owned_by_current_user() {
    let forest = alice_bob();
    let rows = project_table(
        &forest,
        SortCriterion::Cpu,
        SortDirection::Descending,
        ProcessFilter::NotOwnedByCurrentUser,
        &"alice".to_string(),
    );
    assert_eq!(table_pids(&rows), vec![2]);
}

#[test]
fn tree_hidden_root_lifts_child_to_depth_zero() {
    let forest = alice_bob();
    let rows = project_tree(
        &forest,
        SortCriterion::Cpu,
        SortDirection::Descending,
        ProcessFilter::OwnedByCurrentUser,
        &"bob".to_string(),
        &HashSet::new(),
    );
    assert_eq!(tree_pids(&rows), vec![(2, 0)]);
}

#[test]
fn tree_chain_expanded_once() {
    let forest = chain();
    let mut open = HashSet::new();
    open.insert(1u32);
    let rows = project_tree(
        &forest,
        SortCriterion::Cpu,
        SortDirection::Descending,
        ProcessFilter::All,
        &"alice".to_string(),
        &open,
    );
    assert_eq!(tree_pids(&rows), vec![(1, 0), (2, 1)]);
}

#[test]
fn tree_collapsed_root_hides_children() {
    let forest = chain();
    let rows = project_tree(
        &forest,
        SortCriterion::Cpu,
        SortDirection::Descending,
        ProcessFilter::All,
        &"alice".to_string(),
        &HashSet::new(),
    );
    assert_eq!(tree_pids(&rows), vec![(1, 0)]);
}

#[test]
fn tree_fully_expanded_chain() {
    let forest = chain();
    let open: HashSet<u32> = [1u32, 2u32].into_iter().collect();
    let rows = project_tree(
        &forest,
        SortCriterion::Cpu,
        SortDirection::Descending,
        ProcessFilter::All,
        &"alice".to_string(),
        &open,
    );
    assert_eq!(tree_pids(&rows), vec![(1, 0), (2, 1), (3, 2)]);
}

#[test]
fn tree_hidden_node_ignores_expand_state() {
    // pid 1 belongs to bob and is hidden; its children show at depth 0
    // whether or not pid 1 is expanded.
    let mut root = rec(1, 0, "bob", 1);
    root.child.push(rec(2, 1, "alice", 7));
    root.child.push(rec(3, 1, "alice", 9));
    let forest = vec![root];
    let user = "alice".to_string();
    let closed = project_tree(
        &forest,
        SortCriterion::Cpu,
        SortDirection::Descending,
        ProcessFilter::OwnedByCurrentUser,
        &user,
        &HashSet::new(),
    );
    let open: HashSet<u32> = [1u32].into_iter().collect();
    let opened = project_tree(
        &forest,
        SortCriterion::Cpu,
        SortDirection::Descending,
        ProcessFilter::OwnedByCurrentUser,
        &user,
        &open,
    );
    assert_eq!(tree_pids(&closed), vec![(3, 0), (2, 0)]);
    assert_eq!(tree_pids(&opened), vec![(3, 0), (2, 0)]);
}

#[test]
fn tree_hidden_middle_keeps_grandchild_depth() {
    // 1 (alice) -> 2 (bob) -> 3 (alice); 1 expanded, 2 hidden: 3 stands at depth 1.
    let mut p2 = rec(2, 1, "bob", 5);
    p2.child.push(rec(3, 2, "alice", 5));
    let mut p1 = rec(1, 0, "alice", 5);
    p1.child.push(p2);
    let forest = vec![p1];
    let open: HashSet<u32> = [1u32].into_iter().collect();
    let rows = project_tree(
        &forest,
        SortCriterion::Cpu,
        SortDirection::Descending,
        ProcessFilter::OwnedByCurrentUser,
        &"alice".to_string(),
        &open,
    );
    assert_eq!(tree_pids(&rows), vec![(1, 0), (3, 1)]);
}

#[test]
fn tree_children_sorted_before_filter() {
    let mut root = rec(1, 0, "alice", 1);
    root.child.push(rec(2, 1, "alice", 10));
    root.child.push(rec(3, 1, "alice", 30));
    root.child.push(rec(4, 1, "alice", 20));
    let forest = vec![root];
    let open: HashSet<u32> = [1u32].into_iter().collect();
    let rows = project_tree(
        &forest,
        SortCriterion::Cpu,
        SortDirection::Ascending,
        ProcessFilter::All,
        &"alice".to_string(),
        &open,
    );
    assert_eq!(tree_pids(&rows), vec![(1, 0), (2, 1), (4, 1), (3, 1)]);
}

#[test]
fn empty_forest_gives_empty_views() {
    let forest: Vec<ProcessInfo> = Vec::new();
    let user = "alice".to_string();
    assert!(project_table(&forest, SortCriterion::Name, SortDirection::Ascending, ProcessFilter::All, &user).is_empty());
    assert!(project_tree(&forest, SortCriterion::Name, SortDirection::Ascending, ProcessFilter::All, &user, &HashSet::new()).is_empty());
}

#[test]
fn table_is_repeatable() {
    let forest = alice_bob();
    let user = "alice".to_string();
    let a = project_table(&forest, SortCriterion::Memory, SortDirection::Ascending, ProcessFilter::All, &user);
    let b = project_table(&forest, SortCriterion::Memory, SortDirection::Ascending, ProcessFilter::All, &user);
    assert_eq!(table_pids(&a), table_pids(&b));
}

#[test]
fn table_ties_keep_preorder() {
    // all CPU keys equal: the table keeps the pre-order 1, 2, 3, 4
    let mut p1 = rec(1, 0, "alice", 50);
    let mut p2 = rec(2, 1, "alice", 50);
    p2.child.push(rec(3, 2, "alice", 50));
    p1.child.push(p2);
    let forest = vec![p1, rec(4, 0, "alice", 50)];
    let user = "alice".to_string();
    for dir in [SortDirection::Ascending, SortDirection::Descending] {
        let rows = project_table(&forest, SortCriterion::Cpu, dir, ProcessFilter::All, &user);
        assert_eq!(table_pids(&rows), vec![1, 2, 3, 4]);
    }
}

#[test]
fn table_ties_mixed_with_other_keys() {
    let forest = vec![
        named(1, "a", 5, 0),
        named(2, "b", 9, 0),
        named(3, "c", 5, 0),
        named(4, "d", 9, 0),
        named(5, "e", 1, 0),
    ];
    let rows = project_table(&forest, SortCriterion::Cpu, SortDirection::Descending, ProcessFilter::All, &"alice".to_string());
    assert_eq!(table_pids(&rows), vec![2, 4, 1, 3, 5]);
}

#[test]
fn table_by_memory() {
    let forest = vec![named(1, "a", 0, 300), named(2, "b", 0, 100), named(3, "c", 0, 200)];
    let user = "alice".to_string();
    let up = project_table(&forest, SortCriterion::Memory, SortDirection::Ascending, ProcessFilter::All, &user);
    assert_eq!(table_pids(&up), vec![2, 3, 1]);
    let down = project_table(&forest, SortCriterion::Memory, SortDirection::Descending, ProcessFilter::All, &user);
    assert_eq!(table_pids(&down), vec![1, 3, 2]);
}

#[test]
fn table_by_name_runs_opposite_to_direction_name() {
    let forest = vec![named(1, "beta", 0, 0), named(2, "alpha", 0, 0), named(3, "gamma", 0, 0)];
    let user = "alice".to_string();
    let asc = project_table(&forest, SortCriterion::Name, SortDirection::Ascending, ProcessFilter::All, &user);
    assert_eq!(table_pids(&asc), vec![3, 1, 2]);
    let desc = project_table(&forest, SortCriterion::Name, SortDirection::Descending, ProcessFilter::All, &user);
    assert_eq!(table_pids(&desc), vec![2, 1, 3]);
}

#[test]
fn names_compare_by_code_point() {
    assert_eq!(compare_names(&"abc".to_string(), &"abd".to_string()), -1);
    assert_eq!(compare_names(&"abd".to_string(), &"abc".to_string()), 1);
    assert_eq!(compare_names(&"ab".to_string(), &"abc".to_string()), -1);
    assert_eq!(compare_names(&"abc".to_string(), &"abc".to_string()), 0);
    assert_eq!(compare_names(&"Zeta".to_string(), &"alpha".to_string()), -1);
    assert_eq!(compare_names(&"é".to_string(), &"z".to_string()), 1);
}

#[test]
fn goes_before_follows_direction() {
    let a = named(1, "a", 1, 0);
    let b = named(2, "b", 2, 0);
    assert!(goes_before(&a, &b, SortCriterion::Cpu, SortDirection::Ascending));
    assert!(!goes_before(&a, &b, SortCriterion::Cpu, SortDirection::Descending));
    assert!(!goes_before(&a, &b, SortCriterion::Name, SortDirection::Ascending));
    assert!(goes_before(&a, &b, SortCriterion::Name, SortDirection::Descending));
}

#[test]
fn toggle_twice_gives_same_tree() {
    let forest = chain();
    let user = "alice".to_string();
    let mut cfg = ViewConfig::new();
    cfg.mode = ViewMode::Tree;
    cfg.filter = ProcessFilter::All;
    cfg.toggle_expanded(1);
    let before = project_tree(&forest, cfg.criterion, cfg.direction, cfg.filter, &user, &cfg.expanded);
    let before = tree_pids(&before);
    cfg.toggle_expanded(2);
    let between = project_tree(&forest, cfg.criterion, cfg.direction, cfg.filter, &user, &cfg.expanded);
    assert_eq!(tree_pids(&between), vec![(1, 0), (2, 1), (3, 2)]);
    cfg.toggle_expanded(2);
    let after = project_tree(&forest, cfg.criterion, cfg.direction, cfg.filter, &user, &cfg.expanded);
    assert_eq!(tree_pids(&after), before);
    assert_eq!(before, vec![(1, 0), (2, 1)]);
}

#[test]
fn config_defaults() {
    let cfg = ViewConfig::new();
    assert_eq!(cfg.criterion, SortCriterion::Cpu);
    assert_eq!(cfg.direction, SortDirection::Descending);
    assert_eq!(cfg.filter, ProcessFilter::OwnedByCurrentUser);
    assert_eq!(cfg.mode, ViewMode::Table);
    assert!(cfg.expanded.is_empty());
}

#[test]
fn select_criterion_flips_direction() {
    let mut cfg = ViewConfig::new();
    cfg.select_criterion(SortCriterion::Name);
    assert_eq!(cfg.criterion, SortCriterion::Name);
    assert_eq!(cfg.direction, SortDirection::Ascending);
    cfg.select_criterion(SortCriterion::Name);
    assert_eq!(cfg.direction, SortDirection::Descending);
}

#[test]
fn project_dispatches_on_mode() {
    let forest = alice_bob();
    let user = "alice".to_string();
    let mut cfg = ViewConfig::new();
    cfg.filter = ProcessFilter::All;
    match project(&forest, &cfg, &user) {
        Projection::Table(rows) => assert_eq!(table_pids(&rows), vec![2, 1]),
        Projection::Tree(_) => panic!("expected a table"),
    }
    cfg.mode = ViewMode::Tree;
    match project(&forest, &cfg, &user) {
        Projection::Tree(rows) => assert_eq!(tree_pids(&rows), vec![(1, 0)]),
        Projection::Table(_) => panic!("expected a tree"),
    }
}
