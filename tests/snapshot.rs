use std::collections::HashSet;
use task_manager::process::{
    build_forest, build_snapshot, find_user, memory_share, parent_is_listed, pids_are_unique,
    Enumeration, ProcessInfo, RawProcess, SnapshotError, SysStats, UserEntry,
};
use task_manager::view::{project_tree, ProcessFilter, SortCriterion, SortDirection};

fn raw(pid: u32, parent: Option<u32>) -> RawProcess {
    RawProcess {
        pid,
        parent,
        name: Some(format!("proc{}", pid)),
        cpu_usage: 0,
        memory_bytes: 0,
        exe: Some(format!("/bin/proc{}", pid)),
        user_id: Some(1000),
    }
}

fn users() -> Vec<UserEntry> {
    vec![
        UserEntry { uid: 0, name: "root".to_string() },
        UserEntry { uid: 1000, name: "alice".to_string() },
    ]
}

fn all_pids(forest: &[ProcessInfo], out: &mut Vec<u32>) {
    for p in forest {
        out.push(p.pid);
        all_pids(&p.child, out);
    }
}

fn parents_match(forest: &[ProcessInfo]) -> bool {
    forest.iter().all(|p| p.child.iter().all(|c| c.parent_pid == p.pid) && parents_match(&p.child))
}

fn enumeration(processes: Vec<RawProcess>) -> Enumeration {
    Enumeration {
        processes,
        users: users(),
        cores: 4,
        cpu: 1234,
        used_memory: 1 << 30,
        total_memory: 4 << 30,
    }
}

#[test]
fn forest_links_children_under_parents() {
    let entries = vec![raw(3, Some(2)), raw(1, None), raw(2, Some(1)), raw(4, Some(1))];
    let forest = build_forest(&entries, &users(), 4);
    assert_eq!(forest.len(), 1);
    assert_eq!(forest[0].pid, 1);
    let kids: Vec<u32> = forest[0].child.iter().map(|c| c.pid).collect();
    assert_eq!(kids, vec![2, 4]);
    assert_eq!(forest[0].child[0].child[0].pid, 3);
    assert!(parents_match(&forest));
}

#[test]
fn forest_keeps_every_pid_once() {
    let entries = vec![
        raw(10, Some(1)),
        raw(1, None),
        raw(7, Some(99)),
        raw(8, Some(7)),
        raw(5, Some(5)),
        raw(2, Some(1)),
    ];
    let forest = build_forest(&entries, &users(), 1);
    let mut seen = Vec::new();
    all_pids(&forest, &mut seen);
    assert_eq!(seen.len(), entries.len());
    let seen_set: HashSet<u32> = seen.into_iter().collect();
    let raw_set: HashSet<u32> = entries.iter().map(|e| e.pid).collect();
    assert_eq!(seen_set, raw_set);
    assert!(parents_match(&forest));
}

#[test]
fn orphan_becomes_root_with_its_subtree() {
    let entries = vec![raw(1, None), raw(7, Some(99)), raw(8, Some(7))];
    let forest = build_forest(&entries, &users(), 1);
    let roots: Vec<u32> = forest.iter().map(|p| p.pid).collect();
    assert_eq!(roots, vec![1, 7]);
    assert_eq!(forest[1].parent_pid, 99);
    assert_eq!(forest[1].child.len(), 1);
    assert_eq!(forest[1].child[0].pid, 8);
}

#[test]
fn self_parent_is_a_root() {
    let entries = vec![raw(5, Some(5))];
    let forest = build_forest(&entries, &users(), 1);
    assert_eq!(forest.len(), 1);
    assert_eq!(forest[0].pid, 5);
    assert!(forest[0].child.is_empty());
}

#[test]
fn parent_cycle_loses_nothing() {
    let entries = vec![raw(1, Some(2)), raw(2, Some(1)), raw(3, Some(2))];
    let forest = build_forest(&entries, &users(), 1);
    let mut seen = Vec::new();
    all_pids(&forest, &mut seen);
    seen.sort();
    assert_eq!(seen, vec![1, 2, 3]);
    assert!(parents_match(&forest));
}

#[test]
fn gaps_are_filled_with_unknown() {
    let entries = vec![RawProcess {
        pid: 9,
        parent: None,
        name: None,
        cpu_usage: 0,
        memory_bytes: 0,
        exe: None,
        user_id: None,
    }];
    let forest = build_forest(&entries, &users(), 1);
    assert_eq!(forest[0].name, "Unknown");
    assert_eq!(forest[0].exe, "Unknown");
    assert_eq!(forest[0].user, "Unknown");
    assert_eq!(forest[0].parent_pid, 0);
}

#[test]
fn unknown_account_is_unknown() {
    let mut e = raw(9, None);
    e.user_id = Some(4242);
    let forest = build_forest(&vec![e], &users(), 1);
    assert_eq!(forest[0].user, "Unknown");
}

#[test]
fn owner_name_is_resolved() {
    let mut e = raw(9, None);
    e.user_id = Some(0);
    let forest = build_forest(&vec![e], &users(), 1);
    assert_eq!(forest[0].user, "root");
    assert_eq!(forest[0].name, "proc9");
    assert_eq!(forest[0].exe, "/bin/proc9");
}

#[test]
fn cpu_is_spread_over_cores_and_memory_in_kib() {
    let mut e = raw(9, None);
    e.cpu_usage = 10000;
    e.memory_bytes = 5 * 1024 * 1024 + 100;
    let forest = build_forest(&vec![e], &users(), 4);
    assert_eq!(forest[0].cpu, 2500);
    assert_eq!(forest[0].memory, 5 * 1024);
}

#[test]
fn zero_cores_reads_as_one() {
    let mut e = raw(9, None);
    e.cpu_usage = 700;
    let forest = build_forest(&vec![e], &users(), 0);
    assert_eq!(forest[0].cpu, 700);
}

#[test]
fn snapshot_carries_aggregates() {
    let st = build_snapshot(&enumeration(vec![raw(1, None), raw(2, Some(1))])).unwrap();
    assert_eq!(st.cpu, 1234);
    assert_eq!(st.mem, 2500);
    assert_eq!(st.processes.len(), 1);
    assert_eq!(st.processes[0].child[0].pid, 2);
}

#[test]
fn duplicate_pid_is_refused() {
    let r = build_snapshot(&enumeration(vec![raw(1, None), raw(1, None)]));
    assert!(matches!(r, Err(SnapshotError::DuplicatePid)));
}

#[test]
fn empty_enumeration_gives_empty_forest() {
    let st = build_snapshot(&enumeration(Vec::new())).unwrap();
    assert!(st.processes.is_empty());
    let e = SysStats::empty();
    assert!(e.processes.is_empty());
    assert_eq!(e.cpu, 0);
    assert_eq!(e.mem, 0);
}

#[test]
fn memory_share_values() {
    assert_eq!(memory_share(1, 4), 2500);
    assert_eq!(memory_share(1, 3), 3333);
    assert_eq!(memory_share(0, 0), 0);
    assert_eq!(memory_share(9, 4), 22500);
    assert_eq!(memory_share(2, 1), 20000);
    assert_eq!(memory_share(u64::MAX - 1, u64::MAX), 9999);
    assert_eq!(memory_share(u64::MAX, 1), u64::MAX as u128 * 10000);
}

#[test]
fn unique_pid_check() {
    assert!(pids_are_unique(&vec![raw(1, None), raw(2, None)]));
    assert!(!pids_are_unique(&vec![raw(1, None), raw(2, None), raw(1, Some(2))]));
    assert!(pids_are_unique(&Vec::new()));
}

#[test]
fn parent_listing() {
    let entries = vec![raw(1, None), raw(2, Some(1)), raw(3, Some(77)), raw(4, Some(4))];
    assert!(!parent_is_listed(&entries, 0));
    assert!(parent_is_listed(&entries, 1));
    assert!(!parent_is_listed(&entries, 2));
    assert!(!parent_is_listed(&entries, 3));
}

#[test]
fn first_matching_account_wins() {
    let list = vec![
        UserEntry { uid: 5, name: "first".to_string() },
        UserEntry { uid: 5, name: "second".to_string() },
    ];
    assert_eq!(find_user(&list, 5), Some("first".to_string()));
    assert_eq!(find_user(&list, 6), None);
}

#[test]
fn chain_from_enumeration_tree_view() {
    let entries = vec![raw(3, Some(2)), raw(2, Some(1)), raw(1, None)];
    let st = build_snapshot(&enumeration(entries)).unwrap();
    let open: HashSet<u32> = [1u32].into_iter().collect();
    let rows = project_tree(
        &st.processes,
        SortCriterion::Cpu,
        SortDirection::Descending,
        ProcessFilter::All,
        &"alice".to_string(),
        &open,
    );
    let got: Vec<(u32, usize)> = rows.iter().map(|(p, d)| (p.pid, *d)).collect();
    assert_eq!(got, vec![(1, 0), (2, 1)]);
}

#[test]
fn roots_orphans_first_then_cycles_in_entry_order() {
    let entries = vec![
        raw(1, Some(2)),
        raw(2, Some(1)),
        raw(6, Some(99)),
        raw(5, None),
        raw(7, Some(5)),
        raw(8, Some(5)),
    ];
    let forest = build_forest(&entries, &users(), 1);
    let roots: Vec<u32> = forest.iter().map(|p| p.pid).collect();
    assert_eq!(roots, vec![6, 5, 1]);
    let kids: Vec<u32> = forest[1].child.iter().map(|c| c.pid).collect();
    assert_eq!(kids, vec![7, 8]);
    assert_eq!(forest[2].child[0].pid, 2);
}
