use top_helper::process::{ProcessRecord, ProcessSnapshot, RankKey};
use top_helper::tree::ProcessTreeIndex;
use top_helper::window::{BackendOutcome, MatchKind, WindowInfo};

fn rec(pid: u32, name: &str, parent: Option<u32>, memory: u64, cpu: u32) -> ProcessRecord {
    ProcessRecord {
        pid,
        name: name.to_string(),
        parent_pid: parent,
        memory_bytes: memory,
        cpu_centi_percent: cpu,
        command: vec![name.to_string()],
    }
}

fn win(id: &str, title: &str, class: &str, pid: u32) -> WindowInfo {
    WindowInfo {
        window_id: id.to_string(),
        title: title.to_string(),
        class: class.to_string(),
        pid,
    }
}

fn snapshot(records: Vec<ProcessRecord>) -> ProcessSnapshot {
    ProcessSnapshot { procs: records }
}

#[test]
fn resolve_by_pid_returns_that_record() {
    let s = snapshot(vec![rec(100, "code", None, 0, 0), rec(200, "chrome", Some(100), 0, 0)]);
    let r = s.resolve("200").expect("pid 200 is in the snapshot");
    assert_eq!(r.pid, 200);
    assert_eq!(r.name, "chrome");
}

#[test]
fn resolve_by_pid_missing_is_none() {
    let s = snapshot(vec![rec(100, "code", None, 0, 0)]);
    assert!(s.resolve("300").is_none());
}

#[test]
fn resolve_by_name_substring_case_insensitive() {
    let s = snapshot(vec![rec(100, "code", None, 0, 0), rec(200, "Google-Chrome", None, 0, 0)]);
    let r = s.resolve("chrome").expect("substring matches");
    assert_eq!(r.pid, 200);
    let r2 = s.resolve("CODE").expect("case-insensitive");
    assert_eq!(r2.pid, 100);
    assert!(s.resolve("zzz").is_none());
}

#[test]
fn resolve_name_match_is_first_in_snapshot_order() {
    let s = snapshot(vec![rec(7, "codex", None, 0, 0), rec(8, "code", None, 0, 0)]);
    let r = s.resolve("code").expect("two candidates");
    assert_eq!(r.pid, 7);
}

#[test]
fn tree_children_and_descendants() {
    let s = snapshot(vec![
        rec(1, "init", None, 0, 0),
        rec(2, "shell", Some(1), 0, 0),
        rec(3, "editor", Some(2), 0, 0),
        rec(4, "daemon", Some(999), 0, 0), // dangling parent: no edge
    ]);
    let t = ProcessTreeIndex::build(&s);
    assert_eq!(t.children_of(1), vec![2]);
    assert_eq!(t.children_of(2), vec![3]);
    assert!(t.children_of(4).is_empty());
    let mut d = t.descendants_of(1);
    d.sort();
    assert_eq!(d, vec![2, 3]);
    assert!(t.descendants_of(4).is_empty());
}

#[test]
fn descendants_terminate_on_cyclic_parent_links() {
    // artificially cyclic parent chain: 1 -> 2 -> 3 -> 1
    let s = snapshot(vec![
        rec(1, "a", Some(3), 0, 0),
        rec(2, "b", Some(1), 0, 0),
        rec(3, "c", Some(2), 0, 0),
    ]);
    let t = ProcessTreeIndex::build(&s);
    let mut d = t.descendants_of(1);
    d.sort();
    assert_eq!(d, vec![2, 3]);
    assert!(!d.contains(&1), "a pid is never its own descendant");
}

#[test]
fn no_window_for_process_without_windows() {
    // pid 100 with no descendants, no window owned by 100 anywhere
    let s = snapshot(vec![rec(100, "code", None, 0, 0)]);
    let t = ProcessTreeIndex::build(&s);
    let backends = vec![
        BackendOutcome::Available(vec![win("0x9", "Other", "other", 555)]),
        BackendOutcome::Available(vec![]),
    ];
    let r = top_helper::window::find_window_by_pid(100, &t, &backends);
    assert!(r.is_none());
}

#[test]
fn descendant_window_is_found_with_descendant_tag() {
    // target 100; its only descendant 200 owns the window
    let s = snapshot(vec![rec(100, "code", None, 0, 0), rec(200, "chrome", Some(100), 0, 0)]);
    let t = ProcessTreeIndex::build(&s);
    let backends = vec![BackendOutcome::Available(vec![win(
        "0x1",
        "Example",
        "Google-chrome",
        200,
    )])];
    let m = top_helper::window::find_window_by_pid(100, &t, &backends).expect("descendant match");
    assert_eq!(m.kind, MatchKind::Descendant);
    assert_eq!(m.window.window_id, "0x1");
    assert_eq!(m.window.pid, 200);
    assert_eq!(m.window.class, "Google-chrome");
    assert_eq!(m.window.title, "Example");
}

#[test]
fn exact_match_beats_earlier_descendant_match_in_same_backend() {
    let s = snapshot(vec![rec(100, "code", None, 0, 0), rec(200, "helper", Some(100), 0, 0)]);
    let t = ProcessTreeIndex::build(&s);
    // the descendant-owned window comes first in the listing
    let backends = vec![BackendOutcome::Available(vec![
        win("0xa", "Helper", "helper", 200),
        win("0xb", "Editor", "code", 100),
    ])];
    let m = top_helper::window::find_window_by_pid(100, &t, &backends).expect("match");
    assert_eq!(m.kind, MatchKind::Exact);
    assert_eq!(m.window.window_id, "0xb");
    assert_eq!(m.window.pid, 100);
}

#[test]
fn unavailable_backend_falls_back_to_next() {
    let s = snapshot(vec![rec(100, "code", None, 0, 0)]);
    let t = ProcessTreeIndex::build(&s);
    let backends = vec![
        BackendOutcome::Unavailable,
        BackendOutcome::Available(vec![win("0x2", "Editor", "code", 100)]),
    ];
    let m = top_helper::window::find_window_by_pid(100, &t, &backends).expect("second backend");
    assert_eq!(m.kind, MatchKind::Exact);
    assert_eq!(m.window.window_id, "0x2");
}

#[test]
fn first_backend_descendant_beats_second_backend_exact() {
    // per-backend exhaustion: a descendant match in the priority backend
    // wins over an exact match that only the next backend can see
    let s = snapshot(vec![rec(100, "code", None, 0, 0), rec(200, "helper", Some(100), 0, 0)]);
    let t = ProcessTreeIndex::build(&s);
    let backends = vec![
        BackendOutcome::Available(vec![win("0xa", "Helper", "helper", 200)]),
        BackendOutcome::Available(vec![win("0xb", "Editor", "code", 100)]),
    ];
    let m = top_helper::window::find_window_by_pid(100, &t, &backends).expect("match");
    assert_eq!(m.kind, MatchKind::Descendant);
    assert_eq!(m.window.window_id, "0xa");
}

#[test]
fn all_backends_unavailable_is_not_found() {
    let s = snapshot(vec![rec(100, "code", None, 0, 0)]);
    let t = ProcessTreeIndex::build(&s);
    let backends = vec![BackendOutcome::Unavailable, BackendOutcome::Unavailable];
    assert!(top_helper::window::find_window_by_pid(100, &t, &backends).is_none());
}

#[test]
fn select_processes_filters_by_name_and_memory() {
    let s = snapshot(vec![
        rec(1, "code", None, 104857600, 0),     // exactly 100 MiB: kept
        rec(2, "code-helper", None, 104857599, 0), // one byte short: dropped
        rec(3, "chrome", None, 500000000, 0),
    ]);
    let sel = s.select_processes(None, true);
    assert_eq!(sel, vec![0, 2]);
    let sel2 = s.select_processes(Some("CODE"), false);
    assert_eq!(sel2, vec![0, 1]);
    let sel3 = s.select_processes(Some("code"), true);
    assert_eq!(sel3, vec![0]);
}

#[test]
fn ranking_sorts_descending_and_is_stable() {
    let s = snapshot(vec![
        rec(1, "a", None, 10, 5),
        rec(2, "b", None, 30, 5),
        rec(3, "c", None, 10, 7),
    ]);
    let sel = s.select_processes(None, false);
    let pairs = s.rank_pairs(&sel, RankKey::MemoryBytes);
    let sorted = top_helper::process::sort_pairs_desc(&pairs);
    // keys 30, then the two 10s keeping their input order
    assert_eq!(sorted, vec![(30, 1), (10, 0), (10, 2)]);
    let cpu_pairs = s.rank_pairs(&sel, RankKey::CpuCentiPercent);
    let cpu_sorted = top_helper::process::sort_pairs_desc(&cpu_pairs);
    assert_eq!(cpu_sorted, vec![(7, 2), (5, 0), (5, 1)]);
}
