use std::collections::{HashMap, HashSet};

use proc_siding_lib::discovery::{
    parse_pid_lines, parse_pid_tokens, ChildWalk, DiscoveryError, PidDiscovery,
    ProcessNameDiscovery, SystemdUnitDiscovery,
};

fn walk(mut w: ChildWalk, tree: &HashMap<u32, &str>) -> (HashSet<u32>, Vec<u32>) {
    let mut reads = Vec::new();
    while let Some(pid) = w.next_read() {
        reads.push(pid);
        w.feed(tree.get(&pid).copied());
    }
    (w.into_pids(), reads)
}

#[test]
fn pid_lines_skip_garbage() {
    assert_eq!(parse_pid_lines("12\n 34 \nabc\n\n+5\n-6\n99999999999\n7"), vec![12, 34, 5, 7]);
}

#[test]
fn pid_tokens_split_on_white_space() {
    assert_eq!(parse_pid_tokens(" 10 11\t12\nx 13 "), vec![10, 11, 12, 13]);
}

#[test]
fn systemd_paths_and_pids() {
    let d = SystemdUnitDiscovery { unit: "ollama.service".to_string() };
    assert_eq!(d.cgroup_procs_path(), "/sys/fs/cgroup/system.slice/ollama.service/cgroup.procs");
    let pids = SystemdUnitDiscovery::pids_from_procs("100\n101\n100\n");
    assert_eq!(pids, [100, 101].into_iter().collect());
}

#[test]
fn pid_discovery_collects_descendants_depth_first() {
    let tree: HashMap<u32, &str> =
        [(1, "2 3"), (2, "4"), (3, "4 5"), (4, ""), (5, "1")].into_iter().collect();
    let w = PidDiscovery { pid: 1 }.start(true).unwrap();
    let (pids, reads) = walk(w, &tree);
    assert_eq!(pids, [1, 2, 3, 4, 5].into_iter().collect());
    assert_eq!(reads, vec![1, 2, 4, 3, 5]);
}

#[test]
fn pid_discovery_missing_process() {
    match (PidDiscovery { pid: 77 }).start(false) {
        Err(DiscoveryError::PidNotFound(77)) => {}
        other => panic!("unexpected {:?}", other.err()),
    }
}

#[test]
fn unreadable_children_end_the_branch() {
    let tree: HashMap<u32, &str> = [(1, "2")].into_iter().collect();
    let w = PidDiscovery { pid: 1 }.start(true).unwrap();
    let (pids, reads) = walk(w, &tree);
    assert_eq!(pids, [1, 2].into_iter().collect());
    assert_eq!(reads, vec![1, 2]);
}

#[test]
fn process_name_discovery_from_pgrep() {
    let d = ProcessNameDiscovery { pattern: "ollama".to_string() };
    let tree: HashMap<u32, &str> = [(10, "11"), (20, "10 21"), (11, "")].into_iter().collect();
    let w = d.start(true, Some(0), "exit status: 0", "", "10\n20\n10\n").unwrap();
    let (pids, reads) = walk(w, &tree);
    assert_eq!(pids, [10, 11, 20, 21].into_iter().collect());
    assert_eq!(reads, vec![10, 11, 20, 21]);
}

#[test]
fn process_name_discovery_no_match_is_empty() {
    let d = ProcessNameDiscovery { pattern: "nothing".to_string() };
    let w = d.start(false, Some(1), "exit status: 1", "", "").unwrap();
    let (pids, reads) = walk(w, &HashMap::new());
    assert!(pids.is_empty());
    assert!(reads.is_empty());
}

#[test]
fn process_name_discovery_pgrep_failure() {
    let d = ProcessNameDiscovery { pattern: "x".to_string() };
    match d.start(false, Some(2), "exit status: 2", "bad pattern", "") {
        Err(DiscoveryError::Pgrep(m)) => assert_eq!(m, "pgrep exited exit status: 2: bad pattern"),
        other => panic!("unexpected {:?}", other.err()),
    }
    assert!(d.start(false, None, "signal: 9", "", "").is_err());
}
