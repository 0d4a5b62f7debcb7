use std::collections::HashSet;

use proc_siding_lib::detector::{
    device_user_name, filter_contributors, is_drm_card, metal_contributions, metalps_failure,
    nvidia_smi_failure, AmdGpuDetector, DetectorError,
    MetalGpuDetector, MetalProcess, NvidiaGpuDetector, Pid,
};

fn users(pairs: &[(Pid, &str)]) -> Vec<(Pid, String)> {
    pairs.iter().map(|(p, n)| (*p, n.to_string())).collect()
}

fn pids(ids: &[Pid]) -> HashSet<Pid> {
    ids.iter().copied().collect()
}

#[test]
fn baseline_pids_are_excluded() {
    // Compositor processes captured at startup must never appear as
    // contributors, even when the GPU is under load.
    let all = users(&[(100, "gnome-shell"), (200, "xwayland"), (300, "game")]);
    let result = filter_contributors(&all, &pids(&[100, 200]), &HashSet::new());
    assert_eq!(result, vec!["game"]);
}

#[test]
fn excluded_pids_are_excluded() {
    // PIDs belonging to the watched workload (e.g. ollama) must not
    // appear as contributors regardless of whether they have GPU fds.
    let all = users(&[(100, "gnome-shell"), (200, "ollama"), (300, "game")]);
    let result = filter_contributors(&all, &pids(&[100]), &pids(&[200]));
    assert_eq!(result, vec!["game"]);
}

#[test]
fn no_new_pids_returns_empty() {
    // When every DRI user is either in the baseline or excluded, there
    // is no external pressure and the contributor list must be empty.
    let all = users(&[(100, "gnome-shell"), (200, "ollama")]);
    let result = filter_contributors(&all, &pids(&[100]), &pids(&[200]));
    assert!(result.is_empty());
}

#[test]
fn multiple_new_pids_all_reported() {
    let all = users(&[(100, "gnome-shell"), (300, "game"), (400, "wine")]);
    let mut result = filter_contributors(&all, &pids(&[100]), &HashSet::new());
    result.sort();
    assert_eq!(result, vec!["game", "wine"]);
}

#[test]
fn empty_input_returns_empty() {
    let result = filter_contributors(&[], &HashSet::new(), &HashSet::new());
    assert!(result.is_empty());
}

#[test]
fn contributors_keep_their_order() {
    let all = users(&[(500, "wine"), (100, "gnome-shell"), (300, "game")]);
    let result = filter_contributors(&all, &pids(&[100]), &HashSet::new());
    assert_eq!(result, vec!["wine", "game"]);
}

#[test]
fn amd_first_sample_captures_baseline() {
    let mut detector = AmdGpuDetector::default();
    let first = users(&[(100, "gnome-shell"), (200, "xwayland")]);
    assert!(detector.contributors(&first, &HashSet::new()).is_empty());
    let later = users(&[(100, "gnome-shell"), (200, "xwayland"), (300, "game")]);
    assert_eq!(detector.contributors(&later, &HashSet::new()), vec!["game"]);
}

#[test]
fn nvidia_baseline_is_kept_after_first_sample() {
    let mut detector = NvidiaGpuDetector::default();
    let first = users(&[(100, "Xorg")]);
    assert!(detector.contributors(&first, &HashSet::new()).is_empty());
    // A process present at a later sample is not folded into the baseline.
    let second = users(&[(100, "Xorg"), (300, "game")]);
    assert_eq!(detector.contributors(&second, &HashSet::new()), vec!["game"]);
    let third = users(&[(100, "Xorg"), (300, "game"), (400, "ollama")]);
    assert_eq!(detector.contributors(&third, &pids(&[400])), vec!["game"]);
}

#[test]
fn device_user_name_trims_comm() {
    assert_eq!(device_user_name(42, "firefox\n"), "firefox");
}

#[test]
fn device_user_name_falls_back_to_pid() {
    assert_eq!(device_user_name(4242, " \n"), "pid:4242");
    assert_eq!(device_user_name(0, ""), "pid:0");
}

#[test]
fn drm_cards_are_recognised() {
    assert!(is_drm_card("card0"));
    assert!(is_drm_card("card1-DP-1"));
    assert!(!is_drm_card("renderD128"));
    assert!(!is_drm_card("car"));
}

#[test]
fn metalps_arguments_carry_the_interval() {
    let detector = MetalGpuDetector::default();
    assert_eq!(detector.sample_interval_ms, 500);
    assert_eq!(detector.metalps_args(), vec!["--json", "--interval-ms", "500"]);
    let detector = MetalGpuDetector { sample_interval_ms: 1234 };
    assert_eq!(detector.metalps_args(), vec!["--json", "--interval-ms", "1234"]);
}

#[test]
fn metal_contributions_skip_idle_and_excluded() {
    let procs = vec![
        MetalProcess { pid: 10, name: Some("game".to_string()), active: true },
        MetalProcess { pid: 20, name: Some("idle".to_string()), active: false },
        MetalProcess { pid: 30, name: Some("ollama".to_string()), active: true },
        MetalProcess { pid: 40, name: None, active: true },
        MetalProcess { pid: -5, name: None, active: true },
    ];
    let result = metal_contributions(&procs, &pids(&[30]));
    let got: Vec<(usize, String)> = result.into_iter().map(|c| (c.index, c.name)).collect();
    assert_eq!(
        got,
        vec![(0, "game".to_string()), (3, "pid:40".to_string()), (4, "pid:-5".to_string())]
    );
}

#[test]
fn metal_exclusion_uses_unsigned_pid() {
    let procs = vec![MetalProcess { pid: -1, name: None, active: true }];
    assert!(metal_contributions(&procs, &pids(&[u32::MAX])).is_empty());
}

#[test]
fn detector_subprocess_failures_carry_their_reason() {

    match nvidia_smi_failure("exit status: 9", "no devices") {
        DetectorError::NvidiaSmi(m) => assert_eq!(m, "nvidia-smi exited exit status: 9: no devices"),
        other => panic!("unexpected {other:?}"),
    }
    match metalps_failure("exit status: 2", "denied") {
        DetectorError::MetalSubprocess(m) => assert_eq!(m, "metalps exited exit status: 2: denied"),
        other => panic!("unexpected {other:?}"),
    }
}

#[test]
fn baseline_stays_fixed_over_many_calls() {
    let mut detector = AmdGpuDetector::default();
    assert!(detector.contributors(&users(&[(1, "compositor")]), &HashSet::new()).is_empty());
    for round in 0..5u32 {
        let all = users(&[(1, "compositor"), (100 + round, "game")]);
        assert_eq!(detector.contributors(&all, &HashSet::new()), vec!["game"]);
    }
}
