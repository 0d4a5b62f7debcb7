//! Attribution of external GPU pressure: which processes count as
//! contributors.  Reading `/proc` and sysfs, running the platform tools and
//! reading their numbers is the caller's part.

use std::collections::HashSet;

use vstd::prelude::*;

use crate::text::{
    decimal, decimal_string, has_prefix, signed_decimal, signed_decimal_string, starts_with, trim,
    trim_str, views,
};

verus! {

broadcast use vstd::std_specs::hash::group_hash_axioms;

pub type Pid = u32;

/// A list of device users, each a PID and an exec name, as text.
pub open spec fn user_views(users: Seq<(Pid, String)>) -> Seq<(Pid, Seq<char>)> {
    users.map_values(|u: (Pid, String)| (u.0, u.1@))
}

/// The exec names of the users in `users` that are neither in `baseline` nor
/// in `excluded`, in order.
pub open spec fn contributors(
    users: Seq<(Pid, Seq<char>)>,
    baseline: Set<Pid>,
    excluded: Set<Pid>,
) -> Seq<Seq<char>>
    decreases users.len(),
{
    if users.len() == 0 {
        seq![]
    } else {
        let rest = contributors(users.drop_last(), baseline, excluded);
        let (pid, name) = users.last();
        if !baseline.contains(pid) && !excluded.contains(pid) {
            rest.push(name)
        } else {
            rest
        }
    }
}

/// The PIDs of the users in `users`.
pub open spec fn pids_of(users: Seq<(Pid, Seq<char>)>) -> Set<Pid> {
    Set::new(|p: Pid| exists|i: int| 0 <= i < users.len() && users[i].0 == p)
}

/// Filters a list of all device users down to the contributors that count
/// toward external GPU pressure: a PID is a contributor when it is neither in
/// `baseline` (processes present when the service started) nor in `excluded`
/// (PIDs owned by the watched workload).
pub fn filter_contributors(
    all_users: &[(Pid, String)],
    baseline: &HashSet<Pid>,
    excluded: &HashSet<Pid>,
) -> (r: Vec<String>)
    ensures
        views(r@) == contributors(user_views(all_users@), baseline@, excluded@),
{
    let mut out: Vec<String> = Vec::new();
    let mut i: usize = 0;
    while i < all_users.len()
        invariant
            i <= all_users@.len(),
            views(out@) == contributors(
                user_views(all_users@.take(i as int)),
                baseline@,
                excluded@,
            ),
        decreases all_users@.len() - i,
    {
        let ghost before = out@;
        let (pid, name) = &all_users[i];
        assert(user_views(all_users@.take(i + 1)).drop_last() =~= user_views(
            all_users@.take(i as int),
        ));
        assert(user_views(all_users@.take(i + 1)).last() == (*pid, name@));
        if !baseline.contains(pid) && !excluded.contains(pid) {
            out.push(name.clone());
            assert(views(out@) =~= views(before).push(name@));
        }
        i += 1;
    }
    assert(all_users@.take(i as int) =~= all_users@);
    out
}

/// The set of PIDs in `all_users`.
fn pid_set(all_users: &[(Pid, String)]) -> (r: HashSet<Pid>)
    ensures
        r@ == pids_of(user_views(all_users@)),
{
    let mut set: HashSet<Pid> = HashSet::new();
    let mut i: usize = 0;
    while i < all_users.len()
        invariant
            i <= all_users@.len(),
            set@ == pids_of(user_views(all_users@.take(i as int))),
        decreases all_users@.len() - i,
    {
        let ghost before = set@;
        let pid = all_users[i].0;
        set.insert(pid);
        let ghost us = user_views(all_users@.take(i + 1));
        let ghost prev = user_views(all_users@.take(i as int));
        assert(set@ =~= pids_of(us)) by {
            assert forall|p: Pid| set@.contains(p) implies pids_of(us).contains(p) by {
                if p == pid {
                    assert(us[i as int].0 == p);
                } else {
                    let k = choose|k: int| 0 <= k < prev.len() && prev[k].0 == p;
                    assert(us[k].0 == p);
                }
            }
            assert forall|p: Pid| pids_of(us).contains(p) implies set@.contains(p) by {
                let k = choose|k: int| 0 <= k < us.len() && us[k].0 == p;
                if k < i {
                    assert(prev[k].0 == p);
                }
            }
        }
        i += 1;
    }
    assert(all_users@.take(i as int) =~= all_users@);
    set
}

/// The contributors among `all_users`, against a baseline that the first
/// call captures: the PIDs of that call's users.
fn baseline_contributors(
    baseline_pids: &mut Option<HashSet<Pid>>,
    all_users: &[(Pid, String)],
    excluded: &HashSet<Pid>,
) -> (r: Vec<String>)
    ensures
        *final(baseline_pids) matches Some(b) && b@ == match *old(baseline_pids) {
            Some(old_b) => old_b@,
            None => pids_of(user_views(all_users@)),
        },
        *final(baseline_pids) matches Some(b) && views(r@) == contributors(
            user_views(all_users@),
            b@,
            excluded@,
        ),
{
    if baseline_pids.is_none() {
        *baseline_pids = Some(pid_set(all_users));
    }
    match baseline_pids {
        Some(b) => filter_contributors(all_users, b, excluded),
        None => Vec::new(),
    }
}

/// The name a device user goes by: its `comm`, trimmed, or `pid:<N>` when
/// that is empty.
pub open spec fn user_name(pid: Pid, comm: Seq<char>) -> Seq<char> {
    if trim(comm).len() == 0 {
        "pid:"@ + decimal(pid as nat)
    } else {
        trim(comm)
    }
}

/// The name of the device user `pid` whose `/proc/<pid>/comm` reads `comm`.
pub fn device_user_name(pid: Pid, comm: &str) -> (r: String)
    ensures
        r@ == user_name(pid, comm@),
{
    let t = trim_str(comm);
    if t.unicode_len() == 0 {
        "pid:".to_owned().concat(decimal_string(pid as u64).as_str())
    } else {
        t.to_owned()
    }
}

/// Whether a `/sys/class/drm` entry is a card (`card*`), as opposed to a
/// render node.
pub fn is_drm_card(name: &str) -> (b: bool)
    ensures
        b == has_prefix(name@, "card"@),
{
    starts_with(name, "card")
}

// ── AMD and NVIDIA detectors ────────────────────────────────────────────────

/// Attributes pressure on AMD GPUs to the processes holding DRI devices open.
pub struct AmdGpuDetector {
    /// PIDs that had DRI fds open on the first sample.  Compositor and other
    /// persistent desktop processes are captured here and excluded from
    /// contributor attribution on every subsequent tick.
    baseline_pids: Option<HashSet<Pid>>,
}

impl AmdGpuDetector {
    /// The captured baseline, once a sample has been taken.
    pub closed spec fn baseline(&self) -> Option<Set<Pid>> {
        match self.baseline_pids {
            Some(b) => Some(b@),
            None => None,
        }
    }

    /// The contributors among the current DRI users `all_users`.  The first
    /// call captures the baseline: the PIDs of its users; later calls keep it.
    pub fn contributors(&mut self, all_users: &[(Pid, String)], excluded: &HashSet<Pid>) -> (r:
        Vec<String>)
        ensures
            final(self).baseline() == Some(
                match old(self).baseline() {
                    Some(b) => b,
                    None => pids_of(user_views(all_users@)),
                },
            ),
            views(r@) == contributors(
                user_views(all_users@),
                final(self).baseline()->0,
                excluded@,
            ),
            (final(self).baseline()->0, views(r@)) == baseline_step(
                old(self).baseline(),
                user_views(all_users@),
                excluded@,
            ),
    {
        baseline_contributors(&mut self.baseline_pids, all_users, excluded)
    }
}

impl Default for AmdGpuDetector {
    fn default() -> (r: Self)
        ensures
            r.baseline() is None,
    {
        AmdGpuDetector { baseline_pids: None }
    }
}

/// Attributes pressure on NVIDIA GPUs to the processes holding NVIDIA devices
/// open.
pub struct NvidiaGpuDetector {
    /// PIDs that had NVIDIA device fds open on the first sample.  See the
    /// same field on `AmdGpuDetector` for rationale.
    baseline_pids: Option<HashSet<Pid>>,
}

impl NvidiaGpuDetector {
    /// The captured baseline, once a sample has been taken.
    pub closed spec fn baseline(&self) -> Option<Set<Pid>> {
        match self.baseline_pids {
            Some(b) => Some(b@),
            None => None,
        }
    }

    /// The contributors among the current NVIDIA device users `all_users`.
    /// The first call captures the baseline: the PIDs of its users; later
    /// calls keep it.
    pub fn contributors(&mut self, all_users: &[(Pid, String)], excluded: &HashSet<Pid>) -> (r:
        Vec<String>)
        ensures
            final(self).baseline() == Some(
                match old(self).baseline() {
                    Some(b) => b,
                    None => pids_of(user_views(all_users@)),
                },
            ),
            views(r@) == contributors(
                user_views(all_users@),
                final(self).baseline()->0,
                excluded@,
            ),
            (final(self).baseline()->0, views(r@)) == baseline_step(
                old(self).baseline(),
                user_views(all_users@),
                excluded@,
            ),
    {
        baseline_contributors(&mut self.baseline_pids, all_users, excluded)
    }
}

impl Default for NvidiaGpuDetector {
    fn default() -> (r: Self)
        ensures
            r.baseline() is None,
    {
        NvidiaGpuDetector { baseline_pids: None }
    }
}

} // verus!

verus! {

// ── Metal detector (macOS) ──────────────────────────────────────────────────

/// Attributes Metal GPU pressure to the processes that `metalps` reports.
pub struct MetalGpuDetector {
    /// Sample interval forwarded to `metalps --interval-ms`.
    pub sample_interval_ms: u64,
}

impl Default for MetalGpuDetector {
    fn default() -> (r: Self)
        ensures
            r.sample_interval_ms == 500,
    {
        MetalGpuDetector { sample_interval_ms: 500 }
    }
}

impl MetalGpuDetector {
    /// The arguments to run `metalps` with.
    pub fn metalps_args(&self) -> (r: Vec<String>)
        ensures
            views(r@) == seq!["--json"@, "--interval-ms"@, decimal(self.sample_interval_ms as nat)],
    {
        let mut args: Vec<String> = Vec::new();
        args.push("--json".to_owned());
        args.push("--interval-ms".to_owned());
        args.push(decimal_string(self.sample_interval_ms));
        assert(views(args@) =~= seq![
            "--json"@,
            "--interval-ms"@,
            decimal(self.sample_interval_ms as nat),
        ]);
        args
    }
}

/// A process as `metalps` reports it; `active` tells whether its GPU share is
/// above zero.
pub struct MetalProcess {
    pub pid: i32,
    pub name: Option<String>,
    pub active: bool,
}

/// A process that counts toward Metal pressure: its index in the report and
/// the name it goes by.
pub struct MetalContribution {
    pub index: usize,
    pub name: String,
}

/// The name of a reported process: its reported name, or `pid:<N>`.
pub open spec fn metal_name(p: MetalProcess) -> Seq<char> {
    match p.name {
        Some(n) => n@,
        None => "pid:"@ + signed_decimal(p.pid as int),
    }
}

/// Whether a reported process counts: it is active and its PID, taken as
/// unsigned, is not excluded.
pub open spec fn metal_counts(p: MetalProcess, excluded: Set<Pid>) -> bool {
    p.active && !excluded.contains(p.pid as u32)
}

/// The processes of `procs` that count, as (index, name), in order.
pub open spec fn metal_contributors(procs: Seq<MetalProcess>, excluded: Set<Pid>) -> Seq<
    (int, Seq<char>),
>
    decreases procs.len(),
{
    if procs.len() == 0 {
        seq![]
    } else {
        let rest = metal_contributors(procs.drop_last(), excluded);
        let p = procs.last();
        if metal_counts(p, excluded) {
            rest.push((procs.len() - 1, metal_name(p)))
        } else {
            rest
        }
    }
}

pub open spec fn contribution_views(cs: Seq<MetalContribution>) -> Seq<(int, Seq<char>)> {
    cs.map_values(|c: MetalContribution| (c.index as int, c.name@))
}

/// The processes of a `metalps` report that count toward pressure: those
/// that are active and not excluded.  Summing their shares is the caller's
/// part.
pub fn metal_contributions(procs: &[MetalProcess], excluded: &HashSet<Pid>) -> (r: Vec<
    MetalContribution,
>)
    ensures
        contribution_views(r@) == metal_contributors(procs@, excluded@),
{
    let mut out: Vec<MetalContribution> = Vec::new();
    let mut i: usize = 0;
    while i < procs.len()
        invariant
            i <= procs@.len(),
            contribution_views(out@) == metal_contributors(procs@.take(i as int), excluded@),
        decreases procs@.len() - i,
    {
        let ghost before = out@;
        let p = &procs[i];
        assert(procs@.take(i + 1).drop_last() =~= procs@.take(i as int));
        assert(procs@.take(i + 1).last() == *p);
        #[verifier::truncate]
        let pid = p.pid as u32;
        if p.active && !excluded.contains(&pid) {
            let name = match &p.name {
                Some(n) => n.clone(),
                None => "pid:".to_owned().concat(signed_decimal_string(p.pid as i64).as_str()),
            };
            out.push(MetalContribution { index: i, name });
            assert(contribution_views(out@) =~= contribution_views(before).push(
                (i as int, metal_name(*p)),
            ));
        }
        i += 1;
    }
    assert(procs@.take(i as int) =~= procs@);
    out
}

} // verus!

verus! {

// ── Errors ──────────────────────────────────────────────────────────────────

/// Why a detector could not take a sample.
#[derive(Debug)]
pub enum DetectorError {
    SysfsRead { path: String, source: std::io::Error },
    ParseError { path: String, value: String },
    NvidiaSmi(String),
    MetalSubprocess(String),
    MetalJsonParse(String),
}

/// The error for an `nvidia-smi` run that exited unsuccessfully: its exit
/// status and its standard error.
pub fn nvidia_smi_failure(status: &str, stderr: &str) -> (e: DetectorError)
    ensures
        e matches DetectorError::NvidiaSmi(m) && m@ == "nvidia-smi exited "@ + status@ + ": "@
            + stderr@,
{
    DetectorError::NvidiaSmi("nvidia-smi exited ".to_owned().concat(status).concat(": ").concat(stderr))
}

/// The error for a `metalps` run that exited unsuccessfully: its exit status
/// and its standard error.
pub fn metalps_failure(status: &str, stderr: &str) -> (e: DetectorError)
    ensures
        e matches DetectorError::MetalSubprocess(m) && m@ == "metalps exited "@ + status@ + ": "@
            + stderr@,
{
    DetectorError::MetalSubprocess("metalps exited ".to_owned().concat(status).concat(": ").concat(stderr))
}

} // verus!

verus! {

/// Contributors are drawn from the device users and never from the baseline
/// or the excluded PIDs: each name in the result is the name of a user whose
/// PID is in neither set.  With the baseline that a detector's first call
/// captures and every later call keeps, a process present at the first
/// sample is never a contributor.
pub proof fn lemma_contributors_exclude(
    users: Seq<(Pid, Seq<char>)>,
    baseline: Set<Pid>,
    excluded: Set<Pid>,
)
    ensures
        forall|i: int|
            0 <= i < contributors(users, baseline, excluded).len() ==> exists|j: int|
                0 <= j < users.len() && users[j].1 == #[trigger] contributors(
                    users,
                    baseline,
                    excluded,
                )[i] && !baseline.contains(users[j].0) && !excluded.contains(users[j].0),
    decreases users.len(),
{
    if users.len() > 0 {
        let d = users.drop_last();
        lemma_contributors_exclude(d, baseline, excluded);
        let rest = contributors(d, baseline, excluded);
        let all = contributors(users, baseline, excluded);
        assert forall|i: int| 0 <= i < all.len() implies exists|j: int|
            0 <= j < users.len() && users[j].1 == #[trigger] all[i] && !baseline.contains(
                users[j].0,
            ) && !excluded.contains(users[j].0) by {
            if i < rest.len() {
                assert(all[i] == rest[i]);
                let j = choose|j: int|
                    0 <= j < d.len() && d[j].1 == #[trigger] rest[i] && !baseline.contains(d[j].0)
                        && !excluded.contains(d[j].0);
                assert(users[j] == d[j]);
            } else {
                assert(users[users.len() - 1] == users.last());
            }
        }
    }
}

} // verus!

verus! {

/// One call of a detector's `contributors`: from the baseline held before it
/// (if any), the device users and the excluded PIDs, the baseline held after
/// it and the contributors it gives.
pub open spec fn baseline_step(
    baseline: Option<Set<Pid>>,
    users: Seq<(Pid, Seq<char>)>,
    excluded: Set<Pid>,
) -> (Set<Pid>, Seq<Seq<char>>) {
    let b = match baseline {
        Some(b) => b,
        None => pids_of(users),
    };
    (b, contributors(users, b, excluded))
}

/// A run of calls on a fresh detector, each call given as its device users
/// and its excluded PIDs: the baseline held at the end, and the contributors
/// of each call in order.
pub open spec fn baseline_run(calls: Seq<(Seq<(Pid, Seq<char>)>, Set<Pid>)>) -> (
    Option<Set<Pid>>,
    Seq<Seq<Seq<char>>>,
)
    decreases calls.len(),
{
    if calls.len() == 0 {
        (None, seq![])
    } else {
        let (b, rs) = baseline_run(calls.drop_last());
        let (b2, r) = baseline_step(b, calls.last().0, calls.last().1);
        (Some(b2), rs.push(r))
    }
}

/// Over any run of calls on a fresh detector, the first call fixes the
/// baseline to the PIDs of its users for good, and every call's contributors
/// are its users filtered against that baseline and its excluded PIDs; so a
/// process present at the first sample is never a contributor.
pub proof fn lemma_baseline_fixed_by_first_call(calls: Seq<(Seq<(Pid, Seq<char>)>, Set<Pid>)>)
    requires
        calls.len() > 0,
    ensures
        baseline_run(calls).0 == Some(pids_of(calls[0].0)),
        baseline_run(calls).1.len() == calls.len(),
        forall|i: int|
            0 <= i < calls.len() ==> #[trigger] baseline_run(calls).1[i] == contributors(
                calls[i].0,
                pids_of(calls[0].0),
                calls[i].1,
            ),
    decreases calls.len(),
{
    let d = calls.drop_last();
    if d.len() > 0 {
        lemma_baseline_fixed_by_first_call(d);
        assert(d[0] == calls[0]);
        assert forall|i: int| 0 <= i < calls.len() implies #[trigger] baseline_run(calls).1[i]
            == contributors(calls[i].0, pids_of(calls[0].0), calls[i].1) by {
            if i < d.len() {
                assert(baseline_run(calls).1[i] == baseline_run(d).1[i]);
                assert(d[i] == calls[i]);
            }
        }
    } else {
        assert(baseline_run(d).1 =~= Seq::<Seq<Seq<char>>>::empty());
    }
}

} // verus!

verus! {

/// No contributor is lost: every device user whose PID is neither in the
/// baseline nor excluded has its name among the contributors, whatever the
/// baseline holds (an empty one included).
pub proof fn lemma_contributors_complete(
    users: Seq<(Pid, Seq<char>)>,
    baseline: Set<Pid>,
    excluded: Set<Pid>,
)
    ensures
        forall|j: int|
            0 <= j < users.len() && !baseline.contains(#[trigger] users[j].0) && !excluded.contains(
                users[j].0,
            ) ==> contributors(users, baseline, excluded).contains(users[j].1),
    decreases users.len(),
{
    if users.len() > 0 {
        let d = users.drop_last();
        lemma_contributors_complete(d, baseline, excluded);
        let rest = contributors(d, baseline, excluded);
        let all = contributors(users, baseline, excluded);
        assert forall|j: int|
            0 <= j < users.len() && !baseline.contains(#[trigger] users[j].0) && !excluded.contains(
                users[j].0,
            ) implies all.contains(users[j].1) by {
            if j < d.len() {
                assert(d[j] == users[j]);
                let k = choose|k: int| 0 <= k < rest.len() && rest[k] == users[j].1;
                assert(all[k] == rest[k]);
            } else {
                assert(users[j] == users.last());
                assert(all[all.len() - 1] == users[j].1);
            }
        }
    }
}

} // verus!
