//! Discovery of the PIDs that belong to the watched process tree: reading
//! PID lists, and the walk over `/proc/<pid>/task/<pid>/children` that
//! collects descendants.  Reading the files and running `pgrep` is the
//! caller's part.

use std::collections::HashSet;

use vstd::prelude::*;

use crate::detector::Pid;
use crate::text::{
    decimal, is_white_space, lemma_decimal_has_no, lemma_find_from_at, lemma_find_from_none,
    lemma_decimal_reads_back, lemma_parse_decimal, lemma_space_from, lines, lines_from, parse_u32, parse_unsigned,
    space_from, split_lines, split_tokens, tokens, tokens_from, trim, trim_start, trim_str, views,
};

verus! {

broadcast use vstd::std_specs::hash::group_hash_axioms;

/// `std::io::Error`, carried in errors as the reason a read failed.
#[verifier::external_type_specification]
#[verifier::external_body]
pub struct ExIoError(std::io::Error);

/// Why the watched PIDs could not be discovered.
#[derive(Debug)]
pub enum DiscoveryError {
    CgroupRead { unit: String, path: String, source: std::io::Error },
    Pgrep(String),
    PidNotFound(Pid),
}

// ── PID lists ───────────────────────────────────────────────────────────────

/// The texts of `ts` that read as PIDs, read, in order; the others are
/// skipped.
pub open spec fn parsed_pids(ts: Seq<Seq<char>>) -> Seq<Pid>
    decreases ts.len(),
{
    if ts.len() == 0 {
        seq![]
    } else {
        let rest = parsed_pids(ts.drop_last());
        match parse_unsigned(ts.last(), 0xffff_ffff) {
            Some(v) => rest.push(v as Pid),
            None => rest,
        }
    }
}

/// The lines of `s`, each trimmed.
pub open spec fn trimmed_lines(s: Seq<char>) -> Seq<Seq<char>> {
    lines(s).map_values(|l: Seq<char>| trim(l))
}

/// The PIDs listed one per line in `s`, in order; lines that do not read as a
/// PID once trimmed are skipped.
pub open spec fn pid_lines(s: Seq<char>) -> Seq<Pid> {
    parsed_pids(trimmed_lines(s))
}

/// The PIDs among the white-space separated tokens of `s`, in order.
pub open spec fn pid_tokens(s: Seq<char>) -> Seq<Pid> {
    parsed_pids(tokens(s))
}

/// Reads the texts `ts` as PIDs, skipping those that are not one.
fn parse_pids(ts: &Vec<String>) -> (r: Vec<Pid>)
    ensures
        r@ == parsed_pids(views(ts@)),
{
    let mut out: Vec<Pid> = Vec::new();
    let mut i: usize = 0;
    while i < ts.len()
        invariant
            i <= ts@.len(),
            out@ == parsed_pids(views(ts@).take(i as int)),
        decreases ts@.len() - i,
    {
        assert(views(ts@).take(i + 1).drop_last() =~= views(ts@).take(i as int));
        assert(views(ts@).take(i + 1).last() == ts@[i as int]@);
        match parse_u32(ts[i].as_str()) {
            Some(v) => out.push(v),
            None => {},
        }
        i += 1;
    }
    assert(views(ts@).take(i as int) =~= views(ts@));
    out
}

/// The PIDs listed one per line in `s` (a `cgroup.procs` file, or `pgrep`'s
/// output), in order.
pub fn parse_pid_lines(s: &str) -> (r: Vec<Pid>)
    ensures
        r@ == pid_lines(s@),
{
    let ls = split_lines(s);
    let mut trimmed: Vec<String> = Vec::new();
    let mut i: usize = 0;
    while i < ls.len()
        invariant
            i <= ls@.len(),
            views(ls@) == lines(s@),
            views(trimmed@) == lines(s@).take(i as int).map_values(|l: Seq<char>| trim(l)),
        decreases ls@.len() - i,
    {
        let ghost before = trimmed@;
        let t = trim_str(ls[i].as_str()).to_owned();
        trimmed.push(t);
        assert(views(ls@)[i as int] == ls@[i as int]@);
        assert(views(trimmed@) =~= views(before).push(t@));
        assert(views(trimmed@) =~= lines(s@).take(i + 1).map_values(|l: Seq<char>| trim(l)));
        i += 1;
    }
    assert(lines(s@).take(i as int) =~= lines(s@));
    parse_pids(&trimmed)
}

/// The PIDs among the white-space separated tokens of `s` (a `children`
/// file), in order.
pub fn parse_pid_tokens(s: &str) -> (r: Vec<Pid>)
    ensures
        r@ == pid_tokens(s@),
{
    parse_pids(&split_tokens(s))
}

/// The set of the PIDs in `v`.
pub fn pid_set_of(v: &Vec<Pid>) -> (r: HashSet<Pid>)
    ensures
        r@ == v@.to_set(),
{
    let mut set: HashSet<Pid> = HashSet::new();
    let mut i: usize = 0;
    while i < v.len()
        invariant
            i <= v@.len(),
            set@ == v@.take(i as int).to_set(),
        decreases v@.len() - i,
    {
        set.insert(v[i]);
        proof {
            Seq::lemma_to_set_insert_commutes(v@.take(i as int), v@[i as int]);
        }
        assert(v@.take(i as int) + seq![v@[i as int]] =~= v@.take(i + 1));
        i += 1;
    }
    assert(v@.take(i as int) =~= v@);
    set
}

} // verus!

verus! {

// ── Collecting descendants ──────────────────────────────────────────────────

/// The PIDs reachable from `roots` in at most `k` steps, a step going from a
/// PID to one of the children listed for it.
pub open spec fn reach(roots: Set<Pid>, listed: Map<Pid, Seq<Pid>>, k: nat) -> Set<Pid>
    decreases k,
{
    if k == 0 {
        roots
    } else {
        let prev = reach(roots, listed, (k - 1) as nat);
        prev.union(
            Set::new(
                |c: Pid|
                    exists|p: Pid, i: int|
                        prev.contains(p) && listed.contains_key(p) && 0 <= i < listed[p].len()
                            && #[trigger] listed[p][i] == c,
            ),
        )
    }
}

/// Whether `c` is reachable from `roots` through the children lists `listed`.
pub open spec fn reachable(roots: Set<Pid>, listed: Map<Pid, Seq<Pid>>, c: Pid) -> bool {
    exists|k: nat| #[trigger] reach(roots, listed, k).contains(c)
}

proof fn lemma_reach_step(roots: Set<Pid>, listed: Map<Pid, Seq<Pid>>, p: Pid, i: int)
    requires
        reachable(roots, listed, p),
        listed.contains_key(p),
        0 <= i < listed[p].len(),
    ensures
        reachable(roots, listed, listed[p][i]),
{
    let k = choose|k: nat| #[trigger] reach(roots, listed, k).contains(p);
    assert(reach(roots, listed, k + 1).contains(listed[p][i]));
}

proof fn lemma_reach_grows(roots: Set<Pid>, listed: Map<Pid, Seq<Pid>>, more: Map<Pid, Seq<Pid>>, k: nat)
    requires
        forall|q: Pid| #[trigger]
            listed.contains_key(q) ==> more.contains_key(q) && more[q] == listed[q],
    ensures
        reach(roots, listed, k).subset_of(reach(roots, more, k)),
    decreases k,
{
    if k > 0 {
        lemma_reach_grows(roots, listed, more, (k - 1) as nat);
        let prev = reach(roots, listed, (k - 1) as nat);
        let prev2 = reach(roots, more, (k - 1) as nat);
        assert forall|c: Pid| reach(roots, listed, k).contains(c) implies reach(
            roots,
            more,
            k,
        ).contains(c) by {
            if !prev.contains(c) {
                let (p, i) = choose|p: Pid, i: int|
                    prev.contains(p) && listed.contains_key(p) && 0 <= i < listed[p].len()
                        && #[trigger] listed[p][i] == c;
                assert(more[p] == listed[p]);
                assert(prev2.contains(p));
                assert(more[p][i] == c);
            }
        }
    }
}

/// A children list being read through.
struct Frame {
    children: Vec<Pid>,
    next: usize,
}

spec fn remaining_of(frames: Seq<Frame>) -> Seq<Pid>
    decreases frames.len(),
{
    if frames.len() == 0 {
        seq![]
    } else {
        frames.last().children@.skip(frames.last().next as int) + remaining_of(frames.drop_last())
    }
}

/// `s` without its repeated elements: each first occurrence, in order.
pub open spec fn dedup(s: Seq<Pid>) -> Seq<Pid>
    decreases s.len(),
{
    if s.len() == 0 {
        seq![]
    } else {
        let d = dedup(s.drop_last());
        if d.contains(s.last()) {
            d
        } else {
            d.push(s.last())
        }
    }
}

/// The walk that collects all descendants of a set of root PIDs, reading the
/// children of each PID it collects, depth first, in the order in which the
/// children are listed.  Each root's children are read, and the children of
/// each newly collected PID; a PID that is already collected is not read
/// again.
///
/// The caller asks `next_read` which PID's children to read, reads them, and
/// hands the text (or `None`, when it could not be read) to `feed`, until
/// `next_read` answers `None`.
pub struct ChildWalk {
    pids: HashSet<Pid>,
    roots: Vec<Pid>,
    next_root: usize,
    frames: Vec<Frame>,
    awaiting: Option<Pid>,
    owners: Ghost<Seq<Pid>>,
    listed: Ghost<Map<Pid, Seq<Pid>>>,
}

impl ChildWalk {
    /// The PIDs collected so far.
    pub closed spec fn collected(&self) -> Set<Pid> {
        self.pids@
    }

    /// The PIDs the walk started from.
    pub closed spec fn root_set(&self) -> Set<Pid> {
        self.roots@.to_set()
    }

    /// The children read so far, by PID.
    pub closed spec fn listed(&self) -> Map<Pid, Seq<Pid>> {
        self.listed@
    }

    /// The PID whose children the walk waits for, if any.
    pub closed spec fn awaiting(&self) -> Option<Pid> {
        self.awaiting
    }

    /// The children still to go through, from the most recently read list
    /// down: each list's children not yet looked at, in order.
    pub closed spec fn pending(&self) -> Seq<Pid> {
        remaining_of(self.frames@)
    }

    /// The roots whose children are still to be read, in order.
    pub closed spec fn pending_roots(&self) -> Seq<Pid> {
        self.roots@.skip(self.next_root as int)
    }

    /// Whether there is nothing left to read.
    pub closed spec fn finished(&self) -> bool {
        &&& self.frames@.len() == 0
        &&& self.next_root == self.roots@.len()
        &&& self.awaiting is None
    }

    spec fn pending_root(&self, p: Pid) -> bool {
        exists|j: int| self.next_root <= j < self.roots@.len() && #[trigger] self.roots@[j] == p
    }

    spec fn frame_done_prefix(&self, i: int) -> bool {
        forall|k: int|
            0 <= k < self.frames@[i].next ==> self.pids@.contains(
                #[trigger] self.frames@[i].children@[k],
            )
    }

    spec fn expanded(&self, p: Pid) -> bool {
        &&& self.listed@.contains_key(p)
        &&& forall|k: int|
            0 <= k < self.listed@[p].len() ==> self.pids@.contains(#[trigger] self.listed@[p][k])
    }

    /// Every collected PID is a root yet to be read, the one being read, one
    /// whose children are being gone through, or one all of whose children
    /// are collected.
    spec fn covered(&self, p: Pid) -> bool {
        ||| self.pending_root(p)
        ||| self.awaiting == Some(p)
        ||| exists|i: int| 0 <= i < self.owners@.len() && #[trigger] self.owners@[i] == p
            && self.frame_done_prefix(i)
        ||| self.expanded(p)
    }

    /// The walk's invariant.
    pub closed spec fn wf(&self) -> bool {
        &&& self.next_root <= self.roots@.len()
        &&& forall|i: int, j: int|
            0 <= i < j < self.roots@.len() ==> self.roots@[i] != self.roots@[j]
        &&& forall|j: int| 0 <= j < self.roots@.len() ==> self.pids@.contains(#[trigger] self.roots@[j])
        &&& self.frames@.len() == self.owners@.len()
        &&& forall|i: int|
            0 <= i < self.frames@.len() ==> {
                &&& #[trigger] self.frames@[i].next <= self.frames@[i].children@.len()
                &&& self.listed@.contains_key(self.owners@[i])
                &&& self.listed@[self.owners@[i]] == self.frames@[i].children@
                &&& self.pids@.contains(self.owners@[i])
            }
        &&& forall|p: Pid| self.listed@.contains_key(p) ==> self.pids@.contains(p)
        &&& self.awaiting matches Some(p) ==> self.pids@.contains(p) && !self.listed@.contains_key(p)
        &&& forall|j: int|
            self.next_root <= j < self.roots@.len() ==> !self.listed@.contains_key(
                #[trigger] self.roots@[j],
            ) && self.awaiting != Some(self.roots@[j])
        &&& forall|p: Pid| self.pids@.contains(p) ==> reachable(self.roots@.to_set(), self.listed@, p)
        &&& forall|p: Pid| self.pids@.contains(p) ==> self.covered(p)
    }
}

} // verus!

verus! {

impl ChildWalk {
    /// A walk from the PIDs `roots` (duplicates are dropped), with all of
    /// them collected and none read yet.
    pub fn new(roots: &Vec<Pid>) -> (w: ChildWalk)
        ensures
            w.wf(),
            w.collected() == roots@.to_set(),
            w.root_set() == roots@.to_set(),
            w.listed() == Map::<Pid, Seq<Pid>>::empty(),
            w.awaiting() is None,
            w.pending() == Seq::<Pid>::empty(),
            w.pending_roots() == dedup(roots@),
    {
        let mut pids: HashSet<Pid> = HashSet::new();
        let mut distinct: Vec<Pid> = Vec::new();
        let mut i: usize = 0;
        while i < roots.len()
            invariant
                i <= roots@.len(),
                pids@ == roots@.take(i as int).to_set(),
                distinct@.to_set() == pids@,
                distinct@ == dedup(roots@.take(i as int)),
                forall|a: int, b: int|
                    0 <= a < b < distinct@.len() ==> distinct@[a] != distinct@[b],
            decreases roots@.len() - i,
        {
            let p = roots[i];
            let ghost before = distinct@;
            proof {
                Seq::lemma_to_set_insert_commutes(roots@.take(i as int), p);
                Seq::lemma_to_set_insert_commutes(before, p);
            }
            assert(roots@.take(i as int) + seq![p] =~= roots@.take(i + 1));
            assert(roots@.take(i + 1).drop_last() =~= roots@.take(i as int));
            assert(before.contains(p) == before.to_set().contains(p));
            if pids.insert(p) {
                distinct.push(p);
                assert(before + seq![p] =~= distinct@);
                assert forall|a: int, b: int|
                    0 <= a < b < distinct@.len() implies distinct@[a] != distinct@[b] by {
                    if b == distinct@.len() - 1 {
                        assert(before.contains(distinct@[a]));
                    }
                }
            } else {
                assert(distinct@.to_set() =~= pids@);
            }
            i += 1;
        }
        assert(roots@.take(i as int) =~= roots@);
        assert(distinct@.skip(0) =~= distinct@);
        let w = ChildWalk {
            pids,
            roots: distinct,
            next_root: 0,
            frames: Vec::new(),
            awaiting: None,
            owners: Ghost(Seq::empty()),
            listed: Ghost(Map::empty()),
        };
        assert forall|p: Pid| w.pids@.contains(p) implies reachable(
            w.roots@.to_set(),
            w.listed@,
            p,
        ) by {
            let zero: nat = 0;
            assert(w.roots@.to_set().contains(p));
            assert(reach(w.roots@.to_set(), w.listed@, zero) == w.roots@.to_set());
            assert(reach(w.roots@.to_set(), w.listed@, zero).contains(p));
        }
        assert forall|p: Pid| w.pids@.contains(p) implies w.covered(p) by {
            assert(w.roots@.to_set().contains(p));
            let j = choose|j: int| 0 <= j < w.roots@.len() && w.roots@[j] == p;
            assert(w.pending_root(p));
        }
        assert forall|j: int| 0 <= j < w.roots@.len() implies w.pids@.contains(
            #[trigger] w.roots@[j],
        ) by {
            assert(w.roots@.to_set().contains(w.roots@[j]));
        }
        w
    }

    /// The PIDs collected so far.
    pub fn pids(&self) -> (r: &HashSet<Pid>)
        ensures
            r@ == self.collected(),
    {
        &self.pids
    }

    /// The PID whose children are to be read next, or `None` when the walk
    /// is finished.  A PID other than a root is given only when it has just
    /// been collected, and each PID is given at most once.
    pub fn next_read(&mut self) -> (r: Option<Pid>)
        requires
            old(self).wf(),
            old(self).awaiting() is None,
        ensures
            final(self).wf(),
            final(self).root_set() == old(self).root_set(),
            final(self).listed() == old(self).listed(),
            old(self).collected().subset_of(final(self).collected()),
            final(self).awaiting() == r,
            r is None ==> final(self).finished() && final(self).collected() == old(
                self,
            ).collected(),
            r matches Some(p) ==> !old(self).listed().contains_key(p) && (
            old(self).root_set().contains(p) || !old(self).collected().contains(p))
                && final(self).collected() == old(self).collected().insert(p),
            ({
                let pend = old(self).pending();
                let seen = old(self).collected();
                let all_seen = forall|k: int| 0 <= k < pend.len() ==> seen.contains(#[trigger] pend[k]);
                match r {
                    Some(p) => {
                        ||| exists|i: int|
                            0 <= i < pend.len() && #[trigger] pend[i] == p && !seen.contains(p)
                                && (forall|k: int| 0 <= k < i ==> seen.contains(#[trigger] pend[k]))
                                && final(self).pending() == pend.skip(i + 1)
                                && final(self).pending_roots() == old(self).pending_roots()
                        ||| all_seen && old(self).pending_roots().len() > 0 && p == old(
                            self,
                        ).pending_roots()[0] && final(self).pending() == Seq::<Pid>::empty()
                            && final(self).pending_roots() == old(self).pending_roots().drop_first()
                    },
                    None => all_seen && old(self).pending_roots().len() == 0,
                }
            }),
    {
        let ghost start = *self;
        assert(start == *old(self));
        let ghost mut j: int = 0;
        assert(start.pending().skip(0) =~= start.pending());
        loop
            invariant
                start == *old(self),
                0 <= j <= start.pending().len(),
                remaining_of(self.frames@) == start.pending().skip(j),
                forall|k: int| 0 <= k < j ==> start.pids@.contains(#[trigger] start.pending()[k]),
                self.next_root == start.next_root,
                self.wf(),
                self.awaiting is None,
                self.roots@ == start.roots@,
                self.listed@ == start.listed@,
                start.pids@ == self.pids@,
            decreases self.frames@.len(), if self.frames@.len() > 0 {
                self.frames@.last().children@.len() - self.frames@.last().next
            } else {
                0
            },
        {
            let ghost prev = *self;
            if self.frames.len() > 0 {
                let mut top = self.frames.pop().unwrap();
                let ghost last = prev.frames@.len() - 1;
                assert(prev.frames@[last] == top);
                if top.next < top.children.len() {
                    let c = top.children[top.next];
                    let ghost k = top.next as int;
                    top.next = top.next + 1;
                    self.frames.push(top);
                    assert(self.frames@ =~= prev.frames@.update(
                        last,
                        Frame {
                            children: prev.frames@[last].children,
                            next: (prev.frames@[last].next + 1) as usize,
                        },
                    ));
                    assert(self.frames@.drop_last() =~= prev.frames@.drop_last());
                    assert(top.children@.skip(k) =~= seq![c] + top.children@.skip(k + 1));
                    assert(start.pending().skip(j) =~= seq![c] + start.pending().skip(j + 1));
                    assert(start.pending().skip(j)[0] == c);
                    assert(start.pending()[j] == c);
                    assert(self.frames@.last().next == k + 1);
                    assert(self.frames@.last().children@ == prev.frames@[last].children@);
                    assert(remaining_of(self.frames@) == prev.frames@[last].children@.skip(k + 1)
                        + remaining_of(prev.frames@.drop_last()));
                    assert(remaining_of(prev.frames@) == prev.frames@[last].children@.skip(k)
                        + remaining_of(prev.frames@.drop_last()));
                    assert(start.pending().skip(j + 1) =~= start.pending().skip(j).drop_first());
                    assert(remaining_of(self.frames@) =~= start.pending().skip(j + 1));
                    proof {
                        lemma_reach_step(
                            self.roots@.to_set(),
                            self.listed@,
                            self.owners@[last],
                            k,
                        );
                    }
                    if self.pids.insert(c) {
                        self.awaiting = Some(c);
                        proof {
                            self.lemma_advanced(prev, last, c);
                        }
                        assert(self.pending() == start.pending().skip(j + 1));
                        assert(self.pending_roots() == start.pending_roots());
                        assert(!start.collected().contains(start.pending()[j]));
                        return Some(c);
                    } else {
                        proof {
                            self.lemma_advanced(prev, last, c);
                            j = j + 1;
                        }
                    }
                } else {
                    self.owners = Ghost(self.owners@.drop_last());
                    assert(top.children@.skip(top.next as int) =~= Seq::<Pid>::empty());
                    assert(remaining_of(prev.frames@) =~= remaining_of(self.frames@));
                    proof {
                        self.lemma_popped(prev, last);
                    }
                }
            } else if self.next_root < self.roots.len() {
                let r = self.roots[self.next_root];
                self.next_root = self.next_root + 1;
                self.awaiting = Some(r);
                proof {
                    self.lemma_root_started(prev, r);
                    assert(self.roots@.to_set().contains(r));
                    assert(start.pending().skip(j).len() == 0);
                    assert(start.pending_roots()[0] == r);
                    assert(self.pending_roots() =~= start.pending_roots().drop_first());
                }
                return Some(r);
            } else {
                assert(start.pending().skip(j).len() == 0);
                assert(start.pending_roots().len() == 0);
                return None;
            }
        }
    }

    proof fn lemma_advanced(&self, prev: ChildWalk, last: int, c: Pid)
        requires
            prev.wf(),
            prev.awaiting is None,
            0 <= last == prev.frames@.len() - 1,
            prev.frames@[last].next < prev.frames@[last].children@.len(),
            c == prev.frames@[last].children@[prev.frames@[last].next as int],
            self.frames@ == prev.frames@.update(
                last,
                Frame {
                    children: prev.frames@[last].children,
                    next: (prev.frames@[last].next + 1) as usize,
                },
            ),
            self.pids@ == prev.pids@.insert(c),
            self.roots@ == prev.roots@,
            self.next_root == prev.next_root,
            self.owners@ == prev.owners@,
            self.listed@ == prev.listed@,
            reachable(prev.roots@.to_set(), prev.listed@, c),
            self.awaiting == if prev.pids@.contains(c) {
                None
            } else {
                Some(c)
            },
        ensures
            self.wf(),
    {
        assert forall|p: Pid| self.pids@.contains(p) implies reachable(
            self.roots@.to_set(),
            self.listed@,
            p,
        ) by {
            if p != c {
                assert(prev.pids@.contains(p));
            }
        }
        assert forall|p: Pid| self.pids@.contains(p) implies self.covered(p) by {
            if p == c && !prev.pids@.contains(c) {
            } else {
                assert(prev.covered(p));
                if prev.pending_root(p) {
                    let j = choose|j: int|
                        prev.next_root <= j < prev.roots@.len() && #[trigger] prev.roots@[j] == p;
                    assert(self.roots@[j] == p);
                } else if exists|i: int|
                    0 <= i < prev.owners@.len() && #[trigger] prev.owners@[i] == p
                        && prev.frame_done_prefix(i) {
                    let i = choose|i: int|
                        0 <= i < prev.owners@.len() && #[trigger] prev.owners@[i] == p
                            && prev.frame_done_prefix(i);
                    assert(self.owners@[i] == p);
                    assert forall|k: int| 0 <= k < self.frames@[i].next implies self.pids@.contains(
                        #[trigger] self.frames@[i].children@[k],
                    ) by {
                        if i != last || k < prev.frames@[last].next {
                            assert(prev.pids@.contains(prev.frames@[i].children@[k]));
                        }
                    }
                    assert(self.frame_done_prefix(i));
                } else {
                    assert(prev.expanded(p));
                    assert forall|k: int| 0 <= k < self.listed@[p].len() implies self.pids@.contains(
                        #[trigger] self.listed@[p][k],
                    ) by {
                        assert(prev.pids@.contains(prev.listed@[p][k]));
                    }
                    assert(self.expanded(p));
                }
            }
        }
        assert forall|i: int| 0 <= i < self.frames@.len() implies {
            &&& #[trigger] self.frames@[i].next <= self.frames@[i].children@.len()
            &&& self.listed@.contains_key(self.owners@[i])
            &&& self.listed@[self.owners@[i]] == self.frames@[i].children@
            &&& self.pids@.contains(self.owners@[i])
        } by {
            assert(prev.frames@[i].next <= prev.frames@[i].children@.len());
        }
        assert forall|j: int| 0 <= j < self.roots@.len() implies self.pids@.contains(
            #[trigger] self.roots@[j],
        ) by {
            assert(prev.pids@.contains(prev.roots@[j]));
        }
        assert forall|j: int| self.next_root <= j < self.roots@.len() implies !self.listed@.contains_key(
            #[trigger] self.roots@[j],
        ) && self.awaiting != Some(self.roots@[j]) by {
            assert(prev.pids@.contains(prev.roots@[j]));
        }
    }

    proof fn lemma_popped(&self, prev: ChildWalk, last: int)
        requires
            prev.wf(),
            prev.awaiting is None,
            0 <= last == prev.frames@.len() - 1,
            prev.frames@[last].next >= prev.frames@[last].children@.len(),
            self.frames@ == prev.frames@.drop_last(),
            self.owners@ == prev.owners@.drop_last(),
            self.pids@ == prev.pids@,
            self.roots@ == prev.roots@,
            self.next_root == prev.next_root,
            self.listed@ == prev.listed@,
            self.awaiting is None,
        ensures
            self.wf(),
    {
        let o = prev.owners@[last];
        assert(prev.frames@[last].next <= prev.frames@[last].children@.len());
        assert forall|p: Pid| self.pids@.contains(p) implies self.covered(p) by {
            assert(prev.covered(p));
            if prev.pending_root(p) {
                let j = choose|j: int|
                    prev.next_root <= j < prev.roots@.len() && #[trigger] prev.roots@[j] == p;
                assert(self.roots@[j] == p);
            } else if exists|i: int|
                0 <= i < prev.owners@.len() && #[trigger] prev.owners@[i] == p
                    && prev.frame_done_prefix(i) {
                let i = choose|i: int|
                    0 <= i < prev.owners@.len() && #[trigger] prev.owners@[i] == p
                        && prev.frame_done_prefix(i);
                if i == last {
                    assert forall|k: int| 0 <= k < self.listed@[p].len() implies self.pids@.contains(
                        #[trigger] self.listed@[p][k],
                    ) by {
                        assert(prev.pids@.contains(prev.frames@[last].children@[k]));
                    }
                    assert(self.expanded(p));
                } else {
                    assert(self.owners@[i] == p);
                    assert forall|k: int| 0 <= k < self.frames@[i].next implies self.pids@.contains(
                        #[trigger] self.frames@[i].children@[k],
                    ) by {
                        assert(prev.pids@.contains(prev.frames@[i].children@[k]));
                    }
                    assert(self.frame_done_prefix(i));
                }
            } else {
                assert(prev.expanded(p));
                assert forall|k: int| 0 <= k < self.listed@[p].len() implies self.pids@.contains(
                    #[trigger] self.listed@[p][k],
                ) by {
                    assert(prev.pids@.contains(prev.listed@[p][k]));
                }
                assert(self.expanded(p));
            }
        }
        assert forall|i: int| 0 <= i < self.frames@.len() implies {
            &&& #[trigger] self.frames@[i].next <= self.frames@[i].children@.len()
            &&& self.listed@.contains_key(self.owners@[i])
            &&& self.listed@[self.owners@[i]] == self.frames@[i].children@
            &&& self.pids@.contains(self.owners@[i])
        } by {
            assert(prev.frames@[i].next <= prev.frames@[i].children@.len());
        }
    }

    proof fn lemma_root_started(&self, prev: ChildWalk, r: Pid)
        requires
            prev.wf(),
            prev.awaiting is None,
            prev.frames@.len() == 0,
            prev.next_root < prev.roots@.len(),
            r == prev.roots@[prev.next_root as int],
            self.next_root == prev.next_root + 1,
            self.awaiting == Some(r),
            self.frames@ == prev.frames@,
            self.owners@ == prev.owners@,
            self.pids@ == prev.pids@,
            self.roots@ == prev.roots@,
            self.listed@ == prev.listed@,
        ensures
            self.wf(),
            !prev.listed@.contains_key(r),
            prev.pids@.contains(r),
    {
        assert(prev.pids@.contains(prev.roots@[prev.next_root as int]));
        assert forall|p: Pid| self.pids@.contains(p) implies self.covered(p) by {
            assert(prev.covered(p));
            if prev.pending_root(p) {
                let j = choose|j: int|
                    prev.next_root <= j < prev.roots@.len() && #[trigger] prev.roots@[j] == p;
                if j > prev.next_root {
                    assert(self.roots@[j] == p);
                }
            } else if exists|i: int|
                0 <= i < prev.owners@.len() && #[trigger] prev.owners@[i] == p
                    && prev.frame_done_prefix(i) {
            } else {
                assert(prev.expanded(p));
                assert(self.expanded(p));
            }
        }
        assert forall|j: int| self.next_root <= j < self.roots@.len() implies !self.listed@.contains_key(
            #[trigger] self.roots@[j],
        ) && self.awaiting != Some(self.roots@[j]) by {
            assert(prev.roots@[j] != prev.roots@[prev.next_root as int]);
        }
        assert forall|j: int| 0 <= j < self.roots@.len() implies self.pids@.contains(
            #[trigger] self.roots@[j],
        ) by {
            assert(prev.pids@.contains(prev.roots@[j]));
        }
    }
}

} // verus!

verus! {

/// The children listed in a `children` file's content, or none when the
/// file could not be read.
pub open spec fn children_of(content: Option<Seq<char>>) -> Seq<Pid> {
    match content {
        Some(t) => pid_tokens(t),
        None => seq![],
    }
}

impl ChildWalk {
    /// Records the children of the PID the walk waits for: `content` is what
    /// its `children` file held, or `None` when it could not be read.
    pub fn feed(&mut self, content: Option<&str>)
        requires
            old(self).wf(),
            old(self).awaiting() is Some,
        ensures
            final(self).wf(),
            final(self).awaiting() is None,
            final(self).collected() == old(self).collected(),
            final(self).root_set() == old(self).root_set(),
            final(self).listed() == old(self).listed().insert(
                old(self).awaiting()->0,
                children_of(
                    match content {
                        Some(t) => Some(t@),
                        None => None,
                    },
                ),
            ),
            final(self).pending() == children_of(
                match content {
                    Some(t) => Some(t@),
                    None => None,
                },
            ) + old(self).pending(),
            final(self).pending_roots() == old(self).pending_roots(),
    {
        let ghost prev = *self;
        let p = match self.awaiting {
            Some(p) => p,
            None => 0,
        };
        let children = match content {
            Some(t) => parse_pid_tokens(t),
            None => Vec::new(),
        };
        self.listed = Ghost(self.listed@.insert(p, children@));
        self.owners = Ghost(self.owners@.push(p));
        self.frames.push(Frame { children, next: 0 });
        self.awaiting = None;
        assert(self.frames@.drop_last() =~= prev.frames@);
        assert(self.frames@.last().children@.skip(0) =~= self.frames@.last().children@);
        proof {
            self.lemma_fed(prev, p);
        }
    }

    proof fn lemma_fed(&self, prev: ChildWalk, p: Pid)
        requires
            prev.wf(),
            prev.awaiting == Some(p),
            self.listed@ == prev.listed@.insert(p, self.frames@.last().children@),
            self.owners@ == prev.owners@.push(p),
            self.frames@.len() == prev.frames@.len() + 1,
            forall|i: int| 0 <= i < prev.frames@.len() ==> self.frames@[i] == prev.frames@[i],
            self.frames@.last().next == 0,
            self.awaiting is None,
            self.pids@ == prev.pids@,
            self.roots@ == prev.roots@,
            self.next_root == prev.next_root,
        ensures
            self.wf(),
    {
        let roots = self.roots@.to_set();
        assert forall|q: Pid| #[trigger]
            prev.listed@.contains_key(q) implies self.listed@.contains_key(q) && self.listed@[q]
            == prev.listed@[q] by {}
        assert forall|q: Pid| self.pids@.contains(q) implies reachable(roots, self.listed@, q) by {
            let k = choose|k: nat| #[trigger] reach(roots, prev.listed@, k).contains(q);
            lemma_reach_grows(roots, prev.listed@, self.listed@, k);
            assert(reach(roots, self.listed@, k).contains(q));
        }
        let last = prev.frames@.len() as int;
        assert forall|q: Pid| self.pids@.contains(q) implies self.covered(q) by {
            if q == p {
                assert(self.owners@[last] == q);
                assert(self.frame_done_prefix(last));
            } else {
                assert(prev.covered(q));
                if prev.pending_root(q) {
                    let j = choose|j: int|
                        prev.next_root <= j < prev.roots@.len() && #[trigger] prev.roots@[j] == q;
                    assert(self.roots@[j] == q);
                } else if exists|i: int|
                    0 <= i < prev.owners@.len() && #[trigger] prev.owners@[i] == q
                        && prev.frame_done_prefix(i) {
                    let i = choose|i: int|
                        0 <= i < prev.owners@.len() && #[trigger] prev.owners@[i] == q
                            && prev.frame_done_prefix(i);
                    assert(self.owners@[i] == q);
                    assert(self.frames@[i] == prev.frames@[i]);
                    assert(self.frame_done_prefix(i));
                } else {
                    assert(prev.expanded(q));
                    assert(self.expanded(q));
                }
            }
        }
        assert forall|i: int| 0 <= i < self.frames@.len() implies {
            &&& #[trigger] self.frames@[i].next <= self.frames@[i].children@.len()
            &&& self.listed@.contains_key(self.owners@[i])
            &&& self.listed@[self.owners@[i]] == self.frames@[i].children@
            &&& self.pids@.contains(self.owners@[i])
        } by {
            if i < last {
                assert(self.frames@[i] == prev.frames@[i]);
                assert(self.owners@[i] == prev.owners@[i]);
                assert(prev.frames@[i].next <= prev.frames@[i].children@.len());
                assert(prev.listed@.contains_key(prev.owners@[i]));
            }
        }
        assert forall|j: int| self.next_root <= j < self.roots@.len() implies !self.listed@.contains_key(
            #[trigger] self.roots@[j],
        ) && self.awaiting != Some(self.roots@[j]) by {
            assert(prev.awaiting != Some(prev.roots@[j]));
        }
        assert forall|j: int| 0 <= j < self.roots@.len() implies self.pids@.contains(
            #[trigger] self.roots@[j],
        ) by {
            assert(prev.pids@.contains(prev.roots@[j]));
        }
    }

    /// The PIDs collected.
    pub fn into_pids(self) -> (r: HashSet<Pid>)
        ensures
            r@ == self.collected(),
    {
        self.pids
    }

    /// A finished walk has collected exactly the closure of its roots under
    /// the children lists it read: the roots are collected, every collected
    /// PID's children were read and are collected, and a PID is collected
    /// exactly when it is reachable from a root through the children lists.
    pub proof fn lemma_finished_walk_is_closure(&self)
        requires
            self.wf(),
            self.finished(),
        ensures
            self.root_set().subset_of(self.collected()),
            forall|p: Pid| #[trigger]
                self.collected().contains(p) ==> self.listed().contains_key(p) && forall|k: int|
                    0 <= k < self.listed()[p].len() ==> self.collected().contains(
                        #[trigger] self.listed()[p][k],
                    ),
            forall|p: Pid|
                self.collected().contains(p) <==> reachable(self.root_set(), self.listed(), p),
    {
        let roots = self.roots@.to_set();
        assert forall|p: Pid| #[trigger] self.pids@.contains(p) implies self.expanded(p) by {
            assert(self.covered(p));
            if self.pending_root(p) {
                let j = choose|j: int|
                    self.next_root <= j < self.roots@.len() && #[trigger] self.roots@[j] == p;
            }
        }
        assert forall|p: Pid| roots.contains(p) implies self.pids@.contains(p) by {
            let j = choose|j: int| 0 <= j < self.roots@.len() && self.roots@[j] == p;
            assert(self.pids@.contains(self.roots@[j]));
        }
        assert forall|p: Pid| reachable(roots, self.listed@, p) implies self.pids@.contains(p) by {
            let k = choose|k: nat| #[trigger] reach(roots, self.listed@, k).contains(p);
            self.lemma_reach_collected(k);
        }
    }

    proof fn lemma_reach_collected(&self, k: nat)
        requires
            self.wf(),
            forall|p: Pid| #[trigger] self.pids@.contains(p) ==> self.expanded(p),
            forall|p: Pid| self.roots@.to_set().contains(p) ==> self.pids@.contains(p),
        ensures
            reach(self.roots@.to_set(), self.listed@, k).subset_of(self.pids@),
        decreases k,
    {
        if k > 0 {
            self.lemma_reach_collected((k - 1) as nat);
            let roots = self.roots@.to_set();
            let prev = reach(roots, self.listed@, (k - 1) as nat);
            assert forall|c: Pid| reach(roots, self.listed@, k).contains(c) implies self.pids@.contains(
                c,
            ) by {
                if !prev.contains(c) {
                    let (q, i) = choose|q: Pid, i: int|
                        prev.contains(q) && self.listed@.contains_key(q) && 0 <= i
                            < self.listed@[q].len() && #[trigger] self.listed@[q][i] == c;
                    assert(self.pids@.contains(q));
                    assert(self.expanded(q));
                }
            }
        }
    }
}

// ── Discovery strategies ────────────────────────────────────────────────────

/// The PIDs in a systemd service's cgroup (child processes included).
pub struct SystemdUnitDiscovery {
    pub unit: String,
}

impl SystemdUnitDiscovery {
    /// The file that lists the unit's PIDs.
    pub fn cgroup_procs_path(&self) -> (r: String)
        ensures
            r@ == "/sys/fs/cgroup/system.slice/"@ + self.unit@ + "/cgroup.procs"@,
    {
        "/sys/fs/cgroup/system.slice/".to_owned().concat(self.unit.as_str()).concat(
            "/cgroup.procs",
        )
    }

    /// The PIDs that the unit's `cgroup.procs` content lists.
    pub fn pids_from_procs(content: &str) -> (r: HashSet<Pid>)
        ensures
            r@ == pid_lines(content@).to_set(),
    {
        pid_set_of(&parse_pid_lines(content))
    }
}

/// One process and its descendants.
pub struct PidDiscovery {
    pub pid: Pid,
}

impl PidDiscovery {
    /// Starts the walk from the process, given whether it exists; a process
    /// that does not exist is an error.
    pub fn start(&self, exists: bool) -> (r: Result<ChildWalk, DiscoveryError>)
        ensures
            exists <==> r is Ok,
            !exists ==> (r matches Err(DiscoveryError::PidNotFound(p)) && p == self.pid),
            r matches Ok(w) ==> {
                &&& w.wf()
                &&& w.collected() == set![self.pid]
                &&& w.root_set() == set![self.pid]
                &&& w.listed() == Map::<Pid, Seq<Pid>>::empty()
                &&& w.awaiting() is None
            },
    {
        if !exists {
            return Err(DiscoveryError::PidNotFound(self.pid));
        }
        let roots = vec![self.pid];
        assert(roots@.to_set() =~= set![self.pid]) by {
            assert(roots@[0] == self.pid);
        }
        Ok(ChildWalk::new(&roots))
    }
}

/// The processes whose command line matches a pattern (`pgrep -f`), and
/// their descendants.
pub struct ProcessNameDiscovery {
    pub pattern: String,
}

impl ProcessNameDiscovery {
    /// Starts the walk from what `pgrep -f` gave: whether it succeeded, its
    /// exit code, its exit status as text, its standard error and its
    /// standard output.  `pgrep` exits with code 1 when nothing matches,
    /// which is no error; any other failure is one.
    pub fn start(
        &self,
        success: bool,
        code: Option<i32>,
        status: &str,
        stderr: &str,
        stdout: &str,
    ) -> (r: Result<ChildWalk, DiscoveryError>)
        ensures
            (success || code == Some(1i32)) <==> r is Ok,
            r matches Err(e) ==> (e matches DiscoveryError::Pgrep(m) && m@ == "pgrep exited "@
                + status@ + ": "@ + stderr@),
            r matches Ok(w) ==> {
                &&& w.wf()
                &&& w.collected() == pid_lines(stdout@).to_set()
                &&& w.root_set() == pid_lines(stdout@).to_set()
                &&& w.listed() == Map::<Pid, Seq<Pid>>::empty()
                &&& w.awaiting() is None
            },
    {
        let no_match = match code {
            Some(c) => c == 1,
            None => false,
        };
        if !success && !no_match {
            return Err(
                DiscoveryError::Pgrep(
                    "pgrep exited ".to_owned().concat(status).concat(": ").concat(stderr),
                ),
            );
        }
        Ok(ChildWalk::new(&parse_pid_lines(stdout)))
    }
}

} // verus!

verus! {

proof fn lemma_decimal_trimmed(n: nat)
    ensures
        trim(decimal(n)) == decimal(n),
{
    lemma_decimal_has_no(n, ' ');
    let d = decimal(n);
    assert(!is_white_space(d[0]));
    assert(trim_start(d) == d);
    assert(!is_white_space(d.last()));
}

/// Every PID written in decimal on a line of its own is read back: a listing
/// of one PID, with or without a final newline, gives that PID, for every
/// `u32`.
pub proof fn lemma_pid_line_reads_back(p: Pid)
    ensures
        pid_lines(decimal(p as nat) + "\n"@) == seq![p],
        pid_lines(decimal(p as nat)) == seq![p],
{
    reveal_strlit("\n");
    let d = decimal(p as nat);
    lemma_decimal_has_no(p as nat, '\n');
    lemma_decimal_has_no(p as nat, '\r');
    lemma_decimal_trimmed(p as nat);
    lemma_parse_decimal(p as nat, 0xffff_ffff);
    let s = d + "\n"@;
    assert(s[d.len() as int] == '\n');
    assert forall|m: int| 0 <= m < d.len() implies s[m] != '\n' by {
        assert(s[m] == d[m]);
    }
    lemma_find_from_at(s, 0, '\n', d.len() as int);
    assert(s.subrange(0, d.len() as int) =~= d);
    assert(lines_from(s, (d.len() + 1) as nat) =~= Seq::<Seq<char>>::empty());
    assert(lines(s) =~= seq![d]);
    assert(trimmed_lines(s) =~= seq![d]);
    assert(seq![d].drop_last() =~= Seq::<Seq<char>>::empty());
    assert(seq![d].last() == d);
    assert(parsed_pids(seq![d]) == parsed_pids(Seq::<Seq<char>>::empty()).push(p));
    assert(pid_lines(s) =~= seq![p]);
    lemma_find_from_none(d, 0, '\n');
    assert(d.subrange(0, d.len() as int) =~= d);
    assert(lines(d) =~= seq![d]);
    assert(trimmed_lines(d) =~= seq![d]);
    assert(pid_lines(d) =~= seq![p]);
}

/// Every PID written in decimal as a white-space separated token is read
/// back: one PID gives that PID, and two PIDs separated by a space give both,
/// in order, for every `u32`.
pub proof fn lemma_pid_tokens_read_back(p: Pid, q: Pid)
    ensures
        pid_tokens(decimal(p as nat)) == seq![p],
        pid_tokens(decimal(p as nat) + " "@ + decimal(q as nat)) == seq![p, q],
{
    reveal_strlit(" ");
    let dp = decimal(p as nat);
    let dq = decimal(q as nat);
    lemma_decimal_has_no(p as nat, ' ');
    lemma_decimal_has_no(q as nat, ' ');
    lemma_parse_decimal(p as nat, 0xffff_ffff);
    lemma_parse_decimal(q as nat, 0xffff_ffff);
    lemma_decimal_reads_back(p as nat);
    lemma_decimal_reads_back(q as nat);
    lemma_space_from_none(dp, 0);
    assert(dp.subrange(0, dp.len() as int) =~= dp);
    assert(!is_white_space(dp[0]));
    assert(tokens_from(dp, dp.len()) =~= Seq::<Seq<char>>::empty());
    assert(tokens(dp) =~= seq![dp]);
    assert(seq![dp].drop_last() =~= Seq::<Seq<char>>::empty());
    assert(seq![dp].last() == dp);
    assert(parsed_pids(seq![dp]) == parsed_pids(Seq::<Seq<char>>::empty()).push(p));
    assert(pid_tokens(dp) =~= seq![p]);

    let s = dp + " "@ + dq;
    let k = dp.len() as int;
    assert forall|m: int| 0 <= m < k implies !is_white_space(s[m]) by {
        assert(s[m] == dp[m]);
    }
    assert(is_white_space(s[k]));
    lemma_space_from_at(s, 0, k);
    assert(s.subrange(0, k) =~= dp);
    assert forall|m: int| k + 1 <= m < s.len() implies !is_white_space(s[m]) by {
        assert(s[m] == dq[m - k - 1]);
    }
    lemma_space_from_none(s, (k + 1) as nat);
    assert(s.subrange(k + 1, s.len() as int) =~= dq);
    assert(tokens_from(s, s.len()) =~= Seq::<Seq<char>>::empty());
    assert(tokens_from(s, (k + 1) as nat) =~= seq![dq]);
    assert(tokens_from(s, k as nat) == tokens_from(s, (k + 1) as nat));
    assert(tokens(s) =~= seq![dp, dq]);
    assert(seq![dp, dq].drop_last() =~= seq![dp]);
    assert(seq![dp, dq].last() == dq);
    assert(!is_white_space(dq[0]));
    assert(parsed_pids(seq![dp, dq]) == parsed_pids(seq![dp]).push(q));
    assert(pid_tokens(s) =~= seq![p, q]);
}

/// With no white space at or after `start`, `space_from` gives the length.
proof fn lemma_space_from_none(s: Seq<char>, start: nat)
    requires
        start <= s.len(),
        forall|m: int| start <= m < s.len() ==> !is_white_space(s[m]),
    ensures
        space_from(s, start) == s.len(),
{
    lemma_space_from(s, start);
}

/// The first white space at or after `start` is at `k`.
proof fn lemma_space_from_at(s: Seq<char>, start: nat, k: int)
    requires
        start <= k < s.len(),
        is_white_space(s[k]),
        forall|m: int| start <= m < k ==> !is_white_space(s[m]),
    ensures
        space_from(s, start) == k,
    decreases k - start,
{
    if start < k {
        lemma_space_from_at(s, start + 1, k);
    }
}

} // verus!
