//! Scheduling the pings: every IP of every host is pinged a fixed number of times,
//! hosts and IPs in a random order, and a host whose pings failed too often is dropped.
//! The results are collected per host and IP.
use std::collections::HashMap;
use std::sync::Arc;
use std::time::Duration;

use rand::{Rng, SeedableRng};
use rand_xoshiro::Xoshiro256PlusPlus;
use vstd::multiset::Multiset;
use vstd::prelude::*;

use crate::host::{share, Host};
use crate::sums::{lemma_elem_le_sum, lemma_sum_const, lemma_sum_bounds, lemma_sum_le, lemma_sum_nonneg, lemma_sum_take_all, lemma_sum_take_le, lemma_sum_take_step, lemma_sum_update, lemma_sum_zero, sum};

verus! {

#[verifier::external_type_specification]
#[verifier::external_body]
pub struct ExXoshiro256PlusPlus(Xoshiro256PlusPlus);

/// Calls `Rng::random_range(0..len)` on the generator. Claimed: the result lies in
/// `0..len`. Which index comes out rests on chance and is not stated.
#[verifier::external_body]
fn random_index(rng: &mut Xoshiro256PlusPlus, len: usize) -> (r: usize)
    requires
        len > 0,
    ensures
        r < len,
{
    rng.random_range(0..len)
}

/// The state of one IP of a host.
pub struct IpState {
    /// The IP address, as the integer whose big-endian bytes are its octets.
    pub ip: u32,
    /// The sequence number of the next ping to this IP.
    pub seq: u16,
    /// The number of pings that were handed out for this IP.
    pub pings: usize,
}

/// The state of one host.
pub struct HostState {
    pub host: Arc<Host>,
    pub ips: Vec<IpState>,
    /// The indices of the IPs that may still have pings left.
    pub ips_left: Vec<usize>,
    /// The number of pings to this host that failed.
    pub retries: usize,
    /// Whether the host is still among the hosts that pings are chosen from.
    pub left: bool,
}

/// One IP of a host, as the contracts see it.
pub struct IpView {
    pub ip: u32,
    pub seq: u16,
    pub pings: nat,
}

/// One host, as the contracts see it.
pub struct HostView {
    pub host: (Seq<char>, Seq<char>),
    pub ips: Seq<IpView>,
    pub retries: nat,
    pub left: bool,
}

/// The scheduler, as the contracts see it.
pub struct JobIterView {
    pub hosts: Seq<HostView>,
    pub pings_per_ip: nat,
    pub ping_retries: nat,
}

impl IpState {
    pub open spec fn view(&self) -> IpView {
        IpView { ip: self.ip, seq: self.seq, pings: self.pings as nat }
    }
}

impl HostState {
    pub open spec fn view(&self) -> HostView {
        HostView {
            host: self.host@,
            ips: self.ips@.map_values(|s: IpState| s.view()),
            retries: self.retries as nat,
            left: self.left,
        }
    }

    pub open spec fn wf(&self, pings_per_ip: nat) -> bool {
        &&& self.ips_left@.no_duplicates()
        &&& forall|k: int| 0 <= k < self.ips_left@.len() ==> #[trigger] self.ips_left@[k] < self.ips@.len()
        &&& forall|i: int| 0 <= i < self.ips@.len() ==> #[trigger] self.ips@[i].pings <= pings_per_ip
        &&& forall|i: int| 0 <= i < self.ips@.len() && !self.ips_left@.contains(i as usize)
            ==> #[trigger] self.ips@[i].pings == pings_per_ip
    }
}

impl HostView {
    /// The pings that are still to be handed out for the IPs of this host.
    pub open spec fn pings_left(self, pings_per_ip: nat) -> int {
        sum(self.ips.map_values(|v: IpView| pings_per_ip - v.pings))
    }

    /// Whether every IP of this host got all its pings.
    pub open spec fn exhausted(self, pings_per_ip: nat) -> bool {
        forall|i: int| 0 <= i < self.ips.len() ==> #[trigger] self.ips[i].pings == pings_per_ip
    }
}

/// Host `b` is host `a` with the same IPs, each with the same number of pings handed out.
pub open spec fn same_pings(a: HostView, b: HostView) -> bool {
    &&& b.host == a.host
    &&& b.ips.len() == a.ips.len()
    &&& forall|i: int| 0 <= i < a.ips.len() ==> (#[trigger] b.ips[i]).ip == a.ips[i].ip && b.ips[i].pings == a.ips[i].pings
}

impl JobIterView {
    /// Whether the pings to host `h` failed more often than allowed.
    pub open spec fn failed(self, h: int) -> bool {
        self.hosts[h].retries > self.ping_retries
    }

    /// Whether a ping to IP `i` of host `h` may be handed out now.
    pub open spec fn can_ping(self, h: int, i: int) -> bool {
        &&& 0 <= h < self.hosts.len()
        &&& 0 <= i < self.hosts[h].ips.len()
        &&& self.hosts[h].left
        &&& !self.failed(h)
        &&& self.hosts[h].ips[i].pings < self.pings_per_ip
    }

    /// Whether any ping may be handed out now.
    pub open spec fn has_job(self) -> bool {
        exists|h: int, i: int| self.can_ping(h, i)
    }

    /// The pings that the hosts still in the schedule are owed.
    pub open spec fn pings_left(self) -> int {
        sum(self.hosts.map_values(|hv: HostView| if hv.left { hv.pings_left(self.pings_per_ip) } else { 0 }))
    }

    /// The number of pings the schedule was made for: each IP `pings_per_ip` times.
    pub open spec fn capacity(self) -> int {
        sum(self.hosts.map_values(|hv: HostView| (hv.ips.len() * self.pings_per_ip) as int))
    }

    /// What holds of the schedule at every moment: no IP gets more than `pings_per_ip`
    /// pings, and a host leaves the schedule only when it failed or all its IPs got all
    /// their pings.
    pub open spec fn consistent(self) -> bool {
        &&& forall|h: int, i: int| 0 <= h < self.hosts.len() && 0 <= i < self.hosts[h].ips.len()
            ==> #[trigger] self.hosts[h].ips[i].pings <= self.pings_per_ip
        &&& forall|h: int| 0 <= h < self.hosts.len() && !(#[trigger] self.hosts[h]).left
            ==> self.failed(h) || self.hosts[h].exhausted(self.pings_per_ip)
    }

    /// `self` with host `h` replaced by `hv`.
    pub open spec fn with_host(self, h: int, hv: HostView) -> JobIterView {
        JobIterView { hosts: self.hosts.update(h, hv), ..self }
    }

    /// `self` after one more failure of host `h`.
    pub open spec fn failure_recorded(self, h: int) -> JobIterView {
        self.with_host(h, HostView { retries: self.hosts[h].retries + 1, ..self.hosts[h] })
    }

    /// `self` after the sequence number of IP `i` of host `h` advanced by one, wrapping around.
    pub open spec fn sequence_advanced(self, h: int, i: int) -> JobIterView {
        let hv = self.hosts[h];
        let ipv = hv.ips[i];
        self.with_host(h, HostView { ips: hv.ips.update(i, IpView { seq: ((ipv.seq + 1) % 0x10000) as u16, ..ipv }), ..hv })
    }

    /// `new` differs from `self` only in hosts that left the schedule.
    pub open spec fn only_left_changed(self, new: JobIterView) -> bool {
        &&& new.pings_per_ip == self.pings_per_ip
        &&& new.ping_retries == self.ping_retries
        &&& new.hosts.len() == self.hosts.len()
        &&& forall|h: int| 0 <= h < self.hosts.len() ==> {
            &&& (#[trigger] new.hosts[h]) == HostView { left: new.hosts[h].left, ..self.hosts[h] }
            &&& new.hosts[h].left ==> self.hosts[h].left
        }
    }

    /// Host `h` with one more ping handed out to its IP `i`.
    pub open spec fn pinged(self, h: int, i: int) -> HostView {
        let hv = self.hosts[h];
        HostView { ips: hv.ips.update(i, IpView { pings: hv.ips[i].pings + 1, ..hv.ips[i] }), ..hv }
    }

    /// What a call of `next` on the schedule `self` guarantees, when it returned `job` and
    /// `skipped` and left the schedule `new`: a ping is handed out only to an IP of a host that
    /// may be pinged now, and counted; without a ping, no ping was left to hand out and every
    /// host has left the schedule; besides, only hosts leave the schedule. `skipped` is what
    /// the hosts dropped for failing were owed, and every ping owed before is handed out,
    /// skipped or still owed.
    pub open spec fn next_step(self, job: Option<Job>, skipped: int, new: JobIterView) -> bool {
        &&& new.consistent()
        &&& match job {
            Some(job) => {
                &&& self.can_ping(job.host_idx as int, job.ip_idx as int)
                &&& job.ip == self.hosts[job.host_idx as int].ips[job.ip_idx as int].ip
                &&& job.host@ == self.hosts[job.host_idx as int].host
                &&& new.hosts.len() == self.hosts.len()
                &&& new.hosts[job.host_idx as int] == self.pinged(job.host_idx as int, job.ip_idx as int)
                &&& self.only_left_changed(new.with_host(job.host_idx as int, self.hosts[job.host_idx as int]))
            },
            None => {
                &&& !self.has_job()
                &&& self.only_left_changed(new)
                &&& forall|h: int| 0 <= h < new.hosts.len() ==> !(#[trigger] new.hosts[h]).left
            },
        }
        &&& skipped == self.dropped_pings(new)
        &&& skipped + new.pings_left() + (if job is Some { 1int } else { 0int }) == self.pings_left()
    }

    /// `new` differs from the consistent schedule `self` in failure counts and sequence
    /// numbers at most: no ping was handed out and no host left.
    pub open spec fn keeps_pings(self, new: JobIterView) -> bool {
        &&& new.consistent()
        &&& new.pings_per_ip == self.pings_per_ip
        &&& new.ping_retries == self.ping_retries
        &&& new.hosts.len() == self.hosts.len()
        &&& forall|h: int| #![trigger new.hosts[h]] 0 <= h < self.hosts.len()
            ==> same_pings(self.hosts[h], new.hosts[h]) && new.hosts[h].left == self.hosts[h].left
    }
}

/// A ping to hand out: to IP `ip`, number `ip_idx` of host number `host_idx`.
pub struct Job {
    pub host: Arc<Host>,
    pub host_idx: usize,
    pub ip_idx: usize,
    pub ip: u32,
}

/// Hands out the pings to the IPs of the hosts in a random order: first a host still in
/// the schedule is chosen uniformly at random, then one of its IPs that still has pings left.
pub struct JobIter {
    hosts: Vec<HostState>,
    /// The indices of the hosts that may still have pings left.
    hosts_left: Vec<usize>,
    pings_per_ip: usize,
    ping_retries: usize,
    rng: Xoshiro256PlusPlus,
}

impl View for JobIter {
    type V = JobIterView;

    closed spec fn view(&self) -> JobIterView {
        JobIterView {
            hosts: self.hosts@.map_values(|s: HostState| s.view()),
            pings_per_ip: self.pings_per_ip as nat,
            ping_retries: self.ping_retries as nat,
        }
    }
}

proof fn lemma_remove_distinct(s: Seq<usize>, k: int)
    requires
        s.no_duplicates(),
        0 <= k < s.len(),
    ensures
        s.remove(k).no_duplicates(),
        !s.remove(k).contains(s[k]),
        forall|x: usize| x != s[k] ==> (s.remove(k).contains(x) <==> s.contains(x)),
{
    let r = s.remove(k);
    assert forall|a: int, b: int| 0 <= a < b < r.len() implies r[a] != r[b] by {
        let a2 = if a < k { a } else { a + 1 };
        let b2 = if b < k { b } else { b + 1 };
        assert(r[a] == s[a2]);
        assert(r[b] == s[b2]);
    }
    if r.contains(s[k]) {
        let j = choose|j: int| 0 <= j < r.len() && r[j] == s[k];
        let j2 = if j < k { j } else { j + 1 };
        assert(s[j2] == s[k]);
    }
    assert forall|x: usize| x != s[k] implies (r.contains(x) <==> s.contains(x)) by {
        if s.contains(x) {
            let j = choose|j: int| 0 <= j < s.len() && s[j] == x;
            if j < k {
                assert(r[j] == x);
            } else {
                assert(j != k);
                assert(r[j - 1] == x);
            }
        }
        if r.contains(x) {
            let j = choose|j: int| 0 <= j < r.len() && r[j] == x;
            if j < k {
                assert(s[j] == x);
            } else {
                assert(s[j + 1] == x);
            }
        }
    }
}

impl JobIter {
    /// What the scheduler keeps true between calls.
    pub closed spec fn wf(&self) -> bool {
        &&& self.hosts_left@.no_duplicates()
        &&& forall|k: int| 0 <= k < self.hosts_left@.len() ==> #[trigger] self.hosts_left@[k] < self.hosts@.len()
        &&& forall|h: int| 0 <= h < self.hosts@.len() ==> (#[trigger] self.hosts@[h].left <==> self.hosts_left@.contains(h as usize))
        &&& forall|h: int| 0 <= h < self.hosts@.len() ==> (#[trigger] self.hosts@[h]).wf(self.pings_per_ip as nat)
        &&& self@.consistent()
        &&& self@.capacity() <= usize::MAX
    }

    /// A scheduler in which the `wf` invariant holds is consistent, and the pings it still
    /// owes do not exceed what it was made for.
    pub proof fn lemma_wf_consistent(&self)
        requires
            self.wf(),
        ensures
            self@.consistent(),
            0 <= self@.pings_left() <= self@.capacity() <= usize::MAX,
    {
        self.lemma_pings_left_bound();
    }

    proof fn lemma_host_pings_left_bound(hv: HostView, ppi: nat)
        requires
            forall|i: int| 0 <= i < hv.ips.len() ==> #[trigger] hv.ips[i].pings <= ppi,
        ensures
            0 <= hv.pings_left(ppi) <= hv.ips.len() * ppi,
    {
        let s = hv.ips.map_values(|v: IpView| ppi - v.pings);
        assert forall|i: int| 0 <= i < s.len() implies 0 <= #[trigger] s[i] <= ppi by {
            assert(s[i] == ppi - hv.ips[i].pings);
        }
        lemma_sum_bounds(s, ppi as int);
    }

    proof fn lemma_pings_left_bound(&self)
        requires
            self@.consistent(),
        ensures
            0 <= self@.pings_left() <= self@.capacity(),
    {
        lemma_view_pings_left_bound(self@);
    }
}

/// In a consistent schedule, the pings still owed lie between none and all it was made for.
proof fn lemma_view_pings_left_bound(v: JobIterView)
    requires
        v.consistent(),
    ensures
        0 <= v.pings_left() <= v.capacity(),
{
    let s = v.hosts.map_values(|hv: HostView| if hv.left { hv.pings_left(v.pings_per_ip) } else { 0 });
    let t = v.hosts.map_values(|hv: HostView| (hv.ips.len() * v.pings_per_ip) as int);
    assert forall|h: int| 0 <= h < s.len() implies 0 <= #[trigger] s[h] <= t[h] by {
        let hv = v.hosts[h];
        assert forall|i: int| 0 <= i < hv.ips.len() implies #[trigger] hv.ips[i].pings <= v.pings_per_ip by {
            assert(v.hosts[h].ips[i].pings <= v.pings_per_ip);
        }
        JobIter::lemma_host_pings_left_bound(hv, v.pings_per_ip);
        assert(0 <= hv.ips.len() * v.pings_per_ip) by (nonlinear_arith);
    }
    lemma_sum_le(s, t);
    lemma_sum_nonneg(s);
}


/// The views of the hosts that failed, in order.
pub open spec fn failed_hosts_in(hosts: Seq<HostView>, ping_retries: nat) -> Seq<(Seq<char>, Seq<char>)>
    decreases hosts.len(),
{
    if hosts.len() == 0 {
        Seq::empty()
    } else {
        let rest = failed_hosts_in(hosts.drop_last(), ping_retries);
        if hosts.last().retries > ping_retries {
            rest.push(hosts.last().host)
        } else {
            rest
        }
    }
}

/// The hosts that failed are exactly the hosts, in schedule order, whose failure count
/// exceeds the number of retries allowed.
pub proof fn lemma_failed_hosts_exceed_retries(hosts: Seq<HostView>, ping_retries: nat)
    ensures
        failed_hosts_in(hosts, ping_retries)
            == hosts.filter(|hv: HostView| hv.retries > ping_retries).map_values(|hv: HostView| hv.host),
        forall|h: int| 0 <= h < hosts.len() && #[trigger] hosts[h].retries > ping_retries
            ==> failed_hosts_in(hosts, ping_retries).contains(hosts[h].host),
        forall|x: (Seq<char>, Seq<char>)| #[trigger] failed_hosts_in(hosts, ping_retries).contains(x)
            ==> exists|h: int| 0 <= h < hosts.len() && hosts[h].host == x && #[trigger] hosts[h].retries > ping_retries,
    decreases hosts.len(),
{
    let p = |hv: HostView| hv.retries > ping_retries;
    let f = |hv: HostView| hv.host;
    reveal(Seq::filter);
    if hosts.len() > 0 {
        let prev = hosts.drop_last();
        lemma_failed_hosts_exceed_retries(prev, ping_retries);
        assert(hosts.filter(p) == if p(hosts.last()) { prev.filter(p).push(hosts.last()) } else { prev.filter(p) });
        if p(hosts.last()) {
            assert(prev.filter(p).push(hosts.last()).map_values(f) =~= prev.filter(p).map_values(f).push(hosts.last().host));
        }
        let r = failed_hosts_in(hosts, ping_retries);
        let r0 = failed_hosts_in(prev, ping_retries);
        assert forall|h: int| 0 <= h < hosts.len() && #[trigger] hosts[h].retries > ping_retries implies r.contains(hosts[h].host) by {
            if h < hosts.len() - 1 {
                assert(prev[h] == hosts[h]);
                assert(r0.contains(hosts[h].host));
                let j = choose|j: int| 0 <= j < r0.len() && r0[j] == hosts[h].host;
                assert(r[j] == r0[j]);
            } else {
                assert(r.last() == hosts[h].host);
            }
        }
        assert forall|x: (Seq<char>, Seq<char>)| #[trigger] r.contains(x)
            implies exists|h: int| 0 <= h < hosts.len() && hosts[h].host == x && #[trigger] hosts[h].retries > ping_retries by {
            let j = choose|j: int| 0 <= j < r.len() && r[j] == x;
            if j < r0.len() {
                assert(r0[j] == x);
                assert(r0.contains(x));
                let h = choose|h: int| 0 <= h < prev.len() && prev[h].host == x && #[trigger] prev[h].retries > ping_retries;
                assert(hosts[h] == prev[h]);
            } else {
                assert(hosts[hosts.len() - 1].host == x);
            }
        }
    } else {
        assert(hosts.filter(p) =~= Seq::<HostView>::empty());
    }
}

/// The number of pings a schedule for `hosts` is made for.
pub open spec fn schedule_capacity(hosts: Seq<(Arc<Host>, Vec<u32>)>, pings_per_ip: nat) -> int {
    sum(hosts.map_values(|p: (Arc<Host>, Vec<u32>)| (p.1@.len() * pings_per_ip) as int))
}

/// The number of pings a schedule for `hosts` is made for, each IP `pings_per_ip` times,
/// or `None` when that number does not fit in a `usize`.
pub fn schedule_size(hosts: &Vec<(Arc<Host>, Vec<u32>)>, pings_per_ip: usize) -> (r: Option<usize>)
    ensures
        match r {
            Some(n) => n == schedule_capacity(hosts@, pings_per_ip as nat),
            None => schedule_capacity(hosts@, pings_per_ip as nat) > usize::MAX,
        },
{
    let ghost s = hosts@.map_values(|p: (Arc<Host>, Vec<u32>)| (p.1@.len() * pings_per_ip) as int);
    proof {
        assert forall|i: int| 0 <= i < s.len() implies 0 <= #[trigger] s[i] by {
            assert(0 <= hosts@[i].1@.len() * pings_per_ip) by (nonlinear_arith);
        }
        let ppi = pings_per_ip as nat;
        assert(s =~= hosts@.map_values(|p: (Arc<Host>, Vec<u32>)| (p.1@.len() * ppi) as int));
        assert(sum(s) == schedule_capacity(hosts@, ppi));
    }
    let mut total: usize = 0;
    let mut k: usize = 0;
    while k < hosts.len()
        invariant
            k <= hosts@.len(),
            s == hosts@.map_values(|p: (Arc<Host>, Vec<u32>)| (p.1@.len() * pings_per_ip) as int),
            forall|i: int| 0 <= i < s.len() ==> 0 <= #[trigger] s[i],
            sum(s) == schedule_capacity(hosts@, pings_per_ip as nat),
            total == sum(s.take(k as int)),
        decreases hosts@.len() - k,
    {
        proof {
            lemma_sum_take_step(s, k as int);
            lemma_sum_take_le(s, k + 1);
        }
        let n = hosts[k].1.len();
        let m = match n.checked_mul(pings_per_ip) {
            Some(m) => m,
            None => {
                proof {
                    lemma_elem_le_sum(s, k as int);
                }
                return None;
            },
        };
        total = match total.checked_add(m) {
            Some(t) => t,
            None => return None,
        };
        k = k + 1;
    }
    proof {
        lemma_sum_take_all(s);
    }
    Some(total)
}

/// A host as a new schedule holds it: no pings handed out, no failures, in the schedule.
pub open spec fn fresh_host(p: (Arc<Host>, Vec<u32>)) -> HostView {
    HostView {
        host: p.0@,
        ips: p.1@.map_values(|ip: u32| IpView { ip, seq: 0, pings: 0 }),
        retries: 0,
        left: true,
    }
}

/// Calls `SeedableRng::try_from_os_rng` for a generator seeded from the operating system.
/// `None` when the operating system gave no seed. Nothing else is stated: the seed is chance.
#[verifier::external_body]
fn os_seeded_rng() -> (r: Option<Xoshiro256PlusPlus>) {
    Xoshiro256PlusPlus::try_from_os_rng().ok()
}

impl JobIter {
    /// A schedule for the hosts `hosts`, each with the IPs it resolved to, that pings each
    /// IP `pings_per_ip` times and drops a host after more than `ping_retries` failures,
    /// choosing at random with a generator seeded from the operating system. `None` when
    /// the operating system gives no seed.
    pub fn new(
        hosts: Vec<(Arc<Host>, Vec<u32>)>,
        pings_per_ip: usize,
        ping_retries: usize,
    ) -> (r: Option<JobIter>)
        requires
            schedule_capacity(hosts@, pings_per_ip as nat) <= usize::MAX,
        ensures
            r matches Some(it) ==> {
                &&& it.wf()
                &&& it@.pings_per_ip == pings_per_ip
                &&& it@.ping_retries == ping_retries
                &&& it@.hosts == hosts@.map_values(|p: (Arc<Host>, Vec<u32>)| fresh_host(p))
                &&& it@.pings_left() == it@.capacity() == schedule_capacity(hosts@, pings_per_ip as nat)
            },
    {
        match os_seeded_rng() {
            Some(rng) => Some(JobIter::with_rng(hosts, pings_per_ip, ping_retries, rng)),
            None => None,
        }
    }

    /// A schedule for the hosts `hosts`, each with the IPs it resolved to, that pings each
    /// IP `pings_per_ip` times and drops a host after more than `ping_retries` failures,
    /// choosing at random with the generator `rng`.
    pub fn with_rng(
        hosts: Vec<(Arc<Host>, Vec<u32>)>,
        pings_per_ip: usize,
        ping_retries: usize,
        rng: Xoshiro256PlusPlus,
    ) -> (r: JobIter)
        requires
            schedule_capacity(hosts@, pings_per_ip as nat) <= usize::MAX,
        ensures
            r.wf(),
            r@.pings_per_ip == pings_per_ip,
            r@.ping_retries == ping_retries,
            r@.hosts == hosts@.map_values(|p: (Arc<Host>, Vec<u32>)| fresh_host(p)),
            r@.pings_left() == r@.capacity() == schedule_capacity(hosts@, pings_per_ip as nat),
    {
        let mut states: Vec<HostState> = Vec::new();
        let mut hosts_left: Vec<usize> = Vec::new();
        let n = hosts.len();
        let mut h: usize = 0;
        while h < n
            invariant
                h <= n == hosts@.len(),
                states@.len() == h,
                hosts_left@ == Seq::new(h as nat, |g: int| g as usize),
                forall|g: int| 0 <= g < h ==> (#[trigger] states@[g]).view() == fresh_host(hosts@[g]),
                forall|g: int| 0 <= g < h ==> (#[trigger] states@[g]).wf(pings_per_ip as nat),
            decreases n - h,
        {
            let (host, ips) = (&hosts[h].0, &hosts[h].1);
            let mut ip_states: Vec<IpState> = Vec::new();
            let mut ips_left: Vec<usize> = Vec::new();
            let m = ips.len();
            let mut i: usize = 0;
            while i < m
                invariant
                    i <= m == ips@.len(),
                    ip_states@.len() == i,
                    ips_left@ == Seq::new(i as nat, |j: int| j as usize),
                    forall|j: int| 0 <= j < i ==> (#[trigger] ip_states@[j]).view() == (IpView { ip: ips@[j], seq: 0, pings: 0 }),
                decreases m - i,
            {
                ip_states.push(IpState { ip: ips[i], seq: 0, pings: 0 });
                ips_left.push(i);
                proof {
                    assert(ips_left@ =~= Seq::new((i + 1) as nat, |j: int| j as usize));
                }
                i = i + 1;
            }
            let state = HostState { host: share(host), ips: ip_states, ips_left, retries: 0, left: true };
            proof {
                assert(state.view().ips =~= ips@.map_values(|ip: u32| IpView { ip, seq: 0, pings: 0 }));
                assert forall|j: int| 0 <= j < state.ips@.len() implies #[trigger] state.ips_left@.contains(j as usize) by {
                    assert(state.ips_left@[j] == j as usize);
                }
                assert forall|a: int, b: int| 0 <= a < b < state.ips_left@.len() implies state.ips_left@[a] != state.ips_left@[b] by {}
            }
            states.push(state);
            hosts_left.push(h);
            proof {
                assert(hosts_left@ =~= Seq::new((h + 1) as nat, |g: int| g as usize));
            }
            h = h + 1;
        }
        let r = JobIter { hosts: states, hosts_left, pings_per_ip, ping_retries, rng };
        proof {
            let v = r@;
            assert(v.hosts =~= hosts@.map_values(|p: (Arc<Host>, Vec<u32>)| fresh_host(p)));
            assert forall|g: int| 0 <= g < r.hosts@.len() implies (#[trigger] r.hosts@[g].left <==> r.hosts_left@.contains(g as usize)) by {
                assert(r.hosts_left@[g] == g as usize);
            }
            assert forall|a: int, b: int| 0 <= a < b < r.hosts_left@.len() implies r.hosts_left@[a] != r.hosts_left@[b] by {}
            let ppi = pings_per_ip as nat;
            let s = v.hosts.map_values(|hv: HostView| if hv.left { hv.pings_left(ppi) } else { 0 });
            let t = v.hosts.map_values(|hv: HostView| (hv.ips.len() * ppi) as int);
            assert forall|g: int| 0 <= g < s.len() implies #[trigger] s[g] == t[g] by {
                let hv = v.hosts[g];
                let u = hv.ips.map_values(|w: IpView| ppi - w.pings);
                assert forall|j: int| 0 <= j < u.len() implies #[trigger] u[j] == ppi by {}
                lemma_sum_const(u, ppi as int);
            }
            assert(s =~= t);
            assert(t =~= hosts@.map_values(|p: (Arc<Host>, Vec<u32>)| (p.1@.len() * ppi) as int));
        }
        r
    }

    /// The pings still owed to host number `host_idx`.
    pub fn pings_left_for_host(&self, host_idx: usize) -> (r: usize)
        requires
            self.wf(),
            host_idx < self@.hosts.len(),
        ensures
            r == self@.hosts[host_idx as int].pings_left(self@.pings_per_ip),
    {
        let ghost v = self@;
        let ghost ppi = v.pings_per_ip;
        let ghost hv = v.hosts[host_idx as int];
        let ghost u = hv.ips.map_values(|w: IpView| ppi - w.pings);
        proof {
            self.lemma_pings_left_bound();
            assert forall|j: int| 0 <= j < u.len() implies 0 <= #[trigger] u[j] by {
                assert(hv.ips[j].pings <= ppi);
            }
            assert forall|i: int| 0 <= i < hv.ips.len() implies #[trigger] hv.ips[i].pings <= ppi by {
                assert(v.hosts[host_idx as int].ips[i].pings <= ppi);
            }
            Self::lemma_host_pings_left_bound(hv, ppi);
            let t = v.hosts.map_values(|x: HostView| (x.ips.len() * ppi) as int);
            assert forall|g: int| 0 <= g < t.len() implies 0 <= #[trigger] t[g] by {
                assert(0 <= v.hosts[g].ips.len() * ppi) by (nonlinear_arith);
            }
            lemma_elem_le_sum(t, host_idx as int);
        }
        let state = &self.hosts[host_idx];
        let mut acc: usize = 0;
        let mut i: usize = 0;
        while i < state.ips.len()
            invariant
                i <= state.ips@.len() == u.len(),
                state.view() == hv,
                ppi == self.pings_per_ip,
                forall|j: int| 0 <= j < u.len() ==> 0 <= #[trigger] u[j],
                u == hv.ips.map_values(|w: IpView| ppi - w.pings),
                sum(u) <= usize::MAX,
                acc == sum(u.take(i as int)),
            decreases state.ips@.len() - i,
        {
            proof {
                lemma_sum_take_step(u, i as int);
                lemma_sum_take_le(u, i + 1);
                assert(u[i as int] == ppi - state.ips@[i as int].pings);
            }
            acc = acc + (self.pings_per_ip - state.ips[i].pings);
            i = i + 1;
        }
        proof {
            lemma_sum_take_all(u);
        }
        acc
    }

    /// The pings still owed to the hosts in the schedule.
    pub fn pings_left(&self) -> (r: usize)
        requires
            self.wf(),
        ensures
            r == self@.pings_left(),
    {
        let ghost v = self@;
        let ghost s = v.hosts.map_values(|hv: HostView| if hv.left { hv.pings_left(v.pings_per_ip) } else { 0 });
        proof {
            self.lemma_pings_left_bound();
            assert forall|g: int| 0 <= g < s.len() implies 0 <= #[trigger] s[g] by {
                let hv = v.hosts[g];
                assert forall|i: int| 0 <= i < hv.ips.len() implies #[trigger] hv.ips[i].pings <= v.pings_per_ip by {
                    assert(v.hosts[g].ips[i].pings <= v.pings_per_ip);
                }
                Self::lemma_host_pings_left_bound(hv, v.pings_per_ip);
            }
        }
        let mut acc: usize = 0;
        let mut h: usize = 0;
        while h < self.hosts.len()
            invariant
                self.wf(),
                v == self@,
                h <= s.len() == self.hosts@.len(),
                s == v.hosts.map_values(|hv: HostView| if hv.left { hv.pings_left(v.pings_per_ip) } else { 0 }),
                forall|g: int| 0 <= g < s.len() ==> 0 <= #[trigger] s[g],
                sum(s) <= usize::MAX,
                acc == sum(s.take(h as int)),
            decreases self.hosts@.len() - h,
        {
            proof {
                lemma_sum_take_step(s, h as int);
                lemma_sum_take_le(s, h + 1);
            }
            if self.hosts[h].left {
                let p = self.pings_left_for_host(h);
                acc = acc + p;
            }
            h = h + 1;
        }
        proof {
            lemma_sum_take_all(s);
        }
        acc
    }

    /// No lower bound, and the pings still owed as the upper bound on the jobs to come.
    pub fn size_hint(&self) -> (r: (usize, Option<usize>))
        requires
            self.wf(),
        ensures
            r.0 == 0,
            r.1 == Some(self@.pings_left() as usize),
    {
        (0, Some(self.pings_left()))
    }

    /// The hosts whose pings failed more often than allowed, in schedule order.
    pub fn failed_hosts(&self) -> (r: Vec<Arc<Host>>)
        requires
            self.wf(),
        ensures
            r@.map_values(|h: Arc<Host>| h@) == failed_hosts_in(self@.hosts, self@.ping_retries),
            forall|h: int| 0 <= h < self@.hosts.len() && #[trigger] self@.hosts[h].retries > self@.ping_retries
                ==> host_views(r@).contains(self@.hosts[h].host),
            forall|x: (Seq<char>, Seq<char>)| #[trigger] host_views(r@).contains(x)
                ==> exists|h: int| 0 <= h < self@.hosts.len() && self@.hosts[h].host == x
                    && #[trigger] self@.hosts[h].retries > self@.ping_retries,
    {
        let mut out: Vec<Arc<Host>> = Vec::new();
        let mut h: usize = 0;
        while h < self.hosts.len()
            invariant
                h <= self.hosts@.len(),
                out@.map_values(|x: Arc<Host>| x@) == failed_hosts_in(self@.hosts.take(h as int), self@.ping_retries),
            decreases self.hosts@.len() - h,
        {
            let ghost prev = out@.map_values(|x: Arc<Host>| x@);
            proof {
                assert(self@.hosts.take(h + 1).drop_last() =~= self@.hosts.take(h as int));
                assert(self@.hosts.take(h + 1).last() == self.hosts@[h as int].view());
            }
            if self.hosts[h].retries > self.ping_retries {
                out.push(share(&self.hosts[h].host));
                assert(out@.map_values(|x: Arc<Host>| x@) =~= prev.push(self.hosts@[h as int].host@));
            }
            h = h + 1;
        }
        assert(self@.hosts.take(self.hosts@.len() as int) =~= self@.hosts);
        proof {
            lemma_failed_hosts_exceed_retries(self@.hosts, self@.ping_retries);
            assert(host_views(out@) =~= out@.map_values(|x: Arc<Host>| x@));
        }
        out
    }

    /// The number of hosts in the schedule, including those that left it.
    pub fn num_hosts(&self) -> (r: usize)
        ensures
            r == self@.hosts.len(),
    {
        self.hosts.len()
    }

    /// Host number `host_idx`.
    pub fn host(&self, host_idx: usize) -> (r: Arc<Host>)
        requires
            host_idx < self@.hosts.len(),
        ensures
            r@ == self@.hosts[host_idx as int].host,
    {
        share(&self.hosts[host_idx].host)
    }

    /// The number of failed pings to host number `host_idx`.
    pub fn retries(&self, host_idx: usize) -> (r: usize)
        requires
            host_idx < self@.hosts.len(),
        ensures
            r == self@.hosts[host_idx as int].retries,
    {
        self.hosts[host_idx].retries
    }

    /// Whether pings to host number `host_idx` may still be retried: its failures do not
    /// exceed the allowed number.
    pub fn can_retry(&self, host_idx: usize) -> (r: bool)
        requires
            host_idx < self@.hosts.len(),
        ensures
            r == !self@.failed(host_idx as int),
    {
        self.hosts[host_idx].retries <= self.ping_retries
    }

    /// Counts a failed ping to host number `host_idx`. Returns whether this failure is the
    /// one that exceeds the allowed number.
    pub fn record_failure(&mut self, host_idx: usize) -> (r: bool)
        requires
            old(self).wf(),
            host_idx < old(self)@.hosts.len(),
            old(self)@.hosts[host_idx as int].retries < usize::MAX,
        ensures
            final(self).wf(),
            final(self)@ == old(self)@.failure_recorded(host_idx as int),
            final(self)@.pings_left() == old(self)@.pings_left(),
            old(self)@.keeps_pings(final(self)@),
            r == (old(self)@.hosts[host_idx as int].retries == old(self)@.ping_retries),
    {
        let r = self.hosts[host_idx].retries == self.ping_retries;
        self.hosts[host_idx].retries = self.hosts[host_idx].retries + 1;
        proof {
            let nv = old(self)@.failure_recorded(host_idx as int);
            assert(self@.hosts =~= nv.hosts);
            lemma_pings_left_with_host(old(self)@, host_idx as int, nv.hosts[host_idx as int]);
            assert(nv.hosts[host_idx as int].ips == old(self)@.hosts[host_idx as int].ips);
            assert(self.hosts@[host_idx as int].wf(self.pings_per_ip as nat));
            let s0 = old(self)@.hosts.map_values(|hv: HostView| (hv.ips.len() * old(self)@.pings_per_ip) as int);
            assert(self@.hosts.map_values(|hv: HostView| (hv.ips.len() * self@.pings_per_ip) as int) =~= s0);
        }
        r
    }

    /// The sequence number for the next ping to IP number `ip_idx` of host number
    /// `host_idx`; the number kept for that IP advances by one, wrapping around.
    pub fn next_sequence(&mut self, host_idx: usize, ip_idx: usize) -> (r: u16)
        requires
            old(self).wf(),
            host_idx < old(self)@.hosts.len(),
            ip_idx < old(self)@.hosts[host_idx as int].ips.len(),
        ensures
            final(self).wf(),
            r == old(self)@.hosts[host_idx as int].ips[ip_idx as int].seq,
            final(self)@ == old(self)@.sequence_advanced(host_idx as int, ip_idx as int),
            final(self)@.pings_left() == old(self)@.pings_left(),
            old(self)@.keeps_pings(final(self)@),
    {
        let r = self.hosts[host_idx].ips[ip_idx].seq;
        self.hosts[host_idx].ips[ip_idx].seq = r.wrapping_add(1);
        proof {
            let ohv = old(self)@.hosts[host_idx as int];
            let nhv = HostView {
                ips: ohv.ips.update(ip_idx as int, IpView { seq: ((r + 1) % 0x10000) as u16, ..ohv.ips[ip_idx as int] }),
                ..ohv
            };
            assert(self.hosts@[host_idx as int].view().ips =~= nhv.ips);
            assert(self@.hosts =~= old(self)@.hosts.update(host_idx as int, nhv));
            lemma_pings_left_with_host(old(self)@, host_idx as int, nhv);
            let g = |w: IpView| old(self)@.pings_per_ip - w.pings;
            assert(nhv.ips.map_values(g) =~= ohv.ips.map_values(g));
            assert(self.hosts@[host_idx as int].wf(self.pings_per_ip as nat));
            let s0 = old(self)@.hosts.map_values(|hv: HostView| (hv.ips.len() * old(self)@.pings_per_ip) as int);
            assert(self@.hosts.map_values(|hv: HostView| (hv.ips.len() * self@.pings_per_ip) as int) =~= s0);
        }
        r
    }
}


impl JobIterView {
    /// The pings owed to the hosts that were in the schedule of `self`, failed, and are not
    /// in the schedule of `new`.
    pub open spec fn dropped_pings(self, new: JobIterView) -> int {
        sum(Seq::new(self.hosts.len(), |h: int|
            if self.hosts[h].left && !new.hosts[h].left && self.failed(h) {
                self.hosts[h].pings_left(self.pings_per_ip)
            } else {
                0
            }))
    }

    /// The term of host view `hv` in `pings_left`.
    pub open spec fn left_term(self, hv: HostView) -> int {
        if hv.left { hv.pings_left(self.pings_per_ip) } else { 0 }
    }
}

proof fn lemma_pings_left_with_host(v: JobIterView, h: int, hv: HostView)
    requires
        0 <= h < v.hosts.len(),
    ensures
        v.with_host(h, hv).pings_left() == v.pings_left() - v.left_term(v.hosts[h]) + v.left_term(hv),
{
    let f = |x: HostView| if x.left { x.pings_left(v.pings_per_ip) } else { 0 };
    let s = v.hosts.map_values(f);
    assert(v.with_host(h, hv).hosts.map_values(f) =~= s.update(h, f(hv)));
    lemma_sum_update(s, h, f(hv));
}

proof fn lemma_dropped_with_host(old: JobIterView, v: JobIterView, h: int, hv: HostView)
    requires
        0 <= h < old.hosts.len() == v.hosts.len(),
    ensures
        old.dropped_pings(v.with_host(h, hv)) == old.dropped_pings(v)
            - (if old.hosts[h].left && !v.hosts[h].left && old.failed(h) { old.hosts[h].pings_left(old.pings_per_ip) } else { 0 })
            + (if old.hosts[h].left && !hv.left && old.failed(h) { old.hosts[h].pings_left(old.pings_per_ip) } else { 0 }),
{
    let s = Seq::new(old.hosts.len(), |g: int|
        if old.hosts[g].left && !v.hosts[g].left && old.failed(g) { old.hosts[g].pings_left(old.pings_per_ip) } else { 0 });
    let nv = v.with_host(h, hv);
    let t = Seq::new(old.hosts.len(), |g: int|
        if old.hosts[g].left && !nv.hosts[g].left && old.failed(g) { old.hosts[g].pings_left(old.pings_per_ip) } else { 0 });
    assert(t =~= s.update(h, t[h]));
    lemma_sum_update(s, h, t[h]);
}

proof fn lemma_dropped_none(v: JobIterView)
    ensures
        v.dropped_pings(v) == 0,
{
    let s = Seq::new(v.hosts.len(), |g: int|
        if v.hosts[g].left && !v.hosts[g].left && v.failed(g) { v.hosts[g].pings_left(v.pings_per_ip) } else { 0 });
    lemma_sum_zero(s);
}

proof fn lemma_exhausted_no_pings(hv: HostView, ppi: nat)
    requires
        hv.exhausted(ppi),
    ensures
        hv.pings_left(ppi) == 0,
{
    let u = hv.ips.map_values(|w: IpView| ppi - w.pings);
    assert forall|i: int| 0 <= i < u.len() implies u[i] == 0 by {
        assert(hv.ips[i].pings == ppi);
    }
    lemma_sum_zero(u);
}

proof fn lemma_pinged_pings_left(v: JobIterView, h: int, i: int)
    requires
        0 <= h < v.hosts.len(),
        0 <= i < v.hosts[h].ips.len(),
    ensures
        v.pinged(h, i).pings_left(v.pings_per_ip) == v.hosts[h].pings_left(v.pings_per_ip) - 1,
{
    let ppi = v.pings_per_ip;
    let g = |w: IpView| ppi - w.pings;
    let u = v.hosts[h].ips.map_values(g);
    assert(v.pinged(h, i).ips.map_values(g) =~= u.update(i, u[i] - 1));
    lemma_sum_update(u, i, u[i] - 1);
}

impl JobIter {
    /// The view after host state `h` was replaced.
    proof fn lemma_view_with_state(&self, old: &JobIter, h: int)
        requires
            0 <= h < old.hosts@.len(),
            self.hosts@ == old.hosts@.update(h, self.hosts@[h]),
            self.pings_per_ip == old.pings_per_ip,
            self.ping_retries == old.ping_retries,
        ensures
            self@ == old@.with_host(h, self.hosts@[h].view()),
            self@.capacity() == old@.capacity() || self.hosts@[h].ips@.len() != old.hosts@[h].ips@.len(),
    {
        assert(self@.hosts =~= old@.hosts.update(h, self.hosts@[h].view()));
        if self.hosts@[h].ips@.len() == old.hosts@[h].ips@.len() {
            let c = |hv: HostView| (hv.ips.len() * old@.pings_per_ip) as int;
            assert(self@.hosts.map_values(c) =~= old@.hosts.map_values(c));
        }
    }

    /// Hands out the next ping: a host still in the schedule is chosen at random, and one of
    /// its IPs that still has pings left. A host that failed too often is dropped from the
    /// schedule when it is chosen, and so is a host all of whose IPs got their pings.
    /// Returns the ping, or `None` once no ping is left to hand out, together with the number
    /// of pings that were owed to the hosts dropped for failing.
    pub fn next(&mut self) -> (r: (Option<Job>, usize))
        requires
            old(self).wf(),
        ensures
            final(self).wf(),
            old(self)@.next_step(r.0, r.1 as int, final(self)@),
    {
        let ghost v0 = self@;
        let mut skipped: usize = 0;
        proof {
            lemma_dropped_none(v0);
            self.lemma_pings_left_bound();
        }
        while self.hosts_left.len() > 0
            invariant
                v0 == old(self)@,
                self.wf(),
                v0.only_left_changed(self@),
                skipped == v0.dropped_pings(self@),
                skipped + self@.pings_left() == v0.pings_left(),
                v0.pings_left() <= usize::MAX,
            decreases self.hosts_left@.len(),
        {
            let k = random_index(&mut self.rng, self.hosts_left.len());
            let h = self.hosts_left[k];
            proof {
                assert(self.hosts_left@.contains(h));
                assert(self.hosts@[h as int].left);
                assert(self@.hosts[h as int] == self.hosts@[h as int].view());
                self.lemma_pings_left_bound();
            }
            if self.hosts[h].retries > self.ping_retries {
                let ghost before = *self;
                proof {
                    lemma_remove_distinct(self.hosts_left@, k as int);
                }
                self.hosts_left.remove(k);
                self.hosts[h].left = false;
                proof {
                    assert(self.hosts_left@ == before.hosts_left@.remove(k as int));
                    assert(self.hosts@ == before.hosts@.update(h as int, self.hosts@[h as int]));
                    self.lemma_view_with_state(&before, h as int);
                    let hv = self.hosts@[h as int].view();
                    lemma_pings_left_with_host(before@, h as int, hv);
                    lemma_dropped_with_host(v0, before@, h as int, hv);
                    assert(self.hosts@[h as int].wf(self.pings_per_ip as nat)) by {
                        assert(before.hosts@[h as int].wf(before.pings_per_ip as nat));
                    }
                    assert forall|g: int| 0 <= g < self.hosts@.len() implies (#[trigger] self.hosts@[g].left <==> self.hosts_left@.contains(g as usize)) by {
                        if g != h {
                            assert(self.hosts@.len() == self.hosts.len());
                            assert(g as usize != h);
                            assert(before.hosts@[g].left <==> before.hosts_left@.contains(g as usize));
                        } else {
                            assert(!self.hosts_left@.contains(h));
                        }
                    }
                    assert forall|g: int| 0 <= g < self.hosts@.len() implies (#[trigger] self.hosts@[g]).wf(self.pings_per_ip as nat) by {
                        assert(before.hosts@[g].wf(before.pings_per_ip as nat));
                    }
                    assert forall|kk: int| 0 <= kk < self.hosts_left@.len() implies #[trigger] self.hosts_left@[kk] < self.hosts@.len() by {
                        assert(self.hosts_left@.contains(self.hosts_left@[kk]));
                    }
                    assert(self@.consistent()) by {
                        assert forall|g: int| 0 <= g < self@.hosts.len() && !(#[trigger] self@.hosts[g]).left
                            implies self@.failed(g) || self@.hosts[g].exhausted(self@.pings_per_ip) by {
                            if g != h {
                                assert(before@.hosts[g] == self@.hosts[g]);
                            }
                        }
                        assert forall|g: int, i: int| 0 <= g < self@.hosts.len() && 0 <= i < self@.hosts[g].ips.len()
                            implies #[trigger] self@.hosts[g].ips[i].pings <= self@.pings_per_ip by {
                            assert(before@.hosts[g].ips[i].pings <= before@.pings_per_ip);
                        }
                    }
                    assert(v0.only_left_changed(self@)) by {
                        assert forall|g: int| 0 <= g < v0.hosts.len() implies {
                            &&& (#[trigger] self@.hosts[g]) == HostView { left: self@.hosts[g].left, ..v0.hosts[g] }
                            &&& self@.hosts[g].left ==> v0.hosts[g].left
                        } by {
                            assert(v0.only_left_changed(before@));
                            assert(before@.hosts[g] == HostView { left: before@.hosts[g].left, ..v0.hosts[g] });
                        }
                    }
                    self.lemma_pings_left_bound();
                }
                let p = self.pings_left_for_host(h);
                skipped = skipped + p;
                continue;
            }
            // the host may still be pinged: choose one of its IPs with pings left
            let ghost hl0 = self.hosts_left@;
            while self.hosts[h].ips_left.len() > 0
                invariant
                    v0 == old(self)@,
                    self.hosts_left@ == hl0,
                    self.wf(),
                    v0.only_left_changed(self@),
                    skipped == v0.dropped_pings(self@),
                    skipped + self@.pings_left() == v0.pings_left(),
                    v0.pings_left() <= usize::MAX,
                    k < self.hosts_left@.len(),
                    self.hosts_left@[k as int] == h,
                    h < self.hosts@.len(),
                    self.hosts@[h as int].left,
                    !self@.failed(h as int),
                decreases self.hosts@[h as int].ips_left@.len(),
            {
                let j = random_index(&mut self.rng, self.hosts[h].ips_left.len());
                let i = self.hosts[h].ips_left[j];
                proof {
                    assert(self.hosts@[h as int].wf(self.pings_per_ip as nat));
                    assert(self.hosts@[h as int].ips_left@.contains(i));
                }
                if self.hosts[h].ips[i].pings == self.pings_per_ip {
                    let ghost before = *self;
                    proof {
                        lemma_remove_distinct(self.hosts@[h as int].ips_left@, j as int);
                    }
                    self.hosts[h].ips_left.remove(j);
                    proof {
                        assert(self.hosts@ == before.hosts@.update(h as int, self.hosts@[h as int]));
                        assert(self.hosts@[h as int].ips@ == before.hosts@[h as int].ips@);
                        assert(self.hosts@[h as int].ips_left@ == before.hosts@[h as int].ips_left@.remove(j as int));
                        assert(self@.hosts =~= before@.hosts) by {
                            assert(self.hosts@[h as int].view().ips =~= before.hosts@[h as int].view().ips);
                            assert(self.hosts@ == before.hosts@.update(h as int, self.hosts@[h as int]));
                        }
                        let c = |hv: HostView| (hv.ips.len() * self@.pings_per_ip) as int;
                        assert(self@.hosts.map_values(c) =~= before@.hosts.map_values(c));
                        assert(before.hosts@[h as int].wf(before.pings_per_ip as nat));
                        let st = self.hosts@[h as int];
                        assert forall|kk: int| 0 <= kk < st.ips_left@.len() implies #[trigger] st.ips_left@[kk] < st.ips@.len() by {
                            assert(st.ips_left@.contains(st.ips_left@[kk]));
                        }
                        assert forall|ii: int| 0 <= ii < st.ips@.len() && !st.ips_left@.contains(ii as usize)
                            implies #[trigger] st.ips@[ii].pings == self.pings_per_ip by {
                            assert(st.ips@.len() == st.ips.len());
                            if ii as usize != i {
                                assert(!before.hosts@[h as int].ips_left@.contains(ii as usize));
                                assert(before.hosts@[h as int].ips@[ii].pings == before.pings_per_ip);
                            }
                        }
                        assert(st.wf(self.pings_per_ip as nat));
                        assert forall|g: int| 0 <= g < self.hosts@.len() implies (#[trigger] self.hosts@[g]).wf(self.pings_per_ip as nat) by {
                            assert(before.hosts@[g].wf(before.pings_per_ip as nat));
                        }
                        assert forall|g: int| 0 <= g < self.hosts@.len() implies (#[trigger] self.hosts@[g].left <==> self.hosts_left@.contains(g as usize)) by {
                            assert(before.hosts@[g].left <==> before.hosts_left@.contains(g as usize));
                        }
                    }
                    continue;
                }
                let ghost before = *self;
                proof {
                    assert(before@.can_ping(h as int, i as int)) by {
                        assert(before@.hosts[h as int].ips[i as int].pings <= before@.pings_per_ip);
                    }
                    assert(v0.can_ping(h as int, i as int)) by {
                        assert(before@.hosts[h as int] == HostView { left: before@.hosts[h as int].left, ..v0.hosts[h as int] });
                    }
                }
                self.hosts[h].ips[i].pings = self.hosts[h].ips[i].pings + 1;
                let job = Job { host: share(&self.hosts[h].host), host_idx: h, ip_idx: i, ip: self.hosts[h].ips[i].ip };
                proof {
                    self.lemma_view_with_state(&before, h as int);
                    assert(self.hosts@[h as int].view() == before@.pinged(h as int, i as int)) by {
                        assert(self.hosts@[h as int].view().ips =~= before@.pinged(h as int, i as int).ips);
                    }
                    assert(before@.hosts[h as int] == v0.hosts[h as int]) by {
                        assert(before@.hosts[h as int] == HostView { left: before@.hosts[h as int].left, ..v0.hosts[h as int] });
                    }
                    let hv = self.hosts@[h as int].view();
                    lemma_pings_left_with_host(before@, h as int, hv);
                    lemma_pinged_pings_left(before@, h as int, i as int);
                    lemma_dropped_with_host(v0, before@, h as int, hv);
                    assert(self.hosts@[h as int].wf(self.pings_per_ip as nat)) by {
                        assert(before.hosts@[h as int].wf(before.pings_per_ip as nat));
                        let st = self.hosts@[h as int];
                        assert forall|ii: int| 0 <= ii < st.ips@.len() implies #[trigger] st.ips@[ii].pings <= self.pings_per_ip by {
                            assert(before.hosts@[h as int].ips@[ii].pings <= before.pings_per_ip);
                        }
                        assert forall|ii: int| 0 <= ii < st.ips@.len() && !st.ips_left@.contains(ii as usize)
                            implies #[trigger] st.ips@[ii].pings == self.pings_per_ip by {
                            assert(before.hosts@[h as int].ips@[ii].pings == before.pings_per_ip);
                        }
                    }
                    assert forall|g: int| 0 <= g < self.hosts@.len() implies (#[trigger] self.hosts@[g]).wf(self.pings_per_ip as nat) by {
                        assert(before.hosts@[g].wf(before.pings_per_ip as nat));
                    }
                    assert forall|g: int| 0 <= g < self.hosts@.len() implies (#[trigger] self.hosts@[g].left <==> self.hosts_left@.contains(g as usize)) by {
                        assert(before.hosts@[g].left <==> before.hosts_left@.contains(g as usize));
                    }
                    assert(self@.consistent()) by {
                        assert forall|g: int| 0 <= g < self@.hosts.len() && !(#[trigger] self@.hosts[g]).left
                            implies self@.failed(g) || self@.hosts[g].exhausted(self@.pings_per_ip) by {
                            assert(g != h);
                            assert(before@.hosts[g] == self@.hosts[g]);
                        }
                        assert forall|g: int, ii: int| 0 <= g < self@.hosts.len() && 0 <= ii < self@.hosts[g].ips.len()
                            implies #[trigger] self@.hosts[g].ips[ii].pings <= self@.pings_per_ip by {
                            assert(self.hosts@[g].wf(self.pings_per_ip as nat));
                            assert(self@.hosts[g].ips[ii] == self.hosts@[g].ips@[ii].view());
                        }
                    }
                    let back = self@.with_host(h as int, v0.hosts[h as int]);
                    assert(back.hosts =~= before@.hosts);
                }
                return (Some(job), skipped);
            }
            // every IP of the host got all its pings: the host leaves the schedule
            let ghost before = *self;
            proof {
                lemma_remove_distinct(self.hosts_left@, k as int);
                let st = self.hosts@[h as int];
                assert(st.wf(self.pings_per_ip as nat));
                assert(self@.hosts[h as int].exhausted(self@.pings_per_ip)) by {
                    assert forall|ii: int| 0 <= ii < self@.hosts[h as int].ips.len()
                        implies #[trigger] self@.hosts[h as int].ips[ii].pings == self@.pings_per_ip by {
                        assert(!st.ips_left@.contains(ii as usize));
                        assert(st.ips@[ii].pings == self.pings_per_ip);
                    }
                }
                lemma_exhausted_no_pings(self@.hosts[h as int], self@.pings_per_ip);
            }
            self.hosts_left.remove(k);
            self.hosts[h].left = false;
            proof {
                assert(self.hosts_left@ == before.hosts_left@.remove(k as int));
                assert(self.hosts@ == before.hosts@.update(h as int, self.hosts@[h as int]));
                self.lemma_view_with_state(&before, h as int);
                let hv = self.hosts@[h as int].view();
                lemma_pings_left_with_host(before@, h as int, hv);
                lemma_dropped_with_host(v0, before@, h as int, hv);
                assert(self.hosts@[h as int].wf(self.pings_per_ip as nat)) by {
                    assert(before.hosts@[h as int].wf(before.pings_per_ip as nat));
                }
                assert forall|g: int| 0 <= g < self.hosts@.len() implies (#[trigger] self.hosts@[g].left <==> self.hosts_left@.contains(g as usize)) by {
                    if g != h {
                        assert(self.hosts@.len() == self.hosts.len());
                        assert(g as usize != h);
                        assert(before.hosts@[g].left <==> before.hosts_left@.contains(g as usize));
                    } else {
                        assert(!self.hosts_left@.contains(h));
                    }
                }
                assert forall|g: int| 0 <= g < self.hosts@.len() implies (#[trigger] self.hosts@[g]).wf(self.pings_per_ip as nat) by {
                    assert(before.hosts@[g].wf(before.pings_per_ip as nat));
                }
                assert forall|kk: int| 0 <= kk < self.hosts_left@.len() implies #[trigger] self.hosts_left@[kk] < self.hosts@.len() by {
                    assert(self.hosts_left@.contains(self.hosts_left@[kk]));
                }
                assert(self@.consistent()) by {
                    assert forall|g: int| 0 <= g < self@.hosts.len() && !(#[trigger] self@.hosts[g]).left
                        implies self@.failed(g) || self@.hosts[g].exhausted(self@.pings_per_ip) by {
                        assert(before@.hosts[g].ips == self@.hosts[g].ips);
                        if g != h {
                            assert(before@.hosts[g] == self@.hosts[g]);
                        }
                    }
                    assert forall|g: int, i: int| 0 <= g < self@.hosts.len() && 0 <= i < self@.hosts[g].ips.len()
                        implies #[trigger] self@.hosts[g].ips[i].pings <= self@.pings_per_ip by {
                        assert(before@.hosts[g].ips[i].pings <= before@.pings_per_ip);
                    }
                }
                assert(v0.only_left_changed(self@)) by {
                    assert forall|g: int| 0 <= g < v0.hosts.len() implies {
                        &&& (#[trigger] self@.hosts[g]) == HostView { left: self@.hosts[g].left, ..v0.hosts[g] }
                        &&& self@.hosts[g].left ==> v0.hosts[g].left
                    } by {
                        assert(v0.only_left_changed(before@));
                        assert(before@.hosts[g] == HostView { left: before@.hosts[g].left, ..v0.hosts[g] });
                    }
                }
            }
        }
        proof {
            assert forall|h: int| 0 <= h < self@.hosts.len() implies !(#[trigger] self@.hosts[h]).left by {
                assert(self.hosts@[h].left <==> self.hosts_left@.contains(h as usize));
            }
            assert(!v0.has_job()) by {
                if v0.has_job() {
                    let (h, i) = choose|h: int, i: int| v0.can_ping(h, i);
                    assert(!self@.hosts[h].left);
                    assert(self@.hosts[h] == HostView { left: self@.hosts[h].left, ..v0.hosts[h] });
                    assert(self@.failed(h) || self@.hosts[h].exhausted(self@.pings_per_ip));
                    assert(self@.hosts[h].ips[i].pings == v0.hosts[h].ips[i].pings);
                }
            }
        }
        (None, skipped)
    }
}


/// When no host is left in the schedule, every IP of every host that did not fail got
/// exactly `pings_per_ip` pings.
pub proof fn lemma_finished_schedule_pinged_every_ip(it: &JobIter)
    requires
        it.wf(),
        forall|h: int| 0 <= h < it@.hosts.len() ==> !(#[trigger] it@.hosts[h]).left,
    ensures
        forall|h: int, i: int| 0 <= h < it@.hosts.len() && !it@.failed(h) && 0 <= i < it@.hosts[h].ips.len()
            ==> #[trigger] it@.hosts[h].ips[i].pings == it@.pings_per_ip,
{
    it.lemma_wf_consistent();
    assert forall|h: int, i: int| 0 <= h < it@.hosts.len() && !it@.failed(h) && 0 <= i < it@.hosts[h].ips.len()
        implies #[trigger] it@.hosts[h].ips[i].pings == it@.pings_per_ip by {
        assert(!it@.hosts[h].left);
        assert(it@.hosts[h].exhausted(it@.pings_per_ip));
    }
}

/// A schedule that every host has left hands out no ping: once `next` returned `None`, it
/// returns `None` on every later call.
pub proof fn lemma_left_schedule_has_no_job(v: JobIterView)
    requires
        forall|h: int| 0 <= h < v.hosts.len() ==> !(#[trigger] v.hosts[h]).left,
    ensures
        !v.has_job(),
{
    if v.has_job() {
        let (h, i) = choose|h: int, i: int| v.can_ping(h, i);
        assert(!v.hosts[h].left);
    }
}

/// One call on a schedule in a run: `next`, with the ping and the number of skipped pings it
/// returned, or another call (`record_failure`, `next_sequence`, `job_step`), which hands out
/// no ping.
pub enum RunStep {
    Next(Option<Job>, usize),
    Other,
}

/// Whether step `step` took the schedule `old` to `new`, as the contract of its call says.
pub open spec fn step_taken(old: JobIterView, step: RunStep, new: JobIterView) -> bool {
    match step {
        RunStep::Next(job, skipped) => old.next_step(job, skipped as int, new),
        RunStep::Other => old.keeps_pings(new),
    }
}

/// Whether `views` are the schedules before and after each of the `steps`.
pub open spec fn valid_run(views: Seq<JobIterView>, steps: Seq<RunStep>) -> bool {
    &&& views.len() == steps.len() + 1
    &&& forall|t: int| 0 <= t < steps.len() ==> step_taken(views[t], #[trigger] steps[t], views[t + 1])
}

/// The number of pings that the steps handed out.
pub open spec fn handed_out(steps: Seq<RunStep>) -> int
    decreases steps.len(),
{
    if steps.len() == 0 {
        0
    } else {
        handed_out(steps.drop_last()) + match steps.last() {
            RunStep::Next(Some(_), _) => 1int,
            _ => 0int,
        }
    }
}

/// The number of pings that the steps skipped for hosts dropped for failing.
pub open spec fn skipped_total(steps: Seq<RunStep>) -> int
    decreases steps.len(),
{
    if steps.len() == 0 {
        0
    } else {
        skipped_total(steps.drop_last()) + match steps.last() {
            RunStep::Next(_, skipped) => skipped as int,
            RunStep::Other => 0int,
        }
    }
}

/// The number of pings that the steps handed out to IP number `i` of host number `h`.
pub open spec fn pings_to(steps: Seq<RunStep>, h: int, i: int) -> int
    decreases steps.len(),
{
    if steps.len() == 0 {
        0
    } else {
        pings_to(steps.drop_last(), h, i) + match steps.last() {
            RunStep::Next(Some(job), _) => if job.host_idx == h && job.ip_idx == i { 1int } else { 0int },
            _ => 0int,
        }
    }
}

/// Whether `b` has the hosts of `a`, with the same IPs, and the same number of pings per IP.
pub open spec fn same_shape(a: JobIterView, b: JobIterView) -> bool {
    &&& b.pings_per_ip == a.pings_per_ip
    &&& b.hosts.len() == a.hosts.len()
    &&& forall|h: int| 0 <= h < a.hosts.len() ==> {
        &&& (#[trigger] b.hosts[h]).host == a.hosts[h].host
        &&& b.hosts[h].ips.len() == a.hosts[h].ips.len()
        &&& forall|i: int| 0 <= i < a.hosts[h].ips.len() ==> (#[trigger] b.hosts[h].ips[i]).ip == a.hosts[h].ips[i].ip
    }
}

proof fn lemma_valid_run_prefix(views: Seq<JobIterView>, steps: Seq<RunStep>, n: int)
    requires
        valid_run(views, steps),
        0 <= n <= steps.len(),
    ensures
        valid_run(views.take(n + 1), steps.take(n)),
{
    assert forall|t: int| 0 <= t < n implies step_taken(views.take(n + 1)[t], #[trigger] steps.take(n)[t], views.take(n + 1)[t + 1]) by {
        assert(steps.take(n)[t] == steps[t]);
        assert(step_taken(views[t], steps[t], views[t + 1]));
    }
}

/// Over a run, the hosts and IPs stay those of the start, and the pings handed out to an IP
/// are those that the steps handed out to it.
proof fn lemma_run_counts(views: Seq<JobIterView>, steps: Seq<RunStep>)
    requires
        valid_run(views, steps),
    ensures
        same_shape(views[0], views.last()),
        forall|h: int, i: int| 0 <= h < views[0].hosts.len() && 0 <= i < views[0].hosts[h].ips.len()
            ==> #[trigger] views.last().hosts[h].ips[i].pings == views[0].hosts[h].ips[i].pings + pings_to(steps, h, i),
    decreases steps.len(),
{
    if steps.len() > 0 {
        let n = steps.len() - 1;
        lemma_valid_run_prefix(views, steps, n);
        assert(views.take(n + 1).last() == views[n]);
        assert(views.take(n + 1)[0] == views[0]);
        assert(steps.take(n) == steps.drop_last());
        lemma_run_counts(views.take(n + 1), steps.take(n));
        let old = views[n];
        let new = views[n + 1];
        assert(step_taken(old, steps[n], new));
        assert(views.last() == new);
        match steps[n] {
            RunStep::Next(job, skipped) => {
                match job {
                    Some(job) => {
                        let jh = job.host_idx as int;
                        let ji = job.ip_idx as int;
                        assert(old.only_left_changed(new.with_host(jh, old.hosts[jh])));
                        assert forall|h: int| 0 <= h < old.hosts.len() && h != jh implies
                            #[trigger] new.hosts[h] == HostView { left: new.hosts[h].left, ..old.hosts[h] } by {
                            assert(new.with_host(jh, old.hosts[jh]).hosts[h] == new.hosts[h]);
                        }
                        assert(new.hosts.len() == old.hosts.len()) by {
                            assert(new.with_host(jh, old.hosts[jh]).hosts.len() == new.hosts.len());
                        }
                    },
                    None => {},
                }
            },
            RunStep::Other => {
                assert forall|h: int| 0 <= h < old.hosts.len() implies same_pings(old.hosts[h], #[trigger] new.hosts[h]) by {
                    assert(same_pings(old.hosts[h], new.hosts[h]) && new.hosts[h].left == old.hosts[h].left);
                }
            },
        }
    }
}

/// Over any run, every ping that the schedule owed at its start is handed out, skipped for a
/// host dropped for failing, or still owed at the end; so the calls of `next` hand out at most
/// the pings owed at the start, the upper bound that `size_hint` gives.
pub proof fn lemma_run_accounts_for_every_ping(views: Seq<JobIterView>, steps: Seq<RunStep>)
    requires
        valid_run(views, steps),
        views[0].consistent(),
    ensures
        handed_out(steps) + skipped_total(steps) + views.last().pings_left() == views[0].pings_left(),
        0 <= handed_out(steps) <= views[0].pings_left(),
    decreases steps.len(),
{
    if steps.len() == 0 {
        lemma_view_pings_left_bound(views[0]);
    } else {
        let n = steps.len() - 1;
        lemma_valid_run_prefix(views, steps, n);
        assert(views.take(n + 1).last() == views[n]);
        assert(views.take(n + 1)[0] == views[0]);
        assert(steps.take(n) == steps.drop_last());
        lemma_run_accounts_for_every_ping(views.take(n + 1), steps.take(n));
        assert(step_taken(views[n], steps[n], views[n + 1]));
        assert(views.last() == views[n + 1]);
        assert(steps.last() == steps[n]);
        match steps[n] {
            RunStep::Next(job, skipped) => {
                assert(views[n].next_step(job, skipped as int, views[n + 1]));
            },
            RunStep::Other => {
                assert(views[n].keeps_pings(views[n + 1]));
                lemma_keeps_pings_left(views[n], views[n + 1]);
            },
        }
        lemma_view_pings_left_bound(views[n + 1]);
        lemma_skipped_nonneg(steps);
    }
}

/// A step that hands out no ping and drops no host leaves the pings owed as they were.
proof fn lemma_keeps_pings_left(old: JobIterView, new: JobIterView)
    requires
        old.keeps_pings(new),
    ensures
        new.pings_left() == old.pings_left(),
{
    let f = |hv: HostView| if hv.left { hv.pings_left(old.pings_per_ip) } else { 0 };
    assert forall|h: int| 0 <= h < old.hosts.len() implies #[trigger] f(new.hosts[h]) == f(old.hosts[h]) by {
        assert(same_pings(old.hosts[h], new.hosts[h]) && new.hosts[h].left == old.hosts[h].left);
        let g = |w: IpView| old.pings_per_ip - w.pings;
        assert(new.hosts[h].ips.map_values(g) =~= old.hosts[h].ips.map_values(g));
    }
    assert(new.hosts.map_values(f) =~= old.hosts.map_values(f));
}

proof fn lemma_skipped_nonneg(steps: Seq<RunStep>)
    ensures
        skipped_total(steps) >= 0,
    decreases steps.len(),
{
    if steps.len() > 0 {
        lemma_skipped_nonneg(steps.drop_last());
    }
}

/// In a run that starts with no ping handed out and ends with `next` handing out none, in
/// which no host has failed by the end, every IP of every host was handed out exactly
/// `pings_per_ip` pings; and every ping handed out was to an IP of a host of the schedule,
/// carrying that host and IP.
pub proof fn lemma_run_pings_every_ip(views: Seq<JobIterView>, steps: Seq<RunStep>)
    requires
        valid_run(views, steps),
        forall|h: int, i: int| 0 <= h < views[0].hosts.len() && 0 <= i < views[0].hosts[h].ips.len()
            ==> #[trigger] views[0].hosts[h].ips[i].pings == 0,
        forall|h: int| 0 <= h < views.last().hosts.len() ==> !#[trigger] views.last().failed(h),
        steps.len() > 0,
        steps.last() matches RunStep::Next(None, _),
    ensures
        forall|h: int, i: int| 0 <= h < views[0].hosts.len() && 0 <= i < views[0].hosts[h].ips.len()
            ==> #[trigger] pings_to(steps, h, i) == views[0].pings_per_ip,
        forall|t: int| 0 <= t < steps.len() ==> (#[trigger] steps[t] matches RunStep::Next(Some(job), _) ==> {
            &&& job.host_idx < views[0].hosts.len()
            &&& job.ip_idx < views[0].hosts[job.host_idx as int].ips.len()
            &&& job.ip == views[0].hosts[job.host_idx as int].ips[job.ip_idx as int].ip
            &&& job.host@ == views[0].hosts[job.host_idx as int].host
        }),
{
    lemma_run_counts(views, steps);
    let last = views.last();
    let n = steps.len() - 1;
    assert(step_taken(views[n], steps[n], views[n + 1]));
    assert(last == views[n + 1]);
    assert forall|h: int, i: int| 0 <= h < views[0].hosts.len() && 0 <= i < views[0].hosts[h].ips.len()
        implies #[trigger] pings_to(steps, h, i) == views[0].pings_per_ip by {
        assert(!last.hosts[h].left);
        assert(!last.failed(h));
        assert(last.hosts[h].exhausted(last.pings_per_ip));
        assert(last.hosts[h].ips[i].pings == last.pings_per_ip);
        assert(last.hosts[h].ips[i].pings == views[0].hosts[h].ips[i].pings + pings_to(steps, h, i));
    }
    assert forall|t: int| 0 <= t < steps.len() implies (#[trigger] steps[t] matches RunStep::Next(Some(job), _) ==> {
        &&& job.host_idx < views[0].hosts.len()
        &&& job.ip_idx < views[0].hosts[job.host_idx as int].ips.len()
        &&& job.ip == views[0].hosts[job.host_idx as int].ips[job.ip_idx as int].ip
        &&& job.host@ == views[0].hosts[job.host_idx as int].host
    }) by {
        if let RunStep::Next(Some(job), _) = steps[t] {
            lemma_valid_run_prefix(views, steps, t);
            lemma_run_counts(views.take(t + 1), steps.take(t));
            assert(views.take(t + 1).last() == views[t]);
            assert(views.take(t + 1)[0] == views[0]);
            assert(step_taken(views[t], steps[t], views[t + 1]));
            let jh = job.host_idx as int;
            let ji = job.ip_idx as int;
            assert(views[t].hosts[jh] == views[t].hosts[jh]);
            assert(views[t].hosts[jh].ips[ji] == views[t].hosts[jh].ips[ji]);
        }
    }
}

/// What came of a ping of a job.
pub enum PingOutcome {
    /// A reply came after the duration.
    Reply(Duration),
    /// No reply came: a timeout or another error.
    Failed,
}

/// What a job does next.
pub enum JobStep {
    /// Send a ping with this sequence number.
    Ping(u16),
    /// The job is over, with the duration of the reply if one came.
    Done(Option<Duration>),
}

impl JobIterView {
    /// The schedule after what came of the last ping of a job to IP `i` of host `h`: a
    /// failure is counted.
    pub open spec fn after_outcome(self, h: int, last: Option<PingOutcome>) -> JobIterView {
        match last {
            Some(PingOutcome::Failed) => self.failure_recorded(h),
            _ => self,
        }
    }
}

impl JobIter {
    /// The next step of `job`, given what came of its last ping (`None` before the first).
    /// A reply ends the job with its duration. A failure is counted first. Then, while the
    /// host may still be retried, the job pings again with the next sequence number of its
    /// IP; otherwise it ends without a reply. Also returns whether this failure was the one
    /// that exceeded the allowed number.
    pub fn job_step(&mut self, job: &Job, last: Option<PingOutcome>) -> (r: (JobStep, bool))
        requires
            old(self).wf(),
            job.host_idx < old(self)@.hosts.len(),
            job.ip_idx < old(self)@.hosts[job.host_idx as int].ips.len(),
            last matches Some(PingOutcome::Failed) ==> old(self)@.hosts[job.host_idx as int].retries < usize::MAX,
        ensures
            final(self).wf(),
            final(self)@.pings_left() == old(self)@.pings_left(),
            old(self)@.keeps_pings(final(self)@),
            r.1 == (last matches Some(PingOutcome::Failed)
                && old(self)@.hosts[job.host_idx as int].retries == old(self)@.ping_retries),
            ({
                let h = job.host_idx as int;
                let i = job.ip_idx as int;
                let mid = old(self)@.after_outcome(h, last);
                match last {
                    Some(PingOutcome::Reply(d)) => r.0 == JobStep::Done(Some(d)) && final(self)@ == old(self)@,
                    _ => if !mid.failed(h) {
                        &&& r.0 == JobStep::Ping(mid.hosts[h].ips[i].seq)
                        &&& final(self)@ == mid.sequence_advanced(h, i)
                    } else {
                        &&& r.0 == JobStep::Done(None)
                        &&& final(self)@ == mid
                    },
                }
            }),
    {
        let mut exceeded = false;
        match last {
            Some(PingOutcome::Reply(d)) => {
                return (JobStep::Done(Some(d)), false);
            },
            Some(PingOutcome::Failed) => {
                exceeded = self.record_failure(job.host_idx);
            },
            None => {},
        }
        if self.can_retry(job.host_idx) {
            let seq = self.next_sequence(job.host_idx, job.ip_idx);
            (JobStep::Ping(seq), exceeded)
        } else {
            (JobStep::Done(None), exceeded)
        }
    }
}

} // verus!

verus! {

broadcast use vstd::std_specs::hash::group_hash_axioms;

/// The durations of the successful pings to one host, per IP.
pub struct HostStats {
    pub host: Arc<Host>,
    pub durations: HashMap<u32, Vec<Duration>>,
}

/// A host and the durations per IP, as the contracts see them.
pub type HostStatsView = ((Seq<char>, Seq<char>), Map<u32, Seq<Duration>>);

impl View for HostStats {
    type V = HostStatsView;

    open spec fn view(&self) -> HostStatsView {
        (self.host@, self.durations@.map_values(|v: Vec<Duration>| v@))
    }
}

/// `m` after `d` was appended to the durations of `ip`.
pub open spec fn with_duration(m: Map<u32, Seq<Duration>>, ip: u32, d: Duration) -> Map<u32, Seq<Duration>> {
    m.insert(ip, if m.contains_key(ip) { m[ip].push(d) } else { seq![d] })
}

/// The results of `table` after the duration `d` of a ping to `ip` of `host` was recorded:
/// appended to the durations of that host and IP; a host not seen before comes last.
pub open spec fn recorded(
    table: Seq<HostStatsView>,
    host: (Seq<char>, Seq<char>),
    ip: u32,
    d: Duration,
) -> Seq<HostStatsView> {
    if exists|k: int| 0 <= k < table.len() && (#[trigger] table[k]).0 == host {
        let k = choose|k: int| 0 <= k < table.len() && (#[trigger] table[k]).0 == host;
        table.update(k, (host, with_duration(table[k].1, ip, d)))
    } else {
        table.push((host, Map::empty().insert(ip, seq![d])))
    }
}

/// The results of the hosts that are not in `failed`, in order.
pub open spec fn without_failed(table: Seq<HostStatsView>, failed: Seq<(Seq<char>, Seq<char>)>) -> Seq<HostStatsView>
    decreases table.len(),
{
    if table.len() == 0 {
        Seq::empty()
    } else {
        let rest = without_failed(table.drop_last(), failed);
        if failed.contains(table.last().0) {
            rest
        } else {
            rest.push(table.last())
        }
    }
}

/// The views of a list of hosts.
pub open spec fn host_views(hosts: Seq<Arc<Host>>) -> Seq<(Seq<char>, Seq<char>)> {
    hosts.map_values(|x: Arc<Host>| x@)
}

/// The durations of the successful pings, collected per host and IP.
pub struct PingResults {
    entries: Vec<HostStats>,
}

impl View for PingResults {
    type V = Seq<HostStatsView>;

    closed spec fn view(&self) -> Seq<HostStatsView> {
        self.entries@.map_values(|e: HostStats| e@)
    }
}

/// Whether `host` is among `hosts`, compared by location and key.
fn contains_host(hosts: &Vec<Arc<Host>>, host: &Host) -> (r: bool)
    ensures
        r == host_views(hosts@).contains(host@),
{
    let mut k: usize = 0;
    while k < hosts.len()
        invariant
            k <= hosts@.len(),
            forall|j: int| 0 <= j < k ==> hosts@[j]@ != host@,
        decreases hosts@.len() - k,
    {
        if hosts[k].location == host.location && hosts[k].public_key == host.public_key {
            assert(host_views(hosts@)[k as int] == host@);
            return true;
        }
        k = k + 1;
    }
    proof {
        let m = host_views(hosts@);
        if m.contains(host@) {
            let j = choose|j: int| 0 <= j < m.len() && m[j] == host@;
            assert(hosts@[j]@ == host@);
        }
    }
    false
}

impl PingResults {
    /// Distinct hosts.
    pub closed spec fn wf(&self) -> bool {
        forall|a: int, b: int| 0 <= a < b < self.entries@.len() ==> self.entries@[a].host@ != self.entries@[b].host@
    }

    /// No results yet.
    pub fn new() -> (r: PingResults)
        ensures
            r.wf(),
            r@ == Seq::<HostStatsView>::empty(),
    {
        let r = PingResults { entries: Vec::new() };
        assert(r@ =~= Seq::<HostStatsView>::empty());
        r
    }

    /// Records that a ping to `ip` of `host` took `duration`.
    pub fn record(&mut self, host: &Arc<Host>, ip: u32, duration: Duration)
        requires
            old(self).wf(),
        ensures
            final(self).wf(),
            final(self)@ == recorded(old(self)@, host@, ip, duration),
    {
        let ghost t0 = self@;
        let mut k: usize = 0;
        while k < self.entries.len()
            invariant
                t0 == self@,
                t0 == old(self)@,
                self.wf(),
                k <= self.entries@.len(),
                forall|j: int| 0 <= j < k ==> self.entries@[j].host@ != host@,
            decreases self.entries@.len() - k,
        {
            if self.entries[k].host.location == host.location && self.entries[k].host.public_key == host.public_key {
                let ghost before = self.entries@;
                let mut v = match self.entries[k].durations.remove(&ip) {
                    Some(v) => v,
                    None => Vec::new(),
                };
                v.push(duration);
                self.entries[k].durations.insert(ip, v);
                proof {
                    assert forall|j: int| 0 <= j < self.entries@.len() implies (#[trigger] self.entries@[j]).host == before[j].host by {}
                    assert(t0[k as int].0 == host@);
                    let kk = choose|kk: int| 0 <= kk < t0.len() && (#[trigger] t0[kk]).0 == host@;
                    if kk != k {
                        if kk < k {
                            assert(self.entries@[kk].host@ != host@);
                        } else {
                            assert(before[k as int].host@ != before[kk].host@);
                        }
                    }
                    let m0 = before[k as int]@.1;
                    assert(self.entries@[k as int]@.1 =~= with_duration(m0, ip, duration));
                    assert(self@ =~= t0.update(k as int, (host@, with_duration(t0[k as int].1, ip, duration))));
                }
                return;
            }
            k = k + 1;
        }
        let mut m: HashMap<u32, Vec<Duration>> = HashMap::new();
        let mut v: Vec<Duration> = Vec::new();
        v.push(duration);
        m.insert(ip, v);
        self.entries.push(HostStats { host: share(host), durations: m });
        proof {
            assert(!(exists|j: int| 0 <= j < t0.len() && (#[trigger] t0[j]).0 == host@));
            assert(self.entries@.last()@.1 =~= Map::<u32, Seq<Duration>>::empty().insert(ip, seq![duration]));
            assert forall|a: int, b: int| 0 <= a < b < self.entries@.len() implies self.entries@[a].host@ != self.entries@[b].host@ by {
                if b == self.entries@.len() - 1 {
                    assert(self.entries@[b].host@ == host@);
                }
            }
            assert(self@ =~= t0.push((host@, Map::empty().insert(ip, seq![duration]))));
        }
    }

    /// The results of the hosts that are not among `failed`, in the order they were first seen.
    pub fn into_host_stats(self, failed: &Vec<Arc<Host>>) -> (r: Vec<HostStats>)
        requires
            self.wf(),
        ensures
            r@.map_values(|e: HostStats| e@) == without_failed(self@, host_views(failed@)),
            forall|a: int, b: int| 0 <= a < b < r@.len() ==> r@[a].host@ != r@[b].host@,
    {
        let ghost t0 = self@;
        proof {
            assert forall|a: int, b: int| 0 <= a < b < t0.len() implies t0[a].0 != t0[b].0 by {
                assert(t0[a] == self.entries@[a]@);
                assert(t0[b] == self.entries@[b]@);
            }
        }
        let ghost fv = host_views(failed@);
        let mut entries = self.entries;
        let mut rev: Vec<HostStats> = Vec::new();
        // reverse the entries, so that popping yields them in their order
        while entries.len() > 0
            invariant
                entries@.len() + rev@.len() == t0.len(),
                forall|j: int| 0 <= j < entries@.len() ==> (#[trigger] entries@[j])@ == t0[j],
                forall|j: int| 0 <= j < rev@.len() ==> (#[trigger] rev@[j])@ == t0[t0.len() - 1 - j],
            decreases entries@.len(),
        {
            let e = entries.pop().unwrap();
            rev.push(e);
        }
        let mut out: Vec<HostStats> = Vec::new();
        let n = rev.len();
        let mut k: usize = 0;
        while rev.len() > 0
            invariant
                fv == host_views(failed@),
                rev@.len() + k == n == t0.len(),
                forall|j: int| 0 <= j < rev@.len() ==> (#[trigger] rev@[j])@ == t0[t0.len() - 1 - j],
                out@.map_values(|e: HostStats| e@) == without_failed(t0.take(k as int), fv),
                forall|a: int, b: int| 0 <= a < b < t0.len() ==> t0[a].0 != t0[b].0,
                forall|j: int| 0 <= j < out@.len() ==> exists|i: int| 0 <= i < k && (#[trigger] out@[j])@.0 == #[trigger] t0[i].0,
                forall|a: int, b: int| 0 <= a < b < out@.len() ==> out@[a].host@ != out@[b].host@,
            decreases rev@.len(),
        {
            let e = rev.pop().unwrap();
            let ghost prev = out@.map_values(|e: HostStats| e@);
            proof {
                assert(e@ == t0[k as int]);
                assert(t0.take(k + 1).drop_last() =~= t0.take(k as int));
                assert(t0.take(k + 1).last() == t0[k as int]);
            }
            let is_failed = contains_host(failed, &e.host);
            proof {
                let here = t0.take(k + 1);
                assert(here.len() == k + 1);
                assert(here.drop_last() =~= t0.take(k as int));
                assert(here.last() == t0[k as int]);
                assert(e@.0 == e.host@);
                assert(is_failed == fv.contains(t0[k as int].0));
            }
            if !is_failed {
                let ghost before = out@;
                out.push(e);
                proof {
                    assert forall|j: int| 0 <= j < out@.len() implies exists|i: int| 0 <= i < k + 1 && (#[trigger] out@[j])@.0 == #[trigger] t0[i].0 by {
                        if j < before.len() {
                            assert(out@[j] == before[j]);
                        } else {
                            assert(out@[j]@.0 == t0[k as int].0);
                        }
                    }
                    assert forall|a: int, b: int| 0 <= a < b < out@.len() implies out@[a].host@ != out@[b].host@ by {
                        if b == before.len() {
                            assert(out@[a] == before[a]);
                            let i = choose|i: int| 0 <= i < k && (#[trigger] before[a])@.0 == #[trigger] t0[i].0;
                            assert(out@[a]@.0 == out@[a].host@);
                            assert(out@[b].host@ == t0[k as int].0);
                        } else {
                            assert(out@[a] == before[a]);
                            assert(out@[b] == before[b]);
                        }
                    }
                }
                assert(out@.map_values(|e: HostStats| e@) =~= prev.push(t0[k as int]));
                assert(without_failed(t0.take(k + 1), fv) == without_failed(t0.take(k as int), fv).push(t0[k as int]));
            } else {
                assert(without_failed(t0.take(k + 1), fv) == without_failed(t0.take(k as int), fv));
            }
            k = k + 1;
        }
        assert(t0.take(n as int) =~= t0);
        out
    }
}

/// Whether the keys of `s` do not increase.
pub open spec fn keys_non_increasing<T>(s: Seq<(u64, T)>) -> bool {
    forall|a: int, b: int| 0 <= a < b < s.len() ==> s[a].0 >= s[b].0
}

/// The items reordered so that their keys do not increase; items with equal keys may come
/// in any order.
pub fn sort_by_key_desc<T>(items: Vec<(u64, T)>) -> (r: Vec<(u64, T)>)
    ensures
        r@.to_multiset() == items@.to_multiset(),
        keys_non_increasing(r@),
{
    broadcast use vstd::seq_lib::group_to_multiset_ensures, vstd::multiset::group_multiset_axioms;

    let mut rest = items;
    let mut out: Vec<(u64, T)> = Vec::new();
    while rest.len() > 0
        invariant
            out@.to_multiset().add(rest@.to_multiset()) == items@.to_multiset(),
            keys_non_increasing(out@),
            forall|a: int, b: int| 0 <= a < out@.len() && 0 <= b < rest@.len() ==> out@[a].0 >= rest@[b].0,
        decreases rest@.len(),
    {
        let mut best: usize = 0;
        let mut j: usize = 1;
        while j < rest.len()
            invariant
                1 <= j <= rest@.len(),
                best < rest@.len(),
                forall|b: int| 0 <= b < j ==> rest@[best as int].0 >= rest@[b].0,
            decreases rest@.len() - j,
        {
            if rest[j].0 > rest[best].0 {
                best = j;
            }
            j = j + 1;
        }
        let ghost r0 = rest@;
        let ghost o0 = out@;
        let x = rest.remove(best);
        out.push(x);
        proof {
            assert(rest@ == r0.remove(best as int));
            assert forall|a: int, b: int| 0 <= a < out@.len() && 0 <= b < rest@.len() implies out@[a].0 >= rest@[b].0 by {
                let b2 = if b < best { b } else { b + 1 };
                assert(rest@[b] == r0[b2]);
            }
            vstd::seq_lib::to_multiset_build(o0, x);
            vstd::seq_lib::to_multiset_remove(r0, best as int);
            assert(out@ == o0.push(x));
            assert(r0.to_multiset().count(x) > 0) by {
                vstd::seq_lib::to_multiset_contains(r0, x);
                assert(r0[best as int] == x);
            }
            assert(out@.to_multiset().add(rest@.to_multiset()) =~= o0.to_multiset().add(r0.to_multiset()));
        }
    }
    assert(rest@.to_multiset() =~= Multiset::<(u64, T)>::empty());
    out
}

} // verus!

verus! {

/// Whether `s` is in non-decreasing order.
pub open spec fn ascending(s: Seq<u32>) -> bool {
    forall|a: int, b: int| 0 <= a < b < s.len() ==> s[a] <= s[b]
}

/// `v` in non-decreasing order.
pub fn sort_ascending(v: Vec<u32>) -> (r: Vec<u32>)
    ensures
        r@.to_multiset() == v@.to_multiset(),
        ascending(r@),
{
    broadcast use vstd::seq_lib::group_to_multiset_ensures, vstd::multiset::group_multiset_axioms;

    let mut rest = v;
    let mut out: Vec<u32> = Vec::new();
    while rest.len() > 0
        invariant
            out@.to_multiset().add(rest@.to_multiset()) == v@.to_multiset(),
            ascending(out@),
            forall|a: int, b: int| 0 <= a < out@.len() && 0 <= b < rest@.len() ==> out@[a] <= rest@[b],
        decreases rest@.len(),
    {
        let mut best: usize = 0;
        let mut j: usize = 1;
        while j < rest.len()
            invariant
                1 <= j <= rest@.len(),
                best < rest@.len(),
                forall|b: int| 0 <= b < j ==> rest@[best as int] <= rest@[b],
            decreases rest@.len() - j,
        {
            if rest[j] < rest[best] {
                best = j;
            }
            j = j + 1;
        }
        let ghost r0 = rest@;
        let ghost o0 = out@;
        let x = rest.remove(best);
        out.push(x);
        proof {
            assert(rest@ == r0.remove(best as int));
            assert forall|a: int, b: int| 0 <= a < out@.len() && 0 <= b < rest@.len() implies out@[a] <= rest@[b] by {
                let b2 = if b < best { b } else { b + 1 };
                assert(rest@[b] == r0[b2]);
            }
            vstd::seq_lib::to_multiset_build(o0, x);
            vstd::seq_lib::to_multiset_remove(r0, best as int);
            assert(out@ == o0.push(x));
            assert(r0.to_multiset().count(x) > 0) by {
                vstd::seq_lib::to_multiset_contains(r0, x);
                assert(r0[best as int] == x);
            }
            assert(out@.to_multiset().add(rest@.to_multiset()) =~= o0.to_multiset().add(r0.to_multiset()));
        }
    }
    assert(rest@.to_multiset() =~= Multiset::<u32>::empty());
    out
}

impl HostStats {
    /// The IPs of this host that answered, in ascending order.
    pub fn sorted_ips(&self) -> (r: Vec<u32>)
        ensures
            r@.to_set() == self.durations@.dom(),
            r@.no_duplicates(),
            ascending(r@),
    {
        broadcast use vstd::seq_lib::group_to_multiset_ensures, vstd::multiset::group_multiset_axioms;

        let mut ips: Vec<u32> = Vec::new();
        for ip in it: self.durations.keys()
            invariant
                ips@.len() == it.index(),
                it.index() <= it.seq().len(),
                forall|j: int| 0 <= j < it.index() ==> ips@[j] == *it.seq()[j],
                forall|x: u32| it.seq().unref().contains(x) <==> self.durations@.dom().contains(x),
                it.seq().unref().no_duplicates(),
                forall|x: u32| #[trigger] self.durations@.dom().contains(x) ==> ips@.contains(x)
                    || exists|j: int| it.index() <= j < it.seq().len() && *it.seq()[j] == x,
                forall|x: u32| #[trigger] ips@.contains(x) ==> self.durations@.dom().contains(x),
            ensures
                forall|x: u32| ips@.contains(x) <==> self.durations@.dom().contains(x),
                ips@.no_duplicates(),
        {
            let ghost idx = it.index();
            let ghost sq = it.seq();
            let ghost before = ips@;
            assert(*ip == *sq[idx as int]);
            assert(forall|x: u32| sq.unref().contains(x) <==> self.durations@.dom().contains(x));
            assert(forall|x: u32| #[trigger] before.contains(x) ==> self.durations@.dom().contains(x));
            ips.push(*ip);
            proof {
                assert(ips@ == before.push(*ip));
                assert(sq.unref()[idx as int] == *ip);
                assert(sq.unref().contains(*ip));
                assert forall|x: u32| #[trigger] ips@.contains(x) implies self.durations@.dom().contains(x) by {
                    if x != *ip {
                        let j = choose|j: int| 0 <= j < ips@.len() && ips@[j] == x;
                        assert(before[j] == x);
                        assert(before.contains(x));
                    } else {
                        assert(sq.unref().contains(x));
                    }
                }
                assert forall|x: u32| #[trigger] self.durations@.dom().contains(x) implies ips@.contains(x)
                    || exists|j: int| idx + 1 <= j < sq.len() && *sq[j] == x by {
                    if before.contains(x) {
                        let j = choose|j: int| 0 <= j < before.len() && before[j] == x;
                        assert(ips@[j] == x);
                    } else {
                        let j = choose|j: int| idx <= j < sq.len() && *sq[j] == x;
                        if j == idx {
                            assert(ips@[idx as int] == x);
                        }
                    }
                }
            }
        }
        let ghost keys = ips@;
        let r = sort_ascending(ips);
        proof {
            assert forall|x: u32| r@.contains(x) <==> keys.contains(x) by {
                vstd::seq_lib::to_multiset_contains(r@, x);
                vstd::seq_lib::to_multiset_contains(keys, x);
            }
            keys.lemma_multiset_has_no_duplicates();
            r@.lemma_multiset_has_no_duplicates_conv();
            assert(r@.to_set() =~= self.durations@.dom()) by {
                assert forall|x: u32| r@.to_set().contains(x) <==> self.durations@.dom().contains(x) by {
                    assert(keys.contains(x) <==> keys.to_set().contains(x));
                }
            }
        }
        r
    }
}


/// No host among `failed` keeps its results, and every host that is not among them keeps
/// all of its results.
pub proof fn lemma_failed_hosts_dropped(table: Seq<HostStatsView>, failed: Seq<(Seq<char>, Seq<char>)>)
    ensures
        forall|k: int| 0 <= k < without_failed(table, failed).len()
            ==> !failed.contains((#[trigger] without_failed(table, failed)[k]).0),
        forall|k: int| 0 <= k < table.len() && !failed.contains((#[trigger] table[k]).0)
            ==> without_failed(table, failed).contains(table[k]),
        forall|k: int| 0 <= k < without_failed(table, failed).len()
            ==> table.contains(#[trigger] without_failed(table, failed)[k]),
    decreases table.len(),
{
    if table.len() > 0 {
        let prev = table.drop_last();
        lemma_failed_hosts_dropped(prev, failed);
        let w = without_failed(table, failed);
        let wp = without_failed(prev, failed);
        assert forall|k: int| 0 <= k < table.len() && !failed.contains((#[trigger] table[k]).0)
            implies w.contains(table[k]) by {
            if k < table.len() - 1 {
                assert(prev[k] == table[k]);
                let j = choose|j: int| 0 <= j < wp.len() && wp[j] == prev[k];
                assert(w[j] == wp[j]);
            } else {
                assert(w[w.len() - 1] == table[k]);
            }
        }
        assert forall|k: int| 0 <= k < w.len() implies table.contains(#[trigger] w[k]) by {
            if k < wp.len() {
                assert(w[k] == wp[k]);
                let j = choose|j: int| 0 <= j < prev.len() && prev[j] == wp[k];
                assert(table[j] == prev[j]);
            } else {
                assert(table[table.len() - 1] == w[k]);
            }
        }
        assert forall|k: int| 0 <= k < w.len() implies !failed.contains((#[trigger] w[k]).0) by {
            if k < wp.len() {
                assert(w[k] == wp[k]);
            }
        }
    }
}

} // verus!

verus! {

/// A recorded reply: the host, the IP and the duration.
pub type Reply = ((Seq<char>, Seq<char>), u32, Duration);

/// The results after the replies `recs` were recorded one after the other into no results.
pub open spec fn record_all(recs: Seq<Reply>) -> Seq<HostStatsView>
    decreases recs.len(),
{
    if recs.len() == 0 {
        Seq::empty()
    } else {
        let r = recs.last();
        recorded(record_all(recs.drop_last()), r.0, r.1, r.2)
    }
}

/// The number of the replies `recs` recorded for IP `ip` of host `host`.
pub open spec fn replies_to(recs: Seq<Reply>, host: (Seq<char>, Seq<char>), ip: u32) -> int
    decreases recs.len(),
{
    if recs.len() == 0 {
        0
    } else {
        replies_to(recs.drop_last(), host, ip) + if recs.last().0 == host && recs.last().1 == ip { 1int } else { 0int }
    }
}

/// The number of pings that the steps handed out to IP `ip` of host `host`.
pub open spec fn jobs_to(steps: Seq<RunStep>, host: (Seq<char>, Seq<char>), ip: u32) -> int
    decreases steps.len(),
{
    if steps.len() == 0 {
        0
    } else {
        jobs_to(steps.drop_last(), host, ip) + match steps.last() {
            RunStep::Next(Some(job), _) => if job.host@ == host && job.ip == ip { 1int } else { 0int },
            _ => 0int,
        }
    }
}

proof fn lemma_replies_nonneg(recs: Seq<Reply>, host: (Seq<char>, Seq<char>), ip: u32)
    ensures
        replies_to(recs, host, ip) >= 0,
    decreases recs.len(),
{
    if recs.len() > 0 {
        lemma_replies_nonneg(recs.drop_last(), host, ip);
    }
}

/// Recording replies keeps one entry per host, and the entry of a host holds, for each IP,
/// exactly the replies recorded for that host and IP.
proof fn lemma_record_all(recs: Seq<Reply>)
    ensures
        forall|a: int, b: int| 0 <= a < b < record_all(recs).len() ==> record_all(recs)[a].0 != record_all(recs)[b].0,
        forall|a: int, ip: u32| 0 <= a < record_all(recs).len() ==> (
            #[trigger] record_all(recs)[a].1.contains_key(ip) <==> replies_to(recs, record_all(recs)[a].0, ip) > 0),
        forall|a: int, ip: u32| 0 <= a < record_all(recs).len() && #[trigger] record_all(recs)[a].1.contains_key(ip)
            ==> record_all(recs)[a].1[ip].len() == replies_to(recs, record_all(recs)[a].0, ip),
        forall|host: (Seq<char>, Seq<char>), ip: u32| #[trigger] replies_to(recs, host, ip) > 0
            ==> exists|a: int| 0 <= a < record_all(recs).len() && (#[trigger] record_all(recs)[a]).0 == host,
    decreases recs.len(),
{
    if recs.len() > 0 {
        let prev = recs.drop_last();
        lemma_record_all(prev);
        let t0 = record_all(prev);
        let r = recs.last();
        let t1 = record_all(recs);
        assert(t1 == recorded(t0, r.0, r.1, r.2));
        assert forall|host: (Seq<char>, Seq<char>), ip: u32|
            replies_to(recs, host, ip) == replies_to(prev, host, ip) + if r.0 == host && r.1 == ip { 1int } else { 0int } by {}
        assert forall|host: (Seq<char>, Seq<char>), ip: u32| #[trigger] replies_to(prev, host, ip) >= 0 by {
            lemma_replies_nonneg(prev, host, ip);
        }
        if exists|k: int| 0 <= k < t0.len() && (#[trigger] t0[k]).0 == r.0 {
            let k = choose|k: int| 0 <= k < t0.len() && (#[trigger] t0[k]).0 == r.0;
            assert(t1 == t0.update(k, (r.0, with_duration(t0[k].1, r.1, r.2))));
            assert forall|a: int, b: int| 0 <= a < b < t1.len() implies t1[a].0 != t1[b].0 by {
                assert(t1[a].0 == t0[a].0);
                assert(t1[b].0 == t0[b].0);
            }
            assert forall|a: int, ip: u32| 0 <= a < t1.len() implies (
                #[trigger] t1[a].1.contains_key(ip) <==> replies_to(recs, t1[a].0, ip) > 0) by {
                if a != k {
                    assert(t1[a] == t0[a]);
                    assert(t0[a].0 != r.0);
                }
            }
            assert forall|a: int, ip: u32| 0 <= a < t1.len() && #[trigger] t1[a].1.contains_key(ip)
                implies t1[a].1[ip].len() == replies_to(recs, t1[a].0, ip) by {
                if a != k {
                    assert(t1[a] == t0[a]);
                    assert(t0[a].0 != r.0);
                } else if ip == r.1 && !t0[k].1.contains_key(ip) {
                    assert(replies_to(prev, r.0, ip) == 0);
                }
            }
            assert forall|host: (Seq<char>, Seq<char>), ip: u32| #[trigger] replies_to(recs, host, ip) > 0
                implies exists|a: int| 0 <= a < t1.len() && (#[trigger] t1[a]).0 == host by {
                if replies_to(prev, host, ip) > 0 {
                    let a = choose|a: int| 0 <= a < t0.len() && (#[trigger] t0[a]).0 == host;
                    assert(t1[a].0 == host);
                } else {
                    assert(t1[k].0 == host);
                }
            }
        } else {
            let n = t0.len() as int;
            assert(t1 == t0.push((r.0, Map::empty().insert(r.1, seq![r.2]))));
            assert forall|a: int, b: int| 0 <= a < b < t1.len() implies t1[a].0 != t1[b].0 by {
                if b == n {
                    assert(t1[a] == t0[a]);
                } else {
                    assert(t1[a] == t0[a]);
                    assert(t1[b] == t0[b]);
                }
            }
            assert forall|ip: u32| #[trigger] replies_to(prev, r.0, ip) == 0 by {
                if replies_to(prev, r.0, ip) > 0 {
                    let a = choose|a: int| 0 <= a < t0.len() && (#[trigger] t0[a]).0 == r.0;
                }
            }
            assert forall|a: int, ip: u32| 0 <= a < t1.len() implies (
                #[trigger] t1[a].1.contains_key(ip) <==> replies_to(recs, t1[a].0, ip) > 0) by {
                if a < n {
                    assert(t1[a] == t0[a]);
                    assert(t0[a].0 != r.0);
                } else {
                    assert(replies_to(prev, r.0, ip) == 0);
                }
            }
            assert forall|a: int, ip: u32| 0 <= a < t1.len() && #[trigger] t1[a].1.contains_key(ip)
                implies t1[a].1[ip].len() == replies_to(recs, t1[a].0, ip) by {
                if a < n {
                    assert(t1[a] == t0[a]);
                    assert(t0[a].0 != r.0);
                } else {
                    assert(replies_to(prev, r.0, ip) == 0);
                }
            }
            assert forall|host: (Seq<char>, Seq<char>), ip: u32| #[trigger] replies_to(recs, host, ip) > 0
                implies exists|a: int| 0 <= a < t1.len() && (#[trigger] t1[a]).0 == host by {
                if replies_to(prev, host, ip) > 0 {
                    let a = choose|a: int| 0 <= a < t0.len() && (#[trigger] t0[a]).0 == host;
                    assert(t1[a].0 == host);
                } else {
                    assert(t1[n].0 == host);
                }
            }
        }
    }
}

/// Whether the hosts of the schedule differ from one another, and so do the IPs of each host.
pub open spec fn distinct_hosts_and_ips(v: JobIterView) -> bool {
    &&& forall|a: int, b: int| 0 <= a < b < v.hosts.len() ==> (#[trigger] v.hosts[a]).host != (#[trigger] v.hosts[b]).host
    &&& forall|h: int, a: int, b: int| 0 <= h < v.hosts.len() && 0 <= a < b < v.hosts[h].ips.len()
        ==> (#[trigger] v.hosts[h].ips[a]).ip != (#[trigger] v.hosts[h].ips[b]).ip
}

/// In a run of a schedule whose hosts and IPs are distinct, the pings handed out to a host
/// and IP are those handed out to the one host and IP index that carry them, and none when no
/// host and IP of the schedule carry them.
proof fn lemma_jobs_to(views: Seq<JobIterView>, steps: Seq<RunStep>, host: (Seq<char>, Seq<char>), ip: u32)
    requires
        valid_run(views, steps),
        distinct_hosts_and_ips(views[0]),
    ensures
        forall|h: int, i: int| 0 <= h < views[0].hosts.len() && 0 <= i < views[0].hosts[h].ips.len()
            && views[0].hosts[h].host == host && #[trigger] views[0].hosts[h].ips[i].ip == ip
            ==> jobs_to(steps, host, ip) == pings_to(steps, h, i),
        (forall|h: int, i: int| 0 <= h < views[0].hosts.len() && 0 <= i < views[0].hosts[h].ips.len()
            ==> !(views[0].hosts[h].host == host && #[trigger] views[0].hosts[h].ips[i].ip == ip))
            ==> jobs_to(steps, host, ip) == 0,
    decreases steps.len(),
{
    if steps.len() > 0 {
        let n = steps.len() - 1;
        lemma_valid_run_prefix(views, steps, n);
        assert(views.take(n + 1)[0] == views[0]);
        assert(views.take(n + 1).last() == views[n]);
        assert(steps.take(n) == steps.drop_last());
        lemma_jobs_to(views.take(n + 1), steps.take(n), host, ip);
        lemma_run_counts(views.take(n + 1), steps.take(n));
        assert(steps.last() == steps[n]);
        assert(step_taken(views[n], steps[n], views[n + 1]));
        if let RunStep::Next(Some(job), _) = steps[n] {
            let jh = job.host_idx as int;
            let ji = job.ip_idx as int;
            let v0 = views[0];
            assert(same_shape(v0, views[n]));
            assert(views[n].hosts[jh].host == v0.hosts[jh].host);
            assert(views[n].hosts[jh].ips[ji].ip == v0.hosts[jh].ips[ji].ip);
            assert forall|h: int, i: int| 0 <= h < v0.hosts.len() && 0 <= i < v0.hosts[h].ips.len()
                && v0.hosts[h].host == host && #[trigger] v0.hosts[h].ips[i].ip == ip
                implies jobs_to(steps, host, ip) == pings_to(steps, h, i) by {
                if job.host@ == host && job.ip == ip {
                    if jh != h {
                        if jh < h {
                            assert(v0.hosts[jh].host != v0.hosts[h].host);
                        } else {
                            assert(v0.hosts[h].host != v0.hosts[jh].host);
                        }
                    }
                    if ji != i {
                        if ji < i {
                            assert(v0.hosts[h].ips[ji].ip != v0.hosts[h].ips[i].ip);
                        } else {
                            assert(v0.hosts[h].ips[i].ip != v0.hosts[h].ips[ji].ip);
                        }
                    }
                }
            }
            if job.host@ == host && job.ip == ip {
                assert(v0.hosts[jh].host == host && v0.hosts[jh].ips[ji].ip == ip);
            }
        }
    }
}

/// The results of pinging belong to the pings handed out. Take a run of a schedule that started
/// with no ping handed out, whose hosts differ from one another and whose IPs differ within
/// each host, and replies recorded one after the other into no results (as `PingResults::new`
/// and `PingResults::record` do), no more of them for a host and IP than pings were handed out
/// to it. Then every IP in the results of a host is one of that host's IPs, it holds at least
/// one duration, and at most `pings_per_ip` of them.
pub proof fn lemma_results_belong_to_pings(views: Seq<JobIterView>, steps: Seq<RunStep>, recs: Seq<Reply>)
    requires
        valid_run(views, steps),
        distinct_hosts_and_ips(views[0]),
        forall|h: int, i: int| 0 <= h < views[0].hosts.len() && 0 <= i < views[0].hosts[h].ips.len()
            ==> #[trigger] views[0].hosts[h].ips[i].pings == 0,
        forall|host: (Seq<char>, Seq<char>), ip: u32| #[trigger] replies_to(recs, host, ip) <= jobs_to(steps, host, ip),
    ensures
        forall|a: int, ip: u32| 0 <= a < record_all(recs).len() && #[trigger] record_all(recs)[a].1.contains_key(ip) ==> {
            &&& exists|h: int, i: int| 0 <= h < views[0].hosts.len() && 0 <= i < views[0].hosts[h].ips.len()
                && views[0].hosts[h].host == record_all(recs)[a].0 && #[trigger] views[0].hosts[h].ips[i].ip == ip
            &&& 1 <= record_all(recs)[a].1[ip].len() <= views[0].pings_per_ip
        },
{
    lemma_record_all(recs);
    lemma_run_counts(views, steps);
    let t = record_all(recs);
    let v0 = views[0];
    let last = views.last();
    assert(steps.len() > 0 ==> last.consistent()) by {
        if steps.len() > 0 {
            let n = steps.len() - 1;
            assert(step_taken(views[n], steps[n], views[n + 1]));
            assert(last == views[n + 1]);
        }
    }
    assert forall|a: int, ip: u32| 0 <= a < t.len() && #[trigger] t[a].1.contains_key(ip) implies {
        &&& exists|h: int, i: int| 0 <= h < v0.hosts.len() && 0 <= i < v0.hosts[h].ips.len()
            && v0.hosts[h].host == t[a].0 && #[trigger] v0.hosts[h].ips[i].ip == ip
        &&& 1 <= t[a].1[ip].len() <= v0.pings_per_ip
    } by {
        let host = t[a].0;
        lemma_jobs_to(views, steps, host, ip);
        assert(replies_to(recs, host, ip) <= jobs_to(steps, host, ip));
        assert(replies_to(recs, host, ip) > 0);
        if !(exists|h: int, i: int| 0 <= h < v0.hosts.len() && 0 <= i < v0.hosts[h].ips.len()
            && v0.hosts[h].host == host && #[trigger] v0.hosts[h].ips[i].ip == ip) {
            assert(jobs_to(steps, host, ip) == 0);
        }
        let (h, i) = choose|h: int, i: int| 0 <= h < v0.hosts.len() && 0 <= i < v0.hosts[h].ips.len()
            && v0.hosts[h].host == host && #[trigger] v0.hosts[h].ips[i].ip == ip;
        assert(jobs_to(steps, host, ip) == pings_to(steps, h, i));
        assert(last.hosts[h].ips[i].pings == v0.hosts[h].ips[i].pings + pings_to(steps, h, i));
        if steps.len() == 0 {
            assert(jobs_to(steps, host, ip) == 0);
        }
        assert(last.hosts[h].ips[i].pings <= last.pings_per_ip);
    }
}

} // verus!
