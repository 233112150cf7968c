//! Progress of an upload: which hosts have fetched the image, which
//! addresses and machines are still awaited, and when the upload is done.
//!
//! The upload client feeds this tracker with the notifications and the
//! connection closes that it receives, and performs the action that each
//! step returns (printing progress, signalling completion).
use std::collections::HashMap;
use vstd::prelude::*;
use vstd::std_specs::hash::spec_keys_iter;
use vstd::std_specs::iter::IteratorSpec;

verus! {

broadcast use vstd::std_specs::hash::group_hash_axioms;

/// A socket address: the IP address as a 128-bit number (an IPv4 address
/// in the low 32 bits), the port, whether it is an IPv6 address, and the
/// IPv6 flow information and scope id (zero for IPv4).
#[derive(Clone, Copy, Debug, PartialEq, Eq, Structural, Hash)]
pub struct PeerAddr {
    pub ip: u128,
    pub port: u16,
    pub v6: bool,
    pub flowinfo: u32,
    pub scope_id: u32,
}

/// A set of socket addresses.
pub struct AddrSet {
    items: Vec<PeerAddr>,
}

impl View for AddrSet {
    type V = Set<PeerAddr>;

    closed spec fn view(&self) -> Set<PeerAddr> {
        self.items@.to_set()
    }
}

impl AddrSet {
    /// The set holds each address once.
    #[verifier::type_invariant]
    spec fn no_repeats(self) -> bool {
        self.items@.no_duplicates()
    }

    /// The set is finite.
    pub proof fn lemma_finite(&self)
        ensures
            self@.finite(),
    {
        vstd::seq_lib::seq_to_set_is_finite(self.items@);
    }

    /// An empty set.
    pub fn new() -> (res: AddrSet)
        ensures
            res@ == Set::<PeerAddr>::empty(),
    {
        let res = AddrSet { items: Vec::new() };
        assert(res@ =~= Set::<PeerAddr>::empty());
        res
    }

    fn position(&self, addr: &PeerAddr) -> (res: Option<usize>)
        ensures
            match res {
                Some(i) => i < self.items@.len() && self.items@[i as int] == *addr,
                None => !self.items@.contains(*addr),
            },
    {
        let mut i: usize = 0;
        while i < self.items.len()
            invariant
                i <= self.items@.len(),
                forall|j: int| 0 <= j < i ==> self.items@[j] != *addr,
            decreases self.items@.len() - i,
        {
            if self.items[i] == *addr {
                return Some(i);
            }
            i = i + 1;
        }
        None
    }

    /// Whether `addr` is in the set.
    pub fn contains(&self, addr: &PeerAddr) -> (res: bool)
        ensures
            res == self@.contains(*addr),
    {
        self.position(addr).is_some()
    }

    /// Adds `addr`; returns whether it was not there yet.
    pub fn insert(&mut self, addr: PeerAddr) -> (res: bool)
        ensures
            final(self)@ == old(self)@.insert(addr),
            res == !old(self)@.contains(addr),
    {
        proof {
            use_type_invariant(&*self);
        }
        if self.position(&addr).is_some() {
            assert(self@ =~= old(self)@.insert(addr));
            return false;
        }
        let mut items: Vec<PeerAddr> = Vec::new();
        std::mem::swap(&mut items, &mut self.items);
        let ghost before = items@;
        items.push(addr);
        assert forall|x: PeerAddr| items@.to_set().contains(x) <==> before.to_set().insert(
            addr,
        ).contains(x) by {
            if x == addr {
                assert(items@[before.len() as int] == x);
            }
            if before.contains(x) {
                let k = choose|k: int| 0 <= k < before.len() && before[k] == x;
                assert(items@[k] == x);
            }
            if items@.contains(x) && x != addr {
                let k = choose|k: int| 0 <= k < items@.len() && items@[k] == x;
                assert(before[k] == x);
            }
        }
        assert(items@.to_set() =~= before.to_set().insert(addr));
        assert forall|i: int, j: int|
            0 <= i < items@.len() && 0 <= j < items@.len() && i != j implies items@[i]
            != items@[j] by {
            if i < before.len() && j < before.len() {
            } else if i == before.len() {
                assert(before.contains(items@[j]));
            } else {
                assert(before.contains(items@[i]));
            }
        }
        self.items = items;
        true
    }

    /// Removes `addr`; returns whether it was there.
    pub fn remove(&mut self, addr: &PeerAddr) -> (res: bool)
        ensures
            final(self)@ == old(self)@.remove(*addr),
            res == old(self)@.contains(*addr),
    {
        proof {
            use_type_invariant(&*self);
        }
        match self.position(addr) {
            None => {
                assert(self@ =~= old(self)@.remove(*addr));
                false
            },
            Some(i) => {
                let mut items: Vec<PeerAddr> = Vec::new();
                std::mem::swap(&mut items, &mut self.items);
                let ghost before = items@;
                items.remove(i);
                assert(items@ =~= before.remove(i as int));
                assert forall|x: PeerAddr| items@.to_set().contains(x) <==> before.to_set().remove(
                    *addr,
                ).contains(x) by {
                    if items@.contains(x) {
                        let k = choose|k: int| 0 <= k < items@.len() && items@[k] == x;
                        if k < i {
                            assert(before[k] == x);
                        } else {
                            assert(before[k + 1] == x);
                        }
                    }
                    if before.to_set().remove(*addr).contains(x) {
                        let k = choose|k: int| 0 <= k < before.len() && before[k] == x;
                        assert(k != i);
                        if k < i {
                            assert(items@[k] == x);
                        } else {
                            assert(items@[k - 1] == x);
                        }
                    }
                }
                assert(items@.to_set() =~= before.to_set().remove(*addr));
                self.items = items;
                true
            },
        }
    }

    /// The number of addresses in the set.
    pub fn len(&self) -> (res: usize)
        ensures
            res == self@.len(),
    {
        proof {
            use_type_invariant(self);
            self.items@.unique_seq_to_set();
        }
        self.items.len()
    }

    /// Whether the set is empty.
    pub fn is_empty(&self) -> (res: bool)
        ensures
            res == (self@ == Set::<PeerAddr>::empty()),
    {
        if self.items.len() == 0 {
            assert(self@ =~= Set::<PeerAddr>::empty());
            true
        } else {
            assert(self@.contains(self.items@[0]));
            false
        }
    }
}

/// What the tracker holds, as mathematical values.
pub struct ProgressState {
    /// Machines that have the image, with their host names.
    pub hosts_done: Map<u128, String>,
    /// Addresses that were asked for the image and have not answered yet.
    pub ips_needed: Set<PeerAddr>,
    /// Machines that the servers named as holders of the directory.
    pub ids_needed: Map<u128, String>,
    /// Addresses whose connection closed before the upload was done.
    pub hosts_errored: Set<PeerAddr>,
    /// Whether completion has not been signalled yet.
    pub done_pending: bool,
}

/// The upload progress tracker.
pub struct Progress {
    hosts_done: HashMap<u128, String>,
    ips_needed: AddrSet,
    ids_needed: HashMap<u128, String>,
    hosts_errored: AddrSet,
    done_pending: bool,
}

/// What to do after a host reported that it fetched the image.
#[derive(Clone, Copy, Debug, PartialEq, Eq, Structural)]
pub enum ImageAction {
    /// Every address has answered: report the hosts done, and signal
    /// completion when `send_done`.
    AllFetched { hosts_done: usize, send_done: bool },
    /// Still waiting: report how many hosts are done and how many machines
    /// and addresses are still awaited.
    Fetching { hosts_done: usize, ids_needed: usize, ips_needed: usize },
}

/// What to do after a connection closed.
#[derive(Clone, Copy, Debug, PartialEq, Eq, Structural)]
pub enum ClosedAction {
    /// The upload was already done: nothing to do.
    Ignored,
    /// The address failed: report it, and signal completion when `send_done`.
    Failed { send_done: bool },
}

/// The awaited machines after recording, in order, the machines `hosts`
/// that a server named; those in `done` are skipped, and a later name for
/// a machine replaces an earlier one.
pub open spec fn with_new_ids(
    ids: Map<u128, String>,
    done: Map<u128, String>,
    hosts: Seq<(u128, String)>,
) -> Map<u128, String>
    decreases hosts.len(),
{
    if hosts.len() == 0 {
        ids
    } else {
        let prev = with_new_ids(ids, done, hosts.drop_last());
        let (id, name) = hosts.last();
        if done.contains_key(id) {
            prev
        } else {
            prev.insert(id, name)
        }
    }
}

/// Across one step from `before` to `after`: completion is signalled
/// (`signalled`) only while it was pending and then stops being pending,
/// and it never becomes pending again. So it is signalled at most once.
pub open spec fn signals_at_most_once(
    before: ProgressState,
    after: ProgressState,
    signalled: bool,
) -> bool {
    &&& signalled ==> before.done_pending && !after.done_pending
    &&& after.done_pending ==> before.done_pending
}

/// The machine `id` is named somewhere in `hosts`.
pub open spec fn named(hosts: Seq<(u128, String)>, id: u128) -> bool {
    exists|i: int| 0 <= i < hosts.len() && #[trigger] hosts[i].0 == id
}

/// Recording named machines awaits exactly the old machines plus every
/// named machine that is not done; a newly awaited machine carries the
/// host name of its last mention; every other awaited machine keeps its
/// name.
pub proof fn lemma_with_new_ids(
    ids: Map<u128, String>,
    done: Map<u128, String>,
    hosts: Seq<(u128, String)>,
)
    ensures
        forall|id: u128|
            #[trigger] with_new_ids(ids, done, hosts).contains_key(id) <==> (ids.contains_key(id)
                || (!done.contains_key(id) && named(hosts, id))),
        forall|id: u128|
            !done.contains_key(id) && named(hosts, id) ==> exists|i: int|
                0 <= i < hosts.len() && #[trigger] hosts[i].0 == id && with_new_ids(
                    ids,
                    done,
                    hosts,
                )[id] == hosts[i].1 && forall|j: int| i < j < hosts.len() ==> hosts[j].0 != id,
        forall|id: u128|
            ids.contains_key(id) && !(!done.contains_key(id) && named(hosts, id)) ==> #[trigger]
            with_new_ids(ids, done, hosts)[id] == ids[id],
    decreases hosts.len(),
{
    if hosts.len() > 0 {
        let prev_hosts = hosts.drop_last();
        lemma_with_new_ids(ids, done, prev_hosts);
        let (last_id, last_name) = hosts.last();
        let n = hosts.len() - 1;
        assert forall|id: u128| named(hosts, id) <==> (named(prev_hosts, id) || id == last_id) by {
            if named(hosts, id) {
                let i = choose|i: int| 0 <= i < hosts.len() && #[trigger] hosts[i].0 == id;
                if i < n {
                    assert(prev_hosts[i].0 == id);
                }
            }
            if named(prev_hosts, id) {
                let i = choose|i: int| 0 <= i < prev_hosts.len() && #[trigger] prev_hosts[i].0 == id;
                assert(hosts[i].0 == id);
            }
            if id == last_id {
                assert(hosts[n].0 == id);
            }
        }
        let prev = with_new_ids(ids, done, prev_hosts);
        assert forall|id: u128|
            #[trigger] with_new_ids(ids, done, hosts).contains_key(id) <==> (ids.contains_key(id)
                || (!done.contains_key(id) && named(hosts, id))) by {
            assert(prev.contains_key(id) <==> (ids.contains_key(id) || (!done.contains_key(id)
                && named(prev_hosts, id))));
        }
        assert forall|id: u128|
            ids.contains_key(id) && !(!done.contains_key(id) && named(hosts, id)) implies #[trigger]
            with_new_ids(ids, done, hosts)[id] == ids[id] by {
            assert(prev[id] == ids[id]);
        }
        assert forall|id: u128|
            !done.contains_key(id) && named(hosts, id) implies exists|i: int|
                0 <= i < hosts.len() && #[trigger] hosts[i].0 == id && with_new_ids(
                    ids,
                    done,
                    hosts,
                )[id] == hosts[i].1 && forall|j: int| i < j < hosts.len() ==> hosts[j].0 != id by {
            if id == last_id {
                assert(hosts[n].0 == id);
            } else {
                let i = choose|i: int|
                    0 <= i < prev_hosts.len() && #[trigger] prev_hosts[i].0 == id && with_new_ids(
                        ids,
                        done,
                        prev_hosts,
                    )[id] == prev_hosts[i].1 && forall|j: int|
                        i < j < prev_hosts.len() ==> prev_hosts[j].0 != id;
                assert(hosts[i] == prev_hosts[i]);
                assert forall|j: int| i < j < hosts.len() implies hosts[j].0 != id by {
                    if j < n {
                        assert(hosts[j] == prev_hosts[j]);
                    }
                }
            }
        }
    }
}

impl View for Progress {
    type V = ProgressState;

    closed spec fn view(&self) -> ProgressState {
        ProgressState {
            hosts_done: self.hosts_done@,
            ips_needed: self.ips_needed@,
            ids_needed: self.ids_needed@,
            hosts_errored: self.hosts_errored@,
            done_pending: self.done_pending,
        }
    }
}

impl Progress {
    /// The tracker holds finitely many machines and addresses, so an
    /// address set of length zero is empty and a non-empty one still has an
    /// address in it.
    pub proof fn lemma_finite(&self)
        ensures
            self@.hosts_done.dom().finite(),
            self@.ips_needed.finite(),
            self@.ids_needed.dom().finite(),
            self@.hosts_errored.finite(),
    {
        self.ips_needed.lemma_finite();
        self.hosts_errored.lemma_finite();
    }

    /// A tracker before any address was asked.
    pub fn new() -> (res: Progress)
        ensures
            res@.hosts_done == Map::<u128, String>::empty(),
            res@.ips_needed == Set::<PeerAddr>::empty(),
            res@.ids_needed == Map::<u128, String>::empty(),
            res@.hosts_errored == Set::<PeerAddr>::empty(),
            res@.done_pending,
    {
        Progress {
            hosts_done: HashMap::new(),
            ips_needed: AddrSet::new(),
            ids_needed: HashMap::new(),
            hosts_errored: AddrSet::new(),
            done_pending: true,
        }
    }

    /// Records that `addr` was asked for the image.
    pub fn need_ip(&mut self, addr: PeerAddr)
        ensures
            final(self)@ == (ProgressState {
                ips_needed: old(self)@.ips_needed.insert(addr),
                ..old(self)@
            }),
            signals_at_most_once(old(self)@, final(self)@, false),
    {
        self.ips_needed.insert(addr);
    }

    /// Records that `addr` will not answer (it refused or failed).
    pub fn drop_ip(&mut self, addr: &PeerAddr)
        ensures
            final(self)@ == (ProgressState {
                ips_needed: old(self)@.ips_needed.remove(*addr),
                ..old(self)@
            }),
            signals_at_most_once(old(self)@, final(self)@, false),
    {
        self.ips_needed.remove(addr);
    }

    /// Records the machines that a server named as holders of the
    /// directory, in order; those already done are skipped.
    pub fn add_ids(&mut self, hosts: Vec<(u128, String)>)
        ensures
            final(self)@ == (ProgressState {
                ids_needed: with_new_ids(old(self)@.ids_needed, old(self)@.hosts_done, hosts@),
                ..old(self)@
            }),
            signals_at_most_once(old(self)@, final(self)@, false),
            forall|id: u128|
                #[trigger] final(self)@.ids_needed.contains_key(id) <==> (old(self)@.ids_needed.contains_key(id) || (!old(self)@.hosts_done.contains_key(id)
                    && named(hosts@, id))),
    {
        proof {
            lemma_with_new_ids(old(self)@.ids_needed, old(self)@.hosts_done, hosts@);
        }
        let mut k: usize = 0;
        while k < hosts.len()
            invariant
                k <= hosts@.len(),
                self@ == (ProgressState {
                    ids_needed: with_new_ids(
                        old(self)@.ids_needed,
                        old(self)@.hosts_done,
                        hosts@.take(k as int),
                    ),
                    ..old(self)@
                }),
            decreases hosts@.len() - k,
        {
            let id = hosts[k].0;
            if !self.hosts_done.contains_key(&id) {
                self.ids_needed.insert(id, hosts[k].1.clone());
            }
            assert(hosts@.take(k + 1).drop_last() =~= hosts@.take(k as int));
            k = k + 1;
        }
        assert(hosts@.take(k as int) =~= hosts@);
    }

    /// Handles the notice that the machine `machine_id` (host name
    /// `hostname`) fetched the image, reported by the server at `from`. A
    /// forwarded notice does not settle `from` itself.
    pub fn received_image(
        &mut self,
        from: &PeerAddr,
        machine_id: u128,
        hostname: String,
        forwarded: bool,
    ) -> (res: ImageAction)
        ensures
            final(self)@.hosts_done == old(self)@.hosts_done.insert(machine_id, hostname),
            final(self)@.ips_needed == (if forwarded {
                old(self)@.ips_needed
            } else {
                old(self)@.ips_needed.remove(*from)
            }),
            final(self)@.ids_needed == old(self)@.ids_needed,
            final(self)@.hosts_errored == old(self)@.hosts_errored,
            final(self)@.ips_needed.len() == 0 ==> res == (ImageAction::AllFetched {
                hosts_done: final(self)@.hosts_done.len() as usize,
                send_done: old(self)@.done_pending,
            }) && !final(self)@.done_pending,
            final(self)@.ips_needed.len() != 0 ==> res == (ImageAction::Fetching {
                hosts_done: final(self)@.hosts_done.len() as usize,
                ids_needed: final(self)@.ids_needed.len() as usize,
                ips_needed: final(self)@.ips_needed.len() as usize,
            }) && final(self)@.done_pending == old(self)@.done_pending,
            signals_at_most_once(
                old(self)@,
                final(self)@,
                res matches ImageAction::AllFetched { send_done, .. } && send_done,
            ),
    {
        self.hosts_done.insert(machine_id, hostname);
        if !forwarded {
            self.ips_needed.remove(from);
        }
        let waiting = self.ips_needed.len();
        if waiting == 0 {
            let send_done = self.done_pending;
            self.done_pending = false;
            ImageAction::AllFetched { hosts_done: self.hosts_done.len(), send_done }
        } else {
            ImageAction::Fetching {
                hosts_done: self.hosts_done.len(),
                ids_needed: self.ids_needed.len(),
                ips_needed: waiting,
            }
        }
    }

    /// Handles the close of the connection to `from`. Before completion the
    /// address counts as failed and is no longer awaited.
    pub fn closed(&mut self, from: &PeerAddr) -> (res: ClosedAction)
        ensures
            final(self)@.hosts_done == old(self)@.hosts_done,
            final(self)@.ids_needed == old(self)@.ids_needed,
            !old(self)@.done_pending ==> res == ClosedAction::Ignored && final(self)@ == old(self)@,
            old(self)@.done_pending ==> {
                &&& final(self)@.ips_needed == old(self)@.ips_needed.remove(*from)
                &&& final(self)@.hosts_errored == old(self)@.hosts_errored.insert(*from)
                &&& final(self)@.done_pending == (final(self)@.ips_needed.len() != 0)
                &&& res == (ClosedAction::Failed {
                    send_done: final(self)@.ips_needed.len() == 0,
                })
            },
            signals_at_most_once(
                old(self)@,
                final(self)@,
                res matches ClosedAction::Failed { send_done } && send_done,
            ),
    {
        if !self.done_pending {
            return ClosedAction::Ignored;
        }
        self.ips_needed.remove(from);
        self.hosts_errored.insert(*from);
        let send_done = self.ips_needed.len() == 0;
        if send_done {
            self.done_pending = false;
        }
        ClosedAction::Failed { send_done }
    }

    /// Whether no connection failed before completion.
    pub fn is_ok(&self) -> (res: bool)
        ensures
            res == (self@.hosts_errored == Set::<PeerAddr>::empty()),
    {
        self.hosts_errored.is_empty()
    }

    /// The host names of the machines that have the image: one per
    /// machine, in the map's own order of machines.
    pub fn hosts_done_names(&self) -> (res: Vec<String>)
        ensures
            exists|machines: Seq<u128>|
                #![trigger machines.to_set()]
                machines.no_duplicates() && machines.to_set() == self@.hosts_done.dom() && res@
                    == machines.map_values(|m: u128| self@.hosts_done[m]),
    {
        let mut res: Vec<String> = Vec::new();
        let ghost all = spec_keys_iter(&self.hosts_done).remaining();
        for id in it: self.hosts_done.keys()
            invariant
                it.seq() == all,
                all.unref().to_set() == self.hosts_done@.dom(),
                res@.len() == it.index(),
                forall|j: int| 0 <= j < it.index() ==> res@[j] == self.hosts_done@[*all[j]],
        {
            let ghost j = it.index();
            assert(self.hosts_done@.dom().contains(*all[j]));
            let name = self.hosts_done.get(id).unwrap().clone();
            res.push(name);
        }
        proof {
            let machines = all.unref();
            assert(machines.no_duplicates());
            assert(res@ =~= machines.map_values(|m: u128| self@.hosts_done[m]));
        }
        res
    }

    /// The number of machines that have the image.
    pub fn hosts_done_count(&self) -> (res: usize)
        ensures
            res == self@.hosts_done.len(),
    {
        self.hosts_done.len()
    }
}

} // verus!
