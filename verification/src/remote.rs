//! The daemon's bookkeeping of peer connections: incoming client
//! connections, outgoing connections by address, and which incoming
//! connections declared which images.
//!
//! Connections are named by a number that identifies the connection
//! object; addresses are `PeerAddr`s and images their id bytes.
use std::collections::HashSet;
use vstd::prelude::*;
use vstd::std_specs::hash::spec_hash_keys_iter;
use vstd::std_specs::iter::IteratorSpec;

use crate::hardlink::bytes_equal;
use crate::progress::PeerAddr;

verus! {

broadcast use vstd::std_specs::hash::group_hash_axioms;

/// A set of connection ids.
pub struct ConnSet {
    items: HashSet<u64>,
}

impl View for ConnSet {
    type V = Set<u64>;

    closed spec fn view(&self) -> Set<u64> {
        self.items@
    }
}

impl ConnSet {
    /// An empty set.
    pub fn new() -> (res: ConnSet)
        ensures
            res@ == Set::<u64>::empty(),
    {
        ConnSet { items: HashSet::new() }
    }

    /// Whether `id` is in the set.
    pub fn contains(&self, id: u64) -> (res: bool)
        ensures
            res == self@.contains(id),
    {
        self.items.contains(&id)
    }

    /// Adds `id`; returns whether it was not there yet.
    pub fn insert(&mut self, id: u64) -> (res: bool)
        ensures
            final(self)@ == old(self)@.insert(id),
            res == !old(self)@.contains(id),
    {
        self.items.insert(id)
    }

    /// Removes `id`; returns whether it was there.
    pub fn remove(&mut self, id: u64) -> (res: bool)
        ensures
            final(self)@ == old(self)@.remove(id),
            res == old(self)@.contains(id),
    {
        self.items.remove(&id)
    }

    /// Some id of the set, if it has any (which one is left open).
    pub fn first(&self) -> (res: Option<u64>)
        ensures
            res is None <==> self@ == Set::<u64>::empty(),
            res matches Some(id) ==> self@.contains(id),
    {
        let ghost all = spec_hash_keys_iter(&self.items).remaining();
        for x in it: self.items.iter()
            invariant
                it.seq() == all,
                it.index() == 0,
        {
            assert(self@.contains(*all[0]));
            return Some(*x);
        }
        assert(all.len() == 0);
        assert(self@ =~= Set::<u64>::empty()) by {
            assert(all.unref().to_set() =~= Set::<u64>::empty());
        }
        None
    }

    /// The ids, each once, in the set's own order.
    pub fn to_vec(&self) -> (res: Vec<u64>)
        ensures
            res@.to_set() == self@,
            res@.no_duplicates(),
    {
        let mut res: Vec<u64> = Vec::new();
        let ghost all = spec_hash_keys_iter(&self.items).remaining();
        for x in it: self.items.iter()
            invariant
                it.seq() == all,
                res@.len() == it.index(),
                forall|j: int| 0 <= j < it.index() ==> res@[j] == *all[j],
        {
            res.push(*x);
        }
        assert(res@ =~= all.unref());
        res
    }
}

/// The images that incoming connections declared, each with the (never
/// empty) set of connections that declared it.
pub struct Declaration {
    image: Vec<u8>,
    conns: ConnSet,
}

/// The state of the bookkeeping, as mathematical values.
pub struct RegistryState {
    /// Incoming (client) connections.
    pub incoming: Set<u64>,
    /// Outgoing connections by address.
    pub outgoing: Map<PeerAddr, u64>,
    /// For each declared image, the connections that declared it.
    pub declared: Map<Seq<u8>, Set<u64>>,
}

/// The connection bookkeeping of the daemon.
pub struct Connections {
    incoming: ConnSet,
    outgoing: Vec<(PeerAddr, u64)>,
    declared: Vec<Declaration>,
}

/// The index of the entry for `addr` among `outgoing`.
spec fn outgoing_index(outgoing: Seq<(PeerAddr, u64)>, addr: PeerAddr) -> int {
    choose|i: int| 0 <= i < outgoing.len() && outgoing[i].0 == addr
}

/// The index of the entry for `image` among `declared`.
spec fn declared_index(declared: Seq<Declaration>, image: Seq<u8>) -> int {
    choose|i: int| 0 <= i < declared.len() && declared[i].image@ == image
}

spec fn outgoing_map(outgoing: Seq<(PeerAddr, u64)>) -> Map<PeerAddr, u64> {
    Map::new(
        |a: PeerAddr| exists|i: int| 0 <= i < outgoing.len() && outgoing[i].0 == a,
        |a: PeerAddr| outgoing[outgoing_index(outgoing, a)].1,
    )
}

spec fn declared_map(declared: Seq<Declaration>) -> Map<Seq<u8>, Set<u64>> {
    Map::new(
        |m: Seq<u8>| exists|i: int| 0 <= i < declared.len() && declared[i].image@ == m,
        |m: Seq<u8>| declared[declared_index(declared, m)].conns@,
    )
}

spec fn outgoing_wf(outgoing: Seq<(PeerAddr, u64)>) -> bool {
    forall|i: int, j: int|
        0 <= i < outgoing.len() && 0 <= j < outgoing.len() && i != j ==> outgoing[i].0
            != outgoing[j].0
}

spec fn declared_wf(declared: Seq<Declaration>) -> bool {
    &&& forall|i: int, j: int|
        0 <= i < declared.len() && 0 <= j < declared.len() && i != j ==> declared[i].image@
            != declared[j].image@
    &&& forall|i: int|
        0 <= i < declared.len() ==> (#[trigger] declared[i]).conns@
            != Set::<u64>::empty()
}

proof fn lemma_outgoing_lookup(outgoing: Seq<(PeerAddr, u64)>, i: int)
    requires
        outgoing_wf(outgoing),
        0 <= i < outgoing.len(),
    ensures
        outgoing_map(outgoing).contains_key(outgoing[i].0),
        outgoing_map(outgoing)[outgoing[i].0] == outgoing[i].1,
{
    let a = outgoing[i].0;
    assert(exists|j: int| 0 <= j < outgoing.len() && outgoing[j].0 == a);
    let j = outgoing_index(outgoing, a);
    assert(j == i);
}

proof fn lemma_declared_lookup(declared: Seq<Declaration>, i: int)
    requires
        declared_wf(declared),
        0 <= i < declared.len(),
    ensures
        declared_map(declared).contains_key(declared[i].image@),
        declared_map(declared)[declared[i].image@] == declared[i].conns@,
{
    let m = declared[i].image@;
    assert(exists|j: int| 0 <= j < declared.len() && declared[j].image@ == m);
    let j = declared_index(declared, m);
    assert(j == i);
}

proof fn lemma_declared_update(before: Seq<Declaration>, i: int, d: Declaration)
    requires
        declared_wf(before),
        0 <= i < before.len(),
        d.image@ == before[i].image@,
        d.conns@ != Set::<u64>::empty(),
    ensures
        declared_wf(before.update(i, d)),
        declared_map(before.update(i, d)) == declared_map(before).insert(d.image@, d.conns@),
{
    let after = before.update(i, d);
    assert(declared_wf(after));
    let target = declared_map(before).insert(d.image@, d.conns@);
    assert forall|m: Seq<u8>| #[trigger] declared_map(after).contains_key(m) == target.contains_key(m) by {
        if declared_map(before).contains_key(m) {
            let j = declared_index(before, m);
            assert(after[j].image@ == m);
        }
        if m == d.image@ {
            assert(after[i].image@ == m);
        }
        if declared_map(after).contains_key(m) {
            let j = declared_index(after, m);
            assert(before[j].image@ == m);
        }
    }
    assert forall|m: Seq<u8>| #[trigger] declared_map(after).contains_key(m) implies declared_map(
        after,
    )[m] == target[m] by {
        let j = declared_index(after, m);
        lemma_declared_lookup(after, j);
        if j != i {
            lemma_declared_lookup(before, j);
        }
    }
    assert(declared_map(after) =~= target);
}

proof fn lemma_declared_remove(before: Seq<Declaration>, i: int)
    requires
        declared_wf(before),
        0 <= i < before.len(),
    ensures
        declared_wf(before.remove(i)),
        declared_map(before.remove(i)) == declared_map(before).remove(before[i].image@),
{
    let after = before.remove(i);
    let gone = before[i].image@;
    assert forall|j: int| 0 <= j < after.len() implies #[trigger] after[j] == if j < i {
        before[j]
    } else {
        before[j + 1]
    } by {}
    assert forall|a: int, b: int|
        0 <= a < after.len() && 0 <= b < after.len() && a != b implies after[a].image@
        != after[b].image@ by {
        let a0 = if a < i { a } else { a + 1 };
        let b0 = if b < i { b } else { b + 1 };
        assert(after[a] == before[a0] && after[b] == before[b0]);
    }
    assert forall|j: int| 0 <= j < after.len() implies (#[trigger] after[j]).conns@ != Set::<u64>::empty() by {
        let j0 = if j < i { j } else { j + 1 };
        assert(after[j] == before[j0]);
    }
    assert(declared_wf(after));
    let target = declared_map(before).remove(gone);
    assert forall|m: Seq<u8>| #[trigger] declared_map(after).contains_key(m) == target.contains_key(m) by {
        if declared_map(before).contains_key(m) && m != gone {
            let j = declared_index(before, m);
            if j < i {
                assert(after[j].image@ == m);
            } else {
                assert(after[j - 1].image@ == m);
            }
        }
        if declared_map(after).contains_key(m) {
            let j = declared_index(after, m);
            let j0 = if j < i { j } else { j + 1 };
            assert(before[j0].image@ == m);
        }
    }
    assert forall|m: Seq<u8>| #[trigger] declared_map(after).contains_key(m) implies declared_map(
        after,
    )[m] == target[m] by {
        let j = declared_index(after, m);
        lemma_declared_lookup(after, j);
        let j0 = if j < i { j } else { j + 1 };
        lemma_declared_lookup(before, j0);
    }
    assert(declared_map(after) =~= target);
}

proof fn lemma_declared_push(before: Seq<Declaration>, d: Declaration)
    requires
        declared_wf(before),
        forall|j: int| 0 <= j < before.len() ==> before[j].image@ != d.image@,
        d.conns@ != Set::<u64>::empty(),
    ensures
        declared_wf(before.push(d)),
        declared_map(before.push(d)) == declared_map(before).insert(d.image@, d.conns@),
{
    let after = before.push(d);
    let n = before.len() as int;
    assert(declared_wf(after));
    let target = declared_map(before).insert(d.image@, d.conns@);
    assert forall|m: Seq<u8>| #[trigger] declared_map(after).contains_key(m) == target.contains_key(m) by {
        if declared_map(before).contains_key(m) {
            let j = declared_index(before, m);
            assert(after[j].image@ == m);
        }
        if m == d.image@ {
            assert(after[n].image@ == m);
        }
        if declared_map(after).contains_key(m) && m != d.image@ {
            let j = declared_index(after, m);
            assert(before[j].image@ == m);
        }
    }
    assert forall|m: Seq<u8>| #[trigger] declared_map(after).contains_key(m) implies declared_map(
        after,
    )[m] == target[m] by {
        let j = declared_index(after, m);
        lemma_declared_lookup(after, j);
        if j < n {
            lemma_declared_lookup(before, j);
        }
    }
    assert(declared_map(after) =~= target);
}

proof fn lemma_push_contains<A>(s: Seq<A>, x: A, m: A)
    ensures
        s.push(x).contains(m) == (s.contains(m) || m == x),
{
    if s.push(x).contains(m) {
        let k = choose|k: int| 0 <= k < s.push(x).len() && s.push(x)[k] == m;
        if k < s.len() {
            assert(s[k] == m);
        }
    }
    if s.contains(m) {
        let k = choose|k: int| 0 <= k < s.len() && s[k] == m;
        assert(s.push(x)[k] == m);
    }
    if m == x {
        assert(s.push(x)[s.len() as int] == m);
    }
}

/// Every image in the map was declared by at least one connection.
pub open spec fn declarations_nonempty(declared: Map<Seq<u8>, Set<u64>>) -> bool {
    forall|m: Seq<u8>| #[trigger] declared.contains_key(m) ==> declared[m] != Set::<u64>::empty()
}

/// The declarations after `conn` went away: it leaves the set of each of
/// `images`, and an image that nobody declares any more is dropped.
pub open spec fn declared_without(
    declared: Map<Seq<u8>, Set<u64>>,
    conn: u64,
    images: Seq<Seq<u8>>,
) -> Map<Seq<u8>, Set<u64>> {
    Map::new(
        |m: Seq<u8>|
            declared.contains_key(m) && !(images.contains(m) && declared[m].remove(conn)
                == Set::<u64>::empty()),
        |m: Seq<u8>|
            if images.contains(m) {
                declared[m].remove(conn)
            } else {
                declared[m]
            },
    )
}

/// After `conn` goes away, every one of `images` no longer counts `conn`
/// among its declarers: it stays declared, by the others, exactly when some
/// other connection declared it; every image not listed keeps its
/// declarers; and no declared image is left without a declarer.
pub proof fn lemma_declared_without(
    declared: Map<Seq<u8>, Set<u64>>,
    conn: u64,
    images: Seq<Seq<u8>>,
)
    ensures
        forall|i: int|
            #![trigger images[i]]
            0 <= i < images.len() ==> {
                let m = images[i];
                let after = declared_without(declared, conn, images);
                &&& after.contains_key(m) ==> !after[m].contains(conn) && after[m] == declared[m].remove(
                    conn,
                )
                &&& after.contains_key(m) <==> (declared.contains_key(m) && exists|c: u64|
                    c != conn && #[trigger] declared[m].contains(c))
            },
        forall|m: Seq<u8>|
            (forall|i: int| 0 <= i < images.len() ==> images[i] != m) ==> (#[trigger] declared_without(
                declared,
                conn,
                images,
            ).contains_key(m) == declared.contains_key(m) && (declared.contains_key(m)
                ==> declared_without(declared, conn, images)[m] == declared[m])),
        declarations_nonempty(declared) ==> declarations_nonempty(
            declared_without(declared, conn, images),
        ),
{
    let after = declared_without(declared, conn, images);
    assert forall|i: int| #![trigger images[i]] 0 <= i < images.len() implies {
        let m = images[i];
        &&& after.contains_key(m) ==> !after[m].contains(conn) && after[m] == declared[m].remove(conn)
        &&& after.contains_key(m) <==> (declared.contains_key(m) && exists|c: u64|
            c != conn && #[trigger] declared[m].contains(c))
    } by {
        let m = images[i];
        assert(images.contains(m));
        if declared.contains_key(m) {
            if declared[m].remove(conn) != Set::<u64>::empty() {
                let c = declared[m].remove(conn).choose();
                assert(declared[m].remove(conn).contains(c)) by {
                    if !declared[m].remove(conn).contains(c) {
                        assert(declared[m].remove(conn) =~= Set::<u64>::empty());
                    }
                }
                assert(c != conn && declared[m].contains(c));
            }
            if exists|c: u64| c != conn && #[trigger] declared[m].contains(c) {
                let c = choose|c: u64| c != conn && #[trigger] declared[m].contains(c);
                assert(declared[m].remove(conn).contains(c));
            }
        }
    }
    assert forall|m: Seq<u8>|
        (forall|i: int| 0 <= i < images.len() ==> images[i] != m) implies (#[trigger] after.contains_key(
        m,
    ) == declared.contains_key(m) && (declared.contains_key(m) ==> after[m] == declared[m])) by {
        assert(!images.contains(m));
    }
    if declarations_nonempty(declared) {
        assert forall|m: Seq<u8>| #[trigger] after.contains_key(m) implies after[m] != Set::<
            u64,
        >::empty() by {
            if !images.contains(m) {
                assert(after[m] == declared[m]);
            }
        }
    }
}

/// The connections of `outgoing` at the addresses `addrs`, in order.
pub open spec fn connected_of(outgoing: Map<PeerAddr, u64>, addrs: Seq<PeerAddr>) -> Seq<u64>
    decreases addrs.len(),
{
    if addrs.len() == 0 {
        seq![]
    } else {
        let prev = connected_of(outgoing, addrs.drop_last());
        if outgoing.contains_key(addrs.last()) {
            prev.push(outgoing[addrs.last()])
        } else {
            prev
        }
    }
}

/// The addresses of `addrs` without a connection that may be tried, in
/// order (`can_try[i]` tells whether `addrs[i]` may be tried).
pub open spec fn unconnected_of(
    outgoing: Map<PeerAddr, u64>,
    addrs: Seq<PeerAddr>,
    can_try: Seq<bool>,
) -> Seq<PeerAddr>
    decreases addrs.len(),
{
    if addrs.len() == 0 {
        seq![]
    } else {
        let prev = unconnected_of(outgoing, addrs.drop_last(), can_try);
        let a = addrs.last();
        if !outgoing.contains_key(a) && can_try[addrs.len() - 1] {
            prev.push(a)
        } else {
            prev
        }
    }
}

/// The connections of `conns` whose flag in `flags` is set, in order.
pub open spec fn flagged(conns: Seq<u64>, flags: Seq<bool>) -> Seq<u64>
    decreases conns.len(),
{
    if conns.len() == 0 {
        seq![]
    } else {
        let prev = flagged(conns.drop_last(), flags);
        if flags[conns.len() - 1] {
            prev.push(conns.last())
        } else {
            prev
        }
    }
}

/// `idx` lists, in increasing order, exactly the positions `i < n` where
/// `keep(i)`, and `res[t]` is `val(idx[t])`.
pub open spec fn picks_with<A>(
    res: Seq<A>,
    n: int,
    keep: spec_fn(int) -> bool,
    val: spec_fn(int) -> A,
    idx: Seq<int>,
) -> bool {
    &&& idx.len() == res.len()
    &&& forall|t: int|
        0 <= t < idx.len() ==> 0 <= #[trigger] idx[t] < n && keep(idx[t]) && res[t] == val(idx[t])
    &&& forall|a: int, b: int| 0 <= a < b < idx.len() ==> idx[a] < idx[b]
    &&& forall|i: int| 0 <= i < n && #[trigger] keep(i) ==> exists|t: int| 0 <= t < idx.len() && idx[t] == i
}

/// `res` lists, in order, `val(i)` for exactly the positions `i < n` where
/// `keep(i)` holds, once each.
pub open spec fn picks_in_order<A>(
    res: Seq<A>,
    n: int,
    keep: spec_fn(int) -> bool,
    val: spec_fn(int) -> A,
) -> bool {
    exists|idx: Seq<int>| picks_with(res, n, keep, val, idx)
}

proof fn lemma_picks_step<A>(
    res: Seq<A>,
    n: int,
    keep: spec_fn(int) -> bool,
    val: spec_fn(int) -> A,
    idx: Seq<int>,
)
    requires
        0 <= n,
        picks_with(res, n, keep, val, idx),
    ensures
        keep(n) ==> picks_with(res.push(val(n)), n + 1, keep, val, idx.push(n)),
        !keep(n) ==> picks_with(res, n + 1, keep, val, idx),
{
    if keep(n) {
        let r2 = res.push(val(n));
        let i2 = idx.push(n);
        assert forall|t: int| 0 <= t < i2.len() implies 0 <= #[trigger] i2[t] < n + 1 && keep(i2[t])
            && r2[t] == val(i2[t]) by {
            if t < idx.len() {
                assert(i2[t] == idx[t] && r2[t] == res[t]);
            }
        }
        assert forall|a: int, b: int| 0 <= a < b < i2.len() implies i2[a] < i2[b] by {
            assert(i2[a] == idx[a]);
            if b < idx.len() {
                assert(i2[b] == idx[b]);
            }
        }
        assert forall|i: int| 0 <= i < n + 1 && #[trigger] keep(i) implies exists|t: int|
            0 <= t < i2.len() && i2[t] == i by {
            if i == n {
                assert(i2[idx.len() as int] == i);
            } else {
                let t = choose|t: int| 0 <= t < idx.len() && idx[t] == i;
                assert(i2[t] == i);
            }
        }
    } else {
        assert forall|i: int| 0 <= i < n + 1 && #[trigger] keep(i) implies exists|t: int|
            0 <= t < idx.len() && idx[t] == i by {
        }
    }
}

proof fn lemma_flagged_prefix(conns: Seq<u64>, flags: Seq<bool>, k: int)
    requires
        0 <= k <= conns.len(),
        conns.len() <= flags.len(),
    ensures
        picks_in_order(flagged(conns.take(k), flags), k, |i: int| flags[i], |i: int| conns[i]),
    decreases k,
{
    let keep = |i: int| flags[i];
    let val = |i: int| conns[i];
    if k == 0 {
        assert(picks_with(flagged(conns.take(0), flags), 0, keep, val, Seq::<int>::empty()));
    } else {
        lemma_flagged_prefix(conns, flags, k - 1);
        let prev = flagged(conns.take(k - 1), flags);
        let idx = choose|idx: Seq<int>| #[trigger] picks_with(prev, k - 1, keep, val, idx);
        lemma_picks_step(prev, k - 1, keep, val, idx);
        assert(conns.take(k).drop_last() =~= conns.take(k - 1));
        if keep(k - 1) {
            assert(picks_with(flagged(conns.take(k), flags), k, keep, val, idx.push(k - 1)));
        } else {
            assert(picks_with(flagged(conns.take(k), flags), k, keep, val, idx));
        }
    }
}

/// The connections to notify are, in order, exactly those whose flag is
/// set, each listed once per position.
pub proof fn lemma_flagged(conns: Seq<u64>, flags: Seq<bool>)
    requires
        conns.len() <= flags.len(),
    ensures
        picks_in_order(flagged(conns, flags), conns.len() as int, |i: int| flags[i], |i: int| conns[i]),
{
    lemma_flagged_prefix(conns, flags, conns.len() as int);
    assert(conns.take(conns.len() as int) =~= conns);
}

proof fn lemma_connected_prefix(outgoing: Map<PeerAddr, u64>, addrs: Seq<PeerAddr>, k: int)
    requires
        0 <= k <= addrs.len(),
    ensures
        picks_in_order(
            connected_of(outgoing, addrs.take(k)),
            k,
            |i: int| outgoing.contains_key(addrs[i]),
            |i: int| outgoing[addrs[i]],
        ),
    decreases k,
{
    let keep = |i: int| outgoing.contains_key(addrs[i]);
    let val = |i: int| outgoing[addrs[i]];
    if k == 0 {
        assert(picks_with(connected_of(outgoing, addrs.take(0)), 0, keep, val, Seq::<int>::empty()));
    } else {
        lemma_connected_prefix(outgoing, addrs, k - 1);
        let prev = connected_of(outgoing, addrs.take(k - 1));
        let idx = choose|idx: Seq<int>| #[trigger] picks_with(prev, k - 1, keep, val, idx);
        lemma_picks_step(prev, k - 1, keep, val, idx);
        assert(addrs.take(k).drop_last() =~= addrs.take(k - 1));
        if keep(k - 1) {
            assert(picks_with(connected_of(outgoing, addrs.take(k)), k, keep, val, idx.push(k - 1)));
        } else {
            assert(picks_with(connected_of(outgoing, addrs.take(k)), k, keep, val, idx));
        }
    }
}

proof fn lemma_unconnected_prefix(
    outgoing: Map<PeerAddr, u64>,
    addrs: Seq<PeerAddr>,
    can_try: Seq<bool>,
    k: int,
)
    requires
        0 <= k <= addrs.len(),
    ensures
        picks_in_order(
            unconnected_of(outgoing, addrs.take(k), can_try),
            k,
            |i: int| !outgoing.contains_key(addrs[i]) && can_try[i],
            |i: int| addrs[i],
        ),
    decreases k,
{
    let keep = |i: int| !outgoing.contains_key(addrs[i]) && can_try[i];
    let val = |i: int| addrs[i];
    if k == 0 {
        assert(picks_with(unconnected_of(outgoing, addrs.take(0), can_try), 0, keep, val, Seq::<int>::empty()));
    } else {
        lemma_unconnected_prefix(outgoing, addrs, can_try, k - 1);
        let prev = unconnected_of(outgoing, addrs.take(k - 1), can_try);
        let idx = choose|idx: Seq<int>| #[trigger] picks_with(prev, k - 1, keep, val, idx);
        lemma_picks_step(prev, k - 1, keep, val, idx);
        assert(addrs.take(k).drop_last() =~= addrs.take(k - 1));
        if keep(k - 1) {
            assert(picks_with(unconnected_of(outgoing, addrs.take(k), can_try), k, keep, val, idx.push(k - 1)));
        } else {
            assert(picks_with(unconnected_of(outgoing, addrs.take(k), can_try), k, keep, val, idx));
        }
    }
}

/// Splitting addresses lists, in order, the outgoing connection of exactly
/// every address that has one, and exactly every address without one that
/// may be tried, each once per position.
pub proof fn lemma_split(outgoing: Map<PeerAddr, u64>, addrs: Seq<PeerAddr>, can_try: Seq<bool>)
    ensures
        picks_in_order(
            connected_of(outgoing, addrs),
            addrs.len() as int,
            |i: int| outgoing.contains_key(addrs[i]),
            |i: int| outgoing[addrs[i]],
        ),
        picks_in_order(
            unconnected_of(outgoing, addrs, can_try),
            addrs.len() as int,
            |i: int| !outgoing.contains_key(addrs[i]) && can_try[i],
            |i: int| addrs[i],
        ),
{
    lemma_connected_prefix(outgoing, addrs, addrs.len() as int);
    lemma_unconnected_prefix(outgoing, addrs, can_try, addrs.len() as int);
    assert(addrs.take(addrs.len() as int) =~= addrs);
}

/// The connections to notify that an image arrived: those of `conns` that
/// hold the image (`has_image[i]` for `conns[i]`), in order.
pub fn connections_to_notify(conns: &Vec<u64>, has_image: &Vec<bool>) -> (res: Vec<u64>)
    requires
        conns@.len() == has_image@.len(),
    ensures
        res@ == flagged(conns@, has_image@),
        picks_in_order(res@, conns@.len() as int, |i: int| has_image@[i], |i: int| conns@[i]),
{
    proof {
        lemma_flagged(conns@, has_image@);
    }
    let mut res: Vec<u64> = Vec::new();
    let mut i: usize = 0;
    while i < conns.len()
        invariant
            conns@.len() == has_image@.len(),
            i <= conns@.len(),
            res@ == flagged(conns@.take(i as int), has_image@),
        decreases conns@.len() - i,
    {
        assert(conns@.take(i + 1).drop_last() =~= conns@.take(i as int));
        if has_image[i] {
            res.push(conns[i]);
        }
        i = i + 1;
    }
    assert(conns@.take(i as int) =~= conns@);
    res
}

impl View for Connections {
    type V = RegistryState;

    closed spec fn view(&self) -> RegistryState {
        RegistryState {
            incoming: self.incoming@,
            outgoing: outgoing_map(self.outgoing@),
            declared: declared_map(self.declared@),
        }
    }
}

fn outgoing_position(outgoing: &Vec<(PeerAddr, u64)>, addr: &PeerAddr) -> (res: Option<usize>)
    ensures
        match res {
            Some(i) => i < outgoing@.len() && outgoing@[i as int].0 == *addr,
            None => forall|i: int| 0 <= i < outgoing@.len() ==> outgoing@[i].0 != *addr,
        },
{
    let mut i: usize = 0;
    while i < outgoing.len()
    invariant
        i <= outgoing@.len(),
        forall|j: int| 0 <= j < i ==> outgoing@[j].0 != *addr,
    decreases outgoing@.len() - i,
    {
    if outgoing[i].0 == *addr {
        return Some(i);
    }
    i = i + 1;
    }
    None
}

fn declared_position(declared: &Vec<Declaration>, image: &Vec<u8>) -> (res: Option<usize>)
    ensures
        match res {
            Some(i) => i < declared@.len() && declared@[i as int].image@ == image@,
            None => forall|i: int| 0 <= i < declared@.len() ==> declared@[i].image@ != image@,
        },
{
    let mut i: usize = 0;
    while i < declared.len()
    invariant
        i <= declared@.len(),
        forall|j: int| 0 <= j < i ==> declared@[j].image@ != image@,
    decreases declared@.len() - i,
    {
    if bytes_equal(&declared[i].image, image) {
        return Some(i);
    }
    i = i + 1;
    }
    None
}

fn set_outgoing(outgoing: &mut Vec<(PeerAddr, u64)>, addr: PeerAddr, conn: u64)
    requires
        outgoing_wf(old(outgoing)@),
    ensures
        outgoing_wf(final(outgoing)@),
        outgoing_map(final(outgoing)@) == outgoing_map(old(outgoing)@).insert(addr, conn),
{
    let ghost before = outgoing@;
    match outgoing_position(outgoing, &addr) {
        Some(i) => {
            outgoing.set(i, (addr, conn));
            proof {
                assert forall|a: PeerAddr| #[trigger]
                    outgoing_map(outgoing@).contains_key(a) == outgoing_map(
                        before,
                    ).insert(addr, conn).contains_key(a) by {
                    if outgoing_map(before).contains_key(a) {
                        let j = outgoing_index(before, a);
                        assert(outgoing@[j].0 == a);
                    }
                    if outgoing_map(outgoing@).contains_key(a) {
                        let j = outgoing_index(outgoing@, a);
                        assert(before[j].0 == a);
                    }
                }
                assert forall|a: PeerAddr| #[trigger]
                    outgoing_map(outgoing@).contains_key(a) implies outgoing_map(
                    outgoing@,
                )[a] == outgoing_map(before).insert(addr, conn)[a] by {
                    let j = outgoing_index(outgoing@, a);
                    lemma_outgoing_lookup(outgoing@, j);
                    if a != addr {
                        assert(before[j] == outgoing@[j]);
                        lemma_outgoing_lookup(before, j);
                    }
                }
                assert(outgoing_map(outgoing@) =~= outgoing_map(before).insert(addr, conn));
            }
        },
        None => {
            outgoing.push((addr, conn));
            proof {
                let n = before.len() as int;
                assert forall|a: PeerAddr| #[trigger]
                    outgoing_map(outgoing@).contains_key(a) == outgoing_map(
                        before,
                    ).insert(addr, conn).contains_key(a) by {
                    if outgoing_map(before).contains_key(a) {
                        let j = outgoing_index(before, a);
                        assert(outgoing@[j].0 == a);
                    }
                    if a == addr {
                        assert(outgoing@[n].0 == a);
                    }
                    if outgoing_map(outgoing@).contains_key(a) && a != addr {
                        let j = outgoing_index(outgoing@, a);
                        assert(before[j].0 == a);
                    }
                }
                assert forall|a: PeerAddr| #[trigger]
                    outgoing_map(outgoing@).contains_key(a) implies outgoing_map(
                    outgoing@,
                )[a] == outgoing_map(before).insert(addr, conn)[a] by {
                    let j = outgoing_index(outgoing@, a);
                    lemma_outgoing_lookup(outgoing@, j);
                    if a != addr {
                        assert(before[j] == outgoing@[j]);
                        lemma_outgoing_lookup(before, j);
                    }
                }
                assert(outgoing_map(outgoing@) =~= outgoing_map(before).insert(addr, conn));
            }
        },
    }
}

fn remove_outgoing_of(outgoing: &mut Vec<(PeerAddr, u64)>, conn: u64, addr: &PeerAddr)
    requires
        outgoing_wf(old(outgoing)@),
    ensures
        outgoing_wf(final(outgoing)@),
        outgoing_map(final(outgoing)@) == if outgoing_map(old(outgoing)@).contains_key(*addr)
            && outgoing_map(old(outgoing)@)[*addr] == conn {
            outgoing_map(old(outgoing)@).remove(*addr)
        } else {
            outgoing_map(old(outgoing)@)
        },
{
    let ghost before = outgoing@;
    match outgoing_position(outgoing, addr) {
        Some(i) => {
            proof {
                lemma_outgoing_lookup(before, i as int);
            }
            if outgoing[i].1 == conn {
                outgoing.remove(i);
                proof {
                    assert forall|j: int| 0 <= j < outgoing@.len() implies #[trigger]
                        outgoing@[j] == if j < i {
                        before[j]
                    } else {
                        before[j + 1]
                    } by {}
                    assert forall|a: PeerAddr| #[trigger]
                        outgoing_map(outgoing@).contains_key(a) == outgoing_map(
                            before,
                        ).remove(*addr).contains_key(a) by {
                        if outgoing_map(before).contains_key(a) && a != *addr {
                            let j = outgoing_index(before, a);
                            if j < i {
                                assert(outgoing@[j].0 == a);
                            } else {
                                assert(outgoing@[j - 1].0 == a);
                            }
                        }
                        if outgoing_map(outgoing@).contains_key(a) {
                            let j = outgoing_index(outgoing@, a);
                            if j < i {
                                assert(before[j].0 == a);
                            } else {
                                assert(before[j + 1].0 == a);
                            }
                        }
                    }
                    assert forall|a: PeerAddr| #[trigger]
                        outgoing_map(outgoing@).contains_key(a) implies outgoing_map(
                        outgoing@,
                    )[a] == outgoing_map(before).remove(*addr)[a] by {
                        let j = outgoing_index(outgoing@, a);
                        lemma_outgoing_lookup(outgoing@, j);
                        if j < i {
                            lemma_outgoing_lookup(before, j);
                        } else {
                            lemma_outgoing_lookup(before, j + 1);
                        }
                    }
                    assert(outgoing_map(outgoing@) =~= outgoing_map(before).remove(
                        *addr,
                    ));
                }
            }
        },
        None => {
            proof {
                if outgoing_map(before).contains_key(*addr) {
                    let j = outgoing_index(before, *addr);
                }
            }
        },
    }
}

fn declare_in(declared: &mut Vec<Declaration>, image: Vec<u8>, conn: u64)
    requires
        declared_wf(old(declared)@),
    ensures
        declared_wf(final(declared)@),
        declared_map(final(declared)@) == declared_map(old(declared)@).insert(
            image@,
            if declared_map(old(declared)@).contains_key(image@) {
                declared_map(old(declared)@)[image@].insert(conn)
            } else {
                set![conn]
            },
        ),
{
    let ghost before = declared@;
    match declared_position(declared, &image) {
        Some(i) => {
            proof {
                lemma_declared_lookup(before, i as int);
            }
            let mut d = declared.remove(i);
            proof {
                assert(d == before[i as int]);
            }
            d.conns.insert(conn);
            declared.insert(i, d);
            proof {
                assert(declared@ =~= before.update(i as int, d));
                assert(d.conns@.contains(conn));
                lemma_declared_update(before, i as int, d);
            }
        },
        None => {
            let mut conns = ConnSet::new();
            conns.insert(conn);
            assert(conns@ =~= set![conn]);
            assert(conns@.contains(conn));
            let d = Declaration { image, conns };
            declared.push(d);
            proof {
                lemma_declared_push(before, d);
            }
        },
    }
}

fn forget_all_in(declared: &mut Vec<Declaration>, conn: u64, images: &Vec<Vec<u8>>)
    requires
        declared_wf(old(declared)@),
    ensures
        declared_wf(final(declared)@),
        declared_map(final(declared)@) == declared_without(
            declared_map(old(declared)@),
            conn,
            images@.map_values(|v: Vec<u8>| v@),
        ),
{
    let mut k: usize = 0;
    while k < images.len()
        invariant
            k <= images@.len(),
            declared_wf(declared@),
            declared_map(declared@) == declared_without(
                declared_map(old(declared)@),
                conn,
                images@.map_values(|v: Vec<u8>| v@).take(k as int),
            ),
        decreases images@.len() - k,
    {
                    forget_one_in(declared, conn, &images[k]);
        proof {
            let all = images@.map_values(|v: Vec<u8>| v@);
            let s0 = all.take(k as int);
            let s1 = all.take(k + 1);
            assert(s1 =~= s0.push(images@[k as int]@));
            let old_d = declared_map(old(declared)@);
            let img = images@[k as int]@;
            assert forall|m: Seq<u8>| #[trigger] declared_map(declared@).contains_key(m)
                == declared_without(old_d, conn, s1).contains_key(m) by {
                lemma_push_contains(s0, img, m);
                assert(seq![img].contains(m) == (m == img)) by {
                    lemma_push_contains(Seq::<Seq<u8>>::empty(), img, m);
                    assert(Seq::<Seq<u8>>::empty().push(img) =~= seq![img]);
                }
                if m == img && old_d.contains_key(m) {
                    assert(old_d[m].remove(conn).remove(conn) =~= old_d[m].remove(conn));
                }
            }
            assert forall|m: Seq<u8>| #[trigger] declared_map(declared@).contains_key(m) implies
                declared_map(declared@)[m] == declared_without(old_d, conn, s1)[m] by {
                lemma_push_contains(s0, img, m);
                assert(seq![img].contains(m) == (m == img)) by {
                    lemma_push_contains(Seq::<Seq<u8>>::empty(), img, m);
                    assert(Seq::<Seq<u8>>::empty().push(img) =~= seq![img]);
                }
                if m == img && s0.contains(m) {
                    assert(old_d[m].remove(conn).remove(conn) =~= old_d[m].remove(conn));
                }
            }
            assert(declared_map(declared@) =~= declared_without(old_d, conn, s1));
        }
        k = k + 1;
    }
    proof {
        assert(images@.map_values(|v: Vec<u8>| v@).take(k as int) =~= images@.map_values(
            |v: Vec<u8>| v@,
        ));
    }
}

fn forget_one_in(declared: &mut Vec<Declaration>, conn: u64, image: &Vec<u8>)
    requires
        declared_wf(old(declared)@),
    ensures
        declared_wf(final(declared)@),
        declared_map(final(declared)@) == declared_without(
            declared_map(old(declared)@),
            conn,
            seq![image@],
        ),
{
    let ghost before = declared@;
    let ghost target = declared_without(declared_map(before), conn, seq![image@]);
    proof {
        assert(seq![image@][0] == image@);
        assert(seq![image@].contains(image@));
        assert forall|m: Seq<u8>| seq![image@].contains(m) implies m == image@ by {}
    }
    match declared_position(declared, image) {
        None => {
            proof {
                assert forall|m: Seq<u8>| #[trigger] declared_map(before).contains_key(m)
                    implies m != image@ by {
                    let j = declared_index(before, m);
                }
                assert(declared_map(before) =~= target);
            }
        },
        Some(i) => {
            proof {
                lemma_declared_lookup(before, i as int);
            }
            let mut d = declared.remove(i);
            proof {
                assert(d == before[i as int]);
            }
            d.conns.remove(conn);
            let keep = d.conns.first().is_some();
            if keep {
                declared.insert(i, d);
                proof {
                    assert(declared@ =~= before.update(i as int, d));
                    lemma_declared_update(before, i as int, d);
                    assert(declared_map(declared@) =~= target);
                }
            } else {
                proof {
                    assert(declared@ =~= before.remove(i as int));
                    lemma_declared_remove(before, i as int);
                    assert(declared_map(declared@) =~= target);
                }
            }
        },
    }
}

proof fn lemma_nonempty_of_wf(declared: Seq<Declaration>)
    requires
        declared_wf(declared),
    ensures
        declarations_nonempty(declared_map(declared)),
{
    assert forall|m: Seq<u8>| #[trigger] declared_map(declared).contains_key(m) implies declared_map(
        declared,
    )[m] != Set::<u64>::empty() by {
        let i = declared_index(declared, m);
        lemma_declared_lookup(declared, i);
    }
}

impl Connections {
    /// The internal lists hold each key once, and every declaration set is
    /// non-empty.
    #[verifier::type_invariant]
    spec fn well_formed(self) -> bool {
        &&& outgoing_wf(self.outgoing@)
        &&& declared_wf(self.declared@)
    }

    /// No connections.
    pub fn new() -> (res: Connections)
        ensures
            res@.incoming == Set::<u64>::empty(),
            res@.outgoing == Map::<PeerAddr, u64>::empty(),
            res@.declared == Map::<Seq<u8>, Set<u64>>::empty(),
            declarations_nonempty(res@.declared),
    {
        let res = Connections { incoming: ConnSet::new(), outgoing: Vec::new(), declared: Vec::new() };
        assert(res@.outgoing =~= Map::<PeerAddr, u64>::empty());
        assert(res@.declared =~= Map::<Seq<u8>, Set<u64>>::empty());
        res
    }

    /// The outgoing connection to `addr`, if there is one.
    pub fn outgoing_connection(&self, addr: &PeerAddr) -> (res: Option<u64>)
        ensures
            res is Some <==> self@.outgoing.contains_key(*addr),
            res matches Some(c) ==> self@.outgoing[*addr] == c,
    {
        proof {
            use_type_invariant(self);
        }
        match outgoing_position(&self.outgoing, addr) {
            Some(i) => {
                proof {
                    lemma_outgoing_lookup(self.outgoing@, i as int);
                }
                Some(self.outgoing[i].1)
            },
            None => None,
        }
    }

    /// Records the outgoing connection `conn` to `addr` (replacing any).
    pub fn add_outgoing(&mut self, addr: PeerAddr, conn: u64)
        ensures
            final(self)@ == (RegistryState {
                outgoing: old(self)@.outgoing.insert(addr, conn),
                ..old(self)@
            }),
    {
        proof {
            use_type_invariant(&*self);
        }
        let mut outgoing: Vec<(PeerAddr, u64)> = Vec::new();
        std::mem::swap(&mut outgoing, &mut self.outgoing);
        set_outgoing(&mut outgoing, addr, conn);
        self.outgoing = outgoing;
    }

    /// Records the incoming connection `conn`.
    pub fn register_connection(&mut self, conn: u64)
        ensures
            final(self)@ == (RegistryState {
                incoming: old(self)@.incoming.insert(conn),
                ..old(self)@
            }),
    {
        proof {
            use_type_invariant(&*self);
        }
        let mut incoming = ConnSet::new();
        std::mem::swap(&mut incoming, &mut self.incoming);
        incoming.insert(conn);
        self.incoming = incoming;
    }

    /// The incoming connections, each once.
    pub fn incoming_connections(&self) -> (res: Vec<u64>)
        ensures
            res@.to_set() == self@.incoming,
            res@.no_duplicates(),
    {
        self.incoming.to_vec()
    }

    /// Records that the incoming connection `conn` declared `image`.
    pub fn declare_image(&mut self, image: Vec<u8>, conn: u64)
        ensures
            final(self)@ == (RegistryState {
                declared: old(self)@.declared.insert(
                    image@,
                    if old(self)@.declared.contains_key(image@) {
                        old(self)@.declared[image@].insert(conn)
                    } else {
                        set![conn]
                    },
                ),
                ..old(self)@
            }),
            declarations_nonempty(final(self)@.declared),
    {
        proof {
            use_type_invariant(&*self);
        }
        let mut declared: Vec<Declaration> = Vec::new();
        std::mem::swap(&mut declared, &mut self.declared);
        declare_in(&mut declared, image, conn);
        proof {
            lemma_nonempty_of_wf(declared@);
        }
        self.declared = declared;
    }

    /// An incoming connection that declared `image`: `None` exactly when
    /// none did.
    pub fn get_incoming_connection_for_image(&self, image: &Vec<u8>) -> (res: Option<u64>)
        ensures
            res is Some <==> self@.declared.contains_key(image@),
            res matches Some(c) ==> self@.declared[image@].contains(c),
    {
        proof {
            use_type_invariant(self);
        }
        match declared_position(&self.declared, image) {
            Some(i) => {
                proof {
                    lemma_declared_lookup(self.declared@, i as int);
                }
                self.declared[i].conns.first()
            },
            None => {
                proof {
                    if self@.declared.contains_key(image@) {
                        let j = declared_index(self.declared@, image@);
                    }
                }
                None
            },
        }
    }

    /// Splits `addrs` into the outgoing connections to those already
    /// connected and the addresses not connected that may be tried
    /// (`can_try[i]` tells whether `addrs[i]` failed too recently).
    pub fn split_connected(&self, addrs: &[PeerAddr], can_try: &[bool]) -> (res: (
        Vec<u64>,
        Vec<PeerAddr>,
    ))
        requires
            addrs@.len() == can_try@.len(),
        ensures
            res.0@ == connected_of(self@.outgoing, addrs@),
            res.1@ == unconnected_of(self@.outgoing, addrs@, can_try@),
            picks_in_order(
                res.0@,
                addrs@.len() as int,
                |i: int| self@.outgoing.contains_key(addrs@[i]),
                |i: int| self@.outgoing[addrs@[i]],
            ),
            picks_in_order(
                res.1@,
                addrs@.len() as int,
                |i: int| !self@.outgoing.contains_key(addrs@[i]) && can_try@[i],
                |i: int| addrs@[i],
            ),
    {
        proof {
            lemma_split(self@.outgoing, addrs@, can_try@);
        }
        let mut conn: Vec<u64> = Vec::new();
        let mut not_conn: Vec<PeerAddr> = Vec::new();
        let mut i: usize = 0;
        while i < addrs.len()
            invariant
                addrs@.len() == can_try@.len(),
                i <= addrs@.len(),
                conn@ == connected_of(self@.outgoing, addrs@.take(i as int)),
                not_conn@ == unconnected_of(self@.outgoing, addrs@.take(i as int), can_try@),
            decreases addrs@.len() - i,
        {
            let sa = addrs[i];
            assert(addrs@.take(i + 1).drop_last() =~= addrs@.take(i as int));
            assert(addrs@.take(i + 1).last() == sa);
            match self.outgoing_connection(&sa) {
                Some(c) => {
                    conn.push(c);
                },
                None => {
                    if can_try[i] {
                        not_conn.push(sa);
                    }
                },
            }
            i = i + 1;
        }
        assert(addrs@.take(i as int) =~= addrs@);
        (conn, not_conn)
    }

    /// Forgets the connection `conn` to `addr` when its token goes away:
    /// it stops being incoming, leaves the declarations of its `images`
    /// (dropping images that nobody declares any more), and stops being the
    /// outgoing connection to `addr` if it is that. Returns whether the
    /// address should be recorded as failed: when requests were hanging
    /// or the connection was not established.
    pub fn drop_token(
        &mut self,
        conn: u64,
        addr: &PeerAddr,
        hanging_requests: usize,
        connected: bool,
        images: &Vec<Vec<u8>>,
    ) -> (failed: bool)
        ensures
            failed == (hanging_requests > 0 || !connected),
            final(self)@.incoming == old(self)@.incoming.remove(conn),
            final(self)@.declared == if old(self)@.incoming.contains(conn) {
                declared_without(old(self)@.declared, conn, images@.map_values(|v: Vec<u8>| v@))
            } else {
                old(self)@.declared
            },
            final(self)@.outgoing == if old(self)@.outgoing.contains_key(*addr) && old(self)@.outgoing[*addr] == conn {
                old(self)@.outgoing.remove(*addr)
            } else {
                old(self)@.outgoing
            },
            declarations_nonempty(final(self)@.declared),
            old(self)@.incoming.contains(conn) ==> forall|i: int|
                0 <= i < images@.len() ==> !(final(self)@.declared.contains_key(#[trigger] images@[i]@)
                    && final(self)@.declared[images@[i]@].contains(conn)),
    {
        proof {
            use_type_invariant(&*self);
            lemma_declared_without(
                old(self)@.declared,
                conn,
                images@.map_values(|v: Vec<u8>| v@),
            );
            let mapped = images@.map_values(|v: Vec<u8>| v@);
            assert forall|i: int| 0 <= i < images@.len() implies mapped[i] == #[trigger] images@[i]@ by {}
        }
        let failed = hanging_requests > 0 || !connected;
        let mut incoming = ConnSet::new();
        std::mem::swap(&mut incoming, &mut self.incoming);
        let was_incoming = incoming.remove(conn);
        self.incoming = incoming;
        if was_incoming {
            let mut declared: Vec<Declaration> = Vec::new();
            std::mem::swap(&mut declared, &mut self.declared);
            forget_all_in(&mut declared, conn, images);
            self.declared = declared;
        }
        let mut outgoing: Vec<(PeerAddr, u64)> = Vec::new();
        std::mem::swap(&mut outgoing, &mut self.outgoing);
        remove_outgoing_of(&mut outgoing, conn, addr);
        self.outgoing = outgoing;
        proof {
            use_type_invariant(&*self);
            lemma_nonempty_of_wf(self.declared@);
        }
        failed
    }
}

} // verus!
