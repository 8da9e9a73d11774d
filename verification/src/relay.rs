//! The UDP relay server: every datagram that a client sends is passed on to
//! every other client heard from recently.
use vstd::prelude::*;

use vstd::slice::slice_to_vec;

use crate::error::Error;

verus! {

/// A socket address: IPv4 or IPv6, with every part that tells two
/// addresses apart.
#[derive(Clone, Copy, Debug, PartialEq, Eq, Structural)]
#[allow(inconsistent_fields)]
pub enum PeerAddr {
    V4 { ip: u32, port: u16 },
    V6 { ip: u128, port: u16, flowinfo: u32, scope_id: u32 },
}

/// The datagram codec of the relay: a datagram is its sender's address and
/// its bytes, as they are.
pub struct LineCodec;

impl LineCodec {
    /// Takes in a datagram from `addr`.
    pub fn decode(&mut self, addr: &PeerAddr, buf: &[u8]) -> (r: Result<(PeerAddr, Vec<u8>), Error>)
        ensures
            r matches Ok((a, bytes)) && a == *addr && bytes@ == buf@,
    {
        Ok((*addr, slice_to_vec(buf)))
    }

    /// Puts out the datagram `out`: its bytes are appended to `into` and its
    /// destination is returned.
    pub fn encode(&mut self, out: (PeerAddr, Vec<u8>), into: &mut Vec<u8>) -> (a: PeerAddr)
        ensures
            a == out.0,
            final(into)@ == old(into)@ + out.1@,
    {
        let (addr, mut buf) = out;
        into.append(&mut buf);
        addr
    }
}

/// A client of the relay: when it was last heard from, in nanoseconds on
/// the server's monotonic clock.
#[derive(Clone, Copy, Debug, PartialEq, Eq, Structural)]
pub struct Client {
    pub instant: u128,
}

/// The time that has passed since `c` was last heard from, at `now` (none
/// where the clock reads earlier).
pub open spec fn elapsed(c: Client, now: u128) -> int {
    if now >= c.instant {
        now - c.instant
    } else {
        0
    }
}

/// Whether `c` has not been heard from for longer than `expiration`.
pub open spec fn is_expired(c: Client, now: u128, expiration: u128) -> bool {
    elapsed(c, now) > expiration
}

/// The addresses of `entries`, in order.
pub open spec fn keys(entries: Seq<(PeerAddr, Client)>) -> Seq<PeerAddr> {
    entries.map_values(|e: (PeerAddr, Client)| e.0)
}

/// No address occurs twice in `entries`.
pub open spec fn distinct_keys(entries: Seq<(PeerAddr, Client)>) -> bool {
    forall|i: int, j: int|
        0 <= i < entries.len() && 0 <= j < entries.len() && i != j ==> entries[i].0
            != entries[j].0
}

/// Whether an entry is still live at `now`.
pub open spec fn live_at(now: u128, expiration: u128) -> spec_fn((PeerAddr, Client)) -> bool {
    |e: (PeerAddr, Client)| !is_expired(e.1, now, expiration)
}

/// Whether an entry has expired at `now`.
pub open spec fn expired_at(now: u128, expiration: u128) -> spec_fn((PeerAddr, Client)) -> bool {
    |e: (PeerAddr, Client)| is_expired(e.1, now, expiration)
}

/// Whether an address is not `from`.
pub open spec fn other_than(from: PeerAddr) -> spec_fn(PeerAddr) -> bool {
    |a: PeerAddr| a != from
}

/// The entries that have not expired at `now`.
pub open spec fn live(entries: Seq<(PeerAddr, Client)>, now: u128, expiration: u128) -> Seq<
    (PeerAddr, Client),
> {
    entries.filter(live_at(now, expiration))
}

/// The addresses of the entries that have expired at `now`, in order.
pub open spec fn expired_keys(entries: Seq<(PeerAddr, Client)>, now: u128, expiration: u128) -> Seq<
    PeerAddr,
> {
    keys(entries.filter(expired_at(now, expiration)))
}

/// `entries` after hearing from `from` at `now`: its entry is refreshed
/// where it has one, else added at the end.
pub open spec fn heard(entries: Seq<(PeerAddr, Client)>, from: PeerAddr, now: u128) -> Seq<
    (PeerAddr, Client),
> {
    if keys(entries).contains(from) {
        entries.map_values(
            |e: (PeerAddr, Client)|
                if e.0 == from {
                    (from, Client { instant: now })
                } else {
                    e
                },
        )
    } else {
        entries.push((from, Client { instant: now }))
    }
}

/// The addresses of `entries` other than `from`, in order.
pub open spec fn others(entries: Seq<(PeerAddr, Client)>, from: PeerAddr) -> Seq<PeerAddr> {
    keys(entries).filter(other_than(from))
}

/// What the relay does on a datagram.
#[derive(Debug)]
pub struct DatagramOutcome {
    /// The clients dropped for having been silent too long.
    pub expired: Vec<PeerAddr>,
    /// Whether the sender was not a known client.
    pub connected: bool,
    /// The clients that the datagram goes to.
    pub recipients: Vec<PeerAddr>,
}

/// The clients of the relay.
pub struct ClientTable {
    clients: Vec<(PeerAddr, Client)>,
}

impl ClientTable {
    /// The clients, each address with when it was last heard from.
    pub closed spec fn entries(&self) -> Seq<(PeerAddr, Client)> {
        self.clients@
    }

    /// No client occurs twice.
    #[verifier::type_invariant]
    spec fn inv(&self) -> bool {
        distinct_keys(self.clients@)
    }

    /// No client occurs twice.
    pub open spec fn wf(&self) -> bool {
        distinct_keys(self.entries())
    }

    /// A table with no clients.
    pub fn new() -> (t: Self)
        ensures
            t.wf(),
            t.entries() == Seq::<(PeerAddr, Client)>::empty(),
    {
        ClientTable { clients: Vec::new() }
    }

    /// The number of clients.
    pub fn len(&self) -> (n: usize)
        ensures
            n == self.entries().len(),
    {
        self.clients.len()
    }

    /// Handles a datagram from `from` received at `now`: drops the clients
    /// that have been silent for longer than `expiration`, records `from` as
    /// heard from at `now`, and names the other clients, which the datagram
    /// goes to.
    pub fn on_datagram(&mut self, from: PeerAddr, now: u128, expiration: u128) -> (r:
        DatagramOutcome)
        ensures
            final(self).wf(),
            r.expired@ == expired_keys(old(self).entries(), now, expiration),
            r.connected == !keys(live(old(self).entries(), now, expiration)).contains(from),
            final(self).entries() == heard(live(old(self).entries(), now, expiration), from, now),
            r.recipients@ == others(final(self).entries(), from),
    {
        proof {
            use_type_invariant(&*self);
        }
        let ghost old_entries = self.clients@;
        let n = self.clients.len();
        let mut kept: Vec<(PeerAddr, Client)> = Vec::new();
        let mut expired: Vec<PeerAddr> = Vec::new();
        let ghost keep = live_at(now, expiration);
        let ghost drop = expired_at(now, expiration);
        let mut i: usize = 0;
        while i < n
            invariant
                n == old_entries.len(),
                old_entries == self.clients@,
                i <= n,
                keep == live_at(now, expiration),
                drop == expired_at(now, expiration),
                kept@ == old_entries.take(i as int).filter(keep),
                expired@ == keys(old_entries.take(i as int).filter(drop)),
            decreases n - i,
        {
            let entry = self.clients[i];
            proof {
                assert(old_entries.take(i + 1) =~= old_entries.take(i as int).push(entry));
                old_entries.take(i as int).lemma_filter_push(entry, keep);
                old_entries.take(i as int).lemma_filter_push(entry, drop);
            }
            let silent = if now >= entry.1.instant {
                now - entry.1.instant > expiration
            } else {
                false
            };
            assert(silent == drop(entry));
            assert(silent == !keep(entry));
            if silent {
                expired.push(entry.0);
                assert(old_entries.take(i + 1).filter(drop) == old_entries.take(i as int).filter(
                    drop,
                ).push(entry));
                assert(expired@ =~= keys(old_entries.take(i + 1).filter(drop)));
            } else {
                kept.push(entry);
                assert(old_entries.take(i + 1).filter(keep) == old_entries.take(i as int).filter(
                    keep,
                ).push(entry));
            }
            i = i + 1;
        }
        proof {
            assert(old_entries.take(n as int) =~= old_entries);
            lemma_filter_keeps_keys(old_entries, keep);
        }
        let ghost live_entries = kept@;
        let m = kept.len();
        let mut found: Option<usize> = None;
        let mut j: usize = 0;
        while j < m
            invariant
                m == kept@.len(),
                kept@ == live_entries,
                j <= m,
                found matches Some(k) ==> k < m && kept@[k as int].0 == from,
                found is None ==> forall|k: int| 0 <= k < j ==> kept@[k].0 != from,
            decreases m - j,
        {
            if found.is_none() && kept[j].0 == from {
                found = Some(j);
            }
            j = j + 1;
        }
        let connected = found.is_none();
        proof {
            if connected {
                assert forall|k: int| 0 <= k < keys(live_entries).len() implies keys(
                    live_entries,
                )[k] != from by {}
            } else {
                let k = found.unwrap() as int;
                assert(keys(live_entries)[k] == from);
            }
        }
        let fresh = (from, Client { instant: now });
        match found {
            Some(k) => {
                kept.set(k, fresh);
                proof {
                    assert forall|x: int| 0 <= x < m implies kept@[x] == heard(
                        live_entries,
                        from,
                        now,
                    )[x] by {
                        if x != k {
                            assert(live_entries[x].0 != live_entries[k as int].0);
                        }
                    }
                    assert(kept@ =~= heard(live_entries, from, now));
                }
            },
            None => {
                kept.push(fresh);
                proof {
                    assert(kept@ =~= heard(live_entries, from, now));
                    assert forall|x: int, y: int|
                        0 <= x < kept@.len() && 0 <= y < kept@.len() && x != y implies kept@[x].0
                        != kept@[y].0 by {
                        if x == m as int {
                            assert(keys(live_entries)[y] == live_entries[y].0);
                        } else if y == m as int {
                            assert(keys(live_entries)[x] == live_entries[x].0);
                        }
                    }
                }
            },
        }
        let total = kept.len();
        let mut recipients: Vec<PeerAddr> = Vec::new();
        let ghost not_from = other_than(from);
        let mut k: usize = 0;
        while k < total
            invariant
                total == kept@.len(),
                k <= total,
                not_from == other_than(from),
                recipients@ == keys(kept@).take(k as int).filter(not_from),
            decreases total - k,
        {
            let addr = kept[k].0;
            proof {
                assert(keys(kept@)[k as int] == addr);
                assert(keys(kept@).take(k + 1) =~= keys(kept@).take(k as int).push(addr));
                keys(kept@).take(k as int).lemma_filter_push(addr, not_from);
            }
            if addr != from {
                recipients.push(addr);
            }
            k = k + 1;
        }
        assert(keys(kept@).take(total as int) =~= keys(kept@));
        self.clients = kept;
        DatagramOutcome { expired, connected, recipients }
    }
}

/// After a datagram from `from` at `now`, `from` is a client heard from at
/// `now`, no client is silent for longer than `expiration`, and the datagram
/// goes to every client but its sender, and to no one else.
pub proof fn lemma_relay_step(
    entries: Seq<(PeerAddr, Client)>,
    from: PeerAddr,
    now: u128,
    expiration: u128,
)
    ensures
        ({
            let table = heard(live(entries, now, expiration), from, now);
            &&& exists|i: int|
                0 <= i < table.len() && #[trigger] table[i] == (from, Client { instant: now })
            &&& forall|i: int| 0 <= i < table.len() ==> !is_expired(#[trigger] table[i].1, now, expiration)
            &&& !others(table, from).contains(from)
            &&& forall|a: PeerAddr|
                #[trigger] keys(table).contains(a) && a != from ==> others(table, from).contains(a)
            &&& forall|a: PeerAddr| #[trigger] others(table, from).contains(a) ==> keys(table).contains(a)
        }),
{
    let l = live(entries, now, expiration);
    let table = heard(l, from, now);
    let fresh = (from, Client { instant: now });
    assert forall|i: int| 0 <= i < l.len() implies !is_expired(#[trigger] l[i].1, now, expiration) by {
        entries.lemma_filter_pred(live_at(now, expiration), i);
    }
    if keys(l).contains(from) {
        let k = choose|k: int| 0 <= k < keys(l).len() && keys(l)[k] == from;
        assert(table[k] == fresh);
    } else {
        assert(table[table.len() - 1] == fresh);
    }
    assert forall|i: int| 0 <= i < table.len() implies !is_expired(#[trigger] table[i].1, now, expiration) by {
        if table[i] != fresh {
            assert(table[i] == l[i]);
        }
    }
    let ks = keys(table);
    let p = other_than(from);
    if others(table, from).contains(from) {
        let i = choose|i: int| 0 <= i < ks.filter(p).len() && ks.filter(p)[i] == from;
        ks.lemma_filter_pred(p, i);
    }
    assert forall|a: PeerAddr| #[trigger] ks.contains(a) && a != from implies others(table, from).contains(a) by {
        let i = choose|i: int| 0 <= i < ks.len() && ks[i] == a;
        ks.lemma_filter_contains(p, i);
    }
    assert forall|a: PeerAddr| #[trigger] others(table, from).contains(a) implies ks.contains(a) by {
        ks.lemma_filter_contains_rev(p, a);
    }
}

/// The table after a datagram from `from` at `now`, entry by entry: it
/// holds `from` as heard from at `now`, it keeps unchanged every other
/// client of the old table that was heard from within `expiration` of
/// `now` (clients on the same host with another port among them), it holds
/// nothing else, and no address occurs twice in it.
pub proof fn lemma_relay_table(
    entries: Seq<(PeerAddr, Client)>,
    from: PeerAddr,
    now: u128,
    expiration: u128,
)
    requires
        distinct_keys(entries),
    ensures
        ({
            let table = heard(live(entries, now, expiration), from, now);
            &&& exists|j: int|
                0 <= j < table.len() && #[trigger] table[j] == (from, Client { instant: now })
            &&& forall|i: int|
                0 <= i < entries.len() && entries[i].0 != from && !(now >= entries[i].1.instant
                    && now - entries[i].1.instant > expiration) ==> exists|j: int|
                    0 <= j < table.len() && #[trigger] table[j] == entries[i]
            &&& forall|j: int|
                0 <= j < table.len() ==> #[trigger] table[j] == (from, Client { instant: now })
                    || exists|i: int|
                    0 <= i < entries.len() && entries[i] == table[j] && entries[i].0 != from && !(
                    now >= entries[i].1.instant && now - entries[i].1.instant > expiration)
            &&& distinct_keys(table)
        }),
{
    let p = live_at(now, expiration);
    let l = live(entries, now, expiration);
    let table = heard(l, from, now);
    let fresh = (from, Client { instant: now });
    lemma_filter_keeps_keys(entries, p);
    assert forall|k: int| 0 <= k < l.len() implies #[trigger] p(l[k]) && exists|i: int|
        0 <= i < entries.len() && entries[i] == l[k] by {
        entries.lemma_filter_pred(p, k);
        assert(l.contains(l[k]));
        entries.lemma_filter_contains_rev(p, l[k]);
    }
    if keys(l).contains(from) {
        let k = choose|k: int| 0 <= k < keys(l).len() && keys(l)[k] == from;
        assert(table[k] == fresh);
        assert forall|i: int|
            0 <= i < entries.len() && entries[i].0 != from && !(now >= entries[i].1.instant && now
                - entries[i].1.instant > expiration) implies exists|j: int|
            0 <= j < table.len() && #[trigger] table[j] == entries[i] by {
            entries.lemma_filter_contains(p, i);
            let j = choose|j: int| 0 <= j < l.len() && l[j] == entries[i];
            assert(table[j] == entries[i]);
        }
        assert forall|j: int| 0 <= j < table.len() implies #[trigger] table[j] == fresh || exists|
            i: int,
        |
            0 <= i < entries.len() && entries[i] == table[j] && entries[i].0 != from && !(now
                >= entries[i].1.instant && now - entries[i].1.instant > expiration) by {
            if table[j] != fresh {
                assert(p(l[j]));
                assert(l[j].0 != from);
            }
        }
    } else {
        assert(table[table.len() - 1] == fresh);
        assert forall|i: int|
            0 <= i < entries.len() && entries[i].0 != from && !(now >= entries[i].1.instant && now
                - entries[i].1.instant > expiration) implies exists|j: int|
            0 <= j < table.len() && #[trigger] table[j] == entries[i] by {
            entries.lemma_filter_contains(p, i);
            let j = choose|j: int| 0 <= j < l.len() && l[j] == entries[i];
            assert(table[j] == entries[i]);
        }
        assert forall|j: int| 0 <= j < table.len() implies #[trigger] table[j] == fresh || exists|
            i: int,
        |
            0 <= i < entries.len() && entries[i] == table[j] && entries[i].0 != from && !(now
                >= entries[i].1.instant && now - entries[i].1.instant > expiration) by {
            if j < l.len() {
                assert(table[j] == l[j]);
                assert(p(l[j]));
                assert(keys(l)[j] == l[j].0);
            }
        }
        assert forall|x: int, y: int|
            0 <= x < table.len() && 0 <= y < table.len() && x != y implies table[x].0
            != table[y].0 by {
            if x == l.len() {
                assert(keys(l)[y] == l[y].0);
            } else if y == l.len() {
                assert(keys(l)[x] == l[x].0);
            }
        }
    }
}

/// Who the datagram goes to, who is dropped and whether the sender is new,
/// in terms of the entries alone: the recipients are the addresses in the
/// new table other than the sender; the dropped clients are those of the
/// old table silent for longer than `expiration`; the sender is new unless
/// the old table holds it and it was not silent for that long.
pub proof fn lemma_relay_outcome(
    entries: Seq<(PeerAddr, Client)>,
    table: Seq<(PeerAddr, Client)>,
    from: PeerAddr,
    now: u128,
    expiration: u128,
)
    ensures
        forall|a: PeerAddr|
            #[trigger] others(table, from).contains(a) == (a != from && exists|j: int|
                0 <= j < table.len() && table[j].0 == a),
        forall|a: PeerAddr|
            #[trigger] expired_keys(entries, now, expiration).contains(a) == exists|i: int|
                0 <= i < entries.len() && entries[i].0 == a && now >= entries[i].1.instant && now
                    - entries[i].1.instant > expiration,
        keys(live(entries, now, expiration)).contains(from) == exists|i: int|
            0 <= i < entries.len() && entries[i].0 == from && !(now >= entries[i].1.instant && now
                - entries[i].1.instant > expiration),
{
    let ks = keys(table);
    let q = other_than(from);
    assert forall|a: PeerAddr| #[trigger] others(table, from).contains(a) == (a != from && exists|
        j: int,
    | 0 <= j < table.len() && table[j].0 == a) by {
        if others(table, from).contains(a) {
            ks.lemma_filter_contains_rev(q, a);
            let j = choose|j: int| 0 <= j < ks.len() && ks[j] == a;
            let k = choose|k: int| 0 <= k < ks.filter(q).len() && ks.filter(q)[k] == a;
            ks.lemma_filter_pred(q, k);
            assert(table[j].0 == a);
        }
        if a != from && exists|j: int| 0 <= j < table.len() && table[j].0 == a {
            let j = choose|j: int| 0 <= j < table.len() && table[j].0 == a;
            assert(ks[j] == a);
            ks.lemma_filter_contains(q, j);
        }
    }
    let d = expired_at(now, expiration);
    let f = entries.filter(d);
    assert forall|a: PeerAddr| #[trigger] expired_keys(entries, now, expiration).contains(a)
        == exists|i: int|
        0 <= i < entries.len() && entries[i].0 == a && now >= entries[i].1.instant && now
            - entries[i].1.instant > expiration by {
        if expired_keys(entries, now, expiration).contains(a) {
            let k = choose|k: int| 0 <= k < keys(f).len() && keys(f)[k] == a;
            entries.lemma_filter_pred(d, k);
            assert(f.contains(f[k]));
            entries.lemma_filter_contains_rev(d, f[k]);
            let i = choose|i: int| 0 <= i < entries.len() && entries[i] == f[k];
            assert(entries[i].0 == a);
        }
        if exists|i: int|
            0 <= i < entries.len() && entries[i].0 == a && now >= entries[i].1.instant && now
                - entries[i].1.instant > expiration {
            let i = choose|i: int|
                0 <= i < entries.len() && entries[i].0 == a && now >= entries[i].1.instant && now
                    - entries[i].1.instant > expiration;
            entries.lemma_filter_contains(d, i);
            let k = choose|k: int| 0 <= k < f.len() && f[k] == entries[i];
            assert(keys(f)[k] == a);
        }
    }
    let p = live_at(now, expiration);
    let l = live(entries, now, expiration);
    if keys(l).contains(from) {
        let k = choose|k: int| 0 <= k < keys(l).len() && keys(l)[k] == from;
        entries.lemma_filter_pred(p, k);
        assert(l.contains(l[k]));
        entries.lemma_filter_contains_rev(p, l[k]);
        let i = choose|i: int| 0 <= i < entries.len() && entries[i] == l[k];
        assert(entries[i].0 == from);
    }
    if exists|i: int|
        0 <= i < entries.len() && entries[i].0 == from && !(now >= entries[i].1.instant && now
            - entries[i].1.instant > expiration) {
        let i = choose|i: int|
            0 <= i < entries.len() && entries[i].0 == from && !(now >= entries[i].1.instant && now
                - entries[i].1.instant > expiration);
        entries.lemma_filter_contains(p, i);
        let k = choose|k: int| 0 <= k < l.len() && l[k] == entries[i];
        assert(keys(l)[k] == from);
    }
}

/// Keeping some entries of a table keeps its addresses distinct and brings
/// in no new address.
proof fn lemma_filter_keeps_keys(
    entries: Seq<(PeerAddr, Client)>,
    pred: spec_fn((PeerAddr, Client)) -> bool,
)
    requires
        distinct_keys(entries),
    ensures
        distinct_keys(entries.filter(pred)),
        forall|a: PeerAddr| keys(entries.filter(pred)).contains(a) ==> keys(entries).contains(a),
    decreases entries.len(),
{
    reveal(Seq::filter);
    if entries.len() > 0 {
        let init = entries.drop_last();
        let last = entries.last();
        assert(distinct_keys(init));
        lemma_filter_keeps_keys(init, pred);
        let f = init.filter(pred);
        assert(entries.filter(pred) == if pred(last) {
            f.push(last)
        } else {
            f
        });
        assert forall|a: PeerAddr| keys(init).contains(a) implies keys(entries).contains(a) by {
            let i = choose|i: int| 0 <= i < keys(init).len() && keys(init)[i] == a;
            assert(keys(entries)[i] == a);
        }
        if pred(last) {
            assert(!keys(init).contains(last.0)) by {
                if keys(init).contains(last.0) {
                    let i = choose|i: int| 0 <= i < keys(init).len() && keys(init)[i] == last.0;
                    assert(entries[i].0 == entries[entries.len() - 1].0);
                }
            }
            let g = f.push(last);
            assert forall|i: int, j: int|
                0 <= i < g.len() && 0 <= j < g.len() && i != j implies g[i].0 != g[j].0 by {
                if i == f.len() {
                    assert(keys(f)[j] == f[j].0);
                } else if j == f.len() {
                    assert(keys(f)[i] == f[i].0);
                }
            }
            assert forall|a: PeerAddr| keys(g).contains(a) implies keys(entries).contains(a) by {
                let i = choose|i: int| 0 <= i < keys(g).len() && keys(g)[i] == a;
                if i < f.len() {
                    assert(keys(f)[i] == a);
                } else {
                    assert(keys(entries)[entries.len() - 1] == a);
                }
            }
        }
    }
}

} // verus!
