//! The peer store: every known peer as one row keyed by its address text,
//! with the reliability accounting and scheduling rules the crawler lives
//! by.
use vstd::prelude::*;

use crate::addr::{
    is_hidden_kind, is_onion_kind, is_scannable_kind, kind_tag, normalize_addr, normalized_addr,
    parse_kind_tag, tag_kind, valid_addr_string, AddrKind,
};
use crate::text::str_eq;

verus! {

/// Rows whose `detected` is older than this many seconds are garbage.
pub const GC_WINDOW_SECS: u64 = 172800;

/// One peer row.
pub struct Peer {
    pub address: String,
    pub kind: AddrKind,
    pub port: u16,
    pub services: String,
    pub added: u64,
    pub detected: u64,
    pub scanned: Option<u64>,
    pub soft: Option<String>,
    pub protocol_version: Option<i32>,
    pub start_height: Option<i32>,
    pub relay: Option<bool>,
    pub incoming: Option<bool>,
    pub consecutive_failures: u32,
    pub reliability_score: i64,
    pub next_attempt_time: Option<u64>,
    pub country: Option<String>,
    pub city: Option<String>,
    pub isp: Option<String>,
    pub asn: Option<String>,
}

/// The mathematical image of a peer row.
#[verifier::ext_equal]
pub struct PeerSpec {
    pub address: Seq<char>,
    pub kind: AddrKind,
    pub port: u16,
    pub services: Seq<char>,
    pub added: u64,
    pub detected: u64,
    pub scanned: Option<u64>,
    pub soft: Option<Seq<char>>,
    pub protocol_version: Option<i32>,
    pub start_height: Option<i32>,
    pub relay: Option<bool>,
    pub incoming: Option<bool>,
    pub consecutive_failures: u32,
    pub reliability_score: i64,
    pub next_attempt_time: Option<u64>,
    pub country: Option<Seq<char>>,
    pub city: Option<Seq<char>>,
    pub isp: Option<Seq<char>>,
    pub asn: Option<Seq<char>>,
}

/// The view of an optional string.
pub open spec fn opt_str_view(s: Option<String>) -> Option<Seq<char>> {
    match s {
        Some(x) => Some(x@),
        None => None,
    }
}

impl View for Peer {
    type V = PeerSpec;

    open spec fn view(&self) -> PeerSpec {
        PeerSpec {
            address: self.address@,
            kind: self.kind,
            port: self.port,
            services: self.services@,
            added: self.added,
            detected: self.detected,
            scanned: self.scanned,
            soft: opt_str_view(self.soft),
            protocol_version: self.protocol_version,
            start_height: self.start_height,
            relay: self.relay,
            incoming: self.incoming,
            consecutive_failures: self.consecutive_failures,
            reliability_score: self.reliability_score,
            next_attempt_time: self.next_attempt_time,
            country: opt_str_view(self.country),
            city: opt_str_view(self.city),
            isp: opt_str_view(self.isp),
            asn: opt_str_view(self.asn),
        }
    }
}

/// A peer row is well formed when its address text is valid for its kind.
pub open spec fn peer_wf(p: PeerSpec) -> bool {
    valid_addr_string(p.kind, p.address)
}

/// The store holds pairwise distinct addresses and only well-formed rows.
pub open spec fn store_wf(s: Seq<PeerSpec>) -> bool {
    &&& forall|i: int, j: int|
        0 <= i < j < s.len() ==> (#[trigger] s[i].address) != (#[trigger] s[j].address)
    &&& forall|i: int| 0 <= i < s.len() ==> peer_wf(#[trigger] s[i])
}

/// The in-memory peer store.
pub struct PeerStore {
    peers: Vec<Peer>,
}

impl View for PeerStore {
    type V = Seq<PeerSpec>;

    closed spec fn view(&self) -> Seq<PeerSpec> {
        self.peers@.map_values(|p: Peer| p@)
    }
}

/// The first row at or after `i` holding this address, or -1.
pub open spec fn find_from(s: Seq<PeerSpec>, a: Seq<char>, i: int) -> int
    decreases s.len() - i,
{
    if i < 0 || i >= s.len() {
        -1
    } else if s[i].address == a {
        i
    } else {
        find_from(s, a, i + 1)
    }
}

/// The first row holding this address, or -1.
pub open spec fn find_peer(s: Seq<PeerSpec>, a: Seq<char>) -> int {
    find_from(s, a, 0)
}

/// What `find_from` says: a miss means no row from `i` on holds the
/// address, a hit is the first such row.
pub proof fn lemma_find_from(s: Seq<PeerSpec>, a: Seq<char>, i: int)
    requires
        0 <= i <= s.len(),
    ensures
        find_from(s, a, i) == -1 ==> forall|j: int| i <= j < s.len() ==> s[j].address != a,
        find_from(s, a, i) != -1 ==> i <= find_from(s, a, i) < s.len() && s[find_from(
            s,
            a,
            i,
        )].address == a,
    decreases s.len() - i,
{
    if i < s.len() && s[i].address != a {
        lemma_find_from(s, a, i + 1);
    }
}

/// Finds the row holding an address.
fn find_index(peers: &Vec<Peer>, a: &str) -> (r: Option<usize>)
    ensures
        r is None ==> find_peer(peers@.map_values(|p: Peer| p@), a@) == -1,
        r matches Some(i) ==> i < peers@.len() && find_peer(peers@.map_values(|p: Peer| p@), a@)
            == i as int,
{
    let ghost s = peers@.map_values(|p: Peer| p@);
    let n = peers.len();
    let mut i: usize = 0;
    while i < n
        invariant
            i <= n,
            n == peers@.len(),
            s == peers@.map_values(|p: Peer| p@),
            find_from(s, a@, 0) == find_from(s, a@, i as int),
        decreases n - i,
    {
        if str_eq(peers[i].address.as_str(), a) {
            return Some(i);
        }
        i += 1;
    }
    None
}

/// A freshly discovered row: both timestamps set to now, everything else
/// empty.
pub open spec fn fresh_peer(
    kind: AddrKind,
    address: Seq<char>,
    port: u16,
    services: Seq<char>,
    now: u64,
) -> PeerSpec {
    PeerSpec {
        address: address,
        kind: kind,
        port: port,
        services: services,
        added: now,
        detected: now,
        scanned: None,
        soft: None,
        protocol_version: None,
        start_height: None,
        relay: None,
        incoming: None,
        consecutive_failures: 0,
        reliability_score: 0,
        next_attempt_time: None,
        country: None,
        city: None,
        isp: None,
        asn: None,
    }
}

/// An insert-or-refresh: a new address is appended as a fresh row, a
/// known one only has its `detected` stamp moved to now.
pub open spec fn upsert_spec(
    s: Seq<PeerSpec>,
    kind: AddrKind,
    address: Seq<char>,
    port: u16,
    services: Seq<char>,
    now: u64,
) -> Seq<PeerSpec> {
    let i = find_peer(s, address);
    if i == -1 {
        s.push(fresh_peer(kind, address, port, services, now))
    } else {
        s.update(i, PeerSpec { detected: now, ..s[i] })
    }
}

/// Copies an optional string.
fn clone_opt(s: &Option<String>) -> (r: Option<String>)
    ensures
        opt_str_view(r) == opt_str_view(*s),
{
    match s {
        Some(x) => Some(x.clone()),
        None => None,
    }
}

/// Builds an empty store.
pub fn create_db() -> (s: PeerStore)
    ensures
        s@ =~= Seq::<PeerSpec>::empty(),
        store_wf(s@),
{
    let s = PeerStore { peers: Vec::new() };
    proof {
        assert(s@ =~= Seq::<PeerSpec>::empty());
    }
    s
}

impl PeerStore {
    /// Inserts a discovered peer or refreshes its `detected` stamp; the
    /// tag must name a kind and the address must be canonical for it.
    pub fn upsert_addrv2_node(&mut self, addr_type: &str, address: &str, port: u16, services: &str, now: u64)
        requires
            store_wf(old(self)@),
            tag_kind(addr_type@) is Some,
            valid_addr_string(tag_kind(addr_type@)->Some_0, address@),
        ensures
            final(self)@ =~= upsert_spec(
                old(self)@,
                tag_kind(addr_type@)->Some_0,
                address@,
                port,
                services@,
                now,
            ),
            store_wf(final(self)@),
    {
        let ghost s0 = self@;
        let ghost k = tag_kind(addr_type@)->Some_0;
        proof {
            lemma_find_from(s0, address@, 0);
        }
        match find_index(&self.peers, address) {
            Some(i) => {
                let mut p = self.peers.remove(i);
                p.detected = now;
                self.peers.insert(i, p);
                proof {
                    assert(self@ =~= s0.update(i as int, PeerSpec { detected: now, ..s0[i as int] }));
                    assert(store_wf(self@));
                }
            },
            None => {
                let kind = match parse_kind_tag(addr_type) {
                    Some(kk) => kk,
                    None => {
                        proof {
                            assert(false);
                        }
                        AddrKind::Ipv4
                    },
                };
                let p = Peer {
                    address: address.to_owned(),
                    kind,
                    port,
                    services: services.to_owned(),
                    added: now,
                    detected: now,
                    scanned: None,
                    soft: None,
                    protocol_version: None,
                    start_height: None,
                    relay: None,
                    incoming: None,
                    consecutive_failures: 0,
                    reliability_score: 0,
                    next_attempt_time: None,
                    country: None,
                    city: None,
                    isp: None,
                    asn: None,
                };
                self.peers.push(p);
                proof {
                    assert(self@ =~= s0.push(fresh_peer(k, address@, port, services@, now)));
                    assert(forall|j: int| 0 <= j < s0.len() ==> s0[j].address != address@);
                    assert(store_wf(self@));
                }
            },
        }
    }

    /// Applies `upsert_addrv2_node` to every node of a batch, in order.
    pub fn batch_upsert_addrv2_nodes(&mut self, nodes: &Vec<DiscoveredNode>, now: u64)
        requires
            store_wf(old(self)@),
            forall|i: int| 0 <= i < nodes@.len() ==> discovered_wf(#[trigger] nodes@[i]@),
        ensures
            final(self)@ =~= batch_upsert_spec(
                old(self)@,
                nodes@.map_values(|n: DiscoveredNode| n@),
                now,
            ),
            store_wf(final(self)@),
    {
        let ghost s0 = self@;
        let ghost nsv = nodes@.map_values(|n: DiscoveredNode| n@);
        proof {
            assert(nsv.skip(0) =~= nsv);
        }
        let mut k: usize = 0;
        while k < nodes.len()
            invariant
                k <= nodes@.len(),
                nsv == nodes@.map_values(|n: DiscoveredNode| n@),
                forall|i: int| 0 <= i < nodes@.len() ==> discovered_wf(#[trigger] nodes@[i]@),
                store_wf(self@),
                batch_upsert_spec(s0, nsv, now) == batch_upsert_spec(
                    self@,
                    nsv.skip(k as int),
                    now,
                ),
            decreases nodes@.len() - k,
        {
            let n = &nodes[k];
            let ghost pre = self@;
            proof {
                assert(discovered_wf(nodes@[k as int]@));
            }
            self.upsert_addrv2_node(
                n.addr_type.as_str(),
                n.addr_str.as_str(),
                n.port,
                n.services.as_str(),
                now,
            );
            proof {
                let rest = nsv.skip(k as int);
                assert(rest[0] == nsv[k as int]);
                assert(rest.skip(1) =~= nsv.skip(k + 1 as int));
                assert(batch_upsert_spec(pre, rest, now) == batch_upsert_spec(
                    upsert_spec(
                        pre,
                        tag_kind(rest[0].addr_type)->Some_0,
                        rest[0].addr_str,
                        rest[0].port,
                        rest[0].services,
                        now,
                    ),
                    rest.skip(1),
                    now,
                ));
            }
            k += 1;
        }
        proof {
            assert(nsv.skip(nodes@.len() as int) =~= Seq::<DiscoveredNodeSpec>::empty());
            assert(batch_upsert_spec(self@, Seq::<DiscoveredNodeSpec>::empty(), now) == self@);
        }
    }

    /// Books a completed handshake: the row is stamped as scanned and
    /// reachable, its failure run ends, its score rises, and its next
    /// attempt moves half a day out (with jitter for hidden services).
    pub fn handle_successful_connection(&mut self, address_with_port: &str, now: u64)
        requires
            store_wf(old(self)@),
            now + 86400 <= u64::MAX,
        ensures
            store_wf(final(self)@),
            find_peer(old(self)@, normalized_addr(address_with_port@)) == -1 ==> final(self)@
                =~= old(self)@,
            find_peer(old(self)@, normalized_addr(address_with_port@)) >= 0 ==> exists|next: u64|
                succ_next_ok(
                    old(self)@[find_peer(old(self)@, normalized_addr(address_with_port@))].kind,
                    now,
                    next,
                ) && final(self)@ =~= old(self)@.update(
                    find_peer(old(self)@, normalized_addr(address_with_port@)),
                    succ_update(
                        old(self)@[find_peer(old(self)@, normalized_addr(address_with_port@))],
                        now,
                        next,
                    ),
                ),
    {
        let ghost s0 = self@;
        let key = normalize_addr(address_with_port);
        proof {
            lemma_find_from(s0, key@, 0);
        }
        match find_index(&self.peers, key.as_str()) {
            None => {
                proof {
                    assert(self@ =~= s0);
                }
            },
            Some(i) => {
                let mut p = self.peers.remove(i);
                let delta: u64 = if crate::addr::hidden_kind(p.kind) {
                    crate::rng::random_in_range(28800, 57540)
                } else {
                    43200
                };
                let next = now + delta;
                p.scanned = Some(now);
                p.incoming = Some(true);
                p.consecutive_failures = 0;
                if p.reliability_score < i64::MAX {
                    p.reliability_score = p.reliability_score + 1;
                }
                p.next_attempt_time = Some(next);
                self.peers.insert(i, p);
                proof {
                    assert(succ_next_ok(s0[i as int].kind, now, next));
                    assert(self@ =~= s0.update(i as int, succ_update(s0[i as int], now, next)));
                    assert(store_wf(self@));
                }
            },
        }
    }

    /// Books a failed attempt: the failure run lengthens, the score
    /// falls, the next attempt moves four to twenty-four hours out, a
    /// third straight failure marks the row unreachable — and deletes it
    /// outright for onion peers.
    pub fn handle_failed_connection(&mut self, address_with_port: &str, now: u64)
        requires
            store_wf(old(self)@),
            now + 86400 <= u64::MAX,
        ensures
            store_wf(final(self)@),
            find_peer(old(self)@, normalized_addr(address_with_port@)) == -1 ==> final(self)@
                =~= old(self)@,
            ({
                let i = find_peer(old(self)@, normalized_addr(address_with_port@));
                i >= 0 && is_onion_kind(old(self)@[i].kind) && bump_failures(
                    old(self)@[i].consecutive_failures,
                ) >= 3
            }) ==> final(self)@ =~= old(self)@.remove(
                find_peer(old(self)@, normalized_addr(address_with_port@)),
            ),
            ({
                let i = find_peer(old(self)@, normalized_addr(address_with_port@));
                i >= 0 && !(is_onion_kind(old(self)@[i].kind) && bump_failures(
                    old(self)@[i].consecutive_failures,
                ) >= 3)
            }) ==> exists|next: u64|
                now + 14400 <= next <= now + 86400 && final(self)@ =~= old(self)@.update(
                    find_peer(old(self)@, normalized_addr(address_with_port@)),
                    fail_update(
                        old(self)@[find_peer(old(self)@, normalized_addr(address_with_port@))],
                        now,
                        next,
                    ),
                ),
    {
        let ghost s0 = self@;
        let key = normalize_addr(address_with_port);
        proof {
            lemma_find_from(s0, key@, 0);
        }
        match find_index(&self.peers, key.as_str()) {
            None => {
                proof {
                    assert(self@ =~= s0);
                }
            },
            Some(i) => {
                let mut p = self.peers.remove(i);
                let new_failures: u32 = if p.consecutive_failures < u32::MAX {
                    p.consecutive_failures + 1
                } else {
                    p.consecutive_failures
                };
                if crate::addr::onion_kind(p.kind) && new_failures >= 3 {
                    proof {
                        assert(self@ =~= s0.remove(i as int));
                        assert(store_wf(self@));
                    }
                } else {
                    let delta = crate::rng::random_in_range(14400, 86400);
                    let next = now + delta;
                    p.consecutive_failures = new_failures;
                    if p.reliability_score > i64::MIN {
                        p.reliability_score = p.reliability_score - 1;
                    }
                    p.next_attempt_time = Some(next);
                    if new_failures >= 3 {
                        p.incoming = Some(false);
                    }
                    p.scanned = Some(now);
                    self.peers.insert(i, p);
                    proof {
                        assert(self@ =~= s0.update(i as int, fail_update(s0[i as int], now, next)));
                        assert(store_wf(self@));
                    }
                }
            },
        }
    }

    /// Records what an outbound handshake learned about a peer, marking
    /// it reachable.
    pub fn update_handshake_info(
        &mut self,
        address_with_port: &str,
        agent: &str,
        services: &str,
        protocol_version: i32,
        start_height: i32,
        relay: bool,
        now: u64,
    )
        requires
            store_wf(old(self)@),
        ensures
            store_wf(final(self)@),
            find_peer(old(self)@, normalized_addr(address_with_port@)) == -1 ==> final(self)@
                =~= old(self)@,
            find_peer(old(self)@, normalized_addr(address_with_port@)) >= 0 ==> final(self)@
                =~= old(self)@.update(
                find_peer(old(self)@, normalized_addr(address_with_port@)),
                handshake_update(
                    old(self)@[find_peer(old(self)@, normalized_addr(address_with_port@))],
                    agent@,
                    services@,
                    protocol_version,
                    start_height,
                    relay,
                    now,
                ),
            ),
    {
        let ghost s0 = self@;
        let key = normalize_addr(address_with_port);
        proof {
            lemma_find_from(s0, key@, 0);
        }
        match find_index(&self.peers, key.as_str()) {
            None => {
                proof {
                    assert(self@ =~= s0);
                }
            },
            Some(i) => {
                let mut p = self.peers.remove(i);
                p.scanned = Some(now);
                p.soft = Some(agent.to_owned());
                p.services = services.to_owned();
                p.protocol_version = Some(protocol_version);
                p.start_height = Some(start_height);
                p.relay = Some(relay);
                p.incoming = Some(true);
                self.peers.insert(i, p);
                proof {
                    assert(self@ =~= s0.update(
                        i as int,
                        handshake_update(
                            s0[i as int],
                            agent@,
                            services@,
                            protocol_version,
                            start_height,
                            relay,
                            now,
                        ),
                    ));
                    assert(store_wf(self@));
                }
            },
        }
    }

    /// Records what an inbound `version` frame announced; reachability is
    /// not touched, the remote initiated this connection itself.
    pub fn update_inbound_node_info(
        &mut self,
        address_with_port: &str,
        agent: &str,
        services: &str,
        protocol_version: i32,
        start_height: i32,
        relay: bool,
    )
        requires
            store_wf(old(self)@),
        ensures
            store_wf(final(self)@),
            find_peer(old(self)@, normalized_addr(address_with_port@)) == -1 ==> final(self)@
                =~= old(self)@,
            find_peer(old(self)@, normalized_addr(address_with_port@)) >= 0 ==> final(self)@
                =~= old(self)@.update(
                find_peer(old(self)@, normalized_addr(address_with_port@)),
                inbound_update(
                    old(self)@[find_peer(old(self)@, normalized_addr(address_with_port@))],
                    agent@,
                    services@,
                    protocol_version,
                    start_height,
                    relay,
                ),
            ),
    {
        let ghost s0 = self@;
        let key = normalize_addr(address_with_port);
        proof {
            lemma_find_from(s0, key@, 0);
        }
        match find_index(&self.peers, key.as_str()) {
            None => {
                proof {
                    assert(self@ =~= s0);
                }
            },
            Some(i) => {
                let mut p = self.peers.remove(i);
                p.soft = Some(agent.to_owned());
                p.services = services.to_owned();
                p.protocol_version = Some(protocol_version);
                p.start_height = Some(start_height);
                p.relay = Some(relay);
                self.peers.insert(i, p);
                proof {
                    assert(self@ =~= s0.update(
                        i as int,
                        inbound_update(
                            s0[i as int],
                            agent@,
                            services@,
                            protocol_version,
                            start_height,
                            relay,
                        ),
                    ));
                    assert(store_wf(self@));
                }
            },
        }
    }

    /// Deletes every row not detected within the garbage window.
    pub fn clean_db(&mut self, now: u64)
        requires
            store_wf(old(self)@),
        ensures
            store_wf(final(self)@),
            final(self)@ =~= gc_keep(old(self)@, now),
    {
        let ghost s0 = self@;
        let mut i: usize = 0;
        let ghost mut j: int = 0;
        while i < self.peers.len()
            invariant
                0 <= j <= s0.len(),
                i as int == gc_keep(s0.take(j), now).len(),
                self@ =~= gc_keep(s0.take(j), now) + s0.skip(j),
                i <= self@.len(),
            decreases s0.len() - j,
        {
            let ghost jv = j;
            let ghost pre = self@;
            proof {
                assert(pre[i as int] == s0[jv]);
                assert(s0.take(jv + 1).drop_last() =~= s0.take(jv));
                assert(s0.take(jv + 1).last() == s0[jv]);
            }
            let p_detected = self.peers[i].detected;
            let stale = now >= GC_WINDOW_SECS && p_detected < now - GC_WINDOW_SECS;
            proof {
                assert(stale == !gc_keeps(s0[jv], now));
            }
            if stale {
                self.peers.remove(i);
                proof {
                    assert(self@ =~= pre.remove(i as int));
                    assert(gc_keep(s0.take(jv + 1), now) == gc_keep(s0.take(jv), now));
                    assert(self@ =~= gc_keep(s0.take(jv + 1), now) + s0.skip(jv + 1));
                }
            } else {
                i += 1;
                proof {
                    assert(gc_keep(s0.take(jv + 1), now) == gc_keep(s0.take(jv), now).push(s0[jv]));
                    assert(self@ =~= gc_keep(s0.take(jv + 1), now) + s0.skip(jv + 1));
                }
            }
            proof {
                j = jv + 1;
            }
        }
        proof {
            assert(j == s0.len());
            assert(s0.take(s0.len() as int) =~= s0);
            assert(s0.skip(s0.len() as int) =~= Seq::<PeerSpec>::empty());
            assert(self@ =~= gc_keep(s0, now));
            lemma_gc_keep_wf(s0, now);
        }
    }
}

/// A discovered peer pending batch insert.
pub struct DiscoveredNode {
    pub addr_type: String,
    pub addr_str: String,
    pub port: u16,
    pub services: String,
}

/// The mathematical image of a discovered peer.
#[verifier::ext_equal]
pub struct DiscoveredNodeSpec {
    pub addr_type: Seq<char>,
    pub addr_str: Seq<char>,
    pub port: u16,
    pub services: Seq<char>,
}

impl View for DiscoveredNode {
    type V = DiscoveredNodeSpec;

    open spec fn view(&self) -> DiscoveredNodeSpec {
        DiscoveredNodeSpec {
            addr_type: self.addr_type@,
            addr_str: self.addr_str@,
            port: self.port,
            services: self.services@,
        }
    }
}

/// A discovered peer is well formed when its tag names a kind and its
/// address is canonical for it.
pub open spec fn discovered_wf(n: DiscoveredNodeSpec) -> bool {
    tag_kind(n.addr_type) is Some && valid_addr_string(tag_kind(n.addr_type)->Some_0, n.addr_str)
}

/// A whole batch of upserts, applied front to back.
pub open spec fn batch_upsert_spec(
    s: Seq<PeerSpec>,
    ns: Seq<DiscoveredNodeSpec>,
    now: u64,
) -> Seq<PeerSpec>
    decreases ns.len(),
{
    if ns.len() == 0 {
        s
    } else {
        batch_upsert_spec(
            upsert_spec(
                s,
                tag_kind(ns[0].addr_type)->Some_0,
                ns[0].addr_str,
                ns[0].port,
                ns[0].services,
                now,
            ),
            ns.skip(1),
            now,
        )
    }
}

/// A score one success higher, saturating at the top.
pub open spec fn bump_score(x: i64) -> i64 {
    if x < i64::MAX {
        (x + 1) as i64
    } else {
        x
    }
}

/// A score one failure lower, saturating at the bottom.
pub open spec fn drop_score(x: i64) -> i64 {
    if x > i64::MIN {
        (x - 1) as i64
    } else {
        x
    }
}

/// A failure run one longer, saturating at the top.
pub open spec fn bump_failures(x: u32) -> u32 {
    if x < u32::MAX {
        (x + 1) as u32
    } else {
        x
    }
}

/// The rescan delay a success earns: half a day for clearnet peers,
/// eight hours to fifteen hours fifty-nine minutes for hidden services.
pub open spec fn succ_next_ok(k: AddrKind, now: u64, next: u64) -> bool {
    if is_hidden_kind(k) {
        now + 28800 <= next <= now + 57540
    } else {
        next == now + 43200
    }
}

/// A row after a successful handshake.
pub open spec fn succ_update(p: PeerSpec, now: u64, next: u64) -> PeerSpec {
    PeerSpec {
        scanned: Some(now),
        incoming: Some(true),
        consecutive_failures: 0,
        reliability_score: bump_score(p.reliability_score),
        next_attempt_time: Some(next),
        ..p
    }
}

/// A row after a failed attempt.
pub open spec fn fail_update(p: PeerSpec, now: u64, next: u64) -> PeerSpec {
    PeerSpec {
        scanned: Some(now),
        consecutive_failures: bump_failures(p.consecutive_failures),
        reliability_score: drop_score(p.reliability_score),
        next_attempt_time: Some(next),
        incoming: if bump_failures(p.consecutive_failures) >= 3 {
            Some(false)
        } else {
            p.incoming
        },
        ..p
    }
}

/// A row after an outbound handshake reported its peer's software.
pub open spec fn handshake_update(
    p: PeerSpec,
    agent: Seq<char>,
    services: Seq<char>,
    protocol_version: i32,
    start_height: i32,
    relay: bool,
    now: u64,
) -> PeerSpec {
    PeerSpec {
        scanned: Some(now),
        soft: Some(agent),
        services: services,
        protocol_version: Some(protocol_version),
        start_height: Some(start_height),
        relay: Some(relay),
        incoming: Some(true),
        ..p
    }
}

/// A row after an inbound `version` frame reported its peer's software.
pub open spec fn inbound_update(
    p: PeerSpec,
    agent: Seq<char>,
    services: Seq<char>,
    protocol_version: i32,
    start_height: i32,
    relay: bool,
) -> PeerSpec {
    PeerSpec {
        soft: Some(agent),
        services: services,
        protocol_version: Some(protocol_version),
        start_height: Some(start_height),
        relay: Some(relay),
        ..p
    }
}

/// Whether garbage collection keeps a row at this instant.
pub open spec fn gc_keeps(p: PeerSpec, now: u64) -> bool {
    p.detected + GC_WINDOW_SECS >= now
}

/// The store with every stale row deleted, in order.
pub open spec fn gc_keep(s: Seq<PeerSpec>, now: u64) -> Seq<PeerSpec>
    decreases s.len(),
{
    if s.len() == 0 {
        Seq::empty()
    } else if gc_keeps(s.last(), now) {
        gc_keep(s.drop_last(), now).push(s.last())
    } else {
        gc_keep(s.drop_last(), now)
    }
}

/// Everything garbage collection keeps was already a row.
proof fn lemma_gc_keep_mem(s: Seq<PeerSpec>, now: u64)
    ensures
        forall|j: int| 0 <= j < gc_keep(s, now).len() ==> s.contains(#[trigger] gc_keep(s, now)[j]),
    decreases s.len(),
{
    if s.len() > 0 {
        lemma_gc_keep_mem(s.drop_last(), now);
        assert forall|j: int| 0 <= j < gc_keep(s, now).len() implies s.contains(
            #[trigger] gc_keep(s, now)[j],
        ) by {
            let g = gc_keep(s, now);
            let gfront = gc_keep(s.drop_last(), now);
            if j < gfront.len() {
                assert(s.drop_last().contains(gfront[j]));
                let w = choose|w: int| 0 <= w < s.drop_last().len() && s.drop_last()[w] == gfront[j];
                assert(s[w] == gfront[j]);
            } else {
                assert(g[j] == s.last());
                assert(s[s.len() - 1] == s.last());
            }
        }
    }
}

/// A job the scheduler hands to a worker: dial direct, via the Tor
/// proxy, or via the I2P proxy.
pub enum NodeToScan {
    Ip { address: String, port: u16 },
    Tor { address: String, port: u16 },
    I2p { address: String, port: u16 },
}

/// The mathematical image of a scheduled job.
#[verifier::ext_equal]
pub enum NodeToScanSpec {
    Ip { address: Seq<char>, port: u16 },
    Tor { address: Seq<char>, port: u16 },
    I2p { address: Seq<char>, port: u16 },
}

impl View for NodeToScan {
    type V = NodeToScanSpec;

    open spec fn view(&self) -> NodeToScanSpec {
        match self {
            NodeToScan::Ip { address, port } => NodeToScanSpec::Ip { address: address@, port: *port },
            NodeToScan::Tor { address, port } => NodeToScanSpec::Tor {
                address: address@,
                port: *port,
            },
            NodeToScan::I2p { address, port } => NodeToScanSpec::I2p {
                address: address@,
                port: *port,
            },
        }
    }
}

/// The views of a list of jobs.
pub open spec fn scan_views(r: Seq<NodeToScan>) -> Seq<NodeToScanSpec> {
    r.map_values(|e: NodeToScan| e@)
}

/// A row the scheduler may pick: of a dialable kind, and due now or
/// never attempted.
pub open spec fn eligible_peer(p: PeerSpec, now: u64) -> bool {
    is_scannable_kind(p.kind) && (p.next_attempt_time is None || p.next_attempt_time->0 < now)
}

/// The scheduling key: rows never attempted come first.
pub open spec fn sched_key(p: PeerSpec) -> int {
    match p.next_attempt_time {
        None => -1,
        Some(t) => t as int,
    }
}

/// The job a row turns into, by its kind.
pub open spec fn scan_entry_of(p: PeerSpec) -> NodeToScanSpec {
    if p.kind == AddrKind::OnionV3 {
        NodeToScanSpec::Tor { address: p.address, port: p.port }
    } else if p.kind == AddrKind::I2p {
        NodeToScanSpec::I2p { address: p.address, port: p.port }
    } else {
        NodeToScanSpec::Ip { address: p.address, port: p.port }
    }
}

/// How many rows are eligible at this instant.
pub open spec fn count_eligible(s: Seq<PeerSpec>, now: u64) -> int
    decreases s.len(),
{
    if s.len() == 0 {
        0
    } else {
        count_eligible(s.drop_last(), now) + if eligible_peer(s.last(), now) {
            1int
        } else {
            0int
        }
    }
}

/// A sound selection: every job names an eligible row, no row twice, in
/// ascending key order.
pub open spec fn scan_selection_sound(
    s: Seq<PeerSpec>,
    now: u64,
    r: Seq<NodeToScanSpec>,
    ix: Seq<int>,
) -> bool {
    &&& ix.len() == r.len()
    &&& forall|k: int|
        0 <= k < ix.len() ==> 0 <= #[trigger] ix[k] < s.len() && eligible_peer(s[ix[k]], now)
            && r[k] == scan_entry_of(s[ix[k]])
    &&& forall|k1: int, k2: int|
        0 <= k1 < k2 < ix.len() ==> #[trigger] ix[k1] != #[trigger] ix[k2] && sched_key(s[ix[k1]])
            <= sched_key(s[ix[k2]])
}

/// What a correct selection looks like: sound, and taking the
/// earliest-due rows first — every eligible row left out keys at or
/// after every selected one.
pub open spec fn scan_selection_ok(
    s: Seq<PeerSpec>,
    now: u64,
    r: Seq<NodeToScanSpec>,
    ix: Seq<int>,
) -> bool {
    &&& scan_selection_sound(s, now, r, ix)
    &&& forall|p: int, k: int|
        0 <= p < s.len() && eligible_peer(s[p], now) && !ix.contains(p) && 0 <= k < ix.len()
            ==> sched_key(s[#[trigger] ix[k]]) <= #[trigger] sched_key(s[p])
}

/// Law: the scheduler never selects a peer whose next attempt still lies
/// in the future, nor one of a kind it cannot dial.
pub proof fn lemma_no_premature_selection(
    s: Seq<PeerSpec>,
    now: u64,
    r: Seq<NodeToScanSpec>,
    ix: Seq<int>,
    k: int,
)
    requires
        scan_selection_ok(s, now, r, ix),
        0 <= k < ix.len(),
    ensures
        s[ix[k]].next_attempt_time matches Some(t) ==> t < now,
        is_scannable_kind(s[ix[k]].kind),
{
}

/// Law: in a well-formed store every address is unique and matches its
/// declared kind's format.
pub proof fn lemma_store_addresses_unique(s: Seq<PeerSpec>)
    requires
        store_wf(s),
    ensures
        forall|i: int, j: int|
            0 <= i < j < s.len() ==> (#[trigger] s[i].address) != (#[trigger] s[j].address),
        forall|i: int| 0 <= i < s.len() ==> valid_addr_string(s[i].kind, (#[trigger] s[i]).address),
{
}

/// Whether a pair of the scheduler's work list is sorted by key.
pub open spec fn pairs_sorted(v: Seq<(u64, usize)>) -> bool {
    forall|i: int, j: int| 0 <= i < j < v.len() ==> (#[trigger] v[i]).0 <= (#[trigger] v[j]).0
}

/// Sorts key-index pairs by key, keeping exactly the same pairs.
fn sort_pairs(input: Vec<(u64, usize)>) -> (r: Vec<(u64, usize)>)
    ensures
        r@.to_multiset() == input@.to_multiset(),
        pairs_sorted(r@),
        r@.len() == input@.len(),
{
    broadcast use vstd::seq_lib::group_to_multiset_ensures;
    broadcast use vstd::multiset::group_multiset_axioms;

    let mut rem = input;
    let mut out: Vec<(u64, usize)> = Vec::new();
    let ghost inp = rem@;
    proof {
        assert(out@.to_multiset().add(rem@.to_multiset()) =~= inp.to_multiset());
    }
    while rem.len() > 0
        invariant
            out@.to_multiset().add(rem@.to_multiset()) == inp.to_multiset(),
            pairs_sorted(out@),
            forall|a: int, b: int|
                0 <= a < out@.len() && 0 <= b < rem@.len() ==> (#[trigger] out@[a]).0
                    <= (#[trigger] rem@[b]).0,
            out@.len() + rem@.len() == inp.len(),
        decreases rem@.len(),
    {
        let mut mi: usize = 0;
        let mut t: usize = 1;
        while t < rem.len()
            invariant
                rem@.len() > 0,
                mi < rem@.len(),
                t <= rem@.len(),
                forall|b: int| 0 <= b < t ==> (#[trigger] rem@[mi as int]).0 <= rem@[b].0,
            decreases rem@.len() - t,
        {
            if rem[t].0 < rem[mi].0 {
                mi = t;
            }
            t += 1;
        }
        let ghost rem_pre = rem@;
        let ghost out_pre = out@;
        let x = rem.remove(mi);
        out.push(x);
        proof {
            broadcast use vstd::seq_lib::group_to_multiset_ensures;
            broadcast use vstd::multiset::group_multiset_axioms;

            assert(rem@.to_multiset() =~= rem_pre.to_multiset().remove(x));
            assert(out@.to_multiset() =~= out_pre.to_multiset().insert(x));
            assert(rem_pre.contains(x)) by {
                assert(rem_pre[mi as int] == x);
            }
            assert(rem_pre.to_multiset().count(x) > 0);
            assert(out@.to_multiset().add(rem@.to_multiset()) =~= out_pre.to_multiset().add(
                rem_pre.to_multiset(),
            ));
            assert(forall|b: int|
                0 <= b < rem@.len() ==> exists|c: int|
                    0 <= c < rem_pre.len() && rem_pre[c] == #[trigger] rem@[b]);
        }
    }
    out
}

/// Some pair of the work list names this row.
pub open spec fn pair_listed(v: Seq<(u64, usize)>, p: int) -> bool {
    exists|kk: int| 0 <= kk < v.len() && (#[trigger] v[kk]).1 == p
}

/// A key-index pair drawn from an eligible row: the key orders rows by
/// next attempt, never-attempted first.
pub open spec fn pair_ok(s: Seq<PeerSpec>, now: u64, pr: (u64, usize)) -> bool {
    &&& pr.1 < s.len()
    &&& eligible_peer(s[pr.1 as int], now)
    &&& pr.0 == sched_key(s[pr.1 as int]) + 1
}

impl PeerStore {
    /// Picks up to `limit` eligible rows, ordered by next attempt time
    /// with never-attempted rows first, as jobs for the workers.
    pub fn get_nodes_to_scan(&self, limit: usize, now: u64) -> (r: Vec<NodeToScan>)
        requires
            store_wf(self@),
        ensures
            r@.len() <= limit,
            r@.len() == if count_eligible(self@, now) <= limit {
                count_eligible(self@, now)
            } else {
                limit as int
            },
            exists|ix: Seq<int>| scan_selection_ok(self@, now, scan_views(r@), ix),
    {
        let ghost s = self@;
        let mut pairs: Vec<(u64, usize)> = Vec::new();
        let mut i: usize = 0;
        proof {
            assert(s.take(0) =~= Seq::<PeerSpec>::empty());
        }
        while i < self.peers.len()
            invariant
                s == self@,
                store_wf(s),
                i <= s.len(),
                self@.len() == self.peers@.len(),
                pairs@.len() == count_eligible(s.take(i as int), now),
                forall|k: int| 0 <= k < pairs@.len() ==> pair_ok(s, now, #[trigger] pairs@[k]),
                forall|k: int| 0 <= k < pairs@.len() ==> (#[trigger] pairs@[k]).1 < i,
                forall|k1: int, k2: int|
                    0 <= k1 < k2 < pairs@.len() ==> (#[trigger] pairs@[k1]).1
                        < (#[trigger] pairs@[k2]).1,
                forall|pp: int|
                    0 <= pp < i && eligible_peer(s[pp], now) ==> #[trigger] pair_listed(pairs@, pp),
            decreases s.len() - i,
        {
            let p = &self.peers[i];
            proof {
                assert(p@ == s[i as int]);
                assert(s.take(i + 1 as int).drop_last() =~= s.take(i as int));
                assert(s.take(i + 1 as int).last() == s[i as int]);
            }
            let elig = crate::addr::scannable_kind(p.kind) && (match p.next_attempt_time {
                None => true,
                Some(t) => t < now,
            });
            let ghost pairs_pre = pairs@;
            if elig {
                let key: u64 = match p.next_attempt_time {
                    None => 0,
                    Some(t) => t + 1,
                };
                pairs.push((key, i));
            }
            proof {
                assert forall|pp: int|
                    0 <= pp < i + 1 && eligible_peer(s[pp], now) implies #[trigger] pair_listed(
                    pairs@,
                    pp,
                ) by {
                    if pp == i {
                        assert(pairs@[pairs@.len() - 1].1 == pp);
                    } else {
                        assert(pair_listed(pairs_pre, pp));
                        let kk = choose|kk: int|
                            0 <= kk < pairs_pre.len() && (#[trigger] pairs_pre[kk]).1 == pp;
                        assert(pairs@[kk].1 == pp);
                    }
                }
            }
            i += 1;
        }
        proof {
            assert(s.take(s.len() as int) =~= s);
        }
        let sorted = sort_pairs(pairs);
        proof {
            broadcast use vstd::seq_lib::group_to_multiset_ensures;

            assert(pairs@.no_duplicates()) by {
                assert(forall|k1: int, k2: int|
                    0 <= k1 < k2 < pairs@.len() ==> (#[trigger] pairs@[k1]).1
                        != (#[trigger] pairs@[k2]).1);
            }
            pairs@.lemma_multiset_has_no_duplicates();
            sorted@.lemma_multiset_has_no_duplicates_conv();
        }
        let mut out: Vec<NodeToScan> = Vec::new();
        let ghost mut ixg: Seq<int> = Seq::empty();
        let mut k: usize = 0;
        while k < sorted.len() && k < limit
            invariant
                s == self@,
                store_wf(s),
                self@.len() == self.peers@.len(),
                out@.len() == k,
                ixg.len() == k,
                k <= sorted@.len(),
                k <= limit,
                sorted@.len() == pairs@.len(),
                pairs_sorted(sorted@),
                sorted@.no_duplicates(),
                sorted@.to_multiset() == pairs@.to_multiset(),
                forall|kk: int| 0 <= kk < pairs@.len() ==> pair_ok(s, now, #[trigger] pairs@[kk]),
                forall|k1: int, k2: int|
                    0 <= k1 < k2 < pairs@.len() ==> (#[trigger] pairs@[k1]).1
                        < (#[trigger] pairs@[k2]).1,
                forall|kk: int|
                    0 <= kk < k ==> ixg[kk] == (#[trigger] sorted@[kk]).1 as int && pair_ok(
                        s,
                        now,
                        sorted@[kk],
                    ),
                scan_selection_sound(s, now, scan_views(out@), ixg),
            decreases sorted@.len() - k,
        {
            proof {
                broadcast use vstd::seq_lib::group_to_multiset_ensures;

                assert(sorted@.contains(sorted@[k as int])) by {
                    assert(sorted@[k as int] == sorted@[k as int]);
                }
                assert(pairs@.to_multiset().count(sorted@[k as int]) > 0);
                assert(pairs@.contains(sorted@[k as int]));
                let w = choose|w: int| 0 <= w < pairs@.len() && pairs@[w] == sorted@[k as int];
                assert(pair_ok(s, now, sorted@[k as int]));
            }
            let key = sorted[k].0;
            let idx = sorted[k].1;
            let p = &self.peers[idx];
            proof {
                assert(p@ == s[idx as int]);
            }
            let address = p.address.clone();
            let entry = if p.kind == AddrKind::OnionV3 {
                NodeToScan::Tor { address, port: p.port }
            } else if p.kind == AddrKind::I2p {
                NodeToScan::I2p { address, port: p.port }
            } else {
                NodeToScan::Ip { address, port: p.port }
            };
            let ghost out_pre = scan_views(out@);
            out.push(entry);
            proof {
                assert(entry@ == scan_entry_of(s[idx as int]));
                let ghost ix_pre = ixg;
                ixg = ixg.push(idx as int);
                assert(scan_views(out@) =~= out_pre.push(entry@));
                assert forall|k1: int| 0 <= k1 < k implies ixg[k1] != ixg[k as int] && sched_key(
                    s[ixg[k1]],
                ) <= sched_key(s[ixg[k as int]]) by {
                    assert(sorted@[k1].0 <= sorted@[k as int].0);
                    assert(pair_ok(s, now, sorted@[k1]));
                    if ixg[k1] == ixg[k as int] {
                        assert(sorted@[k1].1 == sorted@[k as int].1);
                        assert(pairs@.to_multiset().count(sorted@[k1]) > 0) by {
                            assert(sorted@.contains(sorted@[k1]));
                        }
                        assert(pairs@.contains(sorted@[k1]));
                        let w1 = choose|w: int| 0 <= w < pairs@.len() && pairs@[w] == sorted@[k1];
                        assert(pairs@.to_multiset().count(sorted@[k as int]) > 0) by {
                            assert(sorted@.contains(sorted@[k as int]));
                        }
                        assert(pairs@.contains(sorted@[k as int]));
                        let w2 = choose|w: int|
                            0 <= w < pairs@.len() && pairs@[w] == sorted@[k as int];
                        assert(w1 == w2) by {
                            if w1 < w2 {
                                assert(pairs@[w1].1 < pairs@[w2].1);
                            }
                            if w2 < w1 {
                                assert(pairs@[w2].1 < pairs@[w1].1);
                            }
                        }
                        assert(sorted@[k1] == sorted@[k as int]);
                        assert(false);
                    }
                }
                assert(scan_selection_sound(s, now, scan_views(out@), ixg));
            }
            k += 1;
        }
        proof {
            if count_eligible(s, now) <= limit {
                assert(k == sorted@.len());
            } else {
                assert(k == limit);
            }
            broadcast use vstd::seq_lib::group_to_multiset_ensures;

            assert forall|pp: int, kk: int|
                0 <= pp < s.len() && eligible_peer(s[pp], now) && !ixg.contains(pp) && 0 <= kk
                    < ixg.len() implies sched_key(s[#[trigger] ixg[kk]]) <= #[trigger] sched_key(
                s[pp],
            ) by {
                assert(pair_listed(pairs@, pp));
                let w = choose|w: int| 0 <= w < pairs@.len() && (#[trigger] pairs@[w]).1 == pp;
                assert(pair_ok(s, now, pairs@[w]));
                assert(pairs@[w].0 == sched_key(s[pp]) + 1);
                assert(pairs@.contains(pairs@[w]));
                assert(sorted@.to_multiset().count(pairs@[w]) > 0);
                assert(sorted@.contains(pairs@[w]));
                let q = choose|q: int| 0 <= q < sorted@.len() && sorted@[q] == pairs@[w];
                if q < ixg.len() {
                    assert(ixg[q] == sorted@[q].1 as int);
                    assert(ixg[q] == pp);
                    assert(ixg.contains(pp));
                    assert(false);
                }
                assert(kk < q);
                assert(sorted@[kk].0 <= sorted@[q].0);
                assert(pair_ok(s, now, sorted@[kk]));
                assert(sorted@[kk].0 == sched_key(s[ixg[kk]]) + 1);
            }
            assert(scan_selection_ok(s, now, scan_views(out@), ixg));
        }
        out
    }
}

/// A seed endpoint resolved by the caller: plain numeric address parts
/// and a port.
pub enum SeedEndpoint {
    V4 { a: u8, b: u8, c: u8, d: u8, port: u16 },
    V6 { groups: Vec<u16>, port: u16 },
}

/// The mathematical image of a seed endpoint.
#[verifier::ext_equal]
pub enum SeedEndpointSpec {
    V4 { a: u8, b: u8, c: u8, d: u8, port: u16 },
    V6 { groups: Seq<u16>, port: u16 },
}

impl View for SeedEndpoint {
    type V = SeedEndpointSpec;

    open spec fn view(&self) -> SeedEndpointSpec {
        match self {
            SeedEndpoint::V4 { a, b, c, d, port } => SeedEndpointSpec::V4 {
                a: *a,
                b: *b,
                c: *c,
                d: *d,
                port: *port,
            },
            SeedEndpoint::V6 { groups, port } => SeedEndpointSpec::V6 {
                groups: groups@,
                port: *port,
            },
        }
    }
}

/// A seed endpoint is well formed with eight groups for the V6 case.
pub open spec fn seed_wf(e: SeedEndpointSpec) -> bool {
    match e {
        SeedEndpointSpec::V4 { .. } => true,
        SeedEndpointSpec::V6 { groups, .. } => groups.len() == 8,
    }
}

/// The kind a seed endpoint is stored under.
pub open spec fn seed_kind(e: SeedEndpointSpec) -> AddrKind {
    match e {
        SeedEndpointSpec::V4 { .. } => AddrKind::Ipv4,
        SeedEndpointSpec::V6 { .. } => AddrKind::Ipv6,
    }
}

/// The canonical text a seed endpoint is stored under.
pub open spec fn seed_addr(e: SeedEndpointSpec) -> Seq<char> {
    match e {
        SeedEndpointSpec::V4 { a, b, c, d, .. } => crate::addr::ipv4_str(a, b, c, d),
        SeedEndpointSpec::V6 { groups, .. } => crate::addr::ipv6_str(groups),
    }
}

/// The port a seed endpoint is stored under.
pub open spec fn seed_port(e: SeedEndpointSpec) -> u16 {
    match e {
        SeedEndpointSpec::V4 { port, .. } => port,
        SeedEndpointSpec::V6 { port, .. } => port,
    }
}

/// A whole run of seed upserts, applied front to back with empty
/// services.
pub open spec fn seed_spec(s: Seq<PeerSpec>, es: Seq<SeedEndpointSpec>, now: u64) -> Seq<PeerSpec>
    decreases es.len(),
{
    if es.len() == 0 {
        s
    } else {
        seed_spec(
            upsert_spec(s, seed_kind(es[0]), seed_addr(es[0]), seed_port(es[0]), Seq::empty(), now),
            es.skip(1),
            now,
        )
    }
}

/// A row the enrichment collaborator still has to fill in.
pub open spec fn ipinfo_pred(p: PeerSpec) -> bool {
    (p.kind == AddrKind::Ipv4 || p.kind == AddrKind::Ipv6) && p.country is None
}

/// The first up-to-`room` addresses from `i` on that await enrichment.
pub open spec fn ipinfo_from(s: Seq<PeerSpec>, i: int, room: int) -> Seq<Seq<char>>
    decreases s.len() - i,
{
    if i < 0 || i >= s.len() || room <= 0 {
        Seq::empty()
    } else if ipinfo_pred(s[i]) {
        seq![s[i].address] + ipinfo_from(s, i + 1, room - 1)
    } else {
        ipinfo_from(s, i + 1, room)
    }
}

/// A row the legacy Tor pass rescans: an onion peer not marked
/// unreachable whose last scan is absent or outside the garbage window.
pub open spec fn tor_choice_pred(p: PeerSpec, now: u64) -> bool {
    &&& is_onion_kind(p.kind)
    &&& p.incoming != Some(false)
    &&& (p.scanned is None || p.scanned->0 + GC_WINDOW_SECS < now)
}

/// The first row from `i` on that the Tor pass would rescan, or -1.
pub open spec fn chosen_tor_from(s: Seq<PeerSpec>, now: u64, i: int) -> int
    decreases s.len() - i,
{
    if i < 0 || i >= s.len() {
        -1
    } else if tor_choice_pred(s[i], now) {
        i
    } else {
        chosen_tor_from(s, now, i + 1)
    }
}

/// The reachable-row families the statistics report on.
#[derive(Clone, Copy, PartialEq, Eq, Structural, Debug)]
pub enum RowFilter {
    Incoming,
    Ipv4,
    Ipv6,
    Tor,
}

/// Whether a filter admits a row: all count only peers marked reachable.
pub open spec fn row_matches(p: PeerSpec, f: RowFilter) -> bool {
    p.incoming == Some(true) && match f {
        RowFilter::Incoming => true,
        RowFilter::Ipv4 => p.kind == AddrKind::Ipv4,
        RowFilter::Ipv6 => p.kind == AddrKind::Ipv6,
        RowFilter::Tor => is_onion_kind(p.kind),
    }
}

/// How many rows a filter admits.
pub open spec fn count_rows(s: Seq<PeerSpec>, f: RowFilter) -> int
    decreases s.len(),
{
    if s.len() == 0 {
        0
    } else {
        count_rows(s.drop_last(), f) + if row_matches(s.last(), f) {
            1int
        } else {
            0int
        }
    }
}

/// A row projected for callers that list or look up peers.
pub struct NodeInfo {
    pub address: String,
    pub soft: Option<String>,
    pub country: Option<String>,
    pub detected: u64,
}

/// A row after geographic enrichment.
pub open spec fn ipinfo_update(
    p: PeerSpec,
    country: Seq<char>,
    city: Seq<char>,
    isp: Seq<char>,
    asn: Seq<char>,
) -> PeerSpec {
    PeerSpec { country: Some(country), city: Some(city), isp: Some(isp), asn: Some(asn), ..p }
}

impl PeerStore {
    /// Upserts every resolved seed endpoint, with empty services.
    pub fn seed_nodes(&mut self, endpoints: &Vec<SeedEndpoint>, now: u64)
        requires
            store_wf(old(self)@),
            forall|i: int| 0 <= i < endpoints@.len() ==> seed_wf(#[trigger] endpoints@[i]@),
        ensures
            store_wf(final(self)@),
            final(self)@ =~= seed_spec(
                old(self)@,
                endpoints@.map_values(|e: SeedEndpoint| e@),
                now,
            ),
    {
        let ghost s0 = self@;
        let ghost esv = endpoints@.map_values(|e: SeedEndpoint| e@);
        proof {
            assert(esv.skip(0) =~= esv);
        }
        let mut k: usize = 0;
        while k < endpoints.len()
            invariant
                k <= endpoints@.len(),
                esv == endpoints@.map_values(|e: SeedEndpoint| e@),
                forall|i: int| 0 <= i < endpoints@.len() ==> seed_wf(#[trigger] endpoints@[i]@),
                store_wf(self@),
                seed_spec(s0, esv, now) == seed_spec(self@, esv.skip(k as int), now),
            decreases endpoints@.len() - k,
        {
            let ghost pre = self@;
            proof {
                assert(seed_wf(endpoints@[k as int]@));
                reveal_strlit("");
                assert(""@ =~= Seq::<char>::empty());
                crate::addr::lemma_tag_kind_roundtrip(AddrKind::Ipv4);
                crate::addr::lemma_tag_kind_roundtrip(AddrKind::Ipv6);
            }
            let e = &endpoints[k];
            match e {
                SeedEndpoint::V4 { a, b, c, d, port } => {
                    let addr = crate::addr::format_ipv4(*a, *b, *c, *d);
                    proof {
                        assert(valid_addr_string(AddrKind::Ipv4, addr@));
                    }
                    self.upsert_addrv2_node(kind_tag(AddrKind::Ipv4), addr.as_str(), *port, "", now);
                },
                SeedEndpoint::V6 { groups, port } => {
                    let addr = crate::addr::format_ipv6(groups.as_slice());
                    proof {
                        assert(groups@.len() == 8 && addr@ == crate::addr::ipv6_str(groups@));
                        assert(valid_addr_string(AddrKind::Ipv6, addr@));
                    }
                    self.upsert_addrv2_node(kind_tag(AddrKind::Ipv6), addr.as_str(), *port, "", now);
                },
            }
            proof {
                let rest = esv.skip(k as int);
                assert(rest[0] == esv[k as int]);
                assert(rest.skip(1) =~= esv.skip(k + 1 as int));
                assert(self@ =~= upsert_spec(
                    pre,
                    seed_kind(rest[0]),
                    seed_addr(rest[0]),
                    seed_port(rest[0]),
                    Seq::empty(),
                    now,
                ));
                assert(seed_spec(pre, rest, now) == seed_spec(
                    upsert_spec(
                        pre,
                        seed_kind(rest[0]),
                        seed_addr(rest[0]),
                        seed_port(rest[0]),
                        Seq::empty(),
                        now,
                    ),
                    rest.skip(1),
                    now,
                ));
            }
            k += 1;
        }
        proof {
            assert(esv.skip(endpoints@.len() as int) =~= Seq::<SeedEndpointSpec>::empty());
            assert(seed_spec(self@, Seq::<SeedEndpointSpec>::empty(), now) == self@);
        }
    }

    /// The address of the first onion row due a legacy rescan, or the
    /// empty string when none is.
    pub fn the_chosen_tor(&self, now: u64) -> (r: String)
        ensures
            chosen_tor_from(self@, now, 0) == -1 ==> r@ == Seq::<char>::empty(),
            chosen_tor_from(self@, now, 0) >= 0 ==> r@ == self@[chosen_tor_from(
                self@,
                now,
                0,
            )].address,
    {
        let ghost s = self@;
        let n = self.peers.len();
        let mut i: usize = 0;
        while i < n
            invariant
                i <= n,
                n == self@.len(),
                s == self@,
                n == self.peers@.len(),
                chosen_tor_from(s, now, 0) == chosen_tor_from(s, now, i as int),
            decreases n - i,
        {
            let p = &self.peers[i];
            let not_unreachable = match p.incoming {
                Some(flag) => flag,
                None => true,
            };
            let scan_due = match p.scanned {
                None => true,
                Some(sc) => now >= GC_WINDOW_SECS && sc < now - GC_WINDOW_SECS,
            };
            if crate::addr::onion_kind(p.kind) && not_unreachable && scan_due {
                proof {
                    assert(tor_choice_pred(s[i as int], now));
                }
                return p.address.clone();
            }
            proof {
                assert(!tor_choice_pred(s[i as int], now));
            }
            i += 1;
        }
        let empty = String::new();
        proof {
            assert(empty@ =~= Seq::<char>::empty());
        }
        empty
    }

    /// The addresses of up to two thousand rows awaiting enrichment, in
    /// store order.
    pub fn ip_info_list(&self) -> (r: Vec<String>)
        ensures
            r@.map_values(|a: String| a@) == ipinfo_from(self@, 0, 2000),
    {
        let ghost s = self@;
        let mut out: Vec<String> = Vec::new();
        let mut i: usize = 0;
        let mut room: usize = 2000;
        proof {
            assert(out@.map_values(|a: String| a@) =~= Seq::<Seq<char>>::empty());
        }
        while i < self.peers.len() && room > 0
            invariant
                s == self@,
                i <= s.len(),
                s.len() == self.peers@.len(),
                room <= 2000,
                ipinfo_from(s, 0, 2000) == out@.map_values(|a: String| a@) + ipinfo_from(
                    s,
                    i as int,
                    room as int,
                ),
            decreases s.len() - i,
        {
            let p = &self.peers[i];
            let ghost out_pre = out@.map_values(|a: String| a@);
            let is_ip = p.kind == AddrKind::Ipv4 || p.kind == AddrKind::Ipv6;
            let missing = match p.country {
                None => true,
                Some(_) => false,
            };
            if is_ip && missing {
                out.push(p.address.clone());
                room -= 1;
                proof {
                    assert(ipinfo_pred(s[i as int]));
                    assert(out@.map_values(|a: String| a@) =~= out_pre.push(s[i as int].address));
                    assert(ipinfo_from(s, i as int, room + 1 as int) == seq![s[i as int].address]
                        + ipinfo_from(s, i + 1 as int, room as int));
                    assert(out_pre + (seq![s[i as int].address] + ipinfo_from(
                        s,
                        i + 1 as int,
                        room as int,
                    )) =~= out_pre.push(s[i as int].address) + ipinfo_from(
                        s,
                        i + 1 as int,
                        room as int,
                    ));
                }
            } else {
                proof {
                    assert(!ipinfo_pred(s[i as int]));
                }
            }
            i += 1;
        }
        proof {
            assert(ipinfo_from(s, i as int, room as int) =~= Seq::<Seq<char>>::empty());
            assert(out@.map_values(|a: String| a@) + Seq::<Seq<char>>::empty() =~= out@.map_values(
                |a: String| a@,
            ));
        }
        out
    }

    /// How many rows the store holds.
    pub fn get_total_nodes_count(&self) -> (r: usize)
        ensures
            r == self@.len(),
    {
        self.peers.len()
    }

    /// How many rows are known reachable.
    pub fn get_incoming_nodes_count(&self) -> (r: usize)
        ensures
            r == count_rows(self@, RowFilter::Incoming),
    {
        self.count_filtered(RowFilter::Incoming)
    }

    /// How many reachable rows are IPv4.
    pub fn get_ipv4_nodes_count(&self) -> (r: usize)
        ensures
            r == count_rows(self@, RowFilter::Ipv4),
    {
        self.count_filtered(RowFilter::Ipv4)
    }

    /// How many reachable rows are IPv6.
    pub fn get_ipv6_nodes_count(&self) -> (r: usize)
        ensures
            r == count_rows(self@, RowFilter::Ipv6),
    {
        self.count_filtered(RowFilter::Ipv6)
    }

    /// How many reachable rows are onion services.
    pub fn get_tor_nodes_count(&self) -> (r: usize)
        ensures
            r == count_rows(self@, RowFilter::Tor),
    {
        self.count_filtered(RowFilter::Tor)
    }

    /// Counts the rows a filter admits.
    fn count_filtered(&self, f: RowFilter) -> (r: usize)
        ensures
            r == count_rows(self@, f),
    {
        let ghost s = self@;
        let mut n: usize = 0;
        let mut i: usize = 0;
        proof {
            assert(s.take(0) =~= Seq::<PeerSpec>::empty());
        }
        while i < self.peers.len()
            invariant
                s == self@,
                i <= s.len(),
                s.len() == self.peers@.len(),
                n == count_rows(s.take(i as int), f),
                n <= i,
            decreases s.len() - i,
        {
            let p = &self.peers[i];
            proof {
                assert(s.take(i + 1 as int).drop_last() =~= s.take(i as int));
                assert(s.take(i + 1 as int).last() == s[i as int]);
            }
            let reachable = match p.incoming {
                Some(flag) => flag,
                None => false,
            };
            let hit = match f {
                RowFilter::Incoming => reachable,
                RowFilter::Ipv4 => reachable && p.kind == AddrKind::Ipv4,
                RowFilter::Ipv6 => reachable && p.kind == AddrKind::Ipv6,
                RowFilter::Tor => reachable && crate::addr::onion_kind(p.kind),
            };
            if hit {
                n += 1;
            }
            i += 1;
        }
        proof {
            assert(s.take(s.len() as int) =~= s);
        }
        n
    }

    /// Looks a row up by its exact address.
    pub fn find_node_by_address(&self, address: &str) -> (r: Option<NodeInfo>)
        ensures
            find_peer(self@, address@) == -1 ==> r is None,
            find_peer(self@, address@) >= 0 ==> (r matches Some(n) && n.address@ == self@[find_peer(
                self@,
                address@,
            )].address && opt_str_view(n.soft) == self@[find_peer(self@, address@)].soft
                && opt_str_view(n.country) == self@[find_peer(self@, address@)].country
                && n.detected == self@[find_peer(self@, address@)].detected),
    {
        match find_index(&self.peers, address) {
            None => None,
            Some(i) => {
                let p = &self.peers[i];
                let soft = match &p.soft {
                    Some(x) => Some(x.clone()),
                    None => None,
                };
                let country = match &p.country {
                    Some(x) => Some(x.clone()),
                    None => None,
                };
                Some(
                    NodeInfo {
                        address: p.address.clone(),
                        soft,
                        country,
                        detected: p.detected,
                    },
                )
            },
        }
    }

    /// A copy of the full row holding an address, for callers that audit
    /// the accounting.
    pub fn peer_row(&self, address: &str) -> (r: Option<Peer>)
        ensures
            find_peer(self@, address@) == -1 ==> r is None,
            find_peer(self@, address@) >= 0 ==> (r matches Some(p) && p@ == self@[find_peer(
                self@,
                address@,
            )]),
    {
        match find_index(&self.peers, address) {
            None => None,
            Some(i) => {
                let p = &self.peers[i];
                let row = Peer {
                    address: p.address.clone(),
                    kind: p.kind,
                    port: p.port,
                    services: p.services.clone(),
                    added: p.added,
                    detected: p.detected,
                    scanned: p.scanned,
                    soft: clone_opt(&p.soft),
                    protocol_version: p.protocol_version,
                    start_height: p.start_height,
                    relay: p.relay,
                    incoming: p.incoming,
                    consecutive_failures: p.consecutive_failures,
                    reliability_score: p.reliability_score,
                    next_attempt_time: p.next_attempt_time,
                    country: clone_opt(&p.country),
                    city: clone_opt(&p.city),
                    isp: clone_opt(&p.isp),
                    asn: clone_opt(&p.asn),
                };
                proof {
                    assert(row@ =~= self@[find_peer(self@, address@)]);
                }
                Some(row)
            },
        }
    }

    /// Records geographic enrichment for an address.
    pub fn update_ip_info(&mut self, ip: &str, country: &str, city: &str, isp: &str, asn: &str)
        requires
            store_wf(old(self)@),
        ensures
            store_wf(final(self)@),
            find_peer(old(self)@, ip@) == -1 ==> final(self)@ =~= old(self)@,
            find_peer(old(self)@, ip@) >= 0 ==> final(self)@ =~= old(self)@.update(
                find_peer(old(self)@, ip@),
                ipinfo_update(old(self)@[find_peer(old(self)@, ip@)], country@, city@, isp@, asn@),
            ),
    {
        let ghost s0 = self@;
        proof {
            lemma_find_from(s0, ip@, 0);
        }
        match find_index(&self.peers, ip) {
            None => {
                proof {
                    assert(self@ =~= s0);
                }
            },
            Some(i) => {
                let mut p = self.peers.remove(i);
                p.country = Some(country.to_owned());
                p.city = Some(city.to_owned());
                p.isp = Some(isp.to_owned());
                p.asn = Some(asn.to_owned());
                self.peers.insert(i, p);
                proof {
                    assert(self@ =~= s0.update(
                        i as int,
                        ipinfo_update(s0[i as int], country@, city@, isp@, asn@),
                    ));
                    assert(store_wf(self@));
                }
            },
        }
    }
}

/// Garbage collection keeps the store well formed.
proof fn lemma_gc_keep_wf(s: Seq<PeerSpec>, now: u64)
    requires
        store_wf(s),
    ensures
        store_wf(gc_keep(s, now)),
    decreases s.len(),
{
    if s.len() > 0 {
        assert(store_wf(s.drop_last())) by {
            assert(forall|i: int|
                0 <= i < s.drop_last().len() ==> #[trigger] s.drop_last()[i] == s[i]);
        }
        lemma_gc_keep_wf(s.drop_last(), now);
        lemma_gc_keep_mem(s.drop_last(), now);
        if gc_keeps(s.last(), now) {
            let gfront = gc_keep(s.drop_last(), now);
            assert forall|i: int| 0 <= i < gfront.len() implies gfront[i].address != s.last().address
            by {
                assert(s.drop_last().contains(gfront[i]));
                let w = choose|w: int|
                    0 <= w < s.drop_last().len() && s.drop_last()[w] == gfront[i];
                assert(s[w] == gfront[i]);
                assert(s[w].address != s[s.len() - 1].address);
            }
            assert(peer_wf(s.last())) by {
                assert(s[s.len() - 1] == s.last());
            }
        }
    }
}

} // verus!
