//! The AddrV2 ingest pipeline: timestamp admission control, variant
//! decode, port defaulting, in-message deduplication, chunking, and the
//! deadlock-retry policy around batch writes.
use vstd::prelude::*;

use crate::addr::{
    addrv2_to_address, bytes_to_groups, ipv4_str, ipv6_str, kind_tag_str, lemma_tag_kind_roundtrip,
    tag_kind, torv3_full, AddrKind,
};
use crate::codec::{AddrV2Entry, AddrV2EntrySpec};
use crate::crypto::base32_lower_of;
use crate::store::{discovered_wf, DiscoveredNode, DiscoveredNodeSpec, PeerStore};
use crate::text::{dec_str, digit_str, str_eq};

verus! {

/// Entries stamped further than this many seconds ahead are adversarial.
pub const MAX_FUTURE_SECS: u32 = 3600;

/// Entries stamped at most this many seconds ahead count as now.
pub const NEAR_FUTURE_SECS: u32 = 600;

/// Entries older than this many seconds are stale.
pub const STALE_SECS: u32 = 172800;

/// How many rows one batch write carries.
pub const BATCH_CHUNK_SIZE: usize = 50;

/// How often a deadlocked batch write is attempted in all.
pub const BATCH_RETRY_LIMIT: u32 = 3;

/// The verdict on one entry's timestamp.
#[derive(Clone, Copy, PartialEq, Eq, Structural, Debug)]
pub enum TimeFilter {
    /// Stamped too far ahead: an attack, the entry writes no row.
    Attack,
    /// Last seen too long ago: dropped.
    Stale,
    /// Admitted, with the effective timestamp after clamping.
    Keep { effective: u32 },
}

/// A near-future stamp counts as now; anything else stands.
pub open spec fn effective_time(t: u32, now: u32) -> u32 {
    if now < t && t <= now + NEAR_FUTURE_SECS {
        now
    } else {
        t
    }
}

/// The admission rule: reject far-future stamps, clamp near-future ones,
/// then drop entries whose effective stamp is stale.
pub open spec fn spec_filter_time(t: u32, now: u32) -> TimeFilter {
    if t > now + MAX_FUTURE_SECS {
        TimeFilter::Attack
    } else {
        let eff = effective_time(t, now);
        if eff + STALE_SECS < now {
            TimeFilter::Stale
        } else {
            TimeFilter::Keep { effective: eff }
        }
    }
}

/// Applies the timestamp admission rule.
pub fn filter_time(t: u32, now: u32) -> (r: TimeFilter)
    ensures
        r == spec_filter_time(t, now),
{
    if t > MAX_FUTURE_SECS && t - MAX_FUTURE_SECS > now {
        TimeFilter::Attack
    } else {
        let eff = if now < t && t - now <= NEAR_FUTURE_SECS {
            now
        } else {
            t
        };
        if now > STALE_SECS && eff < now - STALE_SECS {
            TimeFilter::Stale
        } else {
            TimeFilter::Keep { effective: eff }
        }
    }
}

/// The stored port: gossip often reports zero for networks with implied
/// ports, where the default Bitcoin port is substituted.
pub open spec fn spec_default_port(port: u16, kind: AddrKind) -> u16 {
    if port == 0 && (kind == AddrKind::I2p || kind == AddrKind::OnionV2) {
        8333
    } else {
        port
    }
}

/// Applies the port defaulting rule.
pub fn default_port(port: u16, kind: AddrKind) -> (r: u16)
    ensures
        r == spec_default_port(port, kind),
{
    if port == 0 && (kind == AddrKind::I2p || kind == AddrKind::OnionV2) {
        8333
    } else {
        port
    }
}

/// The kind an AddrV2 network id decodes to; meaningful only for known
/// ids.
pub open spec fn entry_kind(id: u8) -> AddrKind {
    if id == 1 {
        AddrKind::Ipv4
    } else if id == 2 {
        AddrKind::Ipv6
    } else if id == 3 {
        AddrKind::OnionV2
    } else if id == 4 {
        AddrKind::OnionV3
    } else if id == 5 {
        AddrKind::I2p
    } else if id == 6 {
        AddrKind::Cjdns
    } else {
        AddrKind::Yggdrasil
    }
}

/// The canonical text an AddrV2 entry's address decodes to; meaningful
/// only for known id and length pairs.
pub open spec fn entry_addr_text(id: u8, b: Seq<u8>) -> Seq<char> {
    if id == 1 {
        ipv4_str(b[0], b[1], b[2], b[3])
    } else if id == 2 || id == 6 || id == 7 {
        ipv6_str(bytes_to_groups(b))
    } else if id == 3 {
        base32_lower_of(b) + ".onion"@
    } else if id == 4 {
        base32_lower_of(torv3_full(b)) + ".onion"@
    } else {
        base32_lower_of(b) + ".b32.i2p"@
    }
}

/// The row one gossip entry yields: nothing for refused timestamps or
/// unknown variants, else its tag, canonical text, defaulted port and
/// decimal services.
#[verifier::opaque]
pub open spec fn entry_node(e: AddrV2EntrySpec, now: u32) -> Option<DiscoveredNodeSpec> {
    if !(spec_filter_time(e.time, now) matches TimeFilter::Keep { .. }) {
        None
    } else if !crate::addr::addrv2_known(e.network_id, e.addr.len()) {
        None
    } else {
        Some(
            DiscoveredNodeSpec {
                addr_type: kind_tag_str(entry_kind(e.network_id)),
                addr_str: entry_addr_text(e.network_id, e.addr),
                port: spec_default_port(e.port, entry_kind(e.network_id)),
                services: dec_str(e.services as nat),
            },
        )
    }
}

/// Renders a services bitset in decimal.
pub fn dec_u64(n: u64) -> (r: String)
    ensures
        r@ == dec_str(n as nat),
    decreases n,
{
    if n < 10 {
        let s = String::from_str(digit_str(n as u8));
        proof {
            assert(s@ =~= dec_str(n as nat));
        }
        s
    } else {
        let mut s = dec_u64(n / 10);
        s.append(digit_str((n % 10) as u8));
        proof {
            assert(s@ =~= dec_str(n as nat));
        }
        s
    }
}

/// Decodes one gossip entry into a pending row, applying the timestamp
/// and port rules.
fn decode_entry(e: &AddrV2Entry, now: u32) -> (r: Option<DiscoveredNode>)
    ensures
        r is None ==> entry_node(e@, now) is None,
        r matches Some(n) ==> entry_node(e@, now) == Some(n@) && discovered_wf(n@),
{
    let verdict = filter_time(e.time, now);
    let keep = match verdict {
        TimeFilter::Keep { .. } => true,
        _ => false,
    };
    proof {
        reveal(entry_node);
    }
    if !keep {
        return None;
    }
    match addrv2_to_address(e.network_id, e.addr.as_slice()) {
        None => None,
        Some(t) => {
            let ghost t_type = t.address_type@;
            let ghost t_addr = t.address@;
            let kind = match crate::addr::parse_kind_tag(t.address_type.as_str()) {
                Some(k) => k,
                None => {
                    proof {
                        assert(false);
                    }
                    AddrKind::Ipv4
                },
            };
            let node = DiscoveredNode {
                addr_type: t.address_type,
                addr_str: t.address,
                port: default_port(e.port, kind),
                services: dec_u64(e.services),
            };
            proof {
                assert(entry_kind(e@.network_id) == kind) by {
                    lemma_tag_kind_roundtrip(AddrKind::Ipv4);
                    lemma_tag_kind_roundtrip(AddrKind::Ipv6);
                    lemma_tag_kind_roundtrip(AddrKind::OnionV2);
                    lemma_tag_kind_roundtrip(AddrKind::OnionV3);
                    lemma_tag_kind_roundtrip(AddrKind::I2p);
                    lemma_tag_kind_roundtrip(AddrKind::Cjdns);
                    lemma_tag_kind_roundtrip(AddrKind::Yggdrasil);
                }
                assert(entry_node(e@, now) == Some(node@));
                assert(discovered_wf(node@)) by {
                    let kx = choose|kx: AddrKind|
                        t_type == #[trigger] kind_tag_str(kx) && crate::addr::valid_addr_string(
                            kx,
                            t_addr,
                        );
                    lemma_tag_kind_roundtrip(kx);
                }
            }
            Some(node)
        },
    }
}

/// Some admitted entry before position `i` yields exactly this row.
pub open spec fn witnessed(
    entries: Seq<AddrV2EntrySpec>,
    now: u32,
    i: int,
    n: DiscoveredNodeSpec,
) -> bool {
    exists|w: int| 0 <= w < i && entry_node(#[trigger] entries[w], now) == Some(n)
}

/// Some row carries the address of this admitted entry's node.
pub open spec fn addr_covered(
    out: Seq<DiscoveredNodeSpec>,
    n: DiscoveredNodeSpec,
) -> bool {
    exists|k: int| 0 <= k < out.len() && (#[trigger] out[k]).addr_str == n.addr_str
}

/// The last entry before position `i` that is admitted and yields this
/// address, or -1.
pub open spec fn last_admitted_with(
    entries: Seq<AddrV2EntrySpec>,
    now: u32,
    a: Seq<char>,
    i: int,
) -> int
    decreases i,
{
    if i <= 0 {
        -1
    } else if entry_node(entries[i - 1], now) matches Some(n) && n.addr_str == a {
        i - 1
    } else {
        last_admitted_with(entries, now, a, i - 1)
    }
}

/// The row carries exactly the fields of the last admitted entry with
/// its address among the first `i` entries: on duplicates, the last
/// occurrence wins.
pub open spec fn last_wins(
    entries: Seq<AddrV2EntrySpec>,
    now: u32,
    i: int,
    n: DiscoveredNodeSpec,
) -> bool {
    let li = last_admitted_with(entries, now, n.addr_str, i);
    &&& li >= 0
    &&& entry_node(entries[li], now) == Some(n)
}

/// The views of pending rows.
pub open spec fn node_views(out: Seq<DiscoveredNode>) -> Seq<DiscoveredNodeSpec> {
    out.map_values(|n: DiscoveredNode| n@)
}

/// The views of gossip entries.
pub open spec fn entry_views(es: Seq<AddrV2Entry>) -> Seq<AddrV2EntrySpec> {
    es.map_values(|e: AddrV2Entry| e@)
}

/// Merges one decoded row into the output, the last occurrence of an
/// address winning; the selection bookkeeping rides along as ghosts.
fn merge_node(
    out: &mut Vec<DiscoveredNode>,
    node: DiscoveredNode,
    now: u32,
    Ghost(entries): Ghost<Seq<AddrV2EntrySpec>>,
    Ghost(i): Ghost<int>,
)
    requires
        0 <= i < entries.len(),
        entry_node(entries[i], now) == Some(node@),
        discovered_wf(node@),
        forall|k: int| 0 <= k < old(out)@.len() ==> discovered_wf(#[trigger] old(out)@[k]@),
        forall|k1: int, k2: int|
            0 <= k1 < k2 < old(out)@.len() ==> (#[trigger] old(out)@[k1]@).addr_str
                != (#[trigger] old(out)@[k2]@).addr_str,
        forall|k: int|
            0 <= k < old(out)@.len() ==> #[trigger] witnessed(entries, now, i, old(out)@[k]@),
        forall|w: int|
            0 <= w < i && (#[trigger] entry_node(entries[w], now)) is Some ==> addr_covered(
                node_views(old(out)@),
                entry_node(entries[w], now)->Some_0,
            ),
        forall|k: int|
            0 <= k < old(out)@.len() ==> #[trigger] last_wins(entries, now, i, old(out)@[k]@),
    ensures
        forall|k: int| 0 <= k < final(out)@.len() ==> discovered_wf(#[trigger] final(out)@[k]@),
        forall|k1: int, k2: int|
            0 <= k1 < k2 < final(out)@.len() ==> (#[trigger] final(out)@[k1]@).addr_str
                != (#[trigger] final(out)@[k2]@).addr_str,
        forall|k: int|
            0 <= k < final(out)@.len() ==> #[trigger] witnessed(entries, now, i + 1, final(out)@[k]@),
        forall|w: int|
            0 <= w < i + 1 && (#[trigger] entry_node(entries[w], now)) is Some ==> addr_covered(
                node_views(final(out)@),
                entry_node(entries[w], now)->Some_0,
            ),
        forall|k: int|
            0 <= k < final(out)@.len() ==> #[trigger] last_wins(entries, now, i + 1, final(out)@[k]@),
{
    let ghost out_pre = out@;
    match find_node_index(out, node.addr_str.as_str()) {
        Some(k) => {
            out.remove(k);
            out.insert(k, node);
            proof {
                assert(out@ =~= out_pre.update(k as int, out@[k as int]));
                assert(out@[k as int]@.addr_str == out_pre[k as int]@.addr_str);
                assert forall|kk: int| 0 <= kk < out@.len() implies #[trigger] witnessed(
                    entries,
                    now,
                    i + 1,
                    out@[kk]@,
                ) by {
                    if kk == k {
                        assert(entry_node(entries[i], now) == Some(out@[kk]@));
                    } else {
                        assert(out@[kk] == out_pre[kk]);
                        assert(witnessed(entries, now, i, out_pre[kk]@));
                        let w = choose|w: int|
                            0 <= w < i && entry_node(#[trigger] entries[w], now) == Some(
                                out_pre[kk]@,
                            );
                        assert(entry_node(entries[w], now) == Some(out@[kk]@));
                    }
                }
                assert forall|w: int|
                    0 <= w < i + 1 && (#[trigger] entry_node(entries[w], now))
                        is Some implies addr_covered(
                    node_views(out@),
                    entry_node(entries[w], now)->Some_0,
                ) by {
                    if w == i {
                        assert(node_views(out@)[k as int].addr_str == entry_node(
                            entries[w],
                            now,
                        )->Some_0.addr_str);
                    } else {
                        assert(addr_covered(
                            node_views(out_pre),
                            entry_node(entries[w], now)->Some_0,
                        ));
                        let k2 = choose|k2: int|
                            0 <= k2 < node_views(out_pre).len() && (#[trigger] node_views(
                                out_pre,
                            )[k2]).addr_str == entry_node(entries[w], now)->Some_0.addr_str;
                        assert(node_views(out@)[k2].addr_str == node_views(out_pre)[k2].addr_str);
                    }
                }
                assert forall|kk: int| 0 <= kk < out@.len() implies #[trigger] last_wins(
                    entries,
                    now,
                    i + 1,
                    out@[kk]@,
                ) by {
                    if kk == k {
                        assert(last_admitted_with(entries, now, node@.addr_str, i + 1) == i);
                    } else {
                        assert(out@[kk] == out_pre[kk]);
                        assert(out_pre[kk]@.addr_str != node@.addr_str);
                        assert(last_wins(entries, now, i, out_pre[kk]@));
                        assert(last_admitted_with(entries, now, out_pre[kk]@.addr_str, i + 1)
                            == last_admitted_with(entries, now, out_pre[kk]@.addr_str, i));
                    }
                }
            }
        },
        None => {
            out.push(node);
            proof {
                assert forall|kk: int| 0 <= kk < out@.len() implies #[trigger] witnessed(
                    entries,
                    now,
                    i + 1,
                    out@[kk]@,
                ) by {
                    if kk == out@.len() - 1 {
                        assert(entry_node(entries[i], now) == Some(out@[kk]@));
                    } else {
                        assert(out@[kk] == out_pre[kk]);
                        assert(witnessed(entries, now, i, out_pre[kk]@));
                        let w = choose|w: int|
                            0 <= w < i && entry_node(#[trigger] entries[w], now) == Some(
                                out_pre[kk]@,
                            );
                        assert(entry_node(entries[w], now) == Some(out@[kk]@));
                    }
                }
                assert forall|w: int|
                    0 <= w < i + 1 && (#[trigger] entry_node(entries[w], now))
                        is Some implies addr_covered(
                    node_views(out@),
                    entry_node(entries[w], now)->Some_0,
                ) by {
                    if w == i {
                        assert(node_views(out@)[out@.len() - 1].addr_str == entry_node(
                            entries[w],
                            now,
                        )->Some_0.addr_str);
                    } else {
                        assert(addr_covered(
                            node_views(out_pre),
                            entry_node(entries[w], now)->Some_0,
                        ));
                        let k2 = choose|k2: int|
                            0 <= k2 < node_views(out_pre).len() && (#[trigger] node_views(
                                out_pre,
                            )[k2]).addr_str == entry_node(entries[w], now)->Some_0.addr_str;
                        assert(node_views(out@)[k2].addr_str == node_views(out_pre)[k2].addr_str);
                    }
                }
                assert forall|kk: int| 0 <= kk < out@.len() implies #[trigger] last_wins(
                    entries,
                    now,
                    i + 1,
                    out@[kk]@,
                ) by {
                    if kk == out@.len() - 1 {
                        assert(last_admitted_with(entries, now, node@.addr_str, i + 1) == i);
                    } else {
                        assert(out@[kk] == out_pre[kk]);
                        assert(out_pre[kk]@.addr_str != node@.addr_str);
                        assert(last_wins(entries, now, i, out_pre[kk]@));
                        assert(last_admitted_with(entries, now, out_pre[kk]@.addr_str, i + 1)
                            == last_admitted_with(entries, now, out_pre[kk]@.addr_str, i));
                    }
                }
            }
        },
    }
}

/// Filters, decodes and deduplicates one AddrV2 message into rows ready
/// for batch upsert: every row stems from an admitted entry, every
/// admitted entry's address is represented, each address once, the last
/// occurrence winning.
pub fn filter_addrv2_entries(entries: &Vec<AddrV2Entry>, now: u32) -> (r: Vec<DiscoveredNode>)
    ensures
        forall|k: int| 0 <= k < r@.len() ==> discovered_wf(#[trigger] r@[k]@),
        forall|k1: int, k2: int|
            0 <= k1 < k2 < r@.len() ==> (#[trigger] r@[k1]@).addr_str != (#[trigger] r@[k2]@).addr_str,
        forall|k: int|
            0 <= k < r@.len() ==> #[trigger] witnessed(
                entry_views(entries@),
                now,
                entries@.len() as int,
                r@[k]@,
            ),
        forall|w: int|
            0 <= w < entries@.len() && (#[trigger] entry_node(entries@[w]@, now)) is Some
                ==> addr_covered(node_views(r@), entry_node(entries@[w]@, now)->Some_0),
        forall|k: int|
            0 <= k < r@.len() ==> #[trigger] last_wins(
                entry_views(entries@),
                now,
                entries@.len() as int,
                r@[k]@,
            ),
{
    let ghost esv = entry_views(entries@);
    let mut out: Vec<DiscoveredNode> = Vec::new();
    let mut i: usize = 0;
    while i < entries.len()
        invariant
            i <= entries@.len(),
            esv == entry_views(entries@),
            esv.len() == entries@.len(),
            forall|k: int| 0 <= k < out@.len() ==> discovered_wf(#[trigger] out@[k]@),
            forall|k1: int, k2: int|
                0 <= k1 < k2 < out@.len() ==> (#[trigger] out@[k1]@).addr_str
                    != (#[trigger] out@[k2]@).addr_str,
            forall|k: int|
                0 <= k < out@.len() ==> #[trigger] witnessed(esv, now, i as int, out@[k]@),
            forall|w: int|
                0 <= w < i && (#[trigger] entry_node(esv[w], now)) is Some ==> addr_covered(
                    node_views(out@),
                    entry_node(esv[w], now)->Some_0,
                ),
            forall|k: int| 0 <= k < out@.len() ==> #[trigger] last_wins(esv, now, i as int, out@[k]@),
        decreases entries@.len() - i,
    {
        let e = &entries[i];
        proof {
            assert(esv[i as int] == e@);
        }
        match decode_entry(e, now) {
            None => {
                proof {
                    assert(entry_node(esv[i as int], now) is None);
                    assert forall|k: int| 0 <= k < out@.len() implies #[trigger] last_wins(
                        esv,
                        now,
                        i + 1,
                        out@[k]@,
                    ) by {
                        assert(last_wins(esv, now, i as int, out@[k]@));
                        assert(last_admitted_with(esv, now, out@[k]@.addr_str, i + 1)
                            == last_admitted_with(esv, now, out@[k]@.addr_str, i as int));
                    }
                    assert forall|k: int| 0 <= k < out@.len() implies #[trigger] witnessed(
                        esv,
                        now,
                        i + 1,
                        out@[k]@,
                    ) by {
                        assert(witnessed(esv, now, i as int, out@[k]@));
                        let w = choose|w: int|
                            0 <= w < i && entry_node(#[trigger] esv[w], now) == Some(out@[k]@);
                        assert(entry_node(esv[w], now) == Some(out@[k]@));
                    }
                }
            },
            Some(node) => {
                merge_node(&mut out, node, now, Ghost(esv), Ghost(i as int));
            },
        }
        i += 1;
    }
    proof {
        assert forall|w: int|
            0 <= w < entries@.len() && (#[trigger] entry_node(entries@[w]@, now))
                is Some implies addr_covered(
            node_views(out@),
            entry_node(entries@[w]@, now)->Some_0,
        ) by {
            assert(esv[w] == entries@[w]@);
            assert(entry_node(esv[w], now) is Some);
        }
        assert forall|k: int| 0 <= k < out@.len() implies #[trigger] witnessed(
            esv,
            now,
            entries@.len() as int,
            out@[k]@,
        ) by {
            assert(witnessed(esv, now, i as int, out@[k]@));
        }
    }
    out
}

/// Splits pending rows into write batches: all full but the last, and
/// together exactly the input.
pub fn chunk_nodes(nodes: Vec<DiscoveredNode>, size: usize) -> (r: Vec<Vec<DiscoveredNode>>)
    requires
        size > 0,
    ensures
        r@.map_values(|c: Vec<DiscoveredNode>| c@).flatten() == nodes@,
        forall|k: int| 0 <= k < r@.len() ==> 0 < (#[trigger] r@[k])@.len() <= size,
{
    let ghost all = nodes@;
    let mut rest = nodes;
    let mut chunks: Vec<Vec<DiscoveredNode>> = Vec::new();
    proof {
        assert(chunks@.map_values(|c: Vec<DiscoveredNode>| c@) =~= Seq::<Seq<
            DiscoveredNode,
        >>::empty());
        assert(Seq::<Seq<DiscoveredNode>>::empty().flatten() =~= Seq::<DiscoveredNode>::empty());
    }
    while rest.len() > 0
        invariant
            size > 0,
            chunks@.map_values(|c: Vec<DiscoveredNode>| c@).flatten() + rest@ == all,
            forall|k: int| 0 <= k < chunks@.len() ==> 0 < (#[trigger] chunks@[k])@.len() <= size,
        decreases rest@.len(),
    {
        let take = if rest.len() < size {
            rest.len()
        } else {
            size
        };
        let ghost rest_pre = rest@;
        let tail = rest.split_off(take);
        let chunk = rest;
        rest = tail;
        proof {
            assert(chunk@ =~= rest_pre.take(take as int));
            assert(rest@ =~= rest_pre.skip(take as int));
        }
        let ghost chunks_pre = chunks@.map_values(|c: Vec<DiscoveredNode>| c@);
        chunks.push(chunk);
        proof {
            assert(chunks@.map_values(|c: Vec<DiscoveredNode>| c@) =~= chunks_pre.push(chunk@));
            chunks_pre.lemma_flatten_push(chunk@);
            assert(chunks_pre.flatten() + chunk@ + rest@ =~= chunks_pre.flatten() + rest_pre);
        }
    }
    proof {
        assert(chunks@.map_values(|c: Vec<DiscoveredNode>| c@).flatten() + rest@ =~= chunks@
            .map_values(|c: Vec<DiscoveredNode>| c@).flatten());
    }
    chunks
}

/// An address was already a row of `s0` or names one of the batch nodes.
pub open spec fn address_from(
    s0: Seq<crate::store::PeerSpec>,
    ns: Seq<DiscoveredNodeSpec>,
    a: Seq<char>,
) -> bool {
    ||| exists|i: int| 0 <= i < s0.len() && (#[trigger] s0[i]).address == a
    ||| exists|i: int| 0 <= i < ns.len() && (#[trigger] ns[i]).addr_str == a
}

/// An address was already a row or stems from an admitted gossip entry.
pub open spec fn gossip_sourced(
    s0: Seq<crate::store::PeerSpec>,
    entries: Seq<AddrV2EntrySpec>,
    now: u32,
    a: Seq<char>,
) -> bool {
    ||| exists|i: int| 0 <= i < s0.len() && (#[trigger] s0[i]).address == a
    ||| exists|i: int|
        0 <= i < entries.len() && ((#[trigger] entry_node(entries[i], now)) matches Some(n)
            && n.addr_str == a)
}

/// Some row of the store holds this address.
pub open spec fn store_has_address(s: Seq<crate::store::PeerSpec>, a: Seq<char>) -> bool {
    exists|j: int| 0 <= j < s.len() && (#[trigger] s[j]).address == a
}

/// An upsert leaves its own address present and every prior address in
/// place.
proof fn lemma_upsert_addresses(
    s: Seq<crate::store::PeerSpec>,
    kind: AddrKind,
    address: Seq<char>,
    port: u16,
    services: Seq<char>,
    now: u64,
)
    ensures
        store_has_address(crate::store::upsert_spec(s, kind, address, port, services, now), address),
        forall|a: Seq<char>|
            store_has_address(s, a) ==> #[trigger] store_has_address(
                crate::store::upsert_spec(s, kind, address, port, services, now),
                a,
            ),
{
    crate::store::lemma_find_from(s, address, 0);
    let s2 = crate::store::upsert_spec(s, kind, address, port, services, now);
    let i = crate::store::find_peer(s, address);
    if i == -1 {
        assert(s2[s.len() as int].address == address);
    } else {
        assert(s2[i].address == address);
    }
    assert forall|a: Seq<char>| store_has_address(s, a) implies #[trigger] store_has_address(
        s2,
        a,
    ) by {
        let j = choose|j: int| 0 <= j < s.len() && (#[trigger] s[j]).address == a;
        assert(s2[j].address == a);
    }
}

/// A batch leaves every node's address present and every prior address
/// in place.
proof fn lemma_batch_covers(s: Seq<crate::store::PeerSpec>, ns: Seq<DiscoveredNodeSpec>, now: u64)
    ensures
        forall|i: int|
            0 <= i < ns.len() ==> #[trigger] store_has_address(
                crate::store::batch_upsert_spec(s, ns, now),
                ns[i].addr_str,
            ),
        forall|a: Seq<char>|
            store_has_address(s, a) ==> #[trigger] store_has_address(
                crate::store::batch_upsert_spec(s, ns, now),
                a,
            ),
    decreases ns.len(),
{
    let b = crate::store::batch_upsert_spec(s, ns, now);
    if ns.len() == 0 {
        assert(b == s);
    } else {
        let n0 = ns[0];
        let k0 = tag_kind(n0.addr_type)->Some_0;
        let s1 = crate::store::upsert_spec(s, k0, n0.addr_str, n0.port, n0.services, now);
        lemma_upsert_addresses(s, k0, n0.addr_str, n0.port, n0.services, now);
        lemma_batch_covers(s1, ns.skip(1), now);
        assert(b == crate::store::batch_upsert_spec(s1, ns.skip(1), now));
        assert forall|i: int| 0 <= i < ns.len() implies #[trigger] store_has_address(
            b,
            ns[i].addr_str,
        ) by {
            if i == 0 {
                assert(store_has_address(s1, n0.addr_str));
            } else {
                assert(ns.skip(1)[i - 1] == ns[i]);
                assert(store_has_address(b, ns.skip(1)[i - 1].addr_str));
            }
        }
        assert forall|a: Seq<char>| store_has_address(s, a) implies #[trigger] store_has_address(
            b,
            a,
        ) by {
            assert(store_has_address(s1, a));
        }
    }
}

/// Every row of the flattened whole stands in one of the chunks.
proof fn lemma_flatten_elem_in_chunk(chunks: Seq<Seq<DiscoveredNode>>, w: int)
    requires
        0 <= w < chunks.flatten().len(),
    ensures
        exists|cc: int, kk: int|
            0 <= cc < chunks.len() && 0 <= kk < chunks[cc].len() && #[trigger] chunks[cc][kk]
                == chunks.flatten()[w],
    decreases chunks.len(),
{
    if chunks.len() == 0 {
        assert(chunks.flatten().len() == 0);
    } else {
        assert(chunks.flatten() == chunks.first() + chunks.drop_first().flatten());
        if w < chunks.first().len() {
            assert(chunks[0][w] == chunks.flatten()[w]);
        } else {
            let w2 = w - chunks.first().len();
            lemma_flatten_elem_in_chunk(chunks.drop_first(), w2);
            let (cc0, kk0) = choose|cc0: int, kk0: int|
                0 <= cc0 < chunks.drop_first().len() && 0 <= kk0 < chunks.drop_first()[cc0].len()
                    && #[trigger] chunks.drop_first()[cc0][kk0] == chunks.drop_first().flatten()[w2];
            assert(chunks[cc0 + 1] == chunks.drop_first()[cc0]);
            assert(chunks[cc0 + 1][kk0] == chunks.flatten()[w]);
        }
    }
}

/// Every address a batch leaves behind was already a row or came from one
/// of the batch's nodes.
proof fn lemma_batch_addresses(s: Seq<crate::store::PeerSpec>, ns: Seq<DiscoveredNodeSpec>, now: u64)
    ensures
        forall|j: int|
            0 <= j < crate::store::batch_upsert_spec(s, ns, now).len()
                ==> #[trigger] address_from(s, ns, crate::store::batch_upsert_spec(s, ns, now)[j].address),
    decreases ns.len(),
{
    let b = crate::store::batch_upsert_spec(s, ns, now);
    if ns.len() == 0 {
        assert forall|j: int| 0 <= j < b.len() implies #[trigger] address_from(
            s,
            ns,
            b[j].address,
        ) by {
            assert(b[j].address == s[j].address);
        }
    } else {
        let n0 = ns[0];
        let k0 = tag_kind(n0.addr_type)->Some_0;
        let s1 = crate::store::upsert_spec(s, k0, n0.addr_str, n0.port, n0.services, now);
        crate::store::lemma_find_from(s, n0.addr_str, 0);
        lemma_batch_addresses(s1, ns.skip(1), now);
        assert(b == crate::store::batch_upsert_spec(s1, ns.skip(1), now));
        assert forall|j: int| 0 <= j < b.len() implies #[trigger] address_from(
            s,
            ns,
            b[j].address,
        ) by {
            assert(address_from(s1, ns.skip(1), b[j].address));
            if exists|i1: int| 0 <= i1 < s1.len() && (#[trigger] s1[i1]).address == b[j].address {
                let i1 = choose|i1: int|
                    0 <= i1 < s1.len() && (#[trigger] s1[i1]).address == b[j].address;
                if i1 < s.len() {
                    assert(s1[i1].address == s[i1].address || s1[i1].address == n0.addr_str);
                } else {
                    assert(s1[i1].address == n0.addr_str);
                }
            } else {
                let i1 = choose|i1: int|
                    0 <= i1 < ns.skip(1).len() && (#[trigger] ns.skip(1)[i1]).addr_str
                        == b[j].address;
                assert(ns.skip(1)[i1] == ns[i1 + 1]);
            }
        }
    }
}

/// Runs one AddrV2 message through the whole pipeline: admission control,
/// decode, deduplication, chunking, batch upserts. Every row the store
/// gains comes from an admitted entry, every admitted entry's address
/// ends up as a row, and entries stamped beyond the future window leave
/// no trace.
pub fn ingest_addrv2(
    store: &mut PeerStore,
    entries: &Vec<AddrV2Entry>,
    now_secs: u64,
    gossip_now: u32,
)
    requires
        crate::store::store_wf(old(store)@),
    ensures
        crate::store::store_wf(final(store)@),
        forall|j: int|
            0 <= j < final(store)@.len() ==> #[trigger] gossip_sourced(
                old(store)@,
                entry_views(entries@),
                gossip_now,
                final(store)@[j].address,
            ),
        forall|w: int|
            0 <= w < entries@.len() && (#[trigger] entry_node(entry_views(entries@)[w], gossip_now))
                is Some ==> store_has_address(
                final(store)@,
                entry_node(entry_views(entries@)[w], gossip_now)->Some_0.addr_str,
            ),
{
    let nodes = filter_addrv2_entries(entries, gossip_now);
    let ghost nodes_v = nodes@;
    let chunks = chunk_nodes(nodes, BATCH_CHUNK_SIZE);
    let ghost s0 = store@;
    proof {
        assert forall|j: int| 0 <= j < store@.len() implies #[trigger] address_from(
            s0,
            node_views(nodes_v),
            store@[j].address,
        ) by {
            assert(s0[j].address == store@[j].address);
        }
    }
    let ghost cm = chunks@.map_values(|ch: Vec<DiscoveredNode>| ch@);
    let mut c: usize = 0;
    while c < chunks.len()
        invariant
            crate::store::store_wf(store@),
            cm == chunks@.map_values(|ch: Vec<DiscoveredNode>| ch@),
            cm.flatten() == nodes_v,
            c <= cm.len(),
            forall|k: int| 0 <= k < nodes_v.len() ==> discovered_wf(#[trigger] nodes_v[k]@),
            forall|j: int|
                0 <= j < store@.len() ==> #[trigger] address_from(
                    s0,
                    node_views(nodes_v),
                    store@[j].address,
                ),
            forall|cc: int, kk: int|
                0 <= cc < c && 0 <= kk < cm[cc].len() ==> #[trigger] store_has_address(
                    store@,
                    cm[cc][kk]@.addr_str,
                ),
        decreases chunks@.len() - c,
    {
        let chunk = &chunks[c];
        let ghost chunks_map = cm;
        proof {
            lemma_flatten_contains_chunk(chunks_map, c as int);
            assert(chunks_map[c as int] == chunk@);
            assert forall|k: int| 0 <= k < chunk@.len() implies discovered_wf(
                #[trigger] chunk@[k]@,
            ) by {
                assert(chunks_map[c as int][k] == chunk@[k]);
                assert(among(nodes_v, chunk@[k]));
                let w = choose|w: int| 0 <= w < nodes_v.len() && nodes_v[w] == chunk@[k];
                assert(discovered_wf(nodes_v[w]@));
            }
        }
        let ghost pre = store@;
        store.batch_upsert_addrv2_nodes(chunk, now_secs);
        proof {
            let cviews = chunk@.map_values(|n: DiscoveredNode| n@);
            lemma_batch_addresses(pre, cviews, now_secs);
            assert(store@ == crate::store::batch_upsert_spec(pre, cviews, now_secs));
            assert forall|j: int| 0 <= j < store@.len() implies #[trigger] address_from(
                s0,
                node_views(nodes_v),
                store@[j].address,
            ) by {
                assert(address_from(pre, cviews, store@[j].address));
                if exists|i1: int|
                    0 <= i1 < pre.len() && (#[trigger] pre[i1]).address == store@[j].address {
                    let i1 = choose|i1: int|
                        0 <= i1 < pre.len() && (#[trigger] pre[i1]).address == store@[j].address;
                    assert(address_from(s0, node_views(nodes_v), pre[i1].address));
                } else {
                    let i1 = choose|i1: int|
                        0 <= i1 < cviews.len() && (#[trigger] cviews[i1]).addr_str
                            == store@[j].address;
                    assert(chunks_map[c as int][i1] == chunk@[i1]);
                    assert(among(nodes_v, chunk@[i1]));
                    let w = choose|w: int| 0 <= w < nodes_v.len() && nodes_v[w] == chunk@[i1];
                    assert(node_views(nodes_v)[w].addr_str == store@[j].address);
                }
            }
            lemma_batch_covers(pre, cviews, now_secs);
            assert forall|cc: int, kk: int|
                0 <= cc < c + 1 && 0 <= kk < cm[cc].len() implies #[trigger] store_has_address(
                store@,
                cm[cc][kk]@.addr_str,
            ) by {
                if cc == c {
                    assert(cviews[kk] == chunk@[kk]@);
                    assert(store_has_address(store@, cviews[kk].addr_str));
                } else {
                    assert(store_has_address(pre, cm[cc][kk]@.addr_str));
                }
            }
        }
        c += 1;
    }
    proof {
        assert forall|j: int| 0 <= j < store@.len() implies #[trigger] gossip_sourced(
            s0,
            entry_views(entries@),
            gossip_now,
            store@[j].address,
        ) by {
            assert(address_from(s0, node_views(nodes_v), store@[j].address));
            if exists|i1: int|
                0 <= i1 < s0.len() && (#[trigger] s0[i1]).address == store@[j].address {
            } else {
                let i1 = choose|i1: int|
                    0 <= i1 < node_views(nodes_v).len() && (#[trigger] node_views(
                        nodes_v,
                    )[i1]).addr_str == store@[j].address;
                assert(witnessed(
                    entry_views(entries@),
                    gossip_now,
                    entries@.len() as int,
                    nodes_v[i1]@,
                ));
                let w = choose|w: int|
                    0 <= w < entries@.len() && entry_node(
                        #[trigger] entry_views(entries@)[w],
                        gossip_now,
                    ) == Some(nodes_v[i1]@);
                assert((entry_node(entry_views(entries@)[w], gossip_now) matches Some(n)
                    && n.addr_str == store@[j].address));
            }
        }
        assert forall|w: int|
            0 <= w < entries@.len() && (#[trigger] entry_node(entry_views(entries@)[w], gossip_now))
                is Some implies store_has_address(
            store@,
            entry_node(entry_views(entries@)[w], gossip_now)->Some_0.addr_str,
        ) by {
            assert(entry_views(entries@)[w] == entries@[w]@);
            assert(addr_covered(
                node_views(nodes_v),
                entry_node(entries@[w]@, gossip_now)->Some_0,
            ));
            let i1 = choose|i1: int|
                0 <= i1 < node_views(nodes_v).len() && (#[trigger] node_views(nodes_v)[i1]).addr_str
                    == entry_node(entries@[w]@, gossip_now)->Some_0.addr_str;
            assert(cm.flatten()[i1] == nodes_v[i1]);
            lemma_flatten_elem_in_chunk(cm, i1);
            let (cc, kk) = choose|cc: int, kk: int|
                0 <= cc < cm.len() && 0 <= kk < cm[cc].len() && #[trigger] cm[cc][kk]
                    == cm.flatten()[i1];
            assert(store_has_address(store@, cm[cc][kk]@.addr_str));
            assert(cm[cc][kk]@.addr_str == entry_node(entries@[w]@, gossip_now)->Some_0.addr_str);
        }
    }
}

/// Whether a row occurs in a run of rows.
pub open spec fn among(nodes: Seq<DiscoveredNode>, x: DiscoveredNode) -> bool {
    exists|w: int| 0 <= w < nodes.len() && nodes[w] == x
}

/// A chunk's rows all come from the flattened whole.
proof fn lemma_flatten_contains_chunk(chunks: Seq<Seq<DiscoveredNode>>, c: int)
    requires
        0 <= c < chunks.len(),
    ensures
        forall|k: int| 0 <= k < chunks[c].len() ==> #[trigger] among(chunks.flatten(), chunks[c][k]),
    decreases c,
{
    if c == 0 {
        assert forall|k: int| 0 <= k < chunks[c].len() implies #[trigger] among(
            chunks.flatten(),
            chunks[c][k],
        ) by {
            assert(chunks.flatten() == chunks.first() + chunks.drop_first().flatten());
            assert(chunks.flatten()[k] == chunks[0][k]);
        }
    } else {
        lemma_flatten_contains_chunk(chunks.drop_first(), c - 1);
        assert forall|k: int| 0 <= k < chunks[c].len() implies #[trigger] among(
            chunks.flatten(),
            chunks[c][k],
        ) by {
            assert(chunks.drop_first()[c - 1] == chunks[c]);
            assert(among(chunks.drop_first().flatten(), chunks[c][k]));
            let w0 = choose|w0: int|
                0 <= w0 < chunks.drop_first().flatten().len() && chunks.drop_first().flatten()[w0]
                    == chunks[c][k];
            assert(chunks.flatten() == chunks.first() + chunks.drop_first().flatten());
            assert(chunks.flatten()[chunks.first().len() + w0] == chunks[c][k]);
        }
    }
}

/// Whether a deadlocked batch write may be attempted again.
pub fn retry_allowed(attempts_made: u32, deadlock: bool) -> (r: bool)
    ensures
        r == (deadlock && attempts_made < BATCH_RETRY_LIMIT),
{
    deadlock && attempts_made < BATCH_RETRY_LIMIT
}

/// The randomized pause before a deadlocked batch write is retried, in
/// milliseconds.
pub fn retry_backoff_ms() -> (r: u64)
    ensures
        100 <= r <= 600,
{
    crate::rng::random_in_range(100, 600)
}

/// Finds the row already carrying an address, if any.
fn find_node_index(out: &Vec<DiscoveredNode>, addr: &str) -> (r: Option<usize>)
    ensures
        r is None ==> forall|k: int| 0 <= k < out@.len() ==> (#[trigger] out@[k]@).addr_str != addr@,
        r matches Some(k) ==> k < out@.len() && out@[k as int]@.addr_str == addr@,
{
    let mut k: usize = 0;
    while k < out.len()
        invariant
            k <= out@.len(),
            forall|k2: int| 0 <= k2 < k ==> (#[trigger] out@[k2]@).addr_str != addr@,
        decreases out@.len() - k,
    {
        if str_eq(out[k].addr_str.as_str(), addr) {
            return Some(k);
        }
        k += 1;
    }
    None
}

} // verus!
