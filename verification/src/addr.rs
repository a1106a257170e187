//! Network address kinds and their canonical textual renderings.
//!
//! Every address the crawler stores is text keyed by kind: dotted-quad for
//! IPv4, the compressed lowercase form for IPv6 (also CJDNS and Yggdrasil),
//! and unpadded lowercase base32 with a suffix for the overlay networks.
use vstd::prelude::*;

use crate::crypto::{base32_lower, base32_lower_of, sha3_256, sha3_256_of};
use crate::text::{dec_str, dec_u8, hex_str, hex_u16, str_eq};

verus! {

/// The address families a peer row can be tagged with.
#[derive(Clone, Copy, PartialEq, Eq, Structural, Debug)]
pub enum AddrKind {
    Ipv4,
    Ipv6,
    OnionV2,
    OnionV3,
    I2p,
    Cjdns,
    Yggdrasil,
}

/// The textual tag stored for each kind.
pub open spec fn kind_tag_str(k: AddrKind) -> Seq<char> {
    match k {
        AddrKind::Ipv4 => "ipv4"@,
        AddrKind::Ipv6 => "ipv6"@,
        AddrKind::OnionV2 => "onionv2"@,
        AddrKind::OnionV3 => "onionv3"@,
        AddrKind::I2p => "i2p"@,
        AddrKind::Cjdns => "cjdns"@,
        AddrKind::Yggdrasil => "yggdrasil"@,
    }
}

/// Kinds reached through a SOCKS5 proxy.
pub open spec fn is_hidden_kind(k: AddrKind) -> bool {
    k == AddrKind::OnionV2 || k == AddrKind::OnionV3 || k == AddrKind::I2p
}

/// Kinds whose rows are pruned aggressively on repeated failure.
pub open spec fn is_onion_kind(k: AddrKind) -> bool {
    k == AddrKind::OnionV2 || k == AddrKind::OnionV3
}

/// Kinds the scheduler selects for outbound scans; OnionV2 is deprecated
/// and never dialled.
pub open spec fn is_scannable_kind(k: AddrKind) -> bool {
    k == AddrKind::Ipv4 || k == AddrKind::Ipv6 || k == AddrKind::OnionV3 || k == AddrKind::I2p
}

/// Whether a kind is reached through a SOCKS5 proxy.
pub fn hidden_kind(k: AddrKind) -> (r: bool)
    ensures
        r == is_hidden_kind(k),
{
    k == AddrKind::OnionV2 || k == AddrKind::OnionV3 || k == AddrKind::I2p
}

/// Whether a kind is an onion service.
pub fn onion_kind(k: AddrKind) -> (r: bool)
    ensures
        r == is_onion_kind(k),
{
    k == AddrKind::OnionV2 || k == AddrKind::OnionV3
}

/// Whether the scheduler may dial a kind.
pub fn scannable_kind(k: AddrKind) -> (r: bool)
    ensures
        r == is_scannable_kind(k),
{
    k == AddrKind::Ipv4 || k == AddrKind::Ipv6 || k == AddrKind::OnionV3 || k == AddrKind::I2p
}

/// The textual tag of a kind.
pub fn kind_tag(k: AddrKind) -> (r: &'static str)
    ensures
        r@ == kind_tag_str(k),
{
    match k {
        AddrKind::Ipv4 => "ipv4",
        AddrKind::Ipv6 => "ipv6",
        AddrKind::OnionV2 => "onionv2",
        AddrKind::OnionV3 => "onionv3",
        AddrKind::I2p => "i2p",
        AddrKind::Cjdns => "cjdns",
        AddrKind::Yggdrasil => "yggdrasil",
    }
}

/// The kind a textual tag names, if any.
pub open spec fn tag_kind(s: Seq<char>) -> Option<AddrKind> {
    if s == "ipv4"@ {
        Some(AddrKind::Ipv4)
    } else if s == "ipv6"@ {
        Some(AddrKind::Ipv6)
    } else if s == "onionv2"@ {
        Some(AddrKind::OnionV2)
    } else if s == "onionv3"@ {
        Some(AddrKind::OnionV3)
    } else if s == "i2p"@ {
        Some(AddrKind::I2p)
    } else if s == "cjdns"@ {
        Some(AddrKind::Cjdns)
    } else if s == "yggdrasil"@ {
        Some(AddrKind::Yggdrasil)
    } else {
        None
    }
}

/// Each kind's tag parses back to that kind.
pub proof fn lemma_tag_kind_roundtrip(k: AddrKind)
    ensures
        tag_kind(kind_tag_str(k)) == Some(k),
{
    reveal_strlit("ipv4");
    reveal_strlit("ipv6");
    reveal_strlit("onionv2");
    reveal_strlit("onionv3");
    reveal_strlit("i2p");
    reveal_strlit("cjdns");
    reveal_strlit("yggdrasil");
    assert("ipv4"@.len() == 4 && "ipv6"@.len() == 4);
    assert("onionv2"@.len() == 7 && "onionv3"@.len() == 7);
    assert("i2p"@.len() == 3 && "cjdns"@.len() == 5 && "yggdrasil"@.len() == 9);
    assert("ipv4"@[3] == '4' && "ipv6"@[3] == '6');
    assert("onionv2"@[6] == '2' && "onionv3"@[6] == '3');
}

/// Parses a textual tag back into its kind.
pub fn parse_kind_tag(s: &str) -> (r: Option<AddrKind>)
    ensures
        r == tag_kind(s@),
{
    if str_eq(s, "ipv4") {
        Some(AddrKind::Ipv4)
    } else if str_eq(s, "ipv6") {
        Some(AddrKind::Ipv6)
    } else if str_eq(s, "onionv2") {
        Some(AddrKind::OnionV2)
    } else if str_eq(s, "onionv3") {
        Some(AddrKind::OnionV3)
    } else if str_eq(s, "i2p") {
        Some(AddrKind::I2p)
    } else if str_eq(s, "cjdns") {
        Some(AddrKind::Cjdns)
    } else if str_eq(s, "yggdrasil") {
        Some(AddrKind::Yggdrasil)
    } else {
        None
    }
}

/// The dotted-quad rendering of an IPv4 address.
pub open spec fn ipv4_str(a: u8, b: u8, c: u8, d: u8) -> Seq<char> {
    dec_str(a as nat) + seq!['.'] + dec_str(b as nat) + seq!['.'] + dec_str(c as nat) + seq!['.']
        + dec_str(d as nat)
}

/// Renders four octets as a dotted quad.
pub fn format_ipv4(a: u8, b: u8, c: u8, d: u8) -> (r: String)
    ensures
        r@ == ipv4_str(a, b, c, d),
{
    proof {
        reveal_strlit(".");
    }
    let mut s = dec_u8(a);
    s.append(".");
    let sb = dec_u8(b);
    s.append(sb.as_str());
    s.append(".");
    let sc = dec_u8(c);
    s.append(sc.as_str());
    s.append(".");
    let sd = dec_u8(d);
    s.append(sd.as_str());
    proof {
        assert("."@ =~= seq!['.']);
        assert(s@ =~= ipv4_str(a, b, c, d));
    }
    s
}

/// The number of zero groups running from position `i`.
pub open spec fn zero_run_len(g: Seq<u16>, i: int) -> int
    decreases g.len() - i,
{
    if i < 0 || i >= g.len() || g[i] != 0 {
        0
    } else {
        1 + zero_run_len(g, i + 1)
    }
}

/// The start of the best zero run at or after `i`: the longest of length
/// at least two, leftmost on ties, or -1 when none qualifies.
pub open spec fn best_zero_run(g: Seq<u16>, i: int) -> int
    decreases g.len() - i,
{
    if i < 0 || i >= g.len() {
        -1
    } else {
        let rest = best_zero_run(g, i + 1);
        let cur = zero_run_len(g, i);
        if cur >= 2 && (rest == -1 || cur >= zero_run_len(g, rest)) {
            i
        } else {
            rest
        }
    }
}

/// A zero run never reaches past the end of the groups.
proof fn lemma_zero_run_len_bound(g: Seq<u16>, i: int)
    requires
        0 <= i <= g.len(),
    ensures
        0 <= zero_run_len(g, i) <= g.len() - i,
    decreases g.len() - i,
{
    if i < g.len() && g[i] == 0 {
        lemma_zero_run_len_bound(g, i + 1);
    }
}

/// Groups `g[from..to]` in lowercase hexadecimal, joined with colons.
pub open spec fn hex_groups_join(g: Seq<u16>, from: int, to: int) -> Seq<char>
    decreases to - from,
{
    if from >= to {
        Seq::empty()
    } else if to == from + 1 {
        hex_str(g[from] as nat)
    } else {
        hex_groups_join(g, from, to - 1) + seq![':'] + hex_str(g[to - 1] as nat)
    }
}

/// The canonical compressed rendering of eight 16-bit groups: the best
/// zero run (if any) collapses to a double colon.
pub open spec fn ipv6_str(g: Seq<u16>) -> Seq<char> {
    let b = best_zero_run(g, 0);
    if b == -1 {
        hex_groups_join(g, 0, g.len() as int)
    } else {
        hex_groups_join(g, 0, b) + seq![':', ':'] + hex_groups_join(
            g,
            b + zero_run_len(g, b),
            g.len() as int,
        )
    }
}

/// Appends groups `g[from..to]` in hexadecimal, colon-separated.
fn append_groups(s: &mut String, g: &[u16], from: usize, to: usize)
    requires
        from <= to <= g@.len(),
    ensures
        final(s)@ == old(s)@ + hex_groups_join(g@, from as int, to as int),
{
    proof {
        reveal_strlit(":");
    }
    let mut k = from;
    while k < to
        invariant
            from <= k <= to <= g@.len(),
            s@ == old(s)@ + hex_groups_join(g@, from as int, k as int),
            ":"@ =~= seq![':'],
        decreases to - k,
    {
        if k > from {
            s.append(":");
        }
        let h = hex_u16(g[k]);
        s.append(h.as_str());
        proof {
            if k == from {
                assert(hex_groups_join(g@, from as int, k + 1 as int) == hex_str(
                    g@[from as int] as nat,
                ));
                assert(hex_groups_join(g@, from as int, from as int) =~= Seq::<char>::empty());
                assert(s@ =~= old(s)@ + hex_groups_join(g@, from as int, k + 1 as int));
            } else {
                assert(hex_groups_join(g@, from as int, k + 1 as int) == hex_groups_join(
                    g@,
                    from as int,
                    k as int,
                ) + seq![':'] + hex_str(g@[k as int] as nat));
                assert(s@ =~= old(s)@ + hex_groups_join(g@, from as int, k + 1 as int));
            }
        }
        k += 1;
    }
}

/// Renders eight 16-bit groups in canonical compressed form.
pub fn format_ipv6(g: &[u16]) -> (r: String)
    requires
        g@.len() == 8,
    ensures
        r@ == ipv6_str(g@),
{
    proof {
        reveal_strlit("::");
    }
    let n = g.len();
    // Scan right to left for the best zero run; `best == n` means none.
    let mut i: usize = n;
    let mut cur: usize = 0;
    let mut best: usize = n;
    let mut best_len: usize = 0;
    while i > 0
        invariant
            n == g@.len(),
            i <= n,
            cur == zero_run_len(g@, i as int),
            best <= n,
            (best == n) ==> best_zero_run(g@, i as int) == -1,
            (best < n) ==> best_zero_run(g@, i as int) == best as int && best_len == zero_run_len(
                g@,
                best as int,
            ),
        decreases i,
    {
        i -= 1;
        proof {
            lemma_zero_run_len_bound(g@, i + 1);
        }
        if g[i] != 0 {
            cur = 0;
        } else {
            cur += 1;
        }
        if cur >= 2 && (best == n || cur >= best_len) {
            best = i;
            best_len = cur;
        }
    }
    let mut s = String::new();
    if best == n {
        append_groups(&mut s, g, 0, n);
    } else {
        append_groups(&mut s, g, 0, best);
        s.append("::");
        proof {
            lemma_zero_run_len_bound(g@, best as int);
        }
        let run_end = best + best_len;
        append_groups(&mut s, g, run_end, n);
        proof {
            assert("::"@ =~= seq![':', ':']);
        }
    }
    proof {
        assert(s@ =~= ipv6_str(g@));
    }
    s
}

/// The big-endian byte pair of one group.
pub open spec fn group_bytes(x: u16) -> Seq<u8> {
    seq![(x / 256) as u8, (x % 256) as u8]
}

/// The big-endian bytes of groups `g[from..to]`.
pub open spec fn groups_to_bytes(g: Seq<u16>, from: int, to: int) -> Seq<u8>
    decreases to - from,
{
    if from >= to {
        Seq::empty()
    } else {
        groups_to_bytes(g, from, to - 1) + group_bytes(g[to - 1])
    }
}

/// Eight 16-bit groups read big-endian from sixteen bytes.
pub open spec fn bytes_to_groups(b: Seq<u8>) -> Seq<u16> {
    Seq::new(8, |i: int| (b[2 * i] * 256 + b[2 * i + 1]) as u16)
}

/// Builds the group vector of a 16-byte address.
pub fn groups_of_bytes(b: &[u8]) -> (r: Vec<u16>)
    requires
        b@.len() == 16,
    ensures
        r@ == bytes_to_groups(b@),
{
    let mut g: Vec<u16> = Vec::new();
    let mut i: usize = 0;
    while i < 8
        invariant
            b@.len() == 16,
            i <= 8,
            g@.len() == i,
            forall|j: int| 0 <= j < i ==> g@[j] == bytes_to_groups(b@)[j],
        decreases 8 - i,
    {
        let hi = b[2 * i];
        let lo = b[2 * i + 1];
        g.push((hi as u16) * 256 + (lo as u16));
        i += 1;
    }
    proof {
        assert(g@ =~= bytes_to_groups(b@));
    }
    g
}

/// A classified address: its kind's textual tag and its canonical text.
#[derive(Clone, Debug)]
pub struct TypeAddress {
    pub address_type: String,
    pub address: String,
}

/// An address text is valid for a kind when some raw value renders to it.
pub open spec fn valid_addr_string(kind: AddrKind, s: Seq<char>) -> bool {
    match kind {
        AddrKind::Ipv4 => exists|a: u8, b: u8, c: u8, d: u8| s == #[trigger] ipv4_str(a, b, c, d),
        AddrKind::Ipv6 => exists|g: Seq<u16>| g.len() == 8 && s == #[trigger] ipv6_str(g),
        AddrKind::Cjdns => exists|g: Seq<u16>| g.len() == 8 && s == #[trigger] ipv6_str(g),
        AddrKind::Yggdrasil => exists|g: Seq<u16>| g.len() == 8 && s == #[trigger] ipv6_str(g),
        AddrKind::OnionV2 => exists|b: Seq<u8>|
            b.len() == 10 && s == #[trigger] base32_lower_of(b) + ".onion"@,
        AddrKind::OnionV3 => exists|b: Seq<u8>|
            b.len() == 35 && s == #[trigger] base32_lower_of(b) + ".onion"@,
        AddrKind::I2p => exists|b: Seq<u8>|
            b.len() == 32 && s == #[trigger] base32_lower_of(b) + ".b32.i2p"@,
    }
}

/// A classified address is well formed when its tag names a kind and its
/// text is valid for that kind.
pub open spec fn type_address_wf(t: TypeAddress) -> bool {
    exists|k: AddrKind|
        t.address_type@ == #[trigger] kind_tag_str(k) && valid_addr_string(k, t.address@)
}

/// Builds the big-endian bytes of groups `g[from..to]`.
fn groups_bytes_vec(g: &[u16], from: usize, to: usize) -> (r: Vec<u8>)
    requires
        from <= to <= g@.len(),
    ensures
        r@ == groups_to_bytes(g@, from as int, to as int),
{
    let mut out: Vec<u8> = Vec::new();
    let mut k = from;
    while k < to
        invariant
            from <= k <= to <= g@.len(),
            out@ == groups_to_bytes(g@, from as int, k as int),
        decreases to - k,
    {
        out.push((g[k] / 256) as u8);
        out.push((g[k] % 256) as u8);
        proof {
            assert(groups_to_bytes(g@, from as int, k + 1 as int) == groups_to_bytes(
                g@,
                from as int,
                k as int,
            ) + group_bytes(g@[k as int]));
            assert(out@ =~= groups_to_bytes(g@, from as int, k + 1 as int));
        }
        k += 1;
    }
    out
}

/// An IPv6 value that embeds an IPv4 address (`::a.b.c.d` or
/// `::ffff:a.b.c.d`).
pub open spec fn is_v4_mapped(g: Seq<u16>) -> bool {
    g[0] == 0 && g[1] == 0 && g[2] == 0 && g[3] == 0 && g[4] == 0 && (g[5] == 0 || g[5] == 0xffff)
}

/// The prefix the legacy gossip format used to smuggle TorV2 addresses
/// inside IPv6 values.
pub open spec fn has_onioncat_prefix(g: Seq<u16>) -> bool {
    g[0] == 0xfd87 && g[1] == 0xd87e && g[2] == 0xeb43
}

/// A private IPv4 address by its first two octets.
pub open spec fn is_private_v4(a: u8, b: u8) -> bool {
    a == 10 || (a == 172 && 16 <= b < 32) || (a == 192 && b == 168)
}

/// Whether a legacy 8-group gossip address embeds a private IPv4 address.
pub fn isprivate(addr: [u16; 8]) -> (r: bool)
    ensures
        r == (is_v4_mapped(addr@) && is_private_v4(
            (addr@[6] / 256) as u8,
            (addr@[6] % 256) as u8,
        )),
{
    let mapped = addr[0] == 0 && addr[1] == 0 && addr[2] == 0 && addr[3] == 0 && addr[4] == 0 && (
    addr[5] == 0 || addr[5] == 0xffff);
    if !mapped {
        return false;
    }
    let a = (addr[6] / 256) as u8;
    let b = (addr[6] % 256) as u8;
    a == 10 || (a == 172 && 16 <= b && b < 32) || (a == 192 && b == 168)
}

/// The lowercase base32 TorV2 name hidden in the low ten bytes of an
/// OnionCat-prefixed IPv6 value.
pub fn ipv6_to_onion(groups: &[u16]) -> (r: String)
    requires
        groups@.len() == 8,
    ensures
        r@ == base32_lower_of(groups_to_bytes(groups@, 3, 8)) + ".onion"@,
        valid_addr_string(AddrKind::OnionV2, r@),
{
    let bytes = groups_bytes_vec(groups, 3, 8);
    proof {
        assert(groups_to_bytes(groups@, 3, 8).len() == 10) by {
            reveal_with_fuel(groups_to_bytes, 6);
        }
    }
    let mut s = base32_lower(bytes.as_slice());
    s.append(".onion");
    proof {
        let b = groups_to_bytes(groups@, 3, 8);
        assert(b.len() == 10 && r_matches(s@, b));
    }
    s
}

/// Helper conclusion for onion-suffixed views; spelled out so the
/// existential witness is explicit.
spec fn r_matches(s: Seq<char>, b: Seq<u8>) -> bool {
    s == base32_lower_of(b) + ".onion"@
}

/// Classifies a legacy 8-group gossip address: embedded IPv4, OnionCat
/// TorV2, or plain IPv6.
pub fn type_address(addr: [u16; 8]) -> (r: TypeAddress)
    ensures
        is_v4_mapped(addr@) ==> r.address_type@ == "ipv4"@ && r.address@ == ipv4_str(
            (addr@[6] / 256) as u8,
            (addr@[6] % 256) as u8,
            (addr@[7] / 256) as u8,
            (addr@[7] % 256) as u8,
        ),
        !is_v4_mapped(addr@) && has_onioncat_prefix(addr@) ==> r.address_type@ == "onionv2"@
            && r.address@ == base32_lower_of(groups_to_bytes(addr@, 3, 8)) + ".onion"@,
        !is_v4_mapped(addr@) && !has_onioncat_prefix(addr@) ==> r.address_type@ == "ipv6"@
            && r.address@ == ipv6_str(addr@),
        type_address_wf(r),
{
    let mapped = addr[0] == 0 && addr[1] == 0 && addr[2] == 0 && addr[3] == 0 && addr[4] == 0 && (
    addr[5] == 0 || addr[5] == 0xffff);
    if mapped {
        let a = (addr[6] / 256) as u8;
        let b = (addr[6] % 256) as u8;
        let c = (addr[7] / 256) as u8;
        let d = (addr[7] % 256) as u8;
        let t = TypeAddress { address_type: String::from_str(kind_tag(AddrKind::Ipv4)), address: format_ipv4(a, b, c, d) };
        proof {
            assert(t.address_type@ == kind_tag_str(AddrKind::Ipv4));
            assert(valid_addr_string(AddrKind::Ipv4, t.address@));
        }
        t
    } else if addr[0] == 0xfd87 && addr[1] == 0xd87e && addr[2] == 0xeb43 {
        let t = TypeAddress {
            address_type: String::from_str(kind_tag(AddrKind::OnionV2)),
            address: ipv6_to_onion(addr.as_slice()),
        };
        proof {
            assert(t.address_type@ == kind_tag_str(AddrKind::OnionV2));
        }
        t
    } else {
        let t = TypeAddress {
            address_type: String::from_str(kind_tag(AddrKind::Ipv6)),
            address: format_ipv6(addr.as_slice()),
        };
        proof {
            assert(t.address_type@ == kind_tag_str(AddrKind::Ipv6));
            assert(addr@.len() == 8 && t.address@ == ipv6_str(addr@));
            assert(valid_addr_string(AddrKind::Ipv6, t.address@));
        }
        t
    }
}

/// The fixed prefix hashed into every TorV3 checksum.
pub open spec fn onion_checksum_prefix() -> Seq<u8> {
    seq![
        0x2eu8,
        0x6fu8,
        0x6eu8,
        0x69u8,
        0x6fu8,
        0x6eu8,
        0x20u8,
        0x63u8,
        0x68u8,
        0x65u8,
        0x63u8,
        0x6bu8,
        0x73u8,
        0x75u8,
        0x6du8,
    ]
}

/// The bytes hashed for a TorV3 checksum: prefix, public key, version.
pub open spec fn torv3_checksum_input(pk: Seq<u8>) -> Seq<u8> {
    onion_checksum_prefix() + pk + seq![3u8]
}

/// The 35 bytes a TorV3 name encodes: key, two checksum bytes, version.
pub open spec fn torv3_full(pk: Seq<u8>) -> Seq<u8> {
    pk + sha3_256_of(torv3_checksum_input(pk)).take(2) + seq![3u8]
}

/// The TorV3 self-check: the embedded checksum is the SHA3-256 of the
/// prefix, the embedded key and the version byte, truncated to two bytes,
/// and the version byte is three.
pub open spec fn torv3_self_check(full: Seq<u8>) -> bool {
    &&& full.len() == 35
    &&& full[34] == 3
    &&& full.subrange(32, 34) == sha3_256_of(torv3_checksum_input(full.take(32))).take(2)
}

/// Builds the checksum-prefix bytes.
fn onion_prefix_vec() -> (r: Vec<u8>)
    ensures
        r@ == onion_checksum_prefix(),
{
    let mut v: Vec<u8> = Vec::new();
    v.push(0x2e);
    v.push(0x6f);
    v.push(0x6e);
    v.push(0x69);
    v.push(0x6f);
    v.push(0x6e);
    v.push(0x20);
    v.push(0x63);
    v.push(0x68);
    v.push(0x65);
    v.push(0x63);
    v.push(0x6b);
    v.push(0x73);
    v.push(0x75);
    v.push(0x6d);
    proof {
        assert(v@ =~= onion_checksum_prefix());
    }
    v
}

/// Derives the 56-character lowercase TorV3 name of an ed25519 public
/// key, with its `.onion` suffix: base32 of key, checksum and version.
pub fn torv3_address(pubkey: &[u8]) -> (r: String)
    requires
        pubkey@.len() == 32,
    ensures
        r@ == base32_lower_of(torv3_full(pubkey@)) + ".onion"@,
        r@.len() == 62,
        forall|i: int| 0 <= i < 56 ==> crate::crypto::is_base32_char(r@[i]),
        torv3_self_check(torv3_full(pubkey@)),
        valid_addr_string(AddrKind::OnionV3, r@),
{
    proof {
        reveal_strlit(".onion");
    }
    let mut input = onion_prefix_vec();
    input.extend_from_slice(pubkey);
    input.push(3);
    proof {
        assert(input@ =~= torv3_checksum_input(pubkey@));
    }
    let h = sha3_256(input.as_slice());
    let mut full: Vec<u8> = Vec::new();
    full.extend_from_slice(pubkey);
    full.push(h[0]);
    full.push(h[1]);
    full.push(3);
    proof {
        assert(sha3_256_of(torv3_checksum_input(pubkey@)).take(2) =~= seq![h@[0], h@[1]]);
        assert(full@ =~= torv3_full(pubkey@));
        assert(full@.take(32) =~= pubkey@);
        assert(full@.subrange(32, 34) =~= sha3_256_of(torv3_checksum_input(pubkey@)).take(2));
    }
    let mut s = base32_lower(full.as_slice());
    s.append(".onion");
    proof {
        let b = torv3_full(pubkey@);
        assert(b.len() == 35 && s@ == base32_lower_of(b) + ".onion"@);
    }
    s
}

/// Whether an AddrV2 network id together with its payload length names a
/// variant this crawler records.
pub open spec fn addrv2_known(id: u8, len: nat) -> bool {
    ||| id == 1 && len == 4
    ||| id == 2 && len == 16
    ||| id == 3 && len == 10
    ||| id == 4 && len == 32
    ||| id == 5 && len == 32
    ||| id == 6 && len == 16
    ||| id == 7 && len == 16
}

/// Classifies one AddrV2 network entry into its kind tag and canonical
/// text; unknown ids and mismatched lengths are discarded.
pub fn addrv2_to_address(network_id: u8, addr: &[u8]) -> (r: Option<TypeAddress>)
    ensures
        r is Some <==> addrv2_known(network_id, addr@.len()),
        network_id == 1 && addr@.len() == 4 ==> (r matches Some(t) && t.address_type@ == "ipv4"@
            && t.address@ == ipv4_str(addr@[0], addr@[1], addr@[2], addr@[3])),
        network_id == 2 && addr@.len() == 16 ==> (r matches Some(t) && t.address_type@ == "ipv6"@
            && t.address@ == ipv6_str(bytes_to_groups(addr@))),
        network_id == 3 && addr@.len() == 10 ==> (r matches Some(t) && t.address_type@
            == "onionv2"@ && t.address@ == base32_lower_of(addr@) + ".onion"@),
        network_id == 4 && addr@.len() == 32 ==> (r matches Some(t) && t.address_type@
            == "onionv3"@ && t.address@ == base32_lower_of(torv3_full(addr@)) + ".onion"@),
        network_id == 5 && addr@.len() == 32 ==> (r matches Some(t) && t.address_type@ == "i2p"@
            && t.address@ == base32_lower_of(addr@) + ".b32.i2p"@),
        network_id == 6 && addr@.len() == 16 ==> (r matches Some(t) && t.address_type@ == "cjdns"@
            && t.address@ == ipv6_str(bytes_to_groups(addr@))),
        network_id == 7 && addr@.len() == 16 ==> (r matches Some(t) && t.address_type@
            == "yggdrasil"@ && t.address@ == ipv6_str(bytes_to_groups(addr@))),
        r matches Some(t) ==> type_address_wf(t),
{
    let len = addr.len();
    if network_id == 1 && len == 4 {
        let t = TypeAddress {
            address_type: String::from_str(kind_tag(AddrKind::Ipv4)),
            address: format_ipv4(addr[0], addr[1], addr[2], addr[3]),
        };
        proof {
            assert(t.address_type@ == kind_tag_str(AddrKind::Ipv4));
            assert(valid_addr_string(AddrKind::Ipv4, t.address@));
        }
        Some(t)
    } else if network_id == 2 && len == 16 {
        let groups = groups_of_bytes(addr);
        let t = TypeAddress {
            address_type: String::from_str(kind_tag(AddrKind::Ipv6)),
            address: format_ipv6(groups.as_slice()),
        };
        proof {
            assert(t.address_type@ == kind_tag_str(AddrKind::Ipv6));
            assert(bytes_to_groups(addr@).len() == 8 && t.address@ == ipv6_str(
                bytes_to_groups(addr@),
            ));
            assert(valid_addr_string(AddrKind::Ipv6, t.address@));
        }
        Some(t)
    } else if network_id == 3 && len == 10 {
        let mut s = base32_lower(addr);
        s.append(".onion");
        proof {
            reveal_strlit(".onion");
            assert(addr@.len() == 10 && s@ == base32_lower_of(addr@) + ".onion"@);
        }
        let t = TypeAddress { address_type: String::from_str(kind_tag(AddrKind::OnionV2)), address: s };
        proof {
            assert(t.address_type@ == kind_tag_str(AddrKind::OnionV2));
        }
        Some(t)
    } else if network_id == 4 && len == 32 {
        let t = TypeAddress {
            address_type: String::from_str(kind_tag(AddrKind::OnionV3)),
            address: torv3_address(addr),
        };
        proof {
            assert(t.address_type@ == kind_tag_str(AddrKind::OnionV3));
        }
        Some(t)
    } else if network_id == 5 && len == 32 {
        let mut s = base32_lower(addr);
        s.append(".b32.i2p");
        proof {
            reveal_strlit(".b32.i2p");
            assert(addr@.len() == 32 && s@ == base32_lower_of(addr@) + ".b32.i2p"@);
        }
        let t = TypeAddress { address_type: String::from_str(kind_tag(AddrKind::I2p)), address: s };
        proof {
            assert(t.address_type@ == kind_tag_str(AddrKind::I2p));
        }
        Some(t)
    } else if network_id == 6 && len == 16 {
        let groups = groups_of_bytes(addr);
        let t = TypeAddress {
            address_type: String::from_str(kind_tag(AddrKind::Cjdns)),
            address: format_ipv6(groups.as_slice()),
        };
        proof {
            assert(t.address_type@ == kind_tag_str(AddrKind::Cjdns));
            assert(bytes_to_groups(addr@).len() == 8 && t.address@ == ipv6_str(
                bytes_to_groups(addr@),
            ));
            assert(valid_addr_string(AddrKind::Cjdns, t.address@));
        }
        Some(t)
    } else if network_id == 7 && len == 16 {
        let groups = groups_of_bytes(addr);
        let t = TypeAddress {
            address_type: String::from_str(kind_tag(AddrKind::Yggdrasil)),
            address: format_ipv6(groups.as_slice()),
        };
        proof {
            assert(t.address_type@ == kind_tag_str(AddrKind::Yggdrasil));
            assert(bytes_to_groups(addr@).len() == 8 && t.address@ == ipv6_str(
                bytes_to_groups(addr@),
            ));
            assert(valid_addr_string(AddrKind::Yggdrasil, t.address@));
        }
        Some(t)
    } else {
        None
    }
}

/// The index of the last colon strictly before `i`, or -1.
pub open spec fn last_colon_before(s: Seq<char>, i: int) -> int
    decreases i,
{
    if i <= 0 {
        -1
    } else if s[i - 1] == ':' {
        i - 1
    } else {
        last_colon_before(s, i - 1)
    }
}

/// The text with everything from its last colon on removed.
pub open spec fn strip_port(s: Seq<char>) -> Seq<char> {
    let i = last_colon_before(s, s.len() as int);
    if i >= 0 {
        s.take(i)
    } else {
        s
    }
}

/// A square bracket, as IPv6 socket literals carry them.
pub open spec fn is_bracket(c: char) -> bool {
    c == '[' || c == ']'
}

/// The first index at or after `i` holding no bracket.
pub open spec fn lead_end(s: Seq<char>, i: int) -> int
    decreases s.len() - i,
{
    if i < 0 || i >= s.len() || !is_bracket(s[i]) {
        i
    } else {
        lead_end(s, i + 1)
    }
}

/// The end of the text once trailing brackets before `j` are dropped,
/// never passing `lo`.
pub open spec fn trail_begin(s: Seq<char>, lo: int, j: int) -> int
    decreases j - lo,
{
    if j <= lo || j - 1 >= s.len() || !is_bracket(s[j - 1]) {
        j
    } else {
        trail_begin(s, lo, j - 1)
    }
}

/// The text with leading and trailing brackets removed.
pub open spec fn trim_brackets(s: Seq<char>) -> Seq<char> {
    let a = lead_end(s, 0);
    let b = trail_begin(s, a, s.len() as int);
    s.subrange(a, b)
}

/// The store key of an address that may carry a port suffix and IPv6
/// brackets: the suffix and the brackets are stripped.
pub open spec fn normalized_addr(s: Seq<char>) -> Seq<char> {
    trim_brackets(strip_port(s))
}

/// Whether a character is a square bracket.
fn bracket_char(c: char) -> (r: bool)
    ensures
        r == is_bracket(c),
{
    c == '[' || c == ']'
}

/// Finds the last colon of a string, if any.
fn find_last_colon(s: &str) -> (r: Option<usize>)
    ensures
        r is None ==> last_colon_before(s@, s@.len() as int) == -1,
        r matches Some(i) ==> i < s@.len() && last_colon_before(s@, s@.len() as int) == i as int,
{
    let n = s.unicode_len();
    let mut k = n;
    while k > 0
        invariant
            k <= n,
            n == s@.len(),
            last_colon_before(s@, n as int) == last_colon_before(s@, k as int),
        decreases k,
    {
        if s.get_char(k - 1) == ':' {
            return Some(k - 1);
        }
        k -= 1;
    }
    None
}

/// Strips a trailing `:port` and surrounding brackets, yielding the key
/// under which a peer is stored.
pub fn normalize_addr(s: &str) -> (r: String)
    ensures
        r@ == normalized_addr(s@),
{
    let base: &str = match find_last_colon(s) {
        Some(i) => s.substring_char(0, i),
        None => s,
    };
    proof {
        assert(base@ =~= strip_port(s@));
    }
    let n = base.unicode_len();
    let mut a: usize = 0;
    while a < n && bracket_char(base.get_char(a))
        invariant
            a <= n,
            n == base@.len(),
            lead_end(base@, 0) == lead_end(base@, a as int),
        decreases n - a,
    {
        a += 1;
    }
    proof {
        assert(lead_end(base@, 0) == a as int);
    }
    let mut b: usize = n;
    while b > a && bracket_char(base.get_char(b - 1))
        invariant
            a <= b <= n,
            n == base@.len(),
            lead_end(base@, 0) == a as int,
            trail_begin(base@, a as int, n as int) == trail_begin(base@, a as int, b as int),
        decreases b,
    {
        b -= 1;
    }
    proof {
        assert(trail_begin(base@, a as int, n as int) == b as int);
    }
    let out = base.substring_char(a, b);
    proof {
        assert(out@ =~= normalized_addr(s@));
    }
    out.to_owned()
}

} // verus!
