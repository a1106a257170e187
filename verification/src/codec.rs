//! The Bitcoin P2P wire codec: 24-byte frames around a small set of
//! messages, together with the exact byte-level statement of what every
//! encoder produces and what the decoder accepts.
use vstd::prelude::*;

use vstd::bytes::*;
use vstd::slice::slice_to_vec;

use crate::crypto::{sha256d, sha256d_of};

verus! {

/// Payloads above this many bytes mark a hostile peer.
pub const MAX_PAYLOAD_LEN: u32 = 1000000;

/// Returns whether a frame with the given payload length may be read; a
/// peer claiming more is hostile and the connection is closed.
pub fn frame_len_ok(len: u32) -> (r: bool)
    ensures
        r == (len <= MAX_PAYLOAD_LEN),
{
    len <= MAX_PAYLOAD_LEN
}

/// The mainnet network magic.
pub open spec fn magic_bytes() -> Seq<u8> {
    seq![0xf9u8, 0xbeu8, 0xb4u8, 0xd9u8]
}

/// A big-endian byte pair, as ports are carried on the wire.
pub open spec fn u16_be_bytes(x: u16) -> Seq<u8> {
    seq![(x / 256) as u8, (x % 256) as u8]
}

/// The Bitcoin variable-length integer: one byte below 0xfd, otherwise a
/// marker and the little-endian value of the smallest width that fits.
pub open spec fn varint_enc(n: u64) -> Seq<u8> {
    if n < 0xfd {
        seq![n as u8]
    } else if n <= 0xffff {
        seq![0xfdu8] + spec_u16_to_le_bytes(n as u16)
    } else if n <= 0xffffffff {
        seq![0xfeu8] + spec_u32_to_le_bytes(n as u32)
    } else {
        seq![0xffu8] + spec_u64_to_le_bytes(n)
    }
}

/// A network address inside a `version` payload: services, a 16-byte
/// address and a big-endian port.
pub struct NetAddr {
    pub services: u64,
    pub ip: Vec<u8>,
    pub port: u16,
}

/// The mathematical image of a `NetAddr`.
#[verifier::ext_equal]
pub struct NetAddrSpec {
    pub services: u64,
    pub ip: Seq<u8>,
    pub port: u16,
}

impl View for NetAddr {
    type V = NetAddrSpec;

    open spec fn view(&self) -> NetAddrSpec {
        NetAddrSpec { services: self.services, ip: self.ip@, port: self.port }
    }
}

/// The fields of a `version` message.
pub struct VersionMsg {
    pub version: u32,
    pub services: u64,
    pub timestamp: u64,
    pub receiver: NetAddr,
    pub sender: NetAddr,
    pub nonce: u64,
    pub user_agent: Vec<u8>,
    pub start_height: u32,
    pub relay: bool,
}

/// The mathematical image of a `version` message.
#[verifier::ext_equal]
pub struct VersionSpec {
    pub version: u32,
    pub services: u64,
    pub timestamp: u64,
    pub receiver: NetAddrSpec,
    pub sender: NetAddrSpec,
    pub nonce: u64,
    pub user_agent: Seq<u8>,
    pub start_height: u32,
    pub relay: bool,
}

impl View for VersionMsg {
    type V = VersionSpec;

    open spec fn view(&self) -> VersionSpec {
        VersionSpec {
            version: self.version,
            services: self.services,
            timestamp: self.timestamp,
            receiver: self.receiver@,
            sender: self.sender@,
            nonce: self.nonce,
            user_agent: self.user_agent@,
            start_height: self.start_height,
            relay: self.relay,
        }
    }
}

/// One record of a legacy `addr` message.
pub struct AddrEntry {
    pub time: u32,
    pub services: u64,
    pub ip: Vec<u8>,
    pub port: u16,
}

/// The mathematical image of a legacy `addr` record.
#[verifier::ext_equal]
pub struct AddrEntrySpec {
    pub time: u32,
    pub services: u64,
    pub ip: Seq<u8>,
    pub port: u16,
}

impl View for AddrEntry {
    type V = AddrEntrySpec;

    open spec fn view(&self) -> AddrEntrySpec {
        AddrEntrySpec { time: self.time, services: self.services, ip: self.ip@, port: self.port }
    }
}

/// One record of an `addrv2` message: the address bytes are still raw and
/// tagged by their network id.
pub struct AddrV2Entry {
    pub time: u32,
    pub services: u64,
    pub network_id: u8,
    pub addr: Vec<u8>,
    pub port: u16,
}

/// The mathematical image of an `addrv2` record.
#[verifier::ext_equal]
pub struct AddrV2EntrySpec {
    pub time: u32,
    pub services: u64,
    pub network_id: u8,
    pub addr: Seq<u8>,
    pub port: u16,
}

impl View for AddrV2Entry {
    type V = AddrV2EntrySpec;

    open spec fn view(&self) -> AddrV2EntrySpec {
        AddrV2EntrySpec {
            time: self.time,
            services: self.services,
            network_id: self.network_id,
            addr: self.addr@,
            port: self.port,
        }
    }
}

/// Every message this crawler sends or reads.
pub enum Message {
    Version(VersionMsg),
    Verack,
    SendAddrV2,
    GetAddr,
    Ping(u64),
    Pong(u64),
    Addr(Vec<AddrEntry>),
    AddrV2(Vec<AddrV2Entry>),
}

/// The mathematical image of a message.
#[verifier::ext_equal]
pub enum MessageSpec {
    Version(VersionSpec),
    Verack,
    SendAddrV2,
    GetAddr,
    Ping(u64),
    Pong(u64),
    Addr(Seq<AddrEntrySpec>),
    AddrV2(Seq<AddrV2EntrySpec>),
}

impl View for Message {
    type V = MessageSpec;

    open spec fn view(&self) -> MessageSpec {
        match self {
            Message::Version(v) => MessageSpec::Version(v@),
            Message::Verack => MessageSpec::Verack,
            Message::SendAddrV2 => MessageSpec::SendAddrV2,
            Message::GetAddr => MessageSpec::GetAddr,
            Message::Ping(n) => MessageSpec::Ping(*n),
            Message::Pong(n) => MessageSpec::Pong(*n),
            Message::Addr(es) => MessageSpec::Addr(es@.map_values(|e: AddrEntry| e@)),
            Message::AddrV2(es) => MessageSpec::AddrV2(es@.map_values(|e: AddrV2Entry| e@)),
        }
    }
}

/// A network address is well formed with a 16-byte address field.
pub open spec fn netaddr_wf(a: NetAddrSpec) -> bool {
    a.ip.len() == 16
}

/// A legacy record is well formed with a 16-byte address field.
pub open spec fn addr_entry_wf(e: AddrEntrySpec) -> bool {
    e.ip.len() == 16
}

/// An `addrv2` record carries at most 512 address bytes.
pub open spec fn addrv2_entry_wf(e: AddrV2EntrySpec) -> bool {
    e.addr.len() <= 512
}

/// The shape every encodable message keeps.
pub open spec fn msg_wf(m: MessageSpec) -> bool {
    match m {
        MessageSpec::Version(v) => netaddr_wf(v.receiver) && netaddr_wf(v.sender)
            && v.user_agent.len() <= 0xffffffffffffffff,
        MessageSpec::Addr(es) => es.len() <= 0xffffffffffffffff && forall|i: int|
            0 <= i < es.len() ==> addr_entry_wf(#[trigger] es[i]),
        MessageSpec::AddrV2(es) => es.len() <= 0xffffffffffffffff && forall|i: int|
            0 <= i < es.len() ==> addrv2_entry_wf(#[trigger] es[i]),
        _ => true,
    }
}

/// The wire bytes of an embedded network address.
pub open spec fn netaddr_enc(a: NetAddrSpec) -> Seq<u8> {
    spec_u64_to_le_bytes(a.services) + a.ip + u16_be_bytes(a.port)
}

/// The wire bytes of a `version` payload.
pub open spec fn version_payload_enc(v: VersionSpec) -> Seq<u8> {
    spec_u32_to_le_bytes(v.version) + spec_u64_to_le_bytes(v.services) + spec_u64_to_le_bytes(
        v.timestamp,
    ) + netaddr_enc(v.receiver) + netaddr_enc(v.sender) + spec_u64_to_le_bytes(v.nonce)
        + varint_enc(v.user_agent.len() as u64) + v.user_agent + spec_u32_to_le_bytes(
        v.start_height,
    ) + seq![if v.relay { 1u8 } else { 0u8 }]
}

/// The wire bytes of one legacy record.
pub open spec fn addr_entry_enc(e: AddrEntrySpec) -> Seq<u8> {
    spec_u32_to_le_bytes(e.time) + spec_u64_to_le_bytes(e.services) + e.ip + u16_be_bytes(e.port)
}

/// The wire bytes of a run of legacy records.
pub open spec fn addr_entries_enc(es: Seq<AddrEntrySpec>) -> Seq<u8>
    decreases es.len(),
{
    if es.len() == 0 {
        Seq::empty()
    } else {
        addr_entries_enc(es.drop_last()) + addr_entry_enc(es.last())
    }
}

/// The wire bytes of one `addrv2` record.
pub open spec fn addrv2_entry_enc(e: AddrV2EntrySpec) -> Seq<u8> {
    spec_u32_to_le_bytes(e.time) + varint_enc(e.services) + seq![e.network_id] + varint_enc(
        e.addr.len() as u64,
    ) + e.addr + u16_be_bytes(e.port)
}

/// The wire bytes of a run of `addrv2` records.
pub open spec fn addrv2_entries_enc(es: Seq<AddrV2EntrySpec>) -> Seq<u8>
    decreases es.len(),
{
    if es.len() == 0 {
        Seq::empty()
    } else {
        addrv2_entries_enc(es.drop_last()) + addrv2_entry_enc(es.last())
    }
}

/// The payload bytes of a message.
pub open spec fn payload_enc(m: MessageSpec) -> Seq<u8> {
    match m {
        MessageSpec::Version(v) => version_payload_enc(v),
        MessageSpec::Verack => Seq::empty(),
        MessageSpec::SendAddrV2 => Seq::empty(),
        MessageSpec::GetAddr => Seq::empty(),
        MessageSpec::Ping(n) => spec_u64_to_le_bytes(n),
        MessageSpec::Pong(n) => spec_u64_to_le_bytes(n),
        MessageSpec::Addr(es) => varint_enc(es.len() as u64) + addr_entries_enc(es),
        MessageSpec::AddrV2(es) => varint_enc(es.len() as u64) + addrv2_entries_enc(es),
    }
}

/// The null-padded 12-byte command of a message.
pub open spec fn command_bytes(m: MessageSpec) -> Seq<u8> {
    match m {
        MessageSpec::Version(_) => cmd_version(),
        MessageSpec::Verack => cmd_verack(),
        MessageSpec::SendAddrV2 => cmd_sendaddrv2(),
        MessageSpec::GetAddr => cmd_getaddr(),
        MessageSpec::Ping(_) => cmd_ping(),
        MessageSpec::Pong(_) => cmd_pong(),
        MessageSpec::Addr(_) => cmd_addr(),
        MessageSpec::AddrV2(_) => cmd_addrv2(),
    }
}

/// The command `version`.
pub open spec fn cmd_version() -> Seq<u8> {
    seq![118u8, 101u8, 114u8, 115u8, 105u8, 111u8, 110u8, 0u8, 0u8, 0u8, 0u8, 0u8]
}

/// The command `verack`.
pub open spec fn cmd_verack() -> Seq<u8> {
    seq![118u8, 101u8, 114u8, 97u8, 99u8, 107u8, 0u8, 0u8, 0u8, 0u8, 0u8, 0u8]
}

/// The command `sendaddrv2`.
pub open spec fn cmd_sendaddrv2() -> Seq<u8> {
    seq![115u8, 101u8, 110u8, 100u8, 97u8, 100u8, 100u8, 114u8, 118u8, 50u8, 0u8, 0u8]
}

/// The command `getaddr`.
pub open spec fn cmd_getaddr() -> Seq<u8> {
    seq![103u8, 101u8, 116u8, 97u8, 100u8, 100u8, 114u8, 0u8, 0u8, 0u8, 0u8, 0u8]
}

/// The command `ping`.
pub open spec fn cmd_ping() -> Seq<u8> {
    seq![112u8, 105u8, 110u8, 103u8, 0u8, 0u8, 0u8, 0u8, 0u8, 0u8, 0u8, 0u8]
}

/// The command `pong`.
pub open spec fn cmd_pong() -> Seq<u8> {
    seq![112u8, 111u8, 110u8, 103u8, 0u8, 0u8, 0u8, 0u8, 0u8, 0u8, 0u8, 0u8]
}

/// The command `addr`.
pub open spec fn cmd_addr() -> Seq<u8> {
    seq![97u8, 100u8, 100u8, 114u8, 0u8, 0u8, 0u8, 0u8, 0u8, 0u8, 0u8, 0u8]
}

/// The command `addrv2`.
pub open spec fn cmd_addrv2() -> Seq<u8> {
    seq![97u8, 100u8, 100u8, 114u8, 118u8, 50u8, 0u8, 0u8, 0u8, 0u8, 0u8, 0u8]
}

/// A whole frame: magic, command, payload length, four checksum bytes,
/// payload.
pub open spec fn frame_enc(cmd: Seq<u8>, payload: Seq<u8>) -> Seq<u8> {
    magic_bytes() + cmd + spec_u32_to_le_bytes(payload.len() as u32) + sha256d_of(payload).take(4)
        + payload
}

/// Appends a big-endian port.
fn encode_u16_be(out: &mut Vec<u8>, x: u16)
    ensures
        final(out)@ == old(out)@ + u16_be_bytes(x),
{
    out.push((x / 256) as u8);
    out.push((x % 256) as u8);
    proof {
        assert(out@ =~= old(out)@ + u16_be_bytes(x));
    }
}

/// Appends a variable-length integer.
fn encode_varint(out: &mut Vec<u8>, n: u64)
    ensures
        final(out)@ == old(out)@ + varint_enc(n),
{
    if n < 0xfd {
        out.push(n as u8);
        proof {
            assert(out@ =~= old(out)@ + varint_enc(n));
        }
    } else if n <= 0xffff {
        out.push(0xfd);
        let b = u16_to_le_bytes(n as u16);
        out.extend_from_slice(b.as_slice());
        proof {
            assert(out@ =~= old(out)@ + varint_enc(n));
        }
    } else if n <= 0xffffffff {
        out.push(0xfe);
        let b = u32_to_le_bytes(n as u32);
        out.extend_from_slice(b.as_slice());
        proof {
            assert(out@ =~= old(out)@ + varint_enc(n));
        }
    } else {
        out.push(0xff);
        let b = u64_to_le_bytes(n);
        out.extend_from_slice(b.as_slice());
        proof {
            assert(out@ =~= old(out)@ + varint_enc(n));
        }
    }
}

/// Appends a little-endian u32.
fn encode_u32_le(out: &mut Vec<u8>, x: u32)
    ensures
        final(out)@ == old(out)@ + spec_u32_to_le_bytes(x),
{
    let b = u32_to_le_bytes(x);
    out.extend_from_slice(b.as_slice());
}

/// Appends a little-endian u64.
fn encode_u64_le(out: &mut Vec<u8>, x: u64)
    ensures
        final(out)@ == old(out)@ + spec_u64_to_le_bytes(x),
{
    let b = u64_to_le_bytes(x);
    out.extend_from_slice(b.as_slice());
}

/// Appends an embedded network address.
fn encode_netaddr(out: &mut Vec<u8>, a: &NetAddr)
    ensures
        final(out)@ == old(out)@ + netaddr_enc(a@),
{
    encode_u64_le(out, a.services);
    out.extend_from_slice(a.ip.as_slice());
    encode_u16_be(out, a.port);
    proof {
        assert(out@ =~= old(out)@ + netaddr_enc(a@));
    }
}

/// Builds the payload bytes of a message.
pub fn encode_payload(m: &Message) -> (r: Vec<u8>)
    ensures
        r@ == payload_enc(m@),
{
    let mut out: Vec<u8> = Vec::new();
    match m {
        Message::Version(v) => {
            encode_u32_le(&mut out, v.version);
            encode_u64_le(&mut out, v.services);
            encode_u64_le(&mut out, v.timestamp);
            encode_netaddr(&mut out, &v.receiver);
            encode_netaddr(&mut out, &v.sender);
            encode_u64_le(&mut out, v.nonce);
            encode_varint(&mut out, v.user_agent.len() as u64);
            out.extend_from_slice(v.user_agent.as_slice());
            encode_u32_le(&mut out, v.start_height);
            if v.relay {
                out.push(1);
            } else {
                out.push(0);
            }
            proof {
                assert(out@ =~= payload_enc(m@));
            }
        },
        Message::Verack => {
            proof {
                assert(out@ =~= payload_enc(m@));
            }
        },
        Message::SendAddrV2 => {
            proof {
                assert(out@ =~= payload_enc(m@));
            }
        },
        Message::GetAddr => {
            proof {
                assert(out@ =~= payload_enc(m@));
            }
        },
        Message::Ping(n) => {
            encode_u64_le(&mut out, *n);
        },
        Message::Pong(n) => {
            encode_u64_le(&mut out, *n);
        },
        Message::Addr(es) => {
            encode_varint(&mut out, es.len() as u64);
            let ghost base = out@;
            let ghost esv = es@.map_values(|e: AddrEntry| e@);
            let mut k: usize = 0;
            while k < es.len()
                invariant
                    k <= es@.len(),
                    esv == es@.map_values(|e: AddrEntry| e@),
                    esv.len() == es@.len(),
                    out@ == base + addr_entries_enc(esv.take(k as int)),
                decreases es@.len() - k,
            {
                let e = &es[k];
                encode_u32_le(&mut out, e.time);
                encode_u64_le(&mut out, e.services);
                out.extend_from_slice(e.ip.as_slice());
                encode_u16_be(&mut out, e.port);
                proof {
                    assert(esv.take(k + 1 as int).drop_last() =~= esv.take(k as int));
                    assert(esv.take(k + 1 as int).last() == esv[k as int]);
                    assert(addr_entries_enc(esv.take(k + 1 as int)) == addr_entries_enc(
                        esv.take(k as int),
                    ) + addr_entry_enc(esv[k as int]));
                    assert(out@ =~= base + addr_entries_enc(esv.take(k + 1 as int)));
                }
                k += 1;
            }
            proof {
                assert(esv.take(es@.len() as int) =~= esv);
                assert(out@ =~= payload_enc(m@));
            }
        },
        Message::AddrV2(es) => {
            encode_varint(&mut out, es.len() as u64);
            let ghost base = out@;
            let ghost esv = es@.map_values(|e: AddrV2Entry| e@);
            let mut k: usize = 0;
            while k < es.len()
                invariant
                    k <= es@.len(),
                    esv == es@.map_values(|e: AddrV2Entry| e@),
                    esv.len() == es@.len(),
                    out@ == base + addrv2_entries_enc(esv.take(k as int)),
                decreases es@.len() - k,
            {
                let e = &es[k];
                encode_u32_le(&mut out, e.time);
                encode_varint(&mut out, e.services);
                out.push(e.network_id);
                encode_varint(&mut out, e.addr.len() as u64);
                out.extend_from_slice(e.addr.as_slice());
                encode_u16_be(&mut out, e.port);
                proof {
                    assert(esv.take(k + 1 as int).drop_last() =~= esv.take(k as int));
                    assert(esv.take(k + 1 as int).last() == esv[k as int]);
                    assert(addrv2_entries_enc(esv.take(k + 1 as int)) == addrv2_entries_enc(
                        esv.take(k as int),
                    ) + addrv2_entry_enc(esv[k as int]));
                    assert(out@ =~= base + addrv2_entries_enc(esv.take(k + 1 as int)));
                }
                k += 1;
            }
            proof {
                assert(esv.take(es@.len() as int) =~= esv);
                assert(out@ =~= payload_enc(m@));
            }
        },
    }
    out
}

/// The protocol version this crawler advertises.
pub const OUR_PROTOCOL_VERSION: u32 = 70016;

/// The service flags this crawler advertises: NETWORK and WITNESS.
pub const OUR_SERVICES: u64 = 9;

/// The user agent this crawler advertises.
pub open spec fn crawly_user_agent() -> Seq<u8> {
    seq![0x43u8, 0x72u8, 0x61u8, 0x77u8, 0x6cu8, 0x79u8]
}

/// Builds the outbound `version` message: our protocol version and
/// services, the peer's address with no services, our own address with
/// full services, the crawler's user agent, height zero, no relay.
pub fn build_version_message(
    timestamp: u64,
    nonce: u64,
    recv_ip: Vec<u8>,
    recv_port: u16,
    self_ip: Vec<u8>,
    self_port: u16,
) -> (m: Message)
    requires
        recv_ip@.len() == 16,
        self_ip@.len() == 16,
    ensures
        m@ == MessageSpec::Version(
            VersionSpec {
                version: OUR_PROTOCOL_VERSION,
                services: OUR_SERVICES,
                timestamp: timestamp,
                receiver: NetAddrSpec { services: 0, ip: recv_ip@, port: recv_port },
                sender: NetAddrSpec { services: OUR_SERVICES, ip: self_ip@, port: self_port },
                nonce: nonce,
                user_agent: crawly_user_agent(),
                start_height: 0,
                relay: false,
            },
        ),
        msg_wf(m@),
{
    let mut ua: Vec<u8> = Vec::new();
    ua.push(0x43);
    ua.push(0x72);
    ua.push(0x61);
    ua.push(0x77);
    ua.push(0x6c);
    ua.push(0x79);
    proof {
        assert(ua@ =~= crawly_user_agent());
    }
    let m = Message::Version(
        VersionMsg {
            version: OUR_PROTOCOL_VERSION,
            services: OUR_SERVICES,
            timestamp,
            receiver: NetAddr { services: 0, ip: recv_ip, port: recv_port },
            sender: NetAddr { services: OUR_SERVICES, ip: self_ip, port: self_port },
            nonce,
            user_agent: ua,
            start_height: 0,
            relay: false,
        },
    );
    proof {
        assert(m@ =~= MessageSpec::Version(
            VersionSpec {
                version: OUR_PROTOCOL_VERSION,
                services: OUR_SERVICES,
                timestamp: timestamp,
                receiver: NetAddrSpec { services: 0, ip: recv_ip@, port: recv_port },
                sender: NetAddrSpec { services: OUR_SERVICES, ip: self_ip@, port: self_port },
                nonce: nonce,
                user_agent: crawly_user_agent(),
                start_height: 0,
                relay: false,
            },
        ));
    }
    m
}

/// Builds a 12-byte vector from its bytes.
#[allow(clippy::too_many_arguments)]
fn twelve(
    b0: u8,
    b1: u8,
    b2: u8,
    b3: u8,
    b4: u8,
    b5: u8,
    b6: u8,
    b7: u8,
    b8: u8,
    b9: u8,
    b10: u8,
    b11: u8,
) -> (r: Vec<u8>)
    ensures
        r@ =~= seq![b0, b1, b2, b3, b4, b5, b6, b7, b8, b9, b10, b11],
{
    let mut v: Vec<u8> = Vec::new();
    v.push(b0);
    v.push(b1);
    v.push(b2);
    v.push(b3);
    v.push(b4);
    v.push(b5);
    v.push(b6);
    v.push(b7);
    v.push(b8);
    v.push(b9);
    v.push(b10);
    v.push(b11);
    v
}

/// Builds the 12-byte command of a message.
pub fn command_of(m: &Message) -> (r: Vec<u8>)
    ensures
        r@ == command_bytes(m@),
{
    let out = match m {
        Message::Version(_) => twelve(118, 101, 114, 115, 105, 111, 110, 0, 0, 0, 0, 0),
        Message::Verack => twelve(118, 101, 114, 97, 99, 107, 0, 0, 0, 0, 0, 0),
        Message::SendAddrV2 => twelve(115, 101, 110, 100, 97, 100, 100, 114, 118, 50, 0, 0),
        Message::GetAddr => twelve(103, 101, 116, 97, 100, 100, 114, 0, 0, 0, 0, 0),
        Message::Ping(_) => twelve(112, 105, 110, 103, 0, 0, 0, 0, 0, 0, 0, 0),
        Message::Pong(_) => twelve(112, 111, 110, 103, 0, 0, 0, 0, 0, 0, 0, 0),
        Message::Addr(_) => twelve(97, 100, 100, 114, 0, 0, 0, 0, 0, 0, 0, 0),
        Message::AddrV2(_) => twelve(97, 100, 100, 114, 118, 50, 0, 0, 0, 0, 0, 0),
    };
    proof {
        assert(out@ =~= command_bytes(m@));
    }
    out
}

/// Builds a whole frame for a message, or nothing when its payload would
/// breach the hostile-size cap.
pub fn encode_frame(m: &Message) -> (r: Option<Vec<u8>>)
    ensures
        r is Some <==> payload_enc(m@).len() <= MAX_PAYLOAD_LEN,
        r matches Some(f) ==> f@ == frame_enc(command_bytes(m@), payload_enc(m@)),
{
    let payload = encode_payload(m);
    if payload.len() > 1000000 {
        return None;
    }
    let cmd = command_of(m);
    let mut out: Vec<u8> = Vec::new();
    out.push(0xf9);
    out.push(0xbe);
    out.push(0xb4);
    out.push(0xd9);
    out.extend_from_slice(cmd.as_slice());
    encode_u32_le(&mut out, payload.len() as u32);
    let digest = sha256d(payload.as_slice());
    out.push(digest[0]);
    out.push(digest[1]);
    out.push(digest[2]);
    out.push(digest[3]);
    out.extend_from_slice(payload.as_slice());
    proof {
        assert(sha256d_of(payload@).take(4) =~= seq![
            digest@[0],
            digest@[1],
            digest@[2],
            digest@[3],
        ]);
        assert(out@ =~= frame_enc(command_bytes(m@), payload_enc(m@)));
    }
    Some(out)
}

/// Reads a little-endian u16 at `i`.
pub open spec fn rd_u16(s: Seq<u8>, i: int) -> Option<(u16, int)> {
    if 0 <= i && i + 2 <= s.len() {
        Some((spec_u16_from_le_bytes(s.subrange(i, i + 2)), i + 2))
    } else {
        None
    }
}

/// Reads a little-endian u32 at `i`.
pub open spec fn rd_u32(s: Seq<u8>, i: int) -> Option<(u32, int)> {
    if 0 <= i && i + 4 <= s.len() {
        Some((spec_u32_from_le_bytes(s.subrange(i, i + 4)), i + 4))
    } else {
        None
    }
}

/// Reads a little-endian u64 at `i`.
pub open spec fn rd_u64(s: Seq<u8>, i: int) -> Option<(u64, int)> {
    if 0 <= i && i + 8 <= s.len() {
        Some((spec_u64_from_le_bytes(s.subrange(i, i + 8)), i + 8))
    } else {
        None
    }
}

/// Reads a big-endian port at `i`.
pub open spec fn rd_port(s: Seq<u8>, i: int) -> Option<(u16, int)> {
    if 0 <= i && i + 2 <= s.len() {
        Some(((s[i] * 256 + s[i + 1]) as u16, i + 2))
    } else {
        None
    }
}

/// Reads a variable-length integer at `i`, insisting on its shortest
/// encoding.
pub open spec fn rd_varint(s: Seq<u8>, i: int) -> Option<(u64, int)> {
    if !(0 <= i && i + 1 <= s.len()) {
        None
    } else {
        let b = s[i];
        if b < 0xfd {
            Some((b as u64, i + 1))
        } else if b == 0xfd {
            if i + 3 <= s.len() {
                let v = spec_u16_from_le_bytes(s.subrange(i + 1, i + 3));
                if v >= 0xfd {
                    Some((v as u64, i + 3))
                } else {
                    None
                }
            } else {
                None
            }
        } else if b == 0xfe {
            if i + 5 <= s.len() {
                let v = spec_u32_from_le_bytes(s.subrange(i + 1, i + 5));
                if v > 0xffff {
                    Some((v as u64, i + 5))
                } else {
                    None
                }
            } else {
                None
            }
        } else {
            if i + 9 <= s.len() {
                let v = spec_u64_from_le_bytes(s.subrange(i + 1, i + 9));
                if v > 0xffffffff {
                    Some((v, i + 9))
                } else {
                    None
                }
            } else {
                None
            }
        }
    }
}

/// Reads `n` raw bytes at `i`.
pub open spec fn rd_raw(s: Seq<u8>, i: int, n: int) -> Option<(Seq<u8>, int)> {
    if 0 <= i && 0 <= n && i + n <= s.len() {
        Some((s.subrange(i, i + n), i + n))
    } else {
        None
    }
}

/// Reads an embedded network address at `i`.
pub open spec fn rd_netaddr(s: Seq<u8>, i: int) -> Option<(NetAddrSpec, int)> {
    match rd_u64(s, i) {
        None => None,
        Some((services, i1)) => match rd_raw(s, i1, 16) {
            None => None,
            Some((ip, i2)) => match rd_port(s, i2) {
                None => None,
                Some((port, i3)) => Some(
                    (NetAddrSpec { services: services, ip: ip, port: port }, i3),
                ),
            },
        },
    }
}

/// Reads a whole `version` payload; trailing bytes and a relay byte other
/// than zero or one are refused.
pub open spec fn rd_version(s: Seq<u8>) -> Option<VersionSpec> {
    match rd_u32(s, 0) {
        None => None,
        Some((version, i1)) => match rd_u64(s, i1) {
            None => None,
            Some((services, i2)) => match rd_u64(s, i2) {
                None => None,
                Some((timestamp, i3)) => match rd_netaddr(s, i3) {
                    None => None,
                    Some((receiver, i4)) => match rd_netaddr(s, i4) {
                        None => None,
                        Some((sender, i5)) => match rd_u64(s, i5) {
                            None => None,
                            Some((nonce, i6)) => match rd_varint(s, i6) {
                                None => None,
                                Some((ua_len, i7)) => match rd_raw(s, i7, ua_len as int) {
                                    None => None,
                                    Some((ua, i8)) => match rd_u32(s, i8) {
                                        None => None,
                                        Some((height, i9)) => if i9 + 1 == s.len() && (s[i9] == 0
                                            || s[i9] == 1) {
                                            Some(
                                                VersionSpec {
                                                    version: version,
                                                    services: services,
                                                    timestamp: timestamp,
                                                    receiver: receiver,
                                                    sender: sender,
                                                    nonce: nonce,
                                                    user_agent: ua,
                                                    start_height: height,
                                                    relay: s[i9] == 1,
                                                },
                                            )
                                        } else {
                                            None
                                        },
                                    },
                                },
                            },
                        },
                    },
                },
            },
        },
    }
}

/// Reads one legacy record at `i`.
pub open spec fn rd_addr_entry(s: Seq<u8>, i: int) -> Option<(AddrEntrySpec, int)> {
    match rd_u32(s, i) {
        None => None,
        Some((time, i1)) => match rd_u64(s, i1) {
            None => None,
            Some((services, i2)) => match rd_raw(s, i2, 16) {
                None => None,
                Some((ip, i3)) => match rd_port(s, i3) {
                    None => None,
                    Some((port, i4)) => Some(
                        (AddrEntrySpec { time: time, services: services, ip: ip, port: port }, i4),
                    ),
                },
            },
        },
    }
}

/// Reads `n` legacy records at `i`.
pub open spec fn rd_addr_entries(s: Seq<u8>, i: int, n: nat) -> Option<(Seq<AddrEntrySpec>, int)>
    decreases n,
{
    if n == 0 {
        Some((Seq::empty(), i))
    } else {
        match rd_addr_entry(s, i) {
            None => None,
            Some((e, j)) => match rd_addr_entries(s, j, (n - 1) as nat) {
                None => None,
                Some((es, end)) => Some((seq![e] + es, end)),
            },
        }
    }
}

/// Reads a whole legacy `addr` payload.
pub open spec fn rd_addr_payload(s: Seq<u8>) -> Option<Seq<AddrEntrySpec>> {
    match rd_varint(s, 0) {
        None => None,
        Some((n, i)) => match rd_addr_entries(s, i, n as nat) {
            None => None,
            Some((es, end)) => if end == s.len() {
                Some(es)
            } else {
                None
            },
        },
    }
}

/// Reads one `addrv2` record at `i`; address fields above 512 bytes are
/// refused.
pub open spec fn rd_addrv2_entry(s: Seq<u8>, i: int) -> Option<(AddrV2EntrySpec, int)> {
    match rd_u32(s, i) {
        None => None,
        Some((time, i1)) => match rd_varint(s, i1) {
            None => None,
            Some((services, i2)) => if i2 + 1 <= s.len() {
                let network_id = s[i2];
                match rd_varint(s, i2 + 1) {
                    None => None,
                    Some((alen, i3)) => if alen <= 512 {
                        match rd_raw(s, i3, alen as int) {
                            None => None,
                            Some((addr, i4)) => match rd_port(s, i4) {
                                None => None,
                                Some((port, i5)) => Some(
                                    (
                                        AddrV2EntrySpec {
                                            time: time,
                                            services: services,
                                            network_id: network_id,
                                            addr: addr,
                                            port: port,
                                        },
                                        i5,
                                    ),
                                ),
                            },
                        }
                    } else {
                        None
                    },
                }
            } else {
                None
            },
        },
    }
}

/// Reads `n` `addrv2` records at `i`.
pub open spec fn rd_addrv2_entries(s: Seq<u8>, i: int, n: nat) -> Option<
    (Seq<AddrV2EntrySpec>, int),
>
    decreases n,
{
    if n == 0 {
        Some((Seq::empty(), i))
    } else {
        match rd_addrv2_entry(s, i) {
            None => None,
            Some((e, j)) => match rd_addrv2_entries(s, j, (n - 1) as nat) {
                None => None,
                Some((es, end)) => Some((seq![e] + es, end)),
            },
        }
    }
}

/// Reads a whole `addrv2` payload.
pub open spec fn rd_addrv2_payload(s: Seq<u8>) -> Option<Seq<AddrV2EntrySpec>> {
    match rd_varint(s, 0) {
        None => None,
        Some((n, i)) => match rd_addrv2_entries(s, i, n as nat) {
            None => None,
            Some((es, end)) => if end == s.len() {
                Some(es)
            } else {
                None
            },
        },
    }
}

/// What a command and payload decode to.
#[verifier::ext_equal]
pub enum DecodedSpec {
    Known(MessageSpec),
    UnknownCmd,
    Malformed,
}

/// The executable image of a decode outcome.
pub enum Decoded {
    Known(Message),
    UnknownCmd,
    Malformed,
}

impl View for Decoded {
    type V = DecodedSpec;

    open spec fn view(&self) -> DecodedSpec {
        match self {
            Decoded::Known(m) => DecodedSpec::Known(m@),
            Decoded::UnknownCmd => DecodedSpec::UnknownCmd,
            Decoded::Malformed => DecodedSpec::Malformed,
        }
    }
}

/// What each command's payload must hold: a known command with a bad
/// payload is malformed, an unknown command is ignored.
pub open spec fn spec_decode_msg(cmd: Seq<u8>, p: Seq<u8>) -> DecodedSpec {
    if cmd == cmd_version() {
        match rd_version(p) {
            Some(v) => DecodedSpec::Known(MessageSpec::Version(v)),
            None => DecodedSpec::Malformed,
        }
    } else if cmd == cmd_verack() {
        if p.len() == 0 {
            DecodedSpec::Known(MessageSpec::Verack)
        } else {
            DecodedSpec::Malformed
        }
    } else if cmd == cmd_sendaddrv2() {
        if p.len() == 0 {
            DecodedSpec::Known(MessageSpec::SendAddrV2)
        } else {
            DecodedSpec::Malformed
        }
    } else if cmd == cmd_getaddr() {
        if p.len() == 0 {
            DecodedSpec::Known(MessageSpec::GetAddr)
        } else {
            DecodedSpec::Malformed
        }
    } else if cmd == cmd_ping() {
        if p.len() == 8 {
            DecodedSpec::Known(MessageSpec::Ping(spec_u64_from_le_bytes(p)))
        } else {
            DecodedSpec::Malformed
        }
    } else if cmd == cmd_pong() {
        if p.len() == 8 {
            DecodedSpec::Known(MessageSpec::Pong(spec_u64_from_le_bytes(p)))
        } else {
            DecodedSpec::Malformed
        }
    } else if cmd == cmd_addr() {
        match rd_addr_payload(p) {
            Some(es) => DecodedSpec::Known(MessageSpec::Addr(es)),
            None => DecodedSpec::Malformed,
        }
    } else if cmd == cmd_addrv2() {
        match rd_addrv2_payload(p) {
            Some(es) => DecodedSpec::Known(MessageSpec::AddrV2(es)),
            None => DecodedSpec::Malformed,
        }
    } else {
        DecodedSpec::UnknownCmd
    }
}

/// Byte-by-byte equality of two slices.
pub fn bytes_eq(a: &[u8], b: &[u8]) -> (r: bool)
    ensures
        r == (a@ == b@),
{
    if a.len() != b.len() {
        proof {
            assert(a@ != b@);
        }
        return false;
    }
    let n = a.len();
    let mut i: usize = 0;
    while i < n
        invariant
            n == a@.len() == b@.len(),
            i <= n,
            forall|j: int| 0 <= j < i ==> a@[j] == b@[j],
        decreases n - i,
    {
        if a[i] != b[i] {
            return false;
        }
        i += 1;
    }
    proof {
        assert(a@ =~= b@);
    }
    true
}

/// Reads a little-endian u32.
fn read_u32(s: &[u8], pos: usize) -> (r: Option<(u32, usize)>)
    requires
        pos <= s@.len(),
    ensures
        r is None ==> rd_u32(s@, pos as int) is None,
        r matches Some((x, p)) ==> rd_u32(s@, pos as int) == Some((x, p as int)) && p <= s@.len(),
{
    if s.len() - pos >= 4 {
        let sub = &s[pos..pos + 4];
        Some((u32_from_le_bytes(sub), pos + 4))
    } else {
        None
    }
}

/// Reads a little-endian u64.
fn read_u64(s: &[u8], pos: usize) -> (r: Option<(u64, usize)>)
    requires
        pos <= s@.len(),
    ensures
        r is None ==> rd_u64(s@, pos as int) is None,
        r matches Some((x, p)) ==> rd_u64(s@, pos as int) == Some((x, p as int)) && p <= s@.len(),
{
    if s.len() - pos >= 8 {
        let sub = &s[pos..pos + 8];
        Some((u64_from_le_bytes(sub), pos + 8))
    } else {
        None
    }
}

/// Reads a big-endian port.
fn read_port(s: &[u8], pos: usize) -> (r: Option<(u16, usize)>)
    requires
        pos <= s@.len(),
    ensures
        r is None ==> rd_port(s@, pos as int) is None,
        r matches Some((x, p)) ==> rd_port(s@, pos as int) == Some((x, p as int)) && p <= s@.len(),
{
    if s.len() - pos >= 2 {
        let hi = s[pos];
        let lo = s[pos + 1];
        Some(((hi as u16) * 256 + (lo as u16), pos + 2))
    } else {
        None
    }
}

/// Reads a variable-length integer, refusing loose encodings.
fn read_varint(s: &[u8], pos: usize) -> (r: Option<(u64, usize)>)
    requires
        pos <= s@.len(),
    ensures
        r is None ==> rd_varint(s@, pos as int) is None,
        r matches Some((x, p)) ==> rd_varint(s@, pos as int) == Some((x, p as int)) && p
            <= s@.len(),
{
    if s.len() - pos < 1 {
        return None;
    }
    let b = s[pos];
    if b < 0xfd {
        Some((b as u64, pos + 1))
    } else if b == 0xfd {
        if s.len() - pos >= 3 {
            let v = u16_from_le_bytes(&s[pos + 1..pos + 3]);
            if v >= 0xfd {
                Some((v as u64, pos + 3))
            } else {
                None
            }
        } else {
            None
        }
    } else if b == 0xfe {
        if s.len() - pos >= 5 {
            let v = u32_from_le_bytes(&s[pos + 1..pos + 5]);
            if v > 0xffff {
                Some((v as u64, pos + 5))
            } else {
                None
            }
        } else {
            None
        }
    } else {
        if s.len() - pos >= 9 {
            let v = u64_from_le_bytes(&s[pos + 1..pos + 9]);
            if v > 0xffffffff {
                Some((v, pos + 9))
            } else {
                None
            }
        } else {
            None
        }
    }
}

/// Reads `n` raw bytes into a vector.
fn read_raw(s: &[u8], pos: usize, n: usize) -> (r: Option<(Vec<u8>, usize)>)
    requires
        pos <= s@.len(),
    ensures
        r is None ==> rd_raw(s@, pos as int, n as int) is None,
        r matches Some((v, p)) ==> rd_raw(s@, pos as int, n as int) == Some((v@, p as int)) && p
            <= s@.len(),
{
    if s.len() - pos >= n {
        let sub = &s[pos..pos + n];
        Some((slice_to_vec(sub), pos + n))
    } else {
        None
    }
}

/// Reads an embedded network address.
fn read_netaddr(s: &[u8], pos: usize) -> (r: Option<(NetAddr, usize)>)
    requires
        pos <= s@.len(),
    ensures
        r is None ==> rd_netaddr(s@, pos as int) is None,
        r matches Some((a, p)) ==> rd_netaddr(s@, pos as int) == Some((a@, p as int)) && p
            <= s@.len(),
{
    let (services, i1) = match read_u64(s, pos) {
        Some(x) => x,
        None => {
            return None;
        },
    };
    let (ip, i2) = match read_raw(s, i1, 16) {
        Some(x) => x,
        None => {
            return None;
        },
    };
    let (port, i3) = match read_port(s, i2) {
        Some(x) => x,
        None => {
            return None;
        },
    };
    Some((NetAddr { services, ip, port }, i3))
}

/// Decodes a `version` payload.
pub fn decode_version(payload: &[u8]) -> (r: Option<VersionMsg>)
    ensures
        r is None ==> rd_version(payload@) is None,
        r matches Some(v) ==> rd_version(payload@) == Some(v@),
{
    let (version, i1) = match read_u32(payload, 0) {
        Some(x) => x,
        None => {
            return None;
        },
    };
    let (services, i2) = match read_u64(payload, i1) {
        Some(x) => x,
        None => {
            return None;
        },
    };
    let (timestamp, i3) = match read_u64(payload, i2) {
        Some(x) => x,
        None => {
            return None;
        },
    };
    let (receiver, i4) = match read_netaddr(payload, i3) {
        Some(x) => x,
        None => {
            return None;
        },
    };
    let (sender, i5) = match read_netaddr(payload, i4) {
        Some(x) => x,
        None => {
            return None;
        },
    };
    let (nonce, i6) = match read_u64(payload, i5) {
        Some(x) => x,
        None => {
            return None;
        },
    };
    let (ua_len, i7) = match read_varint(payload, i6) {
        Some(x) => x,
        None => {
            return None;
        },
    };
    if ua_len > payload.len() as u64 {
        proof {
            assert(rd_raw(payload@, i7 as int, ua_len as int) is None);
        }
        return None;
    }
    let (user_agent, i8) = match read_raw(payload, i7, ua_len as usize) {
        Some(x) => x,
        None => {
            return None;
        },
    };
    let (start_height, i9) = match read_u32(payload, i8) {
        Some(x) => x,
        None => {
            return None;
        },
    };
    if payload.len() - i9 != 1 {
        return None;
    }
    let relay_byte = payload[i9];
    if relay_byte != 0 && relay_byte != 1 {
        return None;
    }
    Some(
        VersionMsg {
            version,
            services,
            timestamp,
            receiver,
            sender,
            nonce,
            user_agent,
            start_height,
            relay: relay_byte == 1,
        },
    )
}

/// Reads one legacy record.
fn read_addr_entry(s: &[u8], pos: usize) -> (r: Option<(AddrEntry, usize)>)
    requires
        pos <= s@.len(),
    ensures
        r is None ==> rd_addr_entry(s@, pos as int) is None,
        r matches Some((e, p)) ==> rd_addr_entry(s@, pos as int) == Some((e@, p as int)) && p
            <= s@.len() && pos < p,
{
    let (time, i1) = match read_u32(s, pos) {
        Some(x) => x,
        None => {
            return None;
        },
    };
    let (services, i2) = match read_u64(s, i1) {
        Some(x) => x,
        None => {
            return None;
        },
    };
    let (ip, i3) = match read_raw(s, i2, 16) {
        Some(x) => x,
        None => {
            return None;
        },
    };
    let (port, i4) = match read_port(s, i3) {
        Some(x) => x,
        None => {
            return None;
        },
    };
    Some((AddrEntry { time, services, ip, port }, i4))
}

/// Reads one `addrv2` record.
fn read_addrv2_entry(s: &[u8], pos: usize) -> (r: Option<(AddrV2Entry, usize)>)
    requires
        pos <= s@.len(),
    ensures
        r is None ==> rd_addrv2_entry(s@, pos as int) is None,
        r matches Some((e, p)) ==> rd_addrv2_entry(s@, pos as int) == Some((e@, p as int)) && p
            <= s@.len() && pos < p,
{
    let (time, i1) = match read_u32(s, pos) {
        Some(x) => x,
        None => {
            return None;
        },
    };
    let (services, i2) = match read_varint(s, i1) {
        Some(x) => x,
        None => {
            return None;
        },
    };
    if s.len() - i2 < 1 {
        return None;
    }
    let network_id = s[i2];
    let (alen, i3) = match read_varint(s, i2 + 1) {
        Some(x) => x,
        None => {
            return None;
        },
    };
    if alen > 512 {
        return None;
    }
    let (addr, i4) = match read_raw(s, i3, alen as usize) {
        Some(x) => x,
        None => {
            return None;
        },
    };
    let (port, i5) = match read_port(s, i4) {
        Some(x) => x,
        None => {
            return None;
        },
    };
    Some((AddrV2Entry { time, services, network_id, addr, port }, i5))
}

/// Decodes a legacy `addr` payload.
pub fn decode_addr_payload(payload: &[u8]) -> (r: Option<Vec<AddrEntry>>)
    ensures
        r is None ==> rd_addr_payload(payload@) is None,
        r matches Some(es) ==> rd_addr_payload(payload@) == Some(
            es@.map_values(|e: AddrEntry| e@),
        ),
{
    let (n, start) = match read_varint(payload, 0) {
        Some(x) => x,
        None => {
            return None;
        },
    };
    let mut acc: Vec<AddrEntry> = Vec::new();
    let mut pos = start;
    let mut k: u64 = 0;
    while k < n
        invariant
            k <= n,
            pos <= payload@.len(),
            acc@.len() == k,
            rd_varint(payload@, 0) == Some((n, start as int)),
            (match rd_addr_entries(payload@, pos as int, (n - k) as nat) {
                None => rd_addr_entries(payload@, start as int, n as nat) is None,
                Some((rest, end)) => rd_addr_entries(payload@, start as int, n as nat) == Some(
                    (acc@.map_values(|e: AddrEntry| e@) + rest, end),
                ),
            }),
        decreases n - k,
    {
        let ghost acc_pre = acc@.map_values(|e: AddrEntry| e@);
        match read_addr_entry(payload, pos) {
            None => {
                proof {
                    assert(rd_addr_entries(payload@, pos as int, (n - k) as nat) is None);
                }
                return None;
            },
            Some((e, p2)) => {
                proof {
                    let ghost inner = rd_addr_entries(payload@, p2 as int, (n - k - 1) as nat);
                    assert(rd_addr_entries(payload@, pos as int, (n - k) as nat) == (match inner {
                        None => None,
                        Some((es, end)) => Some((seq![e@] + es, end)),
                    }));
                    match inner {
                        Some((es2, end2)) => {
                            assert(acc_pre + (seq![e@] + es2) =~= (acc_pre.push(e@)) + es2);
                        },
                        None => {},
                    }
                }
                acc.push(e);
                proof {
                    assert(acc@.map_values(|e: AddrEntry| e@) =~= acc_pre.push(e@));
                }
                pos = p2;
                k += 1;
            },
        }
    }
    proof {
        assert(rd_addr_entries(payload@, pos as int, 0) == Some(
            (Seq::<AddrEntrySpec>::empty(), pos as int),
        ));
        assert(acc@.map_values(|e: AddrEntry| e@) + Seq::<AddrEntrySpec>::empty() =~= acc@
            .map_values(|e: AddrEntry| e@));
    }
    if pos != payload.len() {
        return None;
    }
    Some(acc)
}

/// Decodes an `addrv2` payload.
pub fn decode_addrv2_payload(payload: &[u8]) -> (r: Option<Vec<AddrV2Entry>>)
    ensures
        r is None ==> rd_addrv2_payload(payload@) is None,
        r matches Some(es) ==> rd_addrv2_payload(payload@) == Some(
            es@.map_values(|e: AddrV2Entry| e@),
        ),
{
    let (n, start) = match read_varint(payload, 0) {
        Some(x) => x,
        None => {
            return None;
        },
    };
    let mut acc: Vec<AddrV2Entry> = Vec::new();
    let mut pos = start;
    let mut k: u64 = 0;
    while k < n
        invariant
            k <= n,
            pos <= payload@.len(),
            acc@.len() == k,
            rd_varint(payload@, 0) == Some((n, start as int)),
            (match rd_addrv2_entries(payload@, pos as int, (n - k) as nat) {
                None => rd_addrv2_entries(payload@, start as int, n as nat) is None,
                Some((rest, end)) => rd_addrv2_entries(payload@, start as int, n as nat) == Some(
                    (acc@.map_values(|e: AddrV2Entry| e@) + rest, end),
                ),
            }),
        decreases n - k,
    {
        let ghost acc_pre = acc@.map_values(|e: AddrV2Entry| e@);
        match read_addrv2_entry(payload, pos) {
            None => {
                proof {
                    assert(rd_addrv2_entries(payload@, pos as int, (n - k) as nat) is None);
                }
                return None;
            },
            Some((e, p2)) => {
                proof {
                    let ghost inner = rd_addrv2_entries(payload@, p2 as int, (n - k - 1) as nat);
                    assert(rd_addrv2_entries(payload@, pos as int, (n - k) as nat) == (match inner {
                        None => None,
                        Some((es, end)) => Some((seq![e@] + es, end)),
                    }));
                    match inner {
                        Some((es2, end2)) => {
                            assert(acc_pre + (seq![e@] + es2) =~= (acc_pre.push(e@)) + es2);
                        },
                        None => {},
                    }
                }
                acc.push(e);
                proof {
                    assert(acc@.map_values(|e: AddrV2Entry| e@) =~= acc_pre.push(e@));
                }
                pos = p2;
                k += 1;
            },
        }
    }
    proof {
        assert(rd_addrv2_entries(payload@, pos as int, 0) == Some(
            (Seq::<AddrV2EntrySpec>::empty(), pos as int),
        ));
        assert(acc@.map_values(|e: AddrV2Entry| e@) + Seq::<AddrV2EntrySpec>::empty() =~= acc@
            .map_values(|e: AddrV2Entry| e@));
    }
    if pos != payload.len() {
        return None;
    }
    Some(acc)
}

/// Decodes a command and payload into a message, an ignored unknown
/// command, or a malformed verdict.
pub fn decode_message(command: &[u8], payload: &[u8]) -> (r: Decoded)
    ensures
        r@ == spec_decode_msg(command@, payload@),
{
    if bytes_eq(command, twelve(118, 101, 114, 115, 105, 111, 110, 0, 0, 0, 0, 0).as_slice()) {
        match decode_version(payload) {
            Some(v) => Decoded::Known(Message::Version(v)),
            None => Decoded::Malformed,
        }
    } else if bytes_eq(command, twelve(118, 101, 114, 97, 99, 107, 0, 0, 0, 0, 0, 0).as_slice()) {
        if payload.len() == 0 {
            Decoded::Known(Message::Verack)
        } else {
            Decoded::Malformed
        }
    } else if bytes_eq(
        command,
        twelve(115, 101, 110, 100, 97, 100, 100, 114, 118, 50, 0, 0).as_slice(),
    ) {
        if payload.len() == 0 {
            Decoded::Known(Message::SendAddrV2)
        } else {
            Decoded::Malformed
        }
    } else if bytes_eq(command, twelve(103, 101, 116, 97, 100, 100, 114, 0, 0, 0, 0, 0).as_slice())
     {
        if payload.len() == 0 {
            Decoded::Known(Message::GetAddr)
        } else {
            Decoded::Malformed
        }
    } else if bytes_eq(command, twelve(112, 105, 110, 103, 0, 0, 0, 0, 0, 0, 0, 0).as_slice()) {
        if payload.len() == 8 {
            Decoded::Known(Message::Ping(u64_from_le_bytes(payload)))
        } else {
            Decoded::Malformed
        }
    } else if bytes_eq(command, twelve(112, 111, 110, 103, 0, 0, 0, 0, 0, 0, 0, 0).as_slice()) {
        if payload.len() == 8 {
            Decoded::Known(Message::Pong(u64_from_le_bytes(payload)))
        } else {
            Decoded::Malformed
        }
    } else if bytes_eq(command, twelve(97, 100, 100, 114, 0, 0, 0, 0, 0, 0, 0, 0).as_slice()) {
        match decode_addr_payload(payload) {
            Some(es) => Decoded::Known(Message::Addr(es)),
            None => Decoded::Malformed,
        }
    } else if bytes_eq(command, twelve(97, 100, 100, 114, 118, 50, 0, 0, 0, 0, 0, 0).as_slice()) {
        match decode_addrv2_payload(payload) {
            Some(es) => Decoded::Known(Message::AddrV2(es)),
            None => Decoded::Malformed,
        }
    } else {
        Decoded::UnknownCmd
    }
}

/// The fields of a parsed 24-byte frame header.
pub struct FrameHeader {
    pub command: Vec<u8>,
    pub payload_len: u32,
    pub checksum: Vec<u8>,
}

/// Splits a 24-byte header into command, payload length and checksum; a
/// wrong magic is refused.
pub fn parse_header(h: &[u8]) -> (r: Option<FrameHeader>)
    requires
        h@.len() == 24,
    ensures
        r is Some <==> h@.subrange(0, 4) == magic_bytes(),
        r matches Some(fh) ==> fh.command@ == h@.subrange(4, 16) && fh.payload_len
            == spec_u32_from_le_bytes(h@.subrange(16, 20)) && fh.checksum@ == h@.subrange(20, 24)
            && fh.command@.len() == 12 && fh.checksum@.len() == 4,
{
    if h[0] == 0xf9 && h[1] == 0xbe && h[2] == 0xb4 && h[3] == 0xd9 {
        let command = slice_to_vec(&h[4..16]);
        let payload_len = u32_from_le_bytes(&h[16..20]);
        let checksum = slice_to_vec(&h[20..24]);
        proof {
            assert(h@.subrange(0, 4) =~= magic_bytes());
        }
        Some(FrameHeader { command, payload_len, checksum })
    } else {
        proof {
            assert(h@.subrange(0, 4) != magic_bytes());
        }
        None
    }
}

/// Checks a frame's checksum and decodes its message; a frame whose
/// checksum does not match its payload is malformed.
pub fn decode_frame_payload(command: &[u8], checksum: &[u8], payload: &[u8]) -> (r: Decoded)
    requires
        checksum@.len() == 4,
    ensures
        checksum@ == sha256d_of(payload@).take(4) ==> r@ == spec_decode_msg(command@, payload@),
        checksum@ != sha256d_of(payload@).take(4) ==> r@ == DecodedSpec::Malformed,
{
    let digest = sha256d(payload);
    let expected = &digest.as_slice()[0..4];
    proof {
        assert(expected@ =~= sha256d_of(payload@).take(4));
    }
    if bytes_eq(checksum, expected) {
        decode_message(command, payload)
    } else {
        Decoded::Malformed
    }
}

/// The two little-endian bytes of a u16 read back as the value.
proof fn lemma_u16_rt(x: u16)
    ensures
        spec_u16_to_le_bytes(x).len() == 2,
        spec_u16_from_le_bytes(spec_u16_to_le_bytes(x)) == x,
{
    lemma_auto_spec_u16_to_from_le_bytes();
    assert(spec_u16_to_le_bytes(x).len() == 2);
}

/// The four little-endian bytes of a u32 read back as the value.
proof fn lemma_u32_rt(x: u32)
    ensures
        spec_u32_to_le_bytes(x).len() == 4,
        spec_u32_from_le_bytes(spec_u32_to_le_bytes(x)) == x,
{
    lemma_auto_spec_u32_to_from_le_bytes();
    assert(spec_u32_to_le_bytes(x).len() == 4);
}

/// The eight little-endian bytes of a u64 read back as the value.
proof fn lemma_u64_rt(x: u64)
    ensures
        spec_u64_to_le_bytes(x).len() == 8,
        spec_u64_from_le_bytes(spec_u64_to_le_bytes(x)) == x,
{
    lemma_auto_spec_u64_to_from_le_bytes();
}

/// The length a variable-length integer encodes to.
proof fn lemma_varint_len(n: u64)
    ensures
        varint_enc(n).len() == (if n < 0xfd {
            1int
        } else if n <= 0xffff {
            3int
        } else if n <= 0xffffffff {
            5int
        } else {
            9int
        }),
{
    if n < 0xfd {
    } else if n <= 0xffff {
        lemma_u16_rt(n as u16);
    } else if n <= 0xffffffff {
        lemma_u32_rt(n as u32);
    } else {
        lemma_u64_rt(n);
    }
}

/// A little-endian u16 is read back as it was written.
proof fn lemma_rt_u16(s: Seq<u8>, i: int, x: u16)
    requires
        0 <= i,
        i + 2 <= s.len(),
        s.subrange(i, i + 2) == spec_u16_to_le_bytes(x),
    ensures
        rd_u16(s, i) == Some((x, i + 2)),
{
    lemma_u16_rt(x);
}

/// A little-endian u32 is read back as it was written.
proof fn lemma_rt_u32(s: Seq<u8>, i: int, x: u32)
    requires
        0 <= i,
        i + 4 <= s.len(),
        s.subrange(i, i + 4) == spec_u32_to_le_bytes(x),
    ensures
        rd_u32(s, i) == Some((x, i + 4)),
{
    lemma_u32_rt(x);
}

/// A little-endian u64 is read back as it was written.
proof fn lemma_rt_u64(s: Seq<u8>, i: int, x: u64)
    requires
        0 <= i,
        i + 8 <= s.len(),
        s.subrange(i, i + 8) == spec_u64_to_le_bytes(x),
    ensures
        rd_u64(s, i) == Some((x, i + 8)),
{
    lemma_u64_rt(x);
}

/// A big-endian port is read back as it was written.
proof fn lemma_rt_port(s: Seq<u8>, i: int, x: u16)
    requires
        0 <= i,
        i + 2 <= s.len(),
        s.subrange(i, i + 2) == u16_be_bytes(x),
    ensures
        rd_port(s, i) == Some((x, i + 2)),
{
    assert(s[i] == (x / 256) as u8 && s[i + 1] == (x % 256) as u8) by {
        assert(s.subrange(i, i + 2)[0] == s[i]);
        assert(s.subrange(i, i + 2)[1] == s[i + 1]);
    }
    assert((x / 256) * 256 + (x % 256) == x) by (nonlinear_arith);
}

/// A variable-length integer is read back as it was written.
proof fn lemma_rt_varint(s: Seq<u8>, i: int, n: u64)
    requires
        0 <= i,
        i + varint_enc(n).len() <= s.len(),
        s.subrange(i, i + varint_enc(n).len() as int) == varint_enc(n),
    ensures
        rd_varint(s, i) == Some((n, i + varint_enc(n).len() as int)),
{
    let e = varint_enc(n);
    if n < 0xfd {
        assert(s[i] == e[0]) by {
            assert(s.subrange(i, i + 1)[0] == s[i]);
        }
    } else if n <= 0xffff {
        lemma_u16_rt(n as u16);
        assert(e.len() == 3);
        assert(s[i] == e[0]) by {
            assert(s.subrange(i, i + 3)[0] == s[i]);
        }
        assert(s.subrange(i + 1, i + 3) =~= spec_u16_to_le_bytes(n as u16)) by {
            assert(forall|k: int|
                0 <= k < 2 ==> s.subrange(i, i + 3)[k + 1] == #[trigger] s.subrange(
                    i + 1,
                    i + 3,
                )[k]);
        }
    } else if n <= 0xffffffff {
        lemma_u32_rt(n as u32);
        assert(e.len() == 5);
        assert(s[i] == e[0]) by {
            assert(s.subrange(i, i + 5)[0] == s[i]);
        }
        assert(s.subrange(i + 1, i + 5) =~= spec_u32_to_le_bytes(n as u32)) by {
            assert(forall|k: int|
                0 <= k < 4 ==> s.subrange(i, i + 5)[k + 1] == #[trigger] s.subrange(
                    i + 1,
                    i + 5,
                )[k]);
        }
    } else {
        lemma_u64_rt(n);
        assert(e.len() == 9);
        assert(s[i] == e[0]) by {
            assert(s.subrange(i, i + 9)[0] == s[i]);
        }
        assert(s.subrange(i + 1, i + 9) =~= spec_u64_to_le_bytes(n)) by {
            assert(forall|k: int|
                0 <= k < 8 ==> s.subrange(i, i + 9)[k + 1] == #[trigger] s.subrange(
                    i + 1,
                    i + 9,
                )[k]);
        }
    }
}

/// An embedded network address is read back as it was written.
proof fn lemma_rt_netaddr(s: Seq<u8>, i: int, a: NetAddrSpec)
    requires
        netaddr_wf(a),
        0 <= i,
        i + 26 <= s.len(),
        s.subrange(i, i + 26) == netaddr_enc(a),
    ensures
        rd_netaddr(s, i) == Some((a, i + 26)),
{
    lemma_u64_rt(a.services);
    assert(netaddr_enc(a).len() == 26);
    assert(s.subrange(i, i + 8) =~= spec_u64_to_le_bytes(a.services)) by {
        assert(forall|k: int|
            0 <= k < 8 ==> s.subrange(i, i + 26)[k] == #[trigger] s.subrange(i, i + 8)[k]);
    }
    lemma_rt_u64(s, i, a.services);
    assert(s.subrange(i + 8, i + 24) =~= a.ip) by {
        assert(forall|k: int|
            0 <= k < 16 ==> s.subrange(i, i + 26)[k + 8] == #[trigger] s.subrange(
                i + 8,
                i + 24,
            )[k]);
    }
    assert(s.subrange(i + 24, i + 26) =~= u16_be_bytes(a.port)) by {
        assert(forall|k: int|
            0 <= k < 2 ==> s.subrange(i, i + 26)[k + 24] == #[trigger] s.subrange(
                i + 24,
                i + 26,
            )[k]);
    }
    lemma_rt_port(s, i + 24, a.port);
    match rd_netaddr(s, i) {
        Some((x, end)) => {
            assert(x =~= a);
            assert(end == i + 26);
        },
        None => {
            assert(false);
        },
    }
}

/// A legacy record is read back as it was written.
proof fn lemma_rt_addr_entry(s: Seq<u8>, i: int, e: AddrEntrySpec)
    requires
        addr_entry_wf(e),
        0 <= i,
        i + 30 <= s.len(),
        s.subrange(i, i + 30) == addr_entry_enc(e),
    ensures
        rd_addr_entry(s, i) == Some((e, i + 30)),
{
    lemma_u32_rt(e.time);
    lemma_u64_rt(e.services);
    assert(addr_entry_enc(e).len() == 30);
    assert(s.subrange(i, i + 4) =~= spec_u32_to_le_bytes(e.time)) by {
        assert(forall|k: int|
            0 <= k < 4 ==> s.subrange(i, i + 30)[k] == #[trigger] s.subrange(i, i + 4)[k]);
    }
    lemma_rt_u32(s, i, e.time);
    assert(s.subrange(i + 4, i + 12) =~= spec_u64_to_le_bytes(e.services)) by {
        assert(forall|k: int|
            0 <= k < 8 ==> s.subrange(i, i + 30)[k + 4] == #[trigger] s.subrange(
                i + 4,
                i + 12,
            )[k]);
    }
    lemma_rt_u64(s, i + 4, e.services);
    assert(s.subrange(i + 12, i + 28) =~= e.ip) by {
        assert(forall|k: int|
            0 <= k < 16 ==> s.subrange(i, i + 30)[k + 12] == #[trigger] s.subrange(
                i + 12,
                i + 28,
            )[k]);
    }
    assert(s.subrange(i + 28, i + 30) =~= u16_be_bytes(e.port)) by {
        assert(forall|k: int|
            0 <= k < 2 ==> s.subrange(i, i + 30)[k + 28] == #[trigger] s.subrange(
                i + 28,
                i + 30,
            )[k]);
    }
    lemma_rt_port(s, i + 28, e.port);
    match rd_addr_entry(s, i) {
        Some((x, end)) => {
            assert(x =~= e);
            assert(end == i + 30);
        },
        None => {
            assert(false);
        },
    }
}

/// A run of legacy records decomposes at its first record.
proof fn lemma_addr_entries_enc_first(es: Seq<AddrEntrySpec>)
    requires
        es.len() > 0,
    ensures
        addr_entries_enc(es) == addr_entry_enc(es[0]) + addr_entries_enc(es.skip(1)),
    decreases es.len(),
{
    if es.len() == 1 {
        assert(es.drop_last() =~= Seq::<AddrEntrySpec>::empty());
        assert(es.skip(1) =~= Seq::<AddrEntrySpec>::empty());
        assert(addr_entries_enc(es) =~= addr_entry_enc(es[0]) + addr_entries_enc(es.skip(1)));
    } else {
        let front = es.drop_last();
        lemma_addr_entries_enc_first(front);
        assert(front.skip(1) =~= es.skip(1).drop_last());
        assert(es.skip(1).last() == es.last());
        assert(addr_entries_enc(es.skip(1)) == addr_entries_enc(es.skip(1).drop_last())
            + addr_entry_enc(es.skip(1).last()));
        assert(addr_entries_enc(es) =~= addr_entry_enc(es[0]) + addr_entries_enc(es.skip(1)));
    }
}

/// A run of legacy records is read back as it was written.
proof fn lemma_rt_addr_entries(s: Seq<u8>, i: int, es: Seq<AddrEntrySpec>)
    requires
        forall|k: int| 0 <= k < es.len() ==> addr_entry_wf(#[trigger] es[k]),
        0 <= i,
        i + addr_entries_enc(es).len() <= s.len(),
        s.subrange(i, i + addr_entries_enc(es).len() as int) == addr_entries_enc(es),
    ensures
        rd_addr_entries(s, i, es.len()) == Some((es, i + addr_entries_enc(es).len() as int)),
    decreases es.len(),
{
    if es.len() == 0 {
        assert(rd_addr_entries(s, i, 0) == Some((Seq::<AddrEntrySpec>::empty(), i)));
        assert(es =~= Seq::<AddrEntrySpec>::empty());
    } else {
        lemma_addr_entries_enc_first(es);
        lemma_u32_rt(es[0].time);
        lemma_u64_rt(es[0].services);
        let total = addr_entries_enc(es).len() as int;
        let rest_len = addr_entries_enc(es.skip(1)).len() as int;
        assert(addr_entry_enc(es[0]).len() == 30);
        assert(total == 30 + rest_len);
        assert(s.subrange(i, i + 30) =~= addr_entry_enc(es[0])) by {
            assert(forall|k: int|
                0 <= k < 30 ==> s.subrange(i, i + total)[k] == #[trigger] s.subrange(
                    i,
                    i + 30,
                )[k]);
        }
        lemma_rt_addr_entry(s, i, es[0]);
        assert(s.subrange(i + 30, i + total) =~= addr_entries_enc(es.skip(1))) by {
            assert(forall|k: int|
                0 <= k < rest_len ==> s.subrange(i, i + total)[k + 30] == #[trigger] s.subrange(
                    i + 30,
                    i + total,
                )[k]);
        }
        lemma_rt_addr_entries(s, i + 30, es.skip(1));
        assert(seq![es[0]] + es.skip(1) =~= es);
        assert((es.len() - 1) as nat == es.skip(1).len());
    }
}

/// An `addrv2` record is read back as it was written.
proof fn lemma_rt_addrv2_entry(s: Seq<u8>, i: int, e: AddrV2EntrySpec)
    requires
        addrv2_entry_wf(e),
        0 <= i,
        i + addrv2_entry_enc(e).len() <= s.len(),
        s.subrange(i, i + addrv2_entry_enc(e).len() as int) == addrv2_entry_enc(e),
    ensures
        rd_addrv2_entry(s, i) == Some((e, i + addrv2_entry_enc(e).len() as int)),
{
    lemma_u32_rt(e.time);
    lemma_varint_len(e.services);
    lemma_varint_len(e.addr.len() as u64);
    let sv = varint_enc(e.services);
    let av = varint_enc(e.addr.len() as u64);
    let alen = e.addr.len() as int;
    let total = addrv2_entry_enc(e).len() as int;
    let j1 = i + 4;
    let j2 = j1 + sv.len() as int;
    let j3 = j2 + 1;
    let j4 = j3 + av.len() as int;
    let j5 = j4 + alen;
    assert(total == 4 + sv.len() + 1 + av.len() + alen + 2);
    assert(s.subrange(i, j1) =~= spec_u32_to_le_bytes(e.time)) by {
        assert(forall|k: int|
            0 <= k < 4 ==> s.subrange(i, i + total)[k] == #[trigger] s.subrange(i, j1)[k]);
    }
    lemma_rt_u32(s, i, e.time);
    assert(s.subrange(j1, j1 + sv.len() as int) =~= sv) by {
        assert(forall|k: int|
            0 <= k < sv.len() ==> s.subrange(i, i + total)[k + 4] == #[trigger] s.subrange(
                j1,
                j1 + sv.len() as int,
            )[k]);
    }
    lemma_rt_varint(s, j1, e.services);
    assert(s[j2] == e.network_id) by {
        assert(s.subrange(i, i + total)[j2 - i] == s[j2]);
    }
    assert(s.subrange(j3, j3 + av.len() as int) =~= av) by {
        assert(forall|k: int|
            0 <= k < av.len() ==> s.subrange(i, i + total)[k + (j3 - i)] == #[trigger] s.subrange(
                j3,
                j3 + av.len() as int,
            )[k]);
    }
    lemma_rt_varint(s, j3, e.addr.len() as u64);
    assert(s.subrange(j4, j5) =~= e.addr) by {
        assert(forall|k: int|
            0 <= k < alen ==> s.subrange(i, i + total)[k + (j4 - i)] == #[trigger] s.subrange(
                j4,
                j5,
            )[k]);
    }
    assert(s.subrange(j5, j5 + 2) =~= u16_be_bytes(e.port)) by {
        assert(forall|k: int|
            0 <= k < 2 ==> s.subrange(i, i + total)[k + (j5 - i)] == #[trigger] s.subrange(
                j5,
                j5 + 2,
            )[k]);
    }
    lemma_rt_port(s, j5, e.port);
    match rd_addrv2_entry(s, i) {
        Some((x, end)) => {
            assert(x =~= e);
            assert(end == i + total);
        },
        None => {
            assert(false);
        },
    }
}

/// A run of `addrv2` records decomposes at its first record.
proof fn lemma_addrv2_entries_enc_first(es: Seq<AddrV2EntrySpec>)
    requires
        es.len() > 0,
    ensures
        addrv2_entries_enc(es) == addrv2_entry_enc(es[0]) + addrv2_entries_enc(es.skip(1)),
    decreases es.len(),
{
    if es.len() == 1 {
        assert(es.drop_last() =~= Seq::<AddrV2EntrySpec>::empty());
        assert(es.skip(1) =~= Seq::<AddrV2EntrySpec>::empty());
        assert(addrv2_entries_enc(es) =~= addrv2_entry_enc(es[0]) + addrv2_entries_enc(es.skip(1)));
    } else {
        let front = es.drop_last();
        lemma_addrv2_entries_enc_first(front);
        assert(front.skip(1) =~= es.skip(1).drop_last());
        assert(es.skip(1).last() == es.last());
        assert(addrv2_entries_enc(es.skip(1)) == addrv2_entries_enc(es.skip(1).drop_last())
            + addrv2_entry_enc(es.skip(1).last()));
        assert(addrv2_entries_enc(es) =~= addrv2_entry_enc(es[0]) + addrv2_entries_enc(es.skip(1)));
    }
}

/// A run of `addrv2` records is read back as it was written.
proof fn lemma_rt_addrv2_entries(s: Seq<u8>, i: int, es: Seq<AddrV2EntrySpec>)
    requires
        forall|k: int| 0 <= k < es.len() ==> addrv2_entry_wf(#[trigger] es[k]),
        0 <= i,
        i + addrv2_entries_enc(es).len() <= s.len(),
        s.subrange(i, i + addrv2_entries_enc(es).len() as int) == addrv2_entries_enc(es),
    ensures
        rd_addrv2_entries(s, i, es.len()) == Some((es, i + addrv2_entries_enc(es).len() as int)),
    decreases es.len(),
{
    if es.len() == 0 {
        assert(rd_addrv2_entries(s, i, 0) == Some((Seq::<AddrV2EntrySpec>::empty(), i)));
        assert(es =~= Seq::<AddrV2EntrySpec>::empty());
    } else {
        lemma_addrv2_entries_enc_first(es);
        let head_len = addrv2_entry_enc(es[0]).len() as int;
        let total = addrv2_entries_enc(es).len() as int;
        let rest_len = addrv2_entries_enc(es.skip(1)).len() as int;
        assert(total == head_len + rest_len);
        assert(s.subrange(i, i + head_len) =~= addrv2_entry_enc(es[0])) by {
            assert(forall|k: int|
                0 <= k < head_len ==> s.subrange(i, i + total)[k] == #[trigger] s.subrange(
                    i,
                    i + head_len,
                )[k]);
        }
        lemma_rt_addrv2_entry(s, i, es[0]);
        assert(s.subrange(i + head_len, i + total) =~= addrv2_entries_enc(es.skip(1))) by {
            assert(forall|k: int|
                0 <= k < rest_len ==> s.subrange(i, i + total)[k + head_len]
                    == #[trigger] s.subrange(i + head_len, i + total)[k]);
        }
        lemma_rt_addrv2_entries(s, i + head_len, es.skip(1));
        assert(seq![es[0]] + es.skip(1) =~= es);
        assert((es.len() - 1) as nat == es.skip(1).len());
    }
}

/// A `version` payload is read back as it was written.
#[verifier::rlimit(50)]
proof fn lemma_rt_version(v: VersionSpec)
    requires
        netaddr_wf(v.receiver),
        netaddr_wf(v.sender),
        v.user_agent.len() <= 0xffffffffffffffff,
    ensures
        rd_version(version_payload_enc(v)) == Some(v),
{
    lemma_u32_rt(v.version);
    lemma_u64_rt(v.services);
    lemma_u64_rt(v.timestamp);
    lemma_u64_rt(v.nonce);
    lemma_u32_rt(v.start_height);
    lemma_u64_rt(v.receiver.services);
    lemma_u64_rt(v.sender.services);
    let s = version_payload_enc(v);
    let ua = v.user_agent;
    let vi = varint_enc(ua.len() as u64);
    let i7 = 80 + vi.len() as int;
    let i8 = i7 + ua.len() as int;
    let i9 = i8 + 4;
    lemma_varint_len(ua.len() as u64);
    assert(netaddr_enc(v.receiver).len() == 26);
    assert(netaddr_enc(v.sender).len() == 26);
    assert(s.len() == i9 + 1);
    assert(s.subrange(0, 4) =~= spec_u32_to_le_bytes(v.version));
    lemma_rt_u32(s, 0, v.version);
    assert(s.subrange(4, 12) =~= spec_u64_to_le_bytes(v.services));
    lemma_rt_u64(s, 4, v.services);
    assert(s.subrange(12, 20) =~= spec_u64_to_le_bytes(v.timestamp));
    lemma_rt_u64(s, 12, v.timestamp);
    assert(s.subrange(20, 46) =~= netaddr_enc(v.receiver));
    lemma_rt_netaddr(s, 20, v.receiver);
    assert(s.subrange(46, 72) =~= netaddr_enc(v.sender));
    lemma_rt_netaddr(s, 46, v.sender);
    assert(s.subrange(72, 80) =~= spec_u64_to_le_bytes(v.nonce));
    lemma_rt_u64(s, 72, v.nonce);
    assert(s.subrange(80, i7) =~= vi);
    lemma_rt_varint(s, 80, ua.len() as u64);
    assert(s.subrange(i7, i8) =~= ua);
    assert(s.subrange(i8, i9) =~= spec_u32_to_le_bytes(v.start_height));
    lemma_rt_u32(s, i8, v.start_height);
    assert(s[i9] == (if v.relay {
        1u8
    } else {
        0u8
    }));
    match rd_version(s) {
        Some(x) => {
            assert(x =~= v);
        },
        None => {
            assert(false);
        },
    }
}

/// The eight commands are pairwise distinct where the decoder's dispatch
/// needs it.
proof fn lemma_commands_distinct()
    ensures
        cmd_verack() != cmd_version(),
        cmd_sendaddrv2() != cmd_version(),
        cmd_sendaddrv2() != cmd_verack(),
        cmd_getaddr() != cmd_version(),
        cmd_getaddr() != cmd_verack(),
        cmd_getaddr() != cmd_sendaddrv2(),
        cmd_ping() != cmd_version(),
        cmd_ping() != cmd_verack(),
        cmd_ping() != cmd_sendaddrv2(),
        cmd_ping() != cmd_getaddr(),
        cmd_pong() != cmd_version(),
        cmd_pong() != cmd_verack(),
        cmd_pong() != cmd_sendaddrv2(),
        cmd_pong() != cmd_getaddr(),
        cmd_pong() != cmd_ping(),
        cmd_addr() != cmd_version(),
        cmd_addr() != cmd_verack(),
        cmd_addr() != cmd_sendaddrv2(),
        cmd_addr() != cmd_getaddr(),
        cmd_addr() != cmd_ping(),
        cmd_addr() != cmd_pong(),
        cmd_addrv2() != cmd_version(),
        cmd_addrv2() != cmd_verack(),
        cmd_addrv2() != cmd_sendaddrv2(),
        cmd_addrv2() != cmd_getaddr(),
        cmd_addrv2() != cmd_ping(),
        cmd_addrv2() != cmd_pong(),
        cmd_addrv2() != cmd_addr(),
{
    assert(cmd_version()[0] == 118 && cmd_version()[3] == 115);
    assert(cmd_verack()[0] == 118 && cmd_verack()[3] == 97);
    assert(cmd_sendaddrv2()[0] == 115);
    assert(cmd_getaddr()[0] == 103);
    assert(cmd_ping()[0] == 112 && cmd_ping()[1] == 105);
    assert(cmd_pong()[0] == 112 && cmd_pong()[1] == 111);
    assert(cmd_addr()[0] == 97 && cmd_addr()[4] == 0);
    assert(cmd_addrv2()[0] == 97 && cmd_addrv2()[4] == 118);
}

/// Round trip: every well-formed message, encoded and decoded under its
/// own command, comes back equal.
pub proof fn lemma_message_round_trip(m: MessageSpec)
    requires
        msg_wf(m),
    ensures
        spec_decode_msg(command_bytes(m), payload_enc(m)) == DecodedSpec::Known(m),
{
    lemma_commands_distinct();
    match m {
        MessageSpec::Version(v) => {
            lemma_rt_version(v);
        },
        MessageSpec::Verack => {
        },
        MessageSpec::SendAddrV2 => {
        },
        MessageSpec::GetAddr => {
        },
        MessageSpec::Ping(n) => {
            lemma_u64_rt(n);
            assert(payload_enc(m).len() == 8);
        },
        MessageSpec::Pong(n) => {
            lemma_u64_rt(n);
            assert(payload_enc(m).len() == 8);
        },
        MessageSpec::Addr(es) => {
            let p = payload_enc(m);
            lemma_varint_len(es.len() as u64);
            let vi = varint_enc(es.len() as u64);
            let total = addr_entries_enc(es).len() as int;
            assert(p.subrange(0, vi.len() as int) =~= vi);
            lemma_rt_varint(p, 0, es.len() as u64);
            assert(p.subrange(vi.len() as int, vi.len() + total) =~= addr_entries_enc(es));
            lemma_rt_addr_entries(p, vi.len() as int, es);
            assert((es.len() as u64) as nat == es.len());
        },
        MessageSpec::AddrV2(es) => {
            let p = payload_enc(m);
            lemma_varint_len(es.len() as u64);
            let vi = varint_enc(es.len() as u64);
            let total = addrv2_entries_enc(es).len() as int;
            assert(p.subrange(0, vi.len() as int) =~= vi);
            lemma_rt_varint(p, 0, es.len() as u64);
            assert(p.subrange(vi.len() as int, vi.len() + total) =~= addrv2_entries_enc(es));
            lemma_rt_addrv2_entries(p, vi.len() as int, es);
            assert((es.len() as u64) as nat == es.len());
        },
    }
}

} // verus!
