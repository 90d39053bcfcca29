use vstd::prelude::*;
use vstd::slice::slice_to_vec;
use vstd::slice::slice_subrange;

verus! {

/// Return code carried by a CONNACK packet.
#[derive(Clone, Copy, Debug, PartialEq, Eq, Structural)]
pub enum ConnectReturnCode {
    Accepted,
    RefusedProtocolVersion,
    BadClientId,
    ServiceUnavailable,
    BadUserNamePassword,
    NotAuthorized,
}

/// The return code that a CONNACK byte stands for (bytes 0 to 5).
pub open spec fn code_of(b: u8) -> ConnectReturnCode {
    if b == 0 {
        ConnectReturnCode::Accepted
    } else if b == 1 {
        ConnectReturnCode::RefusedProtocolVersion
    } else if b == 2 {
        ConnectReturnCode::BadClientId
    } else if b == 3 {
        ConnectReturnCode::ServiceUnavailable
    } else if b == 4 {
        ConnectReturnCode::BadUserNamePassword
    } else {
        ConnectReturnCode::NotAuthorized
    }
}

/// The wire byte of a return code.
pub open spec fn code_byte(c: ConnectReturnCode) -> u8 {
    match c {
        ConnectReturnCode::Accepted => 0,
        ConnectReturnCode::RefusedProtocolVersion => 1,
        ConnectReturnCode::BadClientId => 2,
        ConnectReturnCode::ServiceUnavailable => 3,
        ConnectReturnCode::BadUserNamePassword => 4,
        ConnectReturnCode::NotAuthorized => 5,
    }
}

/// A decoded control packet.
#[derive(Debug)]
pub enum Packet {
    Connect,
    Connack { session_present: bool, code: ConnectReturnCode },
    Publish { topic: Vec<u8>, payload: Vec<u8> },
    Subscribe { pkid: u16, filters: Vec<Vec<u8>> },
    Unsubscribe { pkid: u16, filters: Vec<Vec<u8>> },
    Pingreq,
    Pingresp,
    /// A structurally valid frame of a kind this core does not act on.
    Other { kind: u8 },
}

/// The mathematical model of a packet.
pub enum PacketModel {
    Connect,
    Connack { session_present: bool, code: ConnectReturnCode },
    Publish { topic: Seq<u8>, payload: Seq<u8> },
    Subscribe { pkid: u16, filters: Seq<Seq<u8>> },
    Unsubscribe { pkid: u16, filters: Seq<Seq<u8>> },
    Pingreq,
    Pingresp,
    Other { kind: u8 },
}

pub open spec fn filters_view(f: Seq<Vec<u8>>) -> Seq<Seq<u8>> {
    f.map_values(|v: Vec<u8>| v@)
}

impl View for Packet {
    type V = PacketModel;

    open spec fn view(&self) -> PacketModel {
        match self {
            Packet::Connect => PacketModel::Connect,
            Packet::Connack { session_present, code } => PacketModel::Connack {
                session_present: *session_present,
                code: *code,
            },
            Packet::Publish { topic, payload } => PacketModel::Publish {
                topic: topic@,
                payload: payload@,
            },
            Packet::Subscribe { pkid, filters } => PacketModel::Subscribe {
                pkid: *pkid,
                filters: filters_view(filters@),
            },
            Packet::Unsubscribe { pkid, filters } => PacketModel::Unsubscribe {
                pkid: *pkid,
                filters: filters_view(filters@),
            },
            Packet::Pingreq => PacketModel::Pingreq,
            Packet::Pingresp => PacketModel::Pingresp,
            Packet::Other { kind } => PacketModel::Other { kind: *kind },
        }
    }
}

/// Result of one decode attempt at the start of a buffer.
#[derive(Debug)]
pub enum Decoded {
    /// A whole frame, and the number of bytes it took.
    Frame { packet: Packet, consumed: usize },
    /// The buffer holds only the start of a frame: wait for more bytes.
    Incomplete,
    /// The bytes violate the frame format.
    Malformed,
}

pub enum DecodedModel {
    Frame { packet: PacketModel, consumed: nat },
    Incomplete,
    Malformed,
}

impl View for Decoded {
    type V = DecodedModel;

    open spec fn view(&self) -> DecodedModel {
        match self {
            Decoded::Frame { packet, consumed } => DecodedModel::Frame {
                packet: packet@,
                consumed: *consumed as nat,
            },
            Decoded::Incomplete => DecodedModel::Incomplete,
            Decoded::Malformed => DecodedModel::Malformed,
        }
    }
}

/// Outcome of reading the Remaining Length field.
pub enum LenModel {
    Short,
    Bad,
    Done { value: nat, end: nat },
}

/// The Remaining Length field, which starts at index 1: seven bits per byte,
/// lowest group first, the high bit set on every byte but the last, at most
/// four bytes. `k` bytes have been read, adding up to `acc`; `mult` is 128^k.
pub open spec fn remaining_length(s: Seq<u8>, k: nat, acc: nat, mult: nat) -> LenModel
    decreases 4 - k,
{
    if k >= 4 {
        LenModel::Bad
    } else if s.len() <= k + 1 {
        LenModel::Short
    } else if s[k + 1int] < 128 {
        LenModel::Done { value: acc + (s[k + 1int] as nat) * mult, end: k + 2 }
    } else {
        remaining_length(s, k + 1, acc + ((s[k + 1int] - 128) as nat) * mult, mult * 128)
    }
}

pub open spec fn be16(hi: u8, lo: u8) -> nat {
    (hi as nat) * 256 + (lo as nat)
}

/// Topic filters of a SUBSCRIBE (each followed by a QoS byte) or of an
/// UNSUBSCRIBE: a list of length-prefixed strings filling `b` exactly.
pub open spec fn filters_spec(b: Seq<u8>, with_qos: bool) -> Option<Seq<Seq<u8>>>
    decreases b.len(),
{
    if b.len() == 0 {
        Some(Seq::empty())
    } else if b.len() < 2 {
        None
    } else {
        let n = be16(b[0], b[1]) as int;
        let e = 2 + n + if with_qos { 1int } else { 0int };
        if b.len() < e {
            None
        } else {
            match filters_spec(b.subrange(e, b.len() as int), with_qos) {
                Some(rest) => Some(seq![b.subrange(2, 2 + n)] + rest),
                None => None,
            }
        }
    }
}

/// A PUBLISH body: a length-prefixed topic, a packet id when QoS > 0, and the
/// payload in the rest. The QoS is bits 1 and 2 of the flags; 3 is invalid.
pub open spec fn publish_spec(flags: u8, b: Seq<u8>) -> Option<PacketModel> {
    let qos = (flags / 2) % 4;
    if qos == 3 || b.len() < 2 {
        None
    } else {
        let tl = be16(b[0], b[1]) as int;
        let start = 2 + tl + if qos > 0 { 2int } else { 0int };
        if b.len() < start {
            None
        } else {
            Some(PacketModel::Publish {
                topic: b.subrange(2, 2 + tl),
                payload: b.subrange(start, b.len() as int),
            })
        }
    }
}

/// SUBSCRIBE and UNSUBSCRIBE bodies: a packet id, then the filters.
pub open spec fn filter_list_spec(b: Seq<u8>, subscribe: bool) -> Option<PacketModel> {
    if b.len() < 2 {
        None
    } else {
        match filters_spec(b.subrange(2, b.len() as int), subscribe) {
            Some(f) => if subscribe {
                Some(PacketModel::Subscribe { pkid: be16(b[0], b[1]) as u16, filters: f })
            } else {
                Some(PacketModel::Unsubscribe { pkid: be16(b[0], b[1]) as u16, filters: f })
            },
            None => None,
        }
    }
}

/// The packet that a first byte `h` and a body `b` stand for, if valid.
pub open spec fn body_spec(h: u8, b: Seq<u8>) -> Option<PacketModel> {
    let kind = h / 16;
    if kind == 1 {
        Some(PacketModel::Connect)
    } else if kind == 2 {
        if b.len() == 2 && b[0] <= 1 && b[1] <= 5 {
            Some(PacketModel::Connack { session_present: b[0] == 1, code: code_of(b[1]) })
        } else {
            None
        }
    } else if kind == 3 {
        publish_spec(h % 16, b)
    } else if kind == 8 {
        filter_list_spec(b, true)
    } else if kind == 10 {
        filter_list_spec(b, false)
    } else if kind == 12 {
        if b.len() == 0 { Some(PacketModel::Pingreq) } else { None }
    } else if kind == 13 {
        if b.len() == 0 { Some(PacketModel::Pingresp) } else { None }
    } else {
        Some(PacketModel::Other { kind: kind as u8 })
    }
}

/// Decoding the frame at the start of `s`. Kinds 0 and 15 are reserved.
pub open spec fn decode_spec(s: Seq<u8>) -> DecodedModel {
    if s.len() == 0 {
        DecodedModel::Incomplete
    } else if s[0] / 16 == 0 || s[0] / 16 == 15 {
        DecodedModel::Malformed
    } else {
        match remaining_length(s, 0, 0, 1) {
            LenModel::Short => DecodedModel::Incomplete,
            LenModel::Bad => DecodedModel::Malformed,
            LenModel::Done { value, end } => if s.len() < end + value {
                DecodedModel::Incomplete
            } else {
                match body_spec(s[0], s.subrange(end as int, (end + value) as int)) {
                    Some(p) => DecodedModel::Frame { packet: p, consumed: end + value },
                    None => DecodedModel::Malformed,
                }
            },
        }
    }
}

enum RemLen {
    Short,
    Bad,
    Done(usize, usize),
}

fn read_remaining_length(buf: &[u8]) -> (r: RemLen)
    ensures
        match r {
            RemLen::Short => remaining_length(buf@, 0, 0, 1) is Short,
            RemLen::Bad => remaining_length(buf@, 0, 0, 1) is Bad,
            RemLen::Done(v, e) => remaining_length(buf@, 0, 0, 1) == (LenModel::Done {
                value: v as nat,
                end: e as nat,
            }) && v < 268435456 && e <= 5,
        },
{
    let mut k: usize = 0;
    let mut acc: usize = 0;
    let mut mult: usize = 1;
    loop
        invariant
            k <= 4,
            k == 0 ==> mult == 1,
            k == 1 ==> mult == 128,
            k == 2 ==> mult == 16384,
            k == 3 ==> mult == 2097152,
            k == 4 ==> mult == 268435456,
            acc < mult,
            remaining_length(buf@, 0, 0, 1) == remaining_length(
                buf@,
                k as nat,
                acc as nat,
                mult as nat,
            ),
        decreases 4 - k,
    {
        if k >= 4 {
            return RemLen::Bad;
        }
        if buf.len() <= k + 1 {
            return RemLen::Short;
        }
        let b = buf[k + 1];
        if b < 128 {
            assert((b as usize) * mult <= 127 * mult) by (nonlinear_arith)
                requires
                    b < 128,
            ;
            return RemLen::Done(acc + (b as usize) * mult, k + 2);
        }
        assert(((b - 128) as usize) * mult <= 127 * mult) by (nonlinear_arith)
            requires
                b >= 128,
        ;
        acc = acc + ((b - 128) as usize) * mult;
        mult = mult * 128;
        k = k + 1;
    }
}

fn read_be16(buf: &[u8], i: usize) -> (r: u16)
    requires
        i + 1 < buf@.len(),
    ensures
        r as nat == be16(buf@[i as int], buf@[i + 1]),
{
    (buf[i] as u16) * 256 + (buf[i + 1] as u16)
}

fn parse_filters(b: &[u8], with_qos: bool) -> (r: Option<Vec<Vec<u8>>>)
    ensures
        match r {
            Some(f) => filters_spec(b@, with_qos) == Some(filters_view(f@)),
            None => filters_spec(b@, with_qos) is None,
        },
{
    let mut out: Vec<Vec<u8>> = Vec::new();
    let mut pos: usize = 0;
    proof {
        assert(b@.subrange(0, b@.len() as int) =~= b@);
        assert(filters_view(out@) =~= Seq::<Seq<u8>>::empty());
        match filters_spec(b@, with_qos) {
            Some(r) => assert(filters_view(out@) + r =~= r),
            None => {},
        }
    }
    while pos < b.len()
        invariant
            pos <= b@.len(),
            filters_spec(b@, with_qos) == match filters_spec(b@.subrange(pos as int, b@.len() as int), with_qos) {
                Some(rest) => Some(filters_view(out@) + rest),
                None => None::<Seq<Seq<u8>>>,
            },
        decreases b@.len() - pos,
    {
        let ghost rest = b@.subrange(pos as int, b@.len() as int);
        if b.len() - pos < 2 {
            return None;
        }
        let n = read_be16(b, pos) as usize;
        let extra: usize = if with_qos { 1 } else { 0 };
        if b.len() - pos - 2 < n + extra {
            return None;
        }
        let f = slice_to_vec(slice_subrange(b, pos + 2, pos + 2 + n));
        proof {
            assert(rest[0] == b@[pos as int] && rest[1] == b@[pos + 1]);
            assert(f@ =~= rest.subrange(2, 2 + n));
            assert(rest.subrange(2 + n + extra, rest.len() as int) =~= b@.subrange(
                pos + 2 + n + extra,
                b@.len() as int,
            ));
        }
        let ghost old_out = out@;
        out.push(f);
        pos = pos + 2 + n + extra;
        proof {
            assert(filters_view(out@) =~= filters_view(old_out) + seq![f@]);
            match filters_spec(b@.subrange(pos as int, b@.len() as int), with_qos) {
                Some(r2) => {
                    assert(filters_view(old_out) + (seq![f@] + r2) =~= filters_view(out@) + r2);
                },
                None => {},
            }
        }
    }
    proof {
        assert(b@.subrange(pos as int, b@.len() as int) =~= Seq::<u8>::empty());
        assert(filters_view(out@) + Seq::<Seq<u8>>::empty() =~= filters_view(out@));
    }
    Some(out)
}

fn decode_publish(flags: u8, b: &[u8]) -> (r: Option<Packet>)
    ensures
        match r {
            Some(p) => publish_spec(flags, b@) == Some(p@),
            None => publish_spec(flags, b@) is None,
        },
{
    let qos = (flags / 2) % 4;
    if qos == 3 || b.len() < 2 {
        return None;
    }
    let tl = read_be16(b, 0) as usize;
    let id_len: usize = if qos > 0 { 2 } else { 0 };
    if b.len() - 2 < tl + id_len {
        return None;
    }
    let topic = slice_to_vec(slice_subrange(b, 2, 2 + tl));
    let payload = slice_to_vec(slice_subrange(b, 2 + tl + id_len, b.len()));
    Some(Packet::Publish { topic, payload })
}

fn decode_filter_list(b: &[u8], subscribe: bool) -> (r: Option<Packet>)
    ensures
        match r {
            Some(p) => filter_list_spec(b@, subscribe) == Some(p@),
            None => filter_list_spec(b@, subscribe) is None,
        },
{
    if b.len() < 2 {
        return None;
    }
    let pkid = read_be16(b, 0);
    match parse_filters(slice_subrange(b, 2, b.len()), subscribe) {
        Some(filters) => if subscribe {
            Some(Packet::Subscribe { pkid, filters })
        } else {
            Some(Packet::Unsubscribe { pkid, filters })
        },
        None => None,
    }
}

fn decode_body(h: u8, b: &[u8]) -> (r: Option<Packet>)
    ensures
        match r {
            Some(p) => body_spec(h, b@) == Some(p@),
            None => body_spec(h, b@) is None,
        },
{
    let kind = h / 16;
    if kind == 1 {
        Some(Packet::Connect)
    } else if kind == 2 {
        if b.len() == 2 && b[0] <= 1 && b[1] <= 5 {
            let code = match b[1] {
                0 => ConnectReturnCode::Accepted,
                1 => ConnectReturnCode::RefusedProtocolVersion,
                2 => ConnectReturnCode::BadClientId,
                3 => ConnectReturnCode::ServiceUnavailable,
                4 => ConnectReturnCode::BadUserNamePassword,
                _ => ConnectReturnCode::NotAuthorized,
            };
            Some(Packet::Connack { session_present: b[0] == 1, code })
        } else {
            None
        }
    } else if kind == 3 {
        decode_publish(h % 16, b)
    } else if kind == 8 {
        decode_filter_list(b, true)
    } else if kind == 10 {
        decode_filter_list(b, false)
    } else if kind == 12 {
        if b.len() == 0 { Some(Packet::Pingreq) } else { None }
    } else if kind == 13 {
        if b.len() == 0 { Some(Packet::Pingresp) } else { None }
    } else {
        Some(Packet::Other { kind })
    }
}

/// Decodes the frame at the start of `buf`. The buffer is only read, and the
/// result is a function of its bytes alone, so a repeated call on the same
/// bytes gives the same result.
pub fn decode(buf: &[u8]) -> (r: Decoded)
    ensures
        r@ == decode_spec(buf@),
{
    if buf.len() == 0 {
        return Decoded::Incomplete;
    }
    let h = buf[0];
    if h / 16 == 0 || h / 16 == 15 {
        return Decoded::Malformed;
    }
    match read_remaining_length(buf) {
        RemLen::Short => Decoded::Incomplete,
        RemLen::Bad => Decoded::Malformed,
        RemLen::Done(value, end) => {
            if buf.len() < end + value {
                Decoded::Incomplete
            } else {
                match decode_body(h, slice_subrange(buf, end, end + value)) {
                    Some(packet) => Decoded::Frame { packet, consumed: end + value },
                    None => Decoded::Malformed,
                }
            }
        },
    }
}

/// The CONNACK frame: fixed header 0x20, remaining length 2, the session flag
/// and the return code.
pub fn encode_connack(session_present: bool, code: ConnectReturnCode) -> (r: Vec<u8>)
    ensures
        r@ == seq![0x20u8, 2u8, if session_present { 1u8 } else { 0u8 }, code_byte(code)],
        decode_spec(r@) == (DecodedModel::Frame {
            packet: PacketModel::Connack { session_present, code },
            consumed: 4,
        }),
{
    let c: u8 = match code {
        ConnectReturnCode::Accepted => 0,
        ConnectReturnCode::RefusedProtocolVersion => 1,
        ConnectReturnCode::BadClientId => 2,
        ConnectReturnCode::ServiceUnavailable => 3,
        ConnectReturnCode::BadUserNamePassword => 4,
        ConnectReturnCode::NotAuthorized => 5,
    };
    let r = vec![0x20u8, 2u8, if session_present { 1u8 } else { 0u8 }, c];
    proof {
        assert(r@.subrange(2, 4) =~= seq![r@[2], r@[3]]);
    }
    r
}

/// A frame with no body: the fixed header byte and a zero remaining length.
fn encode_empty(h: u8) -> (r: Vec<u8>)
    ensures
        r@ == seq![h, 0u8],
{
    vec![h, 0u8]
}

/// The PINGRESP frame.
pub fn encode_pingresp() -> (r: Vec<u8>)
    ensures
        r@ == seq![0xD0u8, 0u8],
        decode_spec(r@) == (DecodedModel::Frame { packet: PacketModel::Pingresp, consumed: 2 }),
{
    let r = encode_empty(0xD0);
    assert(r@.subrange(2, 2) =~= Seq::<u8>::empty());
    r
}

/// The PINGREQ frame.
pub fn encode_pingreq() -> (r: Vec<u8>)
    ensures
        r@ == seq![0xC0u8, 0u8],
        decode_spec(r@) == (DecodedModel::Frame { packet: PacketModel::Pingreq, consumed: 2 }),
{
    let r = encode_empty(0xC0);
    assert(r@.subrange(2, 2) =~= Seq::<u8>::empty());
    r
}

/// The Remaining Length encoding of `v`: seven bits per byte, lowest group
/// first, the high bit set on every byte but the last.
pub open spec fn varint_bytes(v: nat) -> Seq<u8>
    decreases v,
{
    if v < 128 {
        seq![v as u8]
    } else {
        seq![(v % 128 + 128) as u8] + varint_bytes(v / 128)
    }
}

proof fn lemma_varint_len(v: nat)
    requires
        v < 268435456,
    ensures
        1 <= varint_bytes(v).len() <= 4,
{
    reveal_with_fuel(varint_bytes, 4);
    if v >= 128 {
        assert(v / 128 < 2097152);
        if v / 128 >= 128 {
            assert(v / 128 / 128 < 16384);
            if v / 128 / 128 >= 128 {
                assert(v / 128 / 128 / 128 < 128);
            }
        }
    }
}

proof fn lemma_varint_reads(s: Seq<u8>, k: nat, acc: nat, mult: nat, v: nat)
    requires
        k + varint_bytes(v).len() <= 4,
        k + 1 + varint_bytes(v).len() <= s.len(),
        s.subrange(k + 1int, k + 1int + varint_bytes(v).len()) == varint_bytes(v),
    ensures
        remaining_length(s, k, acc, mult) == (LenModel::Done {
            value: acc + v * mult,
            end: k + 1 + varint_bytes(v).len(),
        }),
    decreases v,
{
    let vb = varint_bytes(v);
    assert(s[k + 1int] == s.subrange(k + 1int, k + 1int + vb.len())[0]);
    if v >= 128 {
        let w = v / 128;
        let wb = varint_bytes(w);
        assert(s.subrange(k + 2int, k + 2int + wb.len()) =~= vb.subrange(1, vb.len() as int));
        assert(vb.subrange(1, vb.len() as int) =~= wb);
        lemma_varint_reads(s, k + 1, acc + (v % 128) * mult, mult * 128, w);
        assert((v % 128) * mult + w * (mult * 128) == v * mult) by (nonlinear_arith)
            requires
                w == v / 128,
        ;
    }
}

fn encode_varint(v: usize, out: &mut Vec<u8>)
    ensures
        final(out)@ == old(out)@ + varint_bytes(v as nat),
{
    let mut x: usize = v;
    let ghost start = out@;
    loop
        invariant
            start == old(out)@,
            start + varint_bytes(v as nat) == out@ + varint_bytes(x as nat),
        decreases x,
    {
        if x < 128 {
            out.push(x as u8);
            assert(out@ =~= start + varint_bytes(v as nat));
            return;
        }
        let ghost before = out@;
        out.push((x % 128 + 128) as u8);
        assert(before + varint_bytes(x as nat) =~= out@ + varint_bytes((x / 128) as nat));
        x = x / 128;
    }
}

fn extend(out: &mut Vec<u8>, b: &[u8])
    ensures
        final(out)@ == old(out)@ + b@,
{
    let mut i: usize = 0;
    while i < b.len()
        invariant
            i <= b@.len(),
            out@ == old(out)@ + b@.subrange(0, i as int),
        decreases b@.len() - i,
    {
        out.push(b[i]);
        i = i + 1;
        assert(b@.subrange(0, i as int) =~= b@.subrange(0, i - 1) + seq![b@[i - 1]]);
    }
    assert(b@.subrange(0, i as int) =~= b@);
}

/// A frame made of a first byte, the Remaining Length of `body`, and `body`.
proof fn lemma_frame_reads(h: u8, body: Seq<u8>)
    requires
        body.len() < 268435456,
        h / 16 != 0 && h / 16 != 15,
    ensures
        ({
            let s = seq![h] + varint_bytes(body.len()) + body;
            &&& remaining_length(s, 0, 0, 1) == (LenModel::Done {
                value: body.len(),
                end: 1 + varint_bytes(body.len()).len(),
            })
            &&& s.subrange(
                1int + varint_bytes(body.len()).len(),
                s.len() as int,
            ) == body
            &&& s.len() == 1 + varint_bytes(body.len()).len() + body.len()
        }),
{
    let vb = varint_bytes(body.len());
    let s = seq![h] + vb + body;
    lemma_varint_len(body.len());
    assert(s.subrange(1, 1int + vb.len()) =~= vb);
    lemma_varint_reads(s, 0, 0, 1, body.len());
    assert(s.subrange(1int + vb.len(), s.len() as int) =~= body);
}

/// The CONNECT frame for protocol level 4 ("MQTT"), clean session, no will,
/// no credentials, with the given keep-alive and client id.
pub open spec fn connect_bytes(keep_alive: u16, client_id: Seq<u8>) -> Seq<u8> {
    seq![0x10u8] + varint_bytes(12 + client_id.len()) + seq![
        0u8,
        4u8,
        0x4Du8,
        0x51u8,
        0x54u8,
        0x54u8,
        4u8,
        2u8,
        (keep_alive / 256) as u8,
        (keep_alive % 256) as u8,
        (client_id.len() / 256) as u8,
        (client_id.len() % 256) as u8,
    ] + client_id
}

/// The PUBLISH frame at QoS 0: no packet id.
pub open spec fn publish_bytes(topic: Seq<u8>, payload: Seq<u8>) -> Seq<u8> {
    seq![0x30u8] + varint_bytes(2 + topic.len() + payload.len()) + seq![
        (topic.len() / 256) as u8,
        (topic.len() % 256) as u8,
    ] + topic + payload
}

/// The SUBACK frame for packet id `pkid`, granting QoS 0 to each of `n` filters.
pub open spec fn suback_bytes(pkid: u16, n: nat) -> Seq<u8> {
    seq![0x90u8] + varint_bytes(2 + n) + seq![(pkid / 256) as u8, (pkid % 256) as u8] + Seq::new(
        n,
        |i: int| 0u8,
    )
}

/// The UNSUBACK frame for packet id `pkid`.
pub open spec fn unsuback_bytes(pkid: u16) -> Seq<u8> {
    seq![0xB0u8, 2u8, (pkid / 256) as u8, (pkid % 256) as u8]
}

/// A CONNECT frame for protocol level 4 ("MQTT"), clean session, no will,
/// no credentials, with the given keep-alive and client id.
pub fn encode_connect(keep_alive: u16, client_id: &[u8]) -> (r: Vec<u8>)
    requires
        client_id@.len() < 65536,
    ensures
        r@ == connect_bytes(keep_alive, client_id@),
        decode_spec(r@) == (DecodedModel::Frame { packet: PacketModel::Connect, consumed: r@.len() }),
{
    let mut body: Vec<u8> = vec![0u8, 4u8, 0x4Du8, 0x51u8, 0x54u8, 0x54u8, 4u8, 2u8];
    body.push((keep_alive / 256) as u8);
    body.push((keep_alive % 256) as u8);
    body.push((client_id.len() / 256) as u8);
    body.push((client_id.len() % 256) as u8);
    extend(&mut body, client_id);
    let mut out: Vec<u8> = vec![0x10u8];
    encode_varint(body.len(), &mut out);
    extend(&mut out, body.as_slice());
    proof {
        lemma_frame_reads(0x10u8, body@);
        assert(out@ =~= seq![0x10u8] + varint_bytes(body@.len()) + body@);
        assert(out@ =~= connect_bytes(keep_alive, client_id@));
    }
    out
}

/// A PUBLISH frame at QoS 0 (no packet id) with the given topic and payload.
pub fn encode_publish(topic: &[u8], payload: &[u8]) -> (r: Vec<u8>)
    requires
        topic@.len() < 65536,
        2 + topic@.len() + payload@.len() < 268435456,
    ensures
        r@ == publish_bytes(topic@, payload@),
        r@[0] == 0x30,
        decode_spec(r@) == (DecodedModel::Frame {
            packet: PacketModel::Publish { topic: topic@, payload: payload@ },
            consumed: r@.len(),
        }),
{
    let mut body: Vec<u8> = Vec::new();
    body.push((topic.len() / 256) as u8);
    body.push((topic.len() % 256) as u8);
    extend(&mut body, topic);
    extend(&mut body, payload);
    let mut out: Vec<u8> = vec![0x30u8];
    encode_varint(body.len(), &mut out);
    extend(&mut out, body.as_slice());
    proof {
        lemma_frame_reads(0x30u8, body@);
        let s = seq![0x30u8] + varint_bytes(body@.len()) + body@;
        assert(out@ =~= s);
        let e = 1 + varint_bytes(body@.len()).len();
        assert(s.subrange(e as int, (e + body@.len()) as int) == body@);
        assert(be16(body@[0], body@[1]) == topic@.len());
        assert(body@.subrange(2, 2int + topic@.len()) =~= topic@);
        assert(body@.subrange(2int + topic@.len(), body@.len() as int) =~= payload@);
        assert(out@ =~= publish_bytes(topic@, payload@));
    }
    out
}

/// One filter as SUBSCRIBE or UNSUBSCRIBE lists it.
pub open spec fn filter_entry(f: Seq<u8>, with_qos: bool) -> Seq<u8> {
    seq![(f.len() / 256) as u8, (f.len() % 256) as u8] + f + if with_qos {
        seq![0u8]
    } else {
        Seq::empty()
    }
}

/// The encoding of a filter list, each at QoS 0 when `with_qos`.
pub open spec fn filters_bytes(fs: Seq<Seq<u8>>, with_qos: bool) -> Seq<u8>
    decreases fs.len(),
{
    if fs.len() == 0 {
        Seq::empty()
    } else {
        filters_bytes(fs.drop_last(), with_qos) + filter_entry(fs.last(), with_qos)
    }
}

/// Whether `encode` can write a packet: lengths fit their fields, and an
/// `Other` kind is one that decodes back as `Other`.
pub open spec fn encodable(p: PacketModel) -> bool {
    match p {
        PacketModel::Publish { topic, payload } => topic.len() < 65536 && 2 + topic.len()
            + payload.len() < 268435456,
        PacketModel::Subscribe { filters, .. } => (forall|i: int|
            0 <= i < filters.len() ==> #[trigger] filters[i].len() < 65536) && 2
            + filters_bytes(filters, true).len() < 268435456,
        PacketModel::Unsubscribe { filters, .. } => (forall|i: int|
            0 <= i < filters.len() ==> #[trigger] filters[i].len() < 65536) && 2
            + filters_bytes(filters, false).len() < 268435456,
        PacketModel::Other { kind } => kind == 4 || kind == 5 || kind == 6 || kind == 7 || kind
            == 9 || kind == 11 || kind == 14,
        _ => true,
    }
}

proof fn lemma_filters_parse(fs: Seq<Seq<u8>>, with_qos: bool)
    requires
        forall|i: int| 0 <= i < fs.len() ==> #[trigger] fs[i].len() < 65536,
    ensures
        filters_spec(filters_bytes(fs, with_qos), with_qos) == Some(fs),
    decreases fs.len(),
{
    if fs.len() > 0 {
        let f = fs[0];
        let tail = fs.drop_first();
        lemma_filters_bytes_front(fs, with_qos);
        lemma_filters_parse(tail, with_qos);
        let b = filters_bytes(fs, with_qos);
        let e = filter_entry(f, with_qos);
        assert(b == e + filters_bytes(tail, with_qos));
        assert(b[0] == e[0] && b[1] == e[1]);
        assert(be16(b[0], b[1]) == f.len());
        let n = f.len() as int;
        let end = 2 + n + if with_qos { 1int } else { 0int };
        assert(b.subrange(2, 2 + n) =~= f);
        assert(b.subrange(end, b.len() as int) =~= filters_bytes(tail, with_qos));
        assert(seq![f] + tail =~= fs);
    } else {
        assert(filters_bytes(fs, with_qos) =~= Seq::<u8>::empty());
        assert(fs =~= Seq::<Seq<u8>>::empty());
    }
}

proof fn lemma_filters_bytes_front(fs: Seq<Seq<u8>>, with_qos: bool)
    requires
        fs.len() > 0,
    ensures
        filters_bytes(fs, with_qos) == filter_entry(fs[0], with_qos) + filters_bytes(
            fs.drop_first(),
            with_qos,
        ),
    decreases fs.len(),
{
    if fs.len() == 1 {
        assert(fs.drop_last() =~= Seq::<Seq<u8>>::empty());
        assert(fs.drop_first() =~= Seq::<Seq<u8>>::empty());
        assert(filters_bytes(fs.drop_last(), with_qos) == Seq::<u8>::empty());
        assert(fs.last() == fs[0]);
        assert(filters_bytes(fs, with_qos) == filters_bytes(fs.drop_last(), with_qos) + filter_entry(
            fs[0],
            with_qos,
        ));
        assert(filters_bytes(fs, with_qos) =~= filter_entry(fs[0], with_qos));
        assert(filter_entry(fs[0], with_qos) + Seq::<u8>::empty() =~= filter_entry(fs[0], with_qos));
    } else {
        lemma_filters_bytes_front(fs.drop_last(), with_qos);
        assert(fs.drop_last().drop_first() =~= fs.drop_first().drop_last());
        assert(fs.drop_first().last() == fs.last());
        assert(fs.drop_last()[0] == fs[0]);
        assert(filters_bytes(fs, with_qos) =~= filter_entry(fs[0], with_qos) + filters_bytes(
            fs.drop_first(),
            with_qos,
        ));
    }
}

/// Writes a SUBSCRIBE (`with_qos`) or UNSUBSCRIBE frame.
fn encode_filter_list(h: u8, pkid: u16, filters: &Vec<Vec<u8>>, with_qos: bool) -> (r: Vec<u8>)
    requires
        h == 0x82 || h == 0xA2,
        with_qos == (h == 0x82),
        forall|i: int| 0 <= i < filters@.len() ==> #[trigger] filters@[i]@.len() < 65536,
        2 + filters_bytes(filters_view(filters@), with_qos).len() < 268435456,
    ensures
        decode_spec(r@) == (DecodedModel::Frame {
            packet: if with_qos {
                PacketModel::Subscribe { pkid, filters: filters_view(filters@) }
            } else {
                PacketModel::Unsubscribe { pkid, filters: filters_view(filters@) }
            },
            consumed: r@.len(),
        }),
{
    let ghost fv = filters_view(filters@);
    let mut body: Vec<u8> = Vec::new();
    body.push((pkid / 256) as u8);
    body.push((pkid % 256) as u8);
    let ghost head = body@;
    let mut i: usize = 0;
    while i < filters.len()
        invariant
            i <= filters@.len(),
            fv == filters_view(filters@),
            head.len() == 2,
            body@ == head + filters_bytes(fv.take(i as int), with_qos),
            forall|j: int| 0 <= j < filters@.len() ==> #[trigger] filters@[j]@.len() < 65536,
        decreases filters@.len() - i,
    {
        let f = &filters[i];
        let ghost before = body@;
        body.push((f.len() / 256) as u8);
        body.push((f.len() % 256) as u8);
        extend(&mut body, f.as_slice());
        if with_qos {
            body.push(0u8);
        }
        proof {
            let t = fv.take(i + 1);
            assert(t.drop_last() =~= fv.take(i as int));
            assert(t.last() == f@);
            assert(body@ =~= before + filter_entry(f@, with_qos));
        }
        i = i + 1;
    }
    proof {
        assert(fv.take(i as int) =~= fv);
        assert(forall|j: int| 0 <= j < fv.len() ==> #[trigger] fv[j].len() < 65536) by {
            assert forall|j: int| 0 <= j < fv.len() implies #[trigger] fv[j].len() < 65536 by {
                assert(fv[j] == filters@[j]@);
            }
        }
        lemma_filters_parse(fv, with_qos);
    }
    let mut out: Vec<u8> = vec![h];
    encode_varint(body.len(), &mut out);
    extend(&mut out, body.as_slice());
    proof {
        lemma_frame_reads(h, body@);
        let s = seq![h] + varint_bytes(body@.len()) + body@;
        assert(out@ =~= s);
        let e = 1 + varint_bytes(body@.len()).len();
        assert(s.subrange(e as int, (e + body@.len()) as int) == body@);
        assert(be16(body@[0], body@[1]) == pkid);
        assert(body@.subrange(2, body@.len() as int) =~= filters_bytes(fv, with_qos));
    }
    out
}

/// Encodes a packet as one frame; decoding the frame gives the packet back.
/// CONNECT is written with a keep-alive of 60 seconds and an empty client id.
pub fn encode(p: &Packet) -> (r: Vec<u8>)
    requires
        encodable(p@),
    ensures
        decode_spec(r@) == (DecodedModel::Frame { packet: p@, consumed: r@.len() }),
        p@ is Connect ==> r@ == connect_bytes(60, Seq::empty()),
{
    match p {
        Packet::Connect => {
            let r = encode_connect(60, &[]);
            assert(r@ == connect_bytes(60, Seq::empty()));
            r
        },
        Packet::Connack { session_present, code } => encode_connack(*session_present, *code),
        Packet::Publish { topic, payload } => encode_publish(topic.as_slice(), payload.as_slice()),
        Packet::Subscribe { pkid, filters } => {
            proof {
                assert forall|i: int| 0 <= i < filters@.len() implies #[trigger] filters@[i]@.len() < 65536 by {
                    assert(filters_view(filters@)[i] == filters@[i]@);
                }
            }
            encode_filter_list(0x82, *pkid, filters, true)
        },
        Packet::Unsubscribe { pkid, filters } => {
            proof {
                assert forall|i: int| 0 <= i < filters@.len() implies #[trigger] filters@[i]@.len() < 65536 by {
                    assert(filters_view(filters@)[i] == filters@[i]@);
                }
            }
            encode_filter_list(0xA2, *pkid, filters, false)
        },
        Packet::Pingreq => encode_pingreq(),
        Packet::Pingresp => encode_pingresp(),
        Packet::Other { kind } => {
            let r = encode_empty(*kind * 16);
            assert(r@.subrange(2, 2) =~= Seq::<u8>::empty());
            r
        },
    }
}

/// The SUBACK frame acknowledging a SUBSCRIBE of `n` filters, each at QoS 0.
pub fn encode_suback(pkid: u16, n: usize) -> (r: Vec<u8>)
    requires
        n <= usize::MAX - 2,
    ensures
        r@ == suback_bytes(pkid, n as nat),
{
    let mut out: Vec<u8> = vec![0x90u8];
    encode_varint(n + 2, &mut out);
    out.push((pkid / 256) as u8);
    out.push((pkid % 256) as u8);
    let ghost head = out@;
    let mut i: usize = 0;
    while i < n
        invariant
            i <= n,
            head == seq![0x90u8] + varint_bytes((n + 2) as nat) + seq![(pkid / 256) as u8, (pkid % 256) as u8],
            out@ == head + Seq::new(i as nat, |j: int| 0u8),
        decreases n - i,
    {
        out.push(0u8);
        i = i + 1;
        assert(out@ =~= head + Seq::new(i as nat, |j: int| 0u8));
    }
    assert(out@ =~= suback_bytes(pkid, n as nat));
    out
}

/// The UNSUBACK frame acknowledging an UNSUBSCRIBE.
pub fn encode_unsuback(pkid: u16) -> (r: Vec<u8>)
    ensures
        r@ == unsuback_bytes(pkid),
{
    vec![0xB0u8, 2u8, (pkid / 256) as u8, (pkid % 256) as u8]
}

proof fn lemma_filters_count(b: Seq<u8>, with_qos: bool)
    ensures
        filters_spec(b, with_qos) matches Some(f) ==> 2 * f.len() <= b.len(),
    decreases b.len(),
{
    if b.len() >= 2 {
        let n = be16(b[0], b[1]) as int;
        let e = 2 + n + if with_qos { 1int } else { 0int };
        if b.len() >= e {
            lemma_filters_count(b.subrange(e, b.len() as int), with_qos);
        }
    }
}

/// A decoded SUBSCRIBE frame lists fewer filters than it has bytes.
pub proof fn lemma_subscribe_count(s: Seq<u8>)
    ensures
        decode_spec(s) matches DecodedModel::Frame { packet: PacketModel::Subscribe { filters, .. }, .. }
            ==> 2 * filters.len() <= s.len(),
{
    if s.len() > 0 && !(s[0] / 16 == 0 || s[0] / 16 == 15) {
        match remaining_length(s, 0, 0, 1) {
            LenModel::Done { value, end } => {
                if s.len() >= end + value {
                    let b = s.subrange(end as int, (end + value) as int);
                    if b.len() >= 2 {
                        lemma_filters_count(b.subrange(2, b.len() as int), true);
                    }
                }
            },
            _ => {},
        }
    }
}

} // verus!
