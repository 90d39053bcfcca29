use vstd::prelude::*;
use crate::codec::{decode_spec, remaining_length, DecodedModel, LenModel, PacketModel};

verus! {

/// What draining a byte stream yields: the packets of the whole frames at its
/// start, the bytes left after them, and whether decoding stopped on a
/// malformed frame (`rest` then starts at that frame).
pub struct Drained {
    pub packets: Seq<PacketModel>,
    pub rest: Seq<u8>,
    pub malformed: bool,
}

/// Decodes frames from the start of `s` until a frame is incomplete or malformed.
pub open spec fn drain(s: Seq<u8>) -> Drained
    decreases s.len(),
{
    match decode_spec(s) {
        DecodedModel::Frame { packet, consumed } => if 0 < consumed <= s.len() {
            let d = drain(s.subrange(consumed as int, s.len() as int));
            Drained { packets: seq![packet] + d.packets, rest: d.rest, malformed: d.malformed }
        } else {
            Drained { packets: Seq::empty(), rest: s, malformed: true }
        },
        DecodedModel::Incomplete => Drained { packets: Seq::empty(), rest: s, malformed: false },
        DecodedModel::Malformed => Drained { packets: Seq::empty(), rest: s, malformed: true },
    }
}

proof fn lemma_remaining_length_extends(s: Seq<u8>, t: Seq<u8>, k: nat, acc: nat, mult: nat)
    requires
        !(remaining_length(s, k, acc, mult) is Short),
    ensures
        remaining_length(s + t, k, acc, mult) == remaining_length(s, k, acc, mult),
    decreases 4 - k,
{
    if k < 4 && s.len() > k + 1 {
        assert((s + t)[k + 1int] == s[k + 1int]);
        if s[k + 1int] >= 128 {
            lemma_remaining_length_extends(s, t, k + 1, acc + ((s[k + 1int] - 128) as nat) * mult, mult * 128);
        }
    }
}

/// A decided frame stays decided the same way whatever bytes follow it.
pub proof fn lemma_decode_extends(s: Seq<u8>, t: Seq<u8>)
    requires
        !(decode_spec(s) is Incomplete),
    ensures
        decode_spec(s + t) == decode_spec(s),
{
    assert((s + t)[0] == s[0]);
    if !(s[0] / 16 == 0 || s[0] / 16 == 15) {
        lemma_remaining_length_extends(s, t, 0, 0, 1);
        match remaining_length(s, 0, 0, 1) {
            LenModel::Done { value, end } => {
                assert((s + t).subrange(end as int, (end + value) as int) =~= s.subrange(
                    end as int,
                    (end + value) as int,
                ));
            },
            _ => {},
        }
    }
}

/// A decoded frame takes at least two bytes and no more than the buffer holds.
pub proof fn lemma_decode_consumes(s: Seq<u8>)
    ensures
        decode_spec(s) matches DecodedModel::Frame { consumed, .. } ==> 2 <= consumed <= s.len(),
{
    if s.len() > 0 && !(s[0] / 16 == 0 || s[0] / 16 == 15) {
        lemma_remaining_length_end(s, 0, 0, 1);
    }
}

proof fn lemma_remaining_length_end(s: Seq<u8>, k: nat, acc: nat, mult: nat)
    ensures
        remaining_length(s, k, acc, mult) matches LenModel::Done { end, .. } ==> end >= 2 && end <= s.len(),
    decreases 4 - k,
{
    if k < 4 && s.len() > k + 1 && s[k + 1int] >= 128 {
        lemma_remaining_length_end(s, k + 1, acc + ((s[k + 1int] - 128) as nat) * mult, mult * 128);
    }
}

/// Framing does not depend on read boundaries: draining `a`, then appending
/// `b` to what was left and draining again, yields the same packets, the same
/// leftover bytes and the same malformed verdict as draining `a + b` at once.
pub proof fn lemma_read_boundaries(a: Seq<u8>, b: Seq<u8>)
    ensures
        !drain(a).malformed ==> drain(a + b) == (Drained {
            packets: drain(a).packets + drain(drain(a).rest + b).packets,
            rest: drain(drain(a).rest + b).rest,
            malformed: drain(drain(a).rest + b).malformed,
        }),
        drain(a).malformed ==> drain(a + b).packets == drain(a).packets && drain(a + b).malformed
            && drain(a + b).rest == drain(a).rest + b,
    decreases a.len(),
{
    lemma_decode_consumes(a);
    match decode_spec(a) {
        DecodedModel::Frame { packet, consumed } => {
            lemma_decode_extends(a, b);
            let a2 = a.subrange(consumed as int, a.len() as int);
            assert((a + b).subrange(consumed as int, (a + b).len() as int) =~= a2 + b);
            lemma_read_boundaries(a2, b);
            assert(drain(a).rest == drain(a2).rest);
            if !drain(a2).malformed {
                assert(seq![packet] + (drain(a2).packets + drain(drain(a2).rest + b).packets)
                    =~= (seq![packet] + drain(a2).packets) + drain(drain(a2).rest + b).packets);
            }
        },
        DecodedModel::Incomplete => {
            assert(Seq::<PacketModel>::empty() + drain(a + b).packets =~= drain(a + b).packets);
        },
        DecodedModel::Malformed => {
            lemma_decode_extends(a, b);
        },
    }
}

} // verus!
