use vstd::prelude::*;
use vstd::slice::slice_to_vec;
use vstd::slice::slice_subrange;
use crate::codec::{
    decode, decode_spec, encode_connack, encode_pingresp, encode_suback, encode_unsuback,
    lemma_subscribe_count, suback_bytes, unsuback_bytes, ConnectReturnCode, Decoded,
    DecodedModel, Packet, PacketModel,
};
use crate::stream::{drain, lemma_decode_consumes, lemma_decode_extends};

verus! {

/// What the socket loop must do after one step of a connection.
#[derive(Debug)]
pub enum Action {
    /// The buffer holds no whole frame: read more bytes.
    Wait,
    /// Write these bytes back to the peer.
    Reply(Vec<u8>),
    /// A PUBLISH payload to resolve and, if it is a report, to forward.
    Deliver(Vec<u8>),
    /// A frame that needs no action.
    Ignore,
    /// The connection is closed: drop the socket.
    Close,
}

pub enum ActionModel {
    Wait,
    Reply(Seq<u8>),
    Deliver(Seq<u8>),
    Ignore,
    Close,
}

impl View for Action {
    type V = ActionModel;

    open spec fn view(&self) -> ActionModel {
        match self {
            Action::Wait => ActionModel::Wait,
            Action::Reply(b) => ActionModel::Reply(b@),
            Action::Deliver(p) => ActionModel::Deliver(p@),
            Action::Ignore => ActionModel::Ignore,
            Action::Close => ActionModel::Close,
        }
    }
}

/// The state of one connection: unconsumed input, whether a CONNECT was
/// accepted, and whether the connection is closed.
pub struct ConnModel {
    pub buf: Seq<u8>,
    pub handshaked: bool,
    pub closed: bool,
}

/// The per-socket protocol state machine.
pub struct Connection {
    buf: Vec<u8>,
    handshaked: bool,
    closed: bool,
}

impl View for Connection {
    type V = ConnModel;

    closed spec fn view(&self) -> ConnModel {
        ConnModel { buf: self.buf@, handshaked: self.handshaked, closed: self.closed }
    }
}

pub open spec fn connack_accepted_bytes() -> Seq<u8> {
    seq![0x20u8, 2u8, 0u8, 0u8]
}

pub open spec fn pingresp_bytes() -> Seq<u8> {
    seq![0xD0u8, 0u8]
}

/// What a connection does with a decoded packet: CONNECT is answered with
/// CONNACK(Accepted), PINGREQ with PINGRESP, SUBSCRIBE with a SUBACK granting
/// QoS 0 to every filter, UNSUBSCRIBE with an UNSUBACK; a PUBLISH payload is
/// delivered; anything else needs no action.
pub open spec fn action_of(p: PacketModel) -> ActionModel {
    match p {
        PacketModel::Connect => ActionModel::Reply(connack_accepted_bytes()),
        PacketModel::Pingreq => ActionModel::Reply(pingresp_bytes()),
        PacketModel::Subscribe { pkid, filters } => ActionModel::Reply(
            suback_bytes(pkid, filters.len()),
        ),
        PacketModel::Unsubscribe { pkid, .. } => ActionModel::Reply(unsuback_bytes(pkid)),
        PacketModel::Publish { payload, .. } => ActionModel::Deliver(payload),
        _ => ActionModel::Ignore,
    }
}

/// One step of a connection: decode the frame at the start of the buffer,
/// drop exactly the bytes it took, and act on it. A malformed frame closes
/// the connection; an incomplete one leaves the state as it is.
pub open spec fn step_spec(c: ConnModel) -> (ConnModel, ActionModel) {
    if c.closed {
        (c, ActionModel::Close)
    } else {
        match decode_spec(c.buf) {
            DecodedModel::Incomplete => (c, ActionModel::Wait),
            DecodedModel::Malformed => (ConnModel { closed: true, ..c }, ActionModel::Close),
            DecodedModel::Frame { packet, consumed } => (
                ConnModel {
                    buf: c.buf.subrange(consumed as int, c.buf.len() as int),
                    handshaked: c.handshaked || packet is Connect,
                    closed: false,
                },
                action_of(packet),
            ),
        }
    }
}

/// Steps a connection until it waits for bytes or closes: the state it ends
/// in and the actions taken on the way.
pub open spec fn run(c: ConnModel) -> (ConnModel, Seq<ActionModel>)
    decreases c.buf.len(),
{
    let (c2, a) = step_spec(c);
    match a {
        ActionModel::Wait => (c2, Seq::empty()),
        ActionModel::Close => (c2, seq![a]),
        _ => if c2.buf.len() < c.buf.len() {
            let r = run(c2);
            (r.0, seq![a] + r.1)
        } else {
            (c2, seq![a])
        },
    }
}

impl Connection {
    /// A fresh connection, awaiting CONNECT.
    pub fn new() -> (r: Connection)
        ensures
            r@ == (ConnModel { buf: Seq::empty(), handshaked: false, closed: false }),
    {
        Connection { buf: Vec::new(), handshaked: false, closed: false }
    }

    /// Appends bytes read from the socket to the unconsumed input.
    pub fn receive(&mut self, data: &[u8])
        ensures
            final(self)@ == (ConnModel { buf: old(self)@.buf + data@, ..old(self)@ }),
    {
        let mut i: usize = 0;
        while i < data.len()
            invariant
                i <= data@.len(),
                self.handshaked == old(self).handshaked,
                self.closed == old(self).closed,
                self.buf@ == old(self).buf@ + data@.subrange(0, i as int),
            decreases data@.len() - i,
        {
            self.buf.push(data[i]);
            i = i + 1;
            assert(data@.subrange(0, i as int) =~= data@.subrange(0, i - 1) + seq![data@[i - 1]]);
        }
        assert(data@.subrange(0, i as int) =~= data@);
    }

    /// Takes one step of the state machine on the buffered input.
    pub fn next_action(&mut self) -> (r: Action)
        ensures
            (final(self)@, r@) == step_spec(old(self)@),
    {
        if self.closed {
            return Action::Close;
        }
        match decode(self.buf.as_slice()) {
            Decoded::Incomplete => Action::Wait,
            Decoded::Malformed => {
                self.closed = true;
                Action::Close
            },
            Decoded::Frame { packet, consumed } => {
                proof {
                    lemma_decode_consumes(self.buf@);
                    lemma_subscribe_count(self.buf@);
                }
                let rest = slice_to_vec(slice_subrange(self.buf.as_slice(), consumed, self.buf.len()));
                self.buf = rest;
                match packet {
                    Packet::Connect => {
                        self.handshaked = true;
                        Action::Reply(encode_connack(false, ConnectReturnCode::Accepted))
                    },
                    Packet::Pingreq => Action::Reply(encode_pingresp()),
                    Packet::Subscribe { pkid, filters } => Action::Reply(encode_suback(pkid, filters.len())),
                    Packet::Unsubscribe { pkid, .. } => Action::Reply(encode_unsuback(pkid)),
                    Packet::Publish { payload, .. } => Action::Deliver(payload),
                    _ => Action::Ignore,
                }
            },
        }
    }

    pub fn is_closed(&self) -> (r: bool)
        ensures
            r == self@.closed,
    {
        self.closed
    }

    pub fn is_handshaked(&self) -> (r: bool)
        ensures
            r == self@.handshaked,
    {
        self.handshaked
    }

    /// Number of bytes received and not yet consumed.
    pub fn buffered(&self) -> (r: usize)
        ensures
            r == self@.buf.len(),
    {
        self.buf.len()
    }
}

/// A CONNECT frame followed at once by a PINGREQ frame, on an open connection
/// with nothing buffered, yields exactly a CONNACK(Accepted) reply and then a
/// PINGRESP reply, and leaves the connection handshaked with an empty buffer.
pub proof fn lemma_connect_then_ping(c: ConnModel, a: Seq<u8>, b: Seq<u8>)
    requires
        !c.closed,
        c.buf.len() == 0,
        decode_spec(a) == (DecodedModel::Frame { packet: PacketModel::Connect, consumed: a.len() }),
        decode_spec(b) == (DecodedModel::Frame { packet: PacketModel::Pingreq, consumed: b.len() }),
    ensures
        step_spec(ConnModel { buf: a + b, ..c }).1 == ActionModel::Reply(connack_accepted_bytes()),
        step_spec(step_spec(ConnModel { buf: a + b, ..c }).0).1 == ActionModel::Reply(pingresp_bytes()),
        step_spec(step_spec(ConnModel { buf: a + b, ..c }).0).0 == (ConnModel {
            buf: Seq::empty(),
            handshaked: true,
            closed: false,
        }),
{
    lemma_decode_extends(a, b);
    assert((a + b).subrange(a.len() as int, (a + b).len() as int) =~= b);
    assert(b.subrange(b.len() as int, b.len() as int) =~= Seq::<u8>::empty());
}

/// A malformed frame closes only the connection that sent it: another open
/// connection holding a PUBLISH still delivers its payload and stays open.
pub proof fn lemma_malformed_is_local(bad: ConnModel, good: ConnModel, topic: Seq<u8>, payload: Seq<u8>)
    requires
        !bad.closed,
        !good.closed,
        decode_spec(bad.buf) is Malformed,
        decode_spec(good.buf) matches DecodedModel::Frame { packet, .. }
            && packet == (PacketModel::Publish { topic, payload }),
    ensures
        step_spec(bad).0.closed,
        step_spec(bad).1 == ActionModel::Close,
        step_spec(good).1 == ActionModel::Deliver(payload),
        !step_spec(good).0.closed,
        step_spec(good).0.handshaked == good.handshaked,
{
}

/// A step that finds only part of a frame is pure: it keeps the buffered
/// bytes and the state exactly as they were, so repeating it gives the same
/// result again.
pub proof fn lemma_incomplete_is_pure(c: ConnModel)
    requires
        !c.closed,
        decode_spec(c.buf) is Incomplete,
    ensures
        step_spec(c) == (c, ActionModel::Wait),
        step_spec(step_spec(c).0) == step_spec(c),
{
}

/// Stepping a connection until it waits or closes acts on exactly the frames
/// that `drain` finds in its buffer, in order, then closes if draining stopped
/// on a malformed frame; the bytes left buffered are those `drain` leaves.
pub proof fn lemma_run_follows_drain(c: ConnModel)
    requires
        !c.closed,
    ensures
        run(c).1 == drain(c.buf).packets.map_values(|p: PacketModel| action_of(p)) + if drain(
            c.buf,
        ).malformed {
            seq![ActionModel::Close]
        } else {
            Seq::<ActionModel>::empty()
        },
        run(c).0.buf == drain(c.buf).rest,
        run(c).0.closed == drain(c.buf).malformed,
    decreases c.buf.len(),
{
    lemma_decode_consumes(c.buf);
    match decode_spec(c.buf) {
        DecodedModel::Frame { packet, consumed } => {
            let c2 = step_spec(c).0;
            lemma_run_follows_drain(c2);
            let d = drain(c2.buf);
            let tail = if d.malformed {
                seq![ActionModel::Close]
            } else {
                Seq::<ActionModel>::empty()
            };
            assert((seq![packet] + d.packets).map_values(|p: PacketModel| action_of(p)) =~= seq![
                action_of(packet),
            ] + d.packets.map_values(|p: PacketModel| action_of(p)));
            assert(seq![action_of(packet)] + (d.packets.map_values(|p: PacketModel| action_of(p))
                + tail) =~= seq![action_of(packet)] + d.packets.map_values(
                |p: PacketModel| action_of(p),
            ) + tail);
        },
        _ => {
            assert(Seq::<PacketModel>::empty().map_values(|p: PacketModel| action_of(p)) =~= Seq::<
                ActionModel,
            >::empty());
            assert(Seq::<ActionModel>::empty() + seq![ActionModel::Close] =~= seq![
                ActionModel::Close,
            ]);
            assert(Seq::<ActionModel>::empty() + Seq::<ActionModel>::empty() =~= Seq::<
                ActionModel,
            >::empty());
        },
    }
}

/// A PUBLISH never closes a connection, whatever its payload: of two PUBLISH
/// frames in a row, the first payload is delivered, the connection stays open,
/// and the second payload is delivered after it.
pub proof fn lemma_publish_keeps_open(
    c: ConnModel,
    a: Seq<u8>,
    b: Seq<u8>,
    t1: Seq<u8>,
    p1: Seq<u8>,
    t2: Seq<u8>,
    p2: Seq<u8>,
)
    requires
        !c.closed,
        decode_spec(c.buf + a) == (DecodedModel::Frame {
            packet: PacketModel::Publish { topic: t1, payload: p1 },
            consumed: c.buf.len() + a.len(),
        }),
        decode_spec(b) == (DecodedModel::Frame {
            packet: PacketModel::Publish { topic: t2, payload: p2 },
            consumed: b.len(),
        }),
    ensures
        step_spec(ConnModel { buf: c.buf + a + b, ..c }).1 == ActionModel::Deliver(p1),
        !step_spec(ConnModel { buf: c.buf + a + b, ..c }).0.closed,
        step_spec(step_spec(ConnModel { buf: c.buf + a + b, ..c }).0).1 == ActionModel::Deliver(p2),
        !step_spec(step_spec(ConnModel { buf: c.buf + a + b, ..c }).0).0.closed,
{
    lemma_decode_extends(c.buf + a, b);
    let s = c.buf + a + b;
    assert(s.subrange((c.buf.len() + a.len()) as int, s.len() as int) =~= b);
}

} // verus!
