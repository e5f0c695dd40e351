//! The messages the components exchange: their opcodes, the frame of an opcode and its
//! payload, and the length prefix of the wire protocol.
use vstd::prelude::*;
use crate::common::ErrorKind;

verus! {

/// The kinds of message between the emulation core and the traffic controller.
#[derive(Clone, Copy, Debug, PartialEq, Eq)]
pub enum EmulMessageKind {
    FlowUpdate,
    TCInit,
    TCUpdate,
    TCDisconnect,
    TCReconnect,
    TCTeardown,
    SocketReady,
    EmulStart,
    Event,
}

/// The opcode of a kind of emulation message.
pub open spec fn emul_opcode_spec(k: EmulMessageKind) -> u16 {
    match k {
        EmulMessageKind::FlowUpdate => 0x0001,
        EmulMessageKind::TCInit => 0x0003,
        EmulMessageKind::TCUpdate => 0x0004,
        EmulMessageKind::TCDisconnect => 0x0005,
        EmulMessageKind::TCReconnect => 0x0006,
        EmulMessageKind::TCTeardown => 0x0007,
        EmulMessageKind::SocketReady => 0x0008,
        EmulMessageKind::Event => 0x0009,
        EmulMessageKind::EmulStart => 0x000A,
    }
}

/// The kinds of emulation message read from a payload.
pub open spec fn emul_needs_payload(k: EmulMessageKind) -> bool {
    match k {
        EmulMessageKind::FlowUpdate | EmulMessageKind::TCInit | EmulMessageKind::TCUpdate
        | EmulMessageKind::Event | EmulMessageKind::EmulStart => true,
        _ => false,
    }
}

/// The kinds of emulation message whose frame carries a payload.
pub open spec fn emul_carries_payload(k: EmulMessageKind) -> bool {
    match k {
        EmulMessageKind::FlowUpdate | EmulMessageKind::TCInit | EmulMessageKind::TCUpdate => true,
        _ => false,
    }
}

impl EmulMessageKind {
    /// The opcode of the kind.
    pub fn event_2_opcode(&self) -> (op: u16)
        ensures
            op == emul_opcode_spec(*self),
    {
        match self {
            EmulMessageKind::FlowUpdate => 0x0001,
            EmulMessageKind::TCInit => 0x0003,
            EmulMessageKind::TCUpdate => 0x0004,
            EmulMessageKind::TCDisconnect => 0x0005,
            EmulMessageKind::TCReconnect => 0x0006,
            EmulMessageKind::TCTeardown => 0x0007,
            EmulMessageKind::SocketReady => 0x0008,
            EmulMessageKind::Event => 0x0009,
            EmulMessageKind::EmulStart => 0x000A,
        }
    }

    /// The kind of an opcode, given whether a payload came with it: an opcode of a kind that
    /// is read from a payload is recognised only with one.
    pub fn opcode_2_event(opcode: u16, has_payload: bool) -> (r: Result<EmulMessageKind, ErrorKind>)
        ensures
            match r {
                Ok(k) => emul_opcode_spec(k) == opcode && (emul_needs_payload(k) ==> has_payload),
                Err(e) => e == ErrorKind::OpcodeNotRecognized && !exists|k: EmulMessageKind|
                    emul_opcode_spec(k) == opcode && (emul_needs_payload(k) ==> has_payload),
            },
    {
        let r = match opcode {
            0x0001 if has_payload => Ok(EmulMessageKind::FlowUpdate),
            0x0003 if has_payload => Ok(EmulMessageKind::TCInit),
            0x0004 if has_payload => Ok(EmulMessageKind::TCUpdate),
            0x0005 => Ok(EmulMessageKind::TCDisconnect),
            0x0006 => Ok(EmulMessageKind::TCReconnect),
            0x0007 => Ok(EmulMessageKind::TCTeardown),
            0x0008 => Ok(EmulMessageKind::SocketReady),
            0x0009 if has_payload => Ok(EmulMessageKind::Event),
            0x000A if has_payload => Ok(EmulMessageKind::EmulStart),
            _ => Err(ErrorKind::OpcodeNotRecognized),
        };
        proof {
            if r is Err {
                assert forall|k: EmulMessageKind| !(emul_opcode_spec(k) == opcode && (emul_needs_payload(k) ==> has_payload)) by {
                    match k {
                        EmulMessageKind::FlowUpdate => {},
                        _ => {},
                    }
                }
            }
        }
        r
    }

    /// The name of the kind.
    pub fn name(&self) -> (s: &'static str)
        ensures
            s@ == emul_name(*self),
    {
        match self {
            EmulMessageKind::FlowUpdate => "FlowUpdate",
            EmulMessageKind::TCInit => "TCInit",
            EmulMessageKind::TCUpdate => "TCUpdate",
            EmulMessageKind::TCDisconnect => "TCDisconnect",
            EmulMessageKind::TCReconnect => "TCReconnect",
            EmulMessageKind::TCTeardown => "TCTeardown",
            EmulMessageKind::SocketReady => "SocketReady",
            EmulMessageKind::EmulStart => "EmulationReady",
            EmulMessageKind::Event => "EmulationEvent",
        }
    }
}

/// The name of a kind of emulation message.
pub open spec fn emul_name(k: EmulMessageKind) -> Seq<char> {
    match k {
        EmulMessageKind::FlowUpdate => "FlowUpdate"@,
        EmulMessageKind::TCInit => "TCInit"@,
        EmulMessageKind::TCUpdate => "TCUpdate"@,
        EmulMessageKind::TCDisconnect => "TCDisconnect"@,
        EmulMessageKind::TCReconnect => "TCReconnect"@,
        EmulMessageKind::TCTeardown => "TCTeardown"@,
        EmulMessageKind::SocketReady => "SocketReady"@,
        EmulMessageKind::EmulStart => "EmulationReady"@,
        EmulMessageKind::Event => "EmulationEvent"@,
    }
}

/// Reading back the opcode of a kind gives the kind, whenever the payload it is read from
/// came with it.
pub proof fn lemma_emul_opcode_round_trip(k: EmulMessageKind, has_payload: bool)
    requires
        emul_needs_payload(k) ==> has_payload,
    ensures
        forall|j: EmulMessageKind| emul_opcode_spec(j) == emul_opcode_spec(k) && (emul_needs_payload(j) ==> has_payload)
            ==> j == k,
{
}

/// The kinds of message between the cluster managers.
#[derive(Clone, Copy, Debug, PartialEq, Eq)]
pub enum EventKind {
    CGraphUpdate,
    CGraphGet,
    CGraphSend,
    CJQResponse,
    CJQRequest,
    CJQRetry,
    CJQAbort,
    CHeartbeat,
    CHeartbeatCheck,
    CHeartbeatReset,
    NodeFailure,
    PClient,
    PServer,
}

/// The opcode of a kind of cluster message.
pub open spec fn event_opcode_spec(k: EventKind) -> u16 {
    match k {
        EventKind::CGraphUpdate => 0x0000,
        EventKind::CGraphGet => 0x0001,
        EventKind::CJQResponse => 0x0002,
        EventKind::CJQRequest => 0x0003,
        EventKind::CJQRetry => 0x0004,
        EventKind::CHeartbeat => 0x0005,
        EventKind::PClient => 0x0006,
        EventKind::PServer => 0x0007,
        EventKind::CGraphSend => 0x0009,
        EventKind::NodeFailure => 0x000A,
        EventKind::CHeartbeatCheck => 0x000B,
        EventKind::CHeartbeatReset => 0x000C,
        EventKind::CJQAbort => 0x000D,
    }
}

/// The kinds of cluster message that carry a payload, and are read from one.
pub open spec fn event_needs_payload(k: EventKind) -> bool {
    match k {
        EventKind::CGraphUpdate | EventKind::CJQResponse | EventKind::CJQRequest | EventKind::CHeartbeat
        | EventKind::PServer | EventKind::CGraphSend | EventKind::NodeFailure => true,
        _ => false,
    }
}

impl EventKind {
    /// The opcode of the kind.
    pub fn event_2_opcode(&self) -> (op: u16)
        ensures
            op == event_opcode_spec(*self),
    {
        match self {
            EventKind::CGraphUpdate => 0x0000,
            EventKind::CGraphGet => 0x0001,
            EventKind::CJQResponse => 0x0002,
            EventKind::CJQRequest => 0x0003,
            EventKind::CJQRetry => 0x0004,
            EventKind::CHeartbeat => 0x0005,
            EventKind::PClient => 0x0006,
            EventKind::PServer => 0x0007,
            EventKind::CGraphSend => 0x0009,
            EventKind::NodeFailure => 0x000A,
            EventKind::CHeartbeatCheck => 0x000B,
            EventKind::CHeartbeatReset => 0x000C,
            EventKind::CJQAbort => 0x000D,
        }
    }

    /// The kind of an opcode, given whether a payload came with it.
    pub fn opcode_2_event(opcode: u16, has_payload: bool) -> (r: Result<EventKind, ErrorKind>)
        ensures
            match r {
                Ok(k) => event_opcode_spec(k) == opcode && (event_needs_payload(k) ==> has_payload),
                Err(e) => e == ErrorKind::OpcodeNotRecognized && !exists|k: EventKind|
                    event_opcode_spec(k) == opcode && (event_needs_payload(k) ==> has_payload),
            },
    {
        let r = match opcode {
            0x0000 if has_payload => Ok(EventKind::CGraphUpdate),
            0x0001 => Ok(EventKind::CGraphGet),
            0x0002 if has_payload => Ok(EventKind::CJQResponse),
            0x0003 if has_payload => Ok(EventKind::CJQRequest),
            0x0004 => Ok(EventKind::CJQRetry),
            0x0005 if has_payload => Ok(EventKind::CHeartbeat),
            0x0006 => Ok(EventKind::PClient),
            0x0007 if has_payload => Ok(EventKind::PServer),
            0x0009 if has_payload => Ok(EventKind::CGraphSend),
            0x000A if has_payload => Ok(EventKind::NodeFailure),
            0x000B => Ok(EventKind::CHeartbeatCheck),
            0x000C => Ok(EventKind::CHeartbeatReset),
            0x000D => Ok(EventKind::CJQAbort),
            _ => Err(ErrorKind::OpcodeNotRecognized),
        };
        proof {
            if r is Err {
                assert forall|k: EventKind| !(event_opcode_spec(k) == opcode && (event_needs_payload(k) ==> has_payload)) by {
                    match k {
                        EventKind::CGraphUpdate => {},
                        _ => {},
                    }
                }
            }
        }
        r
    }
}

/// Reading back the opcode of a kind gives the kind, whenever the payload came with it.
pub proof fn lemma_event_opcode_round_trip(k: EventKind, has_payload: bool)
    requires
        event_needs_payload(k) ==> has_payload,
    ensures
        forall|j: EventKind| event_opcode_spec(j) == event_opcode_spec(k) && (event_needs_payload(j) ==> has_payload)
            ==> j == k,
{
}

/// The two bytes of `x`, the most significant first.
pub open spec fn u16_be(x: u16) -> Seq<u8> {
    seq![(x / 256) as u8, (x % 256) as u8]
}

/// A frame: the opcode on two bytes, most significant first, then the payload.
pub fn frame(opcode: u16, payload: &Vec<u8>) -> (buf: Vec<u8>)
    ensures
        buf@ == u16_be(opcode) + payload@,
{
    let mut buf: Vec<u8> = Vec::new();
    buf.push((opcode / 256) as u8);
    buf.push((opcode % 256) as u8);
    let mut i: usize = 0;
    while i < payload.len()
        invariant
            i <= payload@.len(),
            buf@ == u16_be(opcode) + payload@.subrange(0, i as int),
        decreases payload@.len() - i,
    {
        buf.push(payload[i]);
        proof {
            assert(payload@.subrange(0, i + 1) =~= payload@.subrange(0, i as int).push(payload@[i as int]));
        }
        i = i + 1;
    }
    proof {
        assert(payload@.subrange(0, payload@.len() as int) =~= payload@);
    }
    buf
}

/// The opcode of a frame and its payload, if anything follows the opcode.
pub fn split_frame(buf: &Vec<u8>) -> (r: (u16, Option<Vec<u8>>))
    requires
        buf@.len() >= 2,
    ensures
        r.0 == buf@[0] * 256 + buf@[1],
        buf@.len() == 2 ==> r.1 is None,
        buf@.len() > 2 ==> (r.1 matches Some(p) && p@ == buf@.subrange(2, buf@.len() as int)),
{
    let opcode: u16 = (buf[0] as u16) * 256 + (buf[1] as u16);
    if buf.len() == 2 {
        return (opcode, None);
    }
    let mut payload: Vec<u8> = Vec::new();
    let mut i: usize = 2;
    while i < buf.len()
        invariant
            2 <= i <= buf@.len(),
            payload@ == buf@.subrange(2, i as int),
        decreases buf@.len() - i,
    {
        payload.push(buf[i]);
        proof {
            assert(buf@.subrange(2, i + 1) =~= buf@.subrange(2, i as int).push(buf@[i as int]));
        }
        i = i + 1;
    }
    (opcode, Some(payload))
}

/// Splitting a frame gives back its opcode, and its payload when there is one.
pub proof fn lemma_frame_round_trip(opcode: u16, payload: Seq<u8>)
    ensures
        (u16_be(opcode) + payload)[0] * 256 + (u16_be(opcode) + payload)[1] == opcode,
        (u16_be(opcode) + payload).subrange(2, 2 + payload.len() as int) == payload,
{
    assert((u16_be(opcode) + payload).subrange(2, 2 + payload.len() as int) =~= payload);
}

/// The length of the content prefixed to each message on the wire, in bytes.
pub const CONTENT_LENGTH_LENGTH: usize = 2;

/// The message on the wire: its length on two bytes, most significant first (the length
/// taken modulo 65536), then the message.
pub fn prepare_data_to_send(data: &Vec<u8>) -> (buf: Vec<u8>)
    ensures
        buf@ == u16_be((data@.len() % 65536) as u16) + data@,
{
    let len = (data.len() % 65536) as u16;
    frame(len, data)
}

/// The length that a two-byte prefix announces.
pub fn get_size(buf: &Vec<u8>) -> (size: usize)
    requires
        buf@.len() == CONTENT_LENGTH_LENGTH,
    ensures
        size == buf@[0] * 256 + buf@[1],
{
    let mut size: usize = 0;
    let mut i: usize = 0;
    while i < CONTENT_LENGTH_LENGTH
        invariant
            buf@.len() == 2,
            i <= 2,
            i == 0 ==> size == 0,
            i == 1 ==> size == buf@[0] * 256,
            i == 2 ==> size == buf@[0] * 256 + buf@[1],
        decreases 2 - i,
    {
        let shift: usize = 8 * (CONTENT_LENGTH_LENGTH - 1 - i);
        let b = buf[i] as usize;
        proof {
            assert(b < 256);
            if i == 0 {
                assert((b << 8usize) == b * 256) by (bit_vector)
                    requires
                        b < 256,
                ;
                assert((0usize | (b << 8usize)) == b * 256) by (bit_vector)
                    requires
                        b < 256,
                ;
            } else {
                assert((b << 0usize) == b) by (bit_vector);
                let s0 = size;
                assert((s0 | (b << 0usize)) == s0 + b) by (bit_vector)
                    requires
                        b < 256,
                        s0 % 256 == 0,
                        s0 < 65536,
                ;
            }
        }
        size = size | (b << shift);
        i = i + 1;
    }
    size
}

/// The length prefix of a message announces the message's length, when it is below 65536.
pub proof fn lemma_length_prefix(data: Seq<u8>)
    requires
        data.len() < 65536,
    ensures
        ({
            let buf = u16_be((data.len() % 65536) as u16) + data;
            &&& buf[0] * 256 + buf[1] == data.len()
            &&& buf.subrange(2, buf.len() as int) == data
        }),
{
    let buf = u16_be((data.len() % 65536) as u16) + data;
    assert(buf.subrange(2, buf.len() as int) =~= data);
}

} // verus!
