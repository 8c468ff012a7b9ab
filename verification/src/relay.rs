//! Relaying between a TCP stream and a stream of the tunnel.
//!
//! On the tunnel, what was read from TCP travels in frames: the code 1, then a
//! chunk. The code 0 closes the relay.

use vstd::prelude::*;
use vstd::slice::slice_subrange;

use crate::delivery;
use crate::stream::StreamContext;
use crate::wire;
use crate::wire::Parsed;

verus! {

/// The code that closes a relay.
pub const CODE_CLOSE: u16 = 0;

/// The code in front of a chunk of data.
pub const CODE_DATA: u16 = 1;

/// The frame that carries `data`.
pub open spec fn frame_bytes(data: Seq<u8>) -> Seq<u8> {
    wire::be_bytes(CODE_DATA as nat, 2) + wire::chunk_bytes(data)
}

/// The frames that carry each of `data`, in order.
pub open spec fn frames(data: Seq<Seq<u8>>) -> Seq<u8>
    decreases data.len(),
{
    if data.len() == 0 {
        Seq::empty()
    } else {
        frame_bytes(data.first()) + frames(data.drop_first())
    }
}

/// What a relay is doing.
#[verifier::ext_equal]
pub enum Phase {
    /// It waits for bytes from TCP or a code from the tunnel, whichever is
    /// first.
    Selecting,
    /// It sends a frame.
    Sending,
    /// It has had the code of a frame and reads the chunk behind it.
    ReadingChunk,
    /// It has written the first `written` bytes of `chunk` to TCP.
    Writing { chunk: Seq<u8>, written: nat },
    /// It has ended.
    Stopped,
}

/// What a relay is told of the work that it asked for.
pub enum PairEvent {
    /// TCP had these bytes; none at its end.
    TcpRead(Vec<u8>),
    /// TCP was not ready after all.
    TcpNotReady,
    /// TCP failed.
    TcpFailed,
    /// The tunnel had this code; `None` at its end.
    Code(Option<u16>),
    /// The frame was sent.
    Sent,
    /// The tunnel had this chunk; `None` at its end.
    Chunk(Option<Vec<u8>>),
    /// TCP took this many of the bytes that it was offered.
    Written(usize),
    /// The tunnel failed, or held what is no code or chunk.
    StreamFailed,
}

/// The view of a `PairEvent`.
#[verifier::ext_equal]
pub enum Told {
    TcpRead(Seq<u8>),
    TcpNotReady,
    TcpFailed,
    Code(Option<u16>),
    Sent,
    Chunk(Option<Seq<u8>>),
    Written(nat),
    StreamFailed,
}

impl View for PairEvent {
    type V = Told;

    open spec fn view(&self) -> Told {
        match self {
            PairEvent::TcpRead(data) => Told::TcpRead(data@),
            PairEvent::TcpNotReady => Told::TcpNotReady,
            PairEvent::TcpFailed => Told::TcpFailed,
            PairEvent::Code(code) => Told::Code(*code),
            PairEvent::Sent => Told::Sent,
            PairEvent::Chunk(Some(chunk)) => Told::Chunk(Some(chunk@)),
            PairEvent::Chunk(None) => Told::Chunk(None),
            PairEvent::Written(count) => Told::Written(*count as nat),
            PairEvent::StreamFailed => Told::StreamFailed,
        }
    }
}

/// What a relay asks for next.
pub enum PairAction {
    /// Wait for TCP to be readable and read it, or read a code from the tunnel.
    Select,
    /// Send these bytes on the tunnel.
    Send(Vec<u8>),
    /// Read a chunk from the tunnel.
    ReadChunk,
    /// Offer TCP the bytes that `StreamPair::unwritten` gives.
    Write,
    /// The relay is over.
    Stop,
    /// The relay is over because of the failure that it was told of.
    Fail,
}

/// The view of a `PairAction`.
#[verifier::ext_equal]
pub enum Asked {
    Select,
    Send(Seq<u8>),
    ReadChunk,
    Write,
    Stop,
    Fail,
}

impl View for PairAction {
    type V = Asked;

    open spec fn view(&self) -> Asked {
        match self {
            PairAction::Select => Asked::Select,
            PairAction::Send(bytes) => Asked::Send(bytes@),
            PairAction::ReadChunk => Asked::ReadChunk,
            PairAction::Write => Asked::Write,
            PairAction::Stop => Asked::Stop,
            PairAction::Fail => Asked::Fail,
        }
    }
}

/// The events that can follow what the relay asked for in `phase`.
pub open spec fn expects(phase: Phase, told: Told) -> bool {
    match phase {
        Phase::Selecting => told is TcpRead || told is TcpNotReady || told is TcpFailed || told is Code
            || told is StreamFailed,
        Phase::Sending => told is Sent || told is StreamFailed,
        Phase::ReadingChunk => told is Chunk || told is StreamFailed,
        Phase::Writing { .. } => told is Written || told is TcpNotReady || told is TcpFailed,
        Phase::Stopped => false,
    }
}

/// What a relay does next: its phase, and what it asks for.
pub open spec fn pair_step(phase: Phase, told: Told) -> (Phase, Asked) {
    match told {
        Told::TcpRead(data) => if data.len() == 0 {
            (Phase::Stopped, Asked::Stop)
        } else {
            (Phase::Sending, Asked::Send(frame_bytes(data)))
        },
        Told::TcpNotReady => match phase {
            Phase::Writing { .. } => (phase, Asked::Write),
            _ => (Phase::Selecting, Asked::Select),
        },
        Told::TcpFailed => (Phase::Stopped, Asked::Fail),
        Told::Code(Some(code)) => if code == CODE_DATA {
            (Phase::ReadingChunk, Asked::ReadChunk)
        } else {
            (Phase::Stopped, Asked::Stop)
        },
        Told::Code(None) => (Phase::Stopped, Asked::Stop),
        Told::Sent => (Phase::Selecting, Asked::Select),
        Told::Chunk(Some(chunk)) => if chunk.len() == 0 {
            (Phase::Selecting, Asked::Select)
        } else {
            (Phase::Writing { chunk, written: 0 }, Asked::Write)
        },
        Told::Chunk(None) => (Phase::Stopped, Asked::Stop),
        Told::Written(count) => match phase {
            Phase::Writing { chunk, written } => if written + count < chunk.len() {
                (Phase::Writing { chunk, written: written + count }, Asked::Write)
            } else {
                (Phase::Selecting, Asked::Select)
            },
            _ => (Phase::Selecting, Asked::Select),
        },
        Told::StreamFailed => (Phase::Stopped, Asked::Fail),
    }
}

enum PairState {
    Selecting,
    Sending,
    ReadingChunk,
    Writing { chunk: Vec<u8>, written: usize },
    Stopped,
}

/// One relay between a TCP stream and a stream of the tunnel.
pub struct StreamPair {
    addr: String,
    state: PairState,
}

impl StreamPair {
    #[verifier::type_invariant]
    spec fn written_in_chunk(self) -> bool {
        self.state matches PairState::Writing { chunk, written } ==> written < chunk@.len()
    }

    /// What the relay is doing.
    pub closed spec fn phase(&self) -> Phase {
        match self.state {
            PairState::Selecting => Phase::Selecting,
            PairState::Sending => Phase::Sending,
            PairState::ReadingChunk => Phase::ReadingChunk,
            PairState::Writing { chunk, written } => Phase::Writing {
                chunk: chunk@,
                written: written as nat,
            },
            PairState::Stopped => Phase::Stopped,
        }
    }

    /// The address of the TCP peer.
    pub closed spec fn addr_view(&self) -> Seq<char> {
        self.addr@
    }

    /// A relay for the TCP peer at `addr`. It starts by selecting.
    pub fn new(addr: String) -> (pair: StreamPair)
        ensures
            pair.phase() == Phase::Selecting,
            pair.addr_view() == addr@,
    {
        StreamPair { addr, state: PairState::Selecting }
    }

    /// The address of the TCP peer.
    pub fn addr(&self) -> (addr: &String)
        ensures
            addr@ == self.addr_view(),
    {
        &self.addr
    }

    /// The bytes that TCP is to be offered, while the relay writes a chunk: those
    /// that TCP has not taken, of which there is at least one.
    pub fn unwritten(&self) -> (bytes: Option<&[u8]>)
        ensures
            match self.phase() {
                Phase::Writing { chunk, written } => bytes matches Some(b) && b@ == chunk.skip(
                    written as int,
                ) && b@.len() > 0,
                _ => bytes is None,
            },
            bytes is Some <==> delivery::outstanding(self.phase()).len() > 0,
            bytes matches Some(b) ==> b@ == delivery::outstanding(self.phase()),
    {
        proof {
            use_type_invariant(self);
        }
        match &self.state {
            PairState::Writing { chunk, written } => {
                let bytes = slice_subrange(chunk.as_slice(), *written, chunk.len());
                assert(bytes@ =~= chunk@.skip(*written as int));
                Some(bytes)
            },
            _ => None,
        }
    }

    /// Goes on with the relay: `event` is what came of the last action, and the
    /// result is the next one. The first action is `PairAction::Select`.
    pub fn run(&mut self, event: PairEvent) -> (action: PairAction)
        requires
            expects(old(self).phase(), event@),
        ensures
            (final(self).phase(), action@) == pair_step(old(self).phase(), event@),
            final(self).addr_view() == old(self).addr_view(),
            action is Stop <==> match event {
                PairEvent::TcpRead(data) => data@.len() == 0,
                PairEvent::Code(code) => code != Some(CODE_DATA),
                PairEvent::Chunk(chunk) => chunk is None,
                _ => false,
            },
            action is Fail <==> event is TcpFailed || event is StreamFailed,
            action is Send <==> (event matches PairEvent::TcpRead(data) && data@.len() > 0),
            action is ReadChunk <==> event == PairEvent::Code(Some(CODE_DATA)),
            action is Write <==> delivery::outstanding(final(self).phase()).len() > 0,
            event matches PairEvent::Chunk(Some(chunk)) ==> delivery::outstanding(
                final(self).phase(),
            ) == chunk@,
            event matches PairEvent::Written(count) ==> delivery::outstanding(final(self).phase())
                == if count < delivery::outstanding(old(self).phase()).len() {
                delivery::outstanding(old(self).phase()).skip(count as int)
            } else {
                Seq::empty()
            },
            event is TcpNotReady ==> delivery::outstanding(final(self).phase())
                == delivery::outstanding(old(self).phase()),
    {
        proof {
            use_type_invariant(&*self);
        }
        match event {
            PairEvent::TcpRead(data) => {
                if data.len() == 0 {
                    self.state = PairState::Stopped;
                    PairAction::Stop
                } else {
                    let mut bytes = StreamContext::send_u16(CODE_DATA);
                    let mut chunk = StreamContext::send_chunk(data.as_slice());
                    bytes.append(&mut chunk);
                    self.state = PairState::Sending;
                    PairAction::Send(bytes)
                }
            },
            PairEvent::TcpNotReady => {
                if let PairState::Writing { .. } = self.state {
                    PairAction::Write
                } else {
                    self.state = PairState::Selecting;
                    PairAction::Select
                }
            },
            PairEvent::TcpFailed | PairEvent::StreamFailed => {
                self.state = PairState::Stopped;
                PairAction::Fail
            },
            PairEvent::Code(code) => {
                if let Some(CODE_DATA) = code {
                    self.state = PairState::ReadingChunk;
                    PairAction::ReadChunk
                } else {
                    self.state = PairState::Stopped;
                    PairAction::Stop
                }
            },
            PairEvent::Sent => {
                self.state = PairState::Selecting;
                PairAction::Select
            },
            PairEvent::Chunk(Some(chunk)) => {
                if chunk.len() == 0 {
                    self.state = PairState::Selecting;
                    PairAction::Select
                } else {
                    self.state = PairState::Writing { chunk, written: 0 };
                    PairAction::Write
                }
            },
            PairEvent::Chunk(None) => {
                self.state = PairState::Stopped;
                PairAction::Stop
            },
            PairEvent::Written(count) => {
                let mut state = PairState::Selecting;
                std::mem::swap(&mut state, &mut self.state);
                if let PairState::Writing { chunk, written } = state {
                    if count < chunk.len() - written {
                        self.state = PairState::Writing { chunk, written: written + count };
                        return PairAction::Write;
                    }
                }
                PairAction::Select
            },
        }
    }
}

/// A relay stops only at the end of TCP, at the end of the tunnel, or on a code that
/// does not announce data; it fails only when TCP or the tunnel does. Otherwise it
/// goes on.
pub proof fn relay_ends_only_for_a_reason(phase: Phase, told: Told)
    requires
        expects(phase, told),
    ensures
        ({
            let (next, asked) = pair_step(phase, told);
            &&& asked is Stop <==> match told {
                Told::TcpRead(data) => data.len() == 0,
                Told::Code(code) => code != Some(CODE_DATA),
                Told::Chunk(chunk) => chunk is None,
                _ => false,
            }
            &&& asked is Fail <==> told is TcpFailed || told is StreamFailed
            &&& next is Stopped <==> asked is Stop || asked is Fail
        }),
{
}

/// Whenever TCP has not taken all bytes of a chunk, and has not failed, a relay's
/// next action is to write, and it writes at no other time. What TCP has yet to take
/// is all of a new chunk, and then each time what it had yet to take but for the bytes
/// that it took.
pub proof fn relay_writes_what_is_outstanding(phase: Phase, told: Told)
    requires
        expects(phase, told),
        phase matches Phase::Writing { chunk, written } ==> written < chunk.len(),
    ensures
        ({
            let (next, asked) = pair_step(phase, told);
            let before = delivery::outstanding(phase);
            let after = delivery::outstanding(next);
            &&& asked is Write <==> after.len() > 0
            &&& next is Writing <==> after.len() > 0
            &&& told matches Told::Chunk(Some(chunk)) ==> after == chunk
            &&& told matches Told::Written(count) ==> if count < before.len() {
                before == before.take(count as int) + after
            } else {
                after.len() == 0
            }
            &&& told is TcpNotReady ==> after == before
        }),
{
    let before = delivery::outstanding(phase);
    match told {
        Told::Chunk(Some(chunk)) => {
            assert(chunk.skip(0) =~= chunk);
        },
        Told::Written(count) => {
            if count <= before.len() {
                assert(before =~= before.take(count as int) + delivery::outstanding(
                    pair_step(phase, told).0,
                ));
            }
        },
        _ => {},
    }
}

/// A relay sends exactly when TCP had bytes. What it sends reads as the code that
/// announces data and then as the chunk of just these bytes, whatever follows.
pub proof fn relay_sends_what_it_read(phase: Phase, told: Told, rest: Seq<u8>)
    requires
        expects(phase, told),
        told matches Told::TcpRead(data) ==> data.len() <= usize::MAX,
    ensures
        ({
            let (next, asked) = pair_step(phase, told);
            &&& asked is Send <==> (told matches Told::TcpRead(data) && data.len() > 0)
            &&& next is Sending <==> asked is Send
            &&& asked matches Asked::Send(bytes) ==> {
                &&& wire::parse_u16(bytes + rest) matches Parsed::Value(code, behind)
                    && code == CODE_DATA && wire::parse_chunk(behind) == Parsed::Value(
                    told->TcpRead_0,
                    rest,
                )
                &&& bytes.len() == 10 + told->TcpRead_0.len()
            }
        }),
{
    if let Told::TcpRead(data) = told {
        if data.len() > 0 {
            let bytes = frame_bytes(data);
            assert(bytes + rest =~= wire::be_bytes(CODE_DATA as nat, 2) + (wire::chunk_bytes(data)
                + rest));
            wire::u16_roundtrip(CODE_DATA, wire::chunk_bytes(data) + rest);
            wire::chunk_roundtrip(data, rest);
            wire::lemma_be_len(data.len(), 8);
        }
    }
}

/// A relay reads a chunk exactly behind the code that announces one, and where it
/// neither reads, sends, writes nor ends, it selects.
pub proof fn relay_goes_on(phase: Phase, told: Told)
    requires
        expects(phase, told),
    ensures
        ({
            let (next, asked) = pair_step(phase, told);
            &&& asked is ReadChunk <==> told == Told::Code(Some(CODE_DATA))
            &&& next is ReadingChunk <==> asked is ReadChunk
            &&& next is Selecting <==> asked is Select
            &&& told is Sent ==> asked is Select
        }),
{
}

/// Whatever can come of what a relay asks for, it can be told.
pub proof fn relay_can_be_answered(phase: Phase, told: Told)
    requires
        expects(phase, told),
    ensures
        ({
            let (next, asked) = pair_step(phase, told);
            &&& asked is Select ==> {
                &&& forall|data: Seq<u8>| #[trigger] expects(next, Told::TcpRead(data))
                &&& forall|code: Option<u16>| #[trigger] expects(next, Told::Code(code))
                &&& expects(next, Told::TcpNotReady) && expects(next, Told::TcpFailed) && expects(
                    next,
                    Told::StreamFailed,
                )
            }
            &&& asked is Send ==> expects(next, Told::Sent) && expects(next, Told::StreamFailed)
            &&& asked is ReadChunk ==> {
                &&& forall|chunk: Option<Seq<u8>>| #[trigger] expects(next, Told::Chunk(chunk))
                &&& expects(next, Told::StreamFailed)
            }
            &&& asked is Write ==> {
                &&& forall|count: nat| #[trigger] expects(next, Told::Written(count))
                &&& expects(next, Told::TcpNotReady) && expects(next, Told::TcpFailed)
            }
        }),
{
}

} // verus!
