//! Reading values from a stream whose bytes arrive in pieces.
//!
//! A `StreamContext` buffers what has arrived and has not been read. Each
//! `read` either ends at once or says what it waits for; the caller then asks
//! the transport for more bytes and hands them to the matching `resume`. A wait
//! that is dropped is a read that was abandoned: the context is then as the
//! wait left it.

use vstd::prelude::*;
use vstd::slice::slice_subrange;
use vstd::utf8::*;

use crate::wire;
use crate::wire::ReadError;

verus! {

/// The most bytes that one read of the transport asks for.
pub const BUF_SIZE: usize = 16384;

/// Where a read stands.
pub enum Step<T, W> {
    /// It has its value.
    Done(T),
    /// It needs bytes from the transport.
    Wait(W),
    /// The transport ended before the value did.
    Closed,
    /// The bytes are no value of the wanted kind.
    Failed(ReadError),
}

impl<T: View, W: View> View for Step<T, W> {
    type V = Step<T::V, W::V>;

    open spec fn view(&self) -> Step<T::V, W::V> {
        match self {
            Step::Done(value) => Step::Done(value@),
            Step::Wait(wait) => Step::Wait(wait@),
            Step::Closed => Step::Closed,
            Step::Failed(e) => Step::Failed(*e),
        }
    }
}

/// The bytes that a waiting read holds, and how many it lacks.
#[verifier::ext_equal]
pub struct Need {
    pub held: Seq<u8>,
    pub missing: nat,
}

/// A read of a fixed number of bytes that waits for the transport.
pub struct ReadWait {
    held: Vec<u8>,
    missing: usize,
}

impl View for ReadWait {
    type V = Need;

    closed spec fn view(&self) -> Need {
        Need { held: self.held@, missing: self.missing as nat }
    }
}

/// A read of a 16-bit number that waits for the transport.
pub struct U16Wait {
    wait: ReadWait,
}

impl View for U16Wait {
    type V = Need;

    closed spec fn view(&self) -> Need {
        self.wait@
    }
}

impl U16Wait {
    #[verifier::type_invariant]
    spec fn two_bytes(self) -> bool {
        self.wait@.held.len() + self.wait@.missing == 2
    }
}

/// A read of a 64-bit number that waits for the transport.
pub struct U64Wait {
    wait: ReadWait,
}

impl View for U64Wait {
    type V = Need;

    closed spec fn view(&self) -> Need {
        self.wait@
    }
}

impl U64Wait {
    #[verifier::type_invariant]
    spec fn eight_bytes(self) -> bool {
        self.wait@.held.len() + self.wait@.missing == 8
    }
}

/// Which part of a chunk a waiting read is at.
#[verifier::ext_equal]
pub enum ChunkNeed {
    Length(Need),
    Content(Need),
}

/// A read of a chunk that waits for the transport.
pub enum ChunkWait {
    Length(U64Wait),
    Content(ReadWait),
}

impl View for ChunkWait {
    type V = ChunkNeed;

    open spec fn view(&self) -> ChunkNeed {
        match self {
            ChunkWait::Length(wait) => ChunkNeed::Length(wait@),
            ChunkWait::Content(wait) => ChunkNeed::Content(wait@),
        }
    }
}

/// A step of a read, and the unread bytes that the step leaves buffered.
pub type After<T, W> = (Step<T, W>, Seq<u8>);

/// A read that holds `held`, lacks `missing` bytes and finds `buffered`. If
/// these do not suffice it takes them all, and the buffer keeps them until the
/// transport has answered.
pub open spec fn read_step(held: Seq<u8>, missing: nat, buffered: Seq<u8>) -> After<Seq<u8>, Need> {
    if missing <= buffered.len() {
        (Step::Done(held + buffered.take(missing as int)), buffered.skip(missing as int))
    } else {
        (
            Step::Wait(
                Need { held: held + buffered, missing: (missing - buffered.len()) as nat },
            ),
            buffered,
        )
    }
}

/// What the transport's answer does to a read: bytes replace the buffer and the
/// read goes on; the end of the stream ends it and leaves the buffer.
pub open spec fn read_resumed(
    need: Need,
    arrival: Option<Seq<u8>>,
    buffered: Seq<u8>,
) -> After<Seq<u8>, Need> {
    match arrival {
        Some(data) => read_step(need.held, need.missing, data),
        None => (Step::Closed, buffered),
    }
}

/// The read of a 16-bit number, as the read of its bytes stands.
pub open spec fn u16_after(after: After<Seq<u8>, Need>) -> After<u16, Need> {
    (
        match after.0 {
            Step::Done(bytes) => Step::Done(wire::be_value(bytes) as u16),
            Step::Wait(need) => Step::Wait(need),
            Step::Closed => Step::Closed,
            Step::Failed(e) => Step::Failed(e),
        },
        after.1,
    )
}

/// The read of a 64-bit number, as the read of its bytes stands.
pub open spec fn u64_after(after: After<Seq<u8>, Need>) -> After<u64, Need> {
    (
        match after.0 {
            Step::Done(bytes) => Step::Done(wire::be_value(bytes) as u64),
            Step::Wait(need) => Step::Wait(need),
            Step::Closed => Step::Closed,
            Step::Failed(e) => Step::Failed(e),
        },
        after.1,
    )
}

/// The read of a chunk's content, as the read of that many bytes stands.
pub open spec fn content_after(after: After<Seq<u8>, Need>) -> After<Seq<u8>, ChunkNeed> {
    (
        match after.0 {
            Step::Done(bytes) => Step::Done(bytes),
            Step::Wait(need) => Step::Wait(ChunkNeed::Content(need)),
            Step::Closed => Step::Closed,
            Step::Failed(e) => Step::Failed(e),
        },
        after.1,
    )
}

/// The read of a chunk, as the read of its length stands: once the length is
/// there, the content follows at once.
pub open spec fn chunk_after(after: After<u64, Need>) -> After<Seq<u8>, ChunkNeed> {
    match after.0 {
        Step::Done(len) => if len <= usize::MAX {
            content_after(read_step(Seq::empty(), len as nat, after.1))
        } else {
            (Step::Failed(ReadError::Length), after.1)
        },
        Step::Wait(need) => (Step::Wait(ChunkNeed::Length(need)), after.1),
        Step::Closed => (Step::Closed, after.1),
        Step::Failed(e) => (Step::Failed(e), after.1),
    }
}

/// The read of a string, as the read of its chunk stands.
pub open spec fn str_after(after: After<Seq<u8>, ChunkNeed>) -> After<Seq<char>, ChunkNeed> {
    (
        match after.0 {
            Step::Done(bytes) => if valid_utf8(bytes) {
                Step::Done(decode_utf8(bytes))
            } else {
                Step::Failed(ReadError::Utf8)
            },
            Step::Wait(need) => Step::Wait(need),
            Step::Closed => Step::Closed,
            Step::Failed(e) => Step::Failed(e),
        },
        after.1,
    )
}

/// The start of each kind of read on a context that buffers `buffered`.
pub open spec fn read_start(size: nat, buffered: Seq<u8>) -> After<Seq<u8>, Need> {
    read_step(Seq::empty(), size, buffered)
}

pub open spec fn u16_start(buffered: Seq<u8>) -> After<u16, Need> {
    u16_after(read_start(2, buffered))
}

pub open spec fn u64_start(buffered: Seq<u8>) -> After<u64, Need> {
    u64_after(read_start(8, buffered))
}

pub open spec fn chunk_start(buffered: Seq<u8>) -> After<Seq<u8>, ChunkNeed> {
    chunk_after(u64_start(buffered))
}

pub open spec fn str_start(buffered: Seq<u8>) -> After<Seq<char>, ChunkNeed> {
    str_after(chunk_start(buffered))
}

/// Each kind of read, resumed with the transport's answer.
pub open spec fn u16_resumed(
    need: Need,
    arrival: Option<Seq<u8>>,
    buffered: Seq<u8>,
) -> After<u16, Need> {
    u16_after(read_resumed(need, arrival, buffered))
}

pub open spec fn u64_resumed(
    need: Need,
    arrival: Option<Seq<u8>>,
    buffered: Seq<u8>,
) -> After<u64, Need> {
    u64_after(read_resumed(need, arrival, buffered))
}

pub open spec fn chunk_resumed(
    need: ChunkNeed,
    arrival: Option<Seq<u8>>,
    buffered: Seq<u8>,
) -> After<Seq<u8>, ChunkNeed> {
    match need {
        ChunkNeed::Length(n) => chunk_after(u64_resumed(n, arrival, buffered)),
        ChunkNeed::Content(n) => content_after(read_resumed(n, arrival, buffered)),
    }
}

pub open spec fn str_resumed(
    need: ChunkNeed,
    arrival: Option<Seq<u8>>,
    buffered: Seq<u8>,
) -> After<Seq<char>, ChunkNeed> {
    str_after(chunk_resumed(need, arrival, buffered))
}

/// The bytes that an answer of the transport holds.
pub open spec fn arrival_view(arrival: Option<&[u8]>) -> Option<Seq<u8>> {
    match arrival {
        Some(data) => Some(data@),
        None => None,
    }
}

/// `String::from_utf8`: a string if and only if the bytes are UTF-8, and then
/// the characters that they encode.
#[verifier::external_body]
fn string_from_utf8(bytes: Vec<u8>) -> (text: Option<String>)
    ensures
        text is Some <==> valid_utf8(bytes@),
        text matches Some(s) ==> s@ == decode_utf8(bytes@),
{
    String::from_utf8(bytes).ok()
}

/// The reading half of a stream: the bytes that have arrived and have not been
/// read, which are its view.
pub struct StreamContext {
    buf: Vec<u8>,
    offset: usize,
}

impl View for StreamContext {
    type V = Seq<u8>;

    closed spec fn view(&self) -> Seq<u8> {
        self.buf@.skip(self.offset as int)
    }
}

impl StreamContext {
    #[verifier::type_invariant]
    spec fn offset_in_buf(self) -> bool {
        self.offset <= self.buf@.len()
    }

    /// A context on which nothing has arrived.
    pub fn new() -> (context: StreamContext)
        ensures
            context@ == Seq::<u8>::empty(),
    {
        StreamContext { buf: Vec::new(), offset: 0 }
    }

    fn advance(&mut self, held: Vec<u8>, missing: usize) -> (step: Step<Vec<u8>, ReadWait>)
        ensures
            (step@, final(self)@) == read_step(held@, missing as nat, old(self)@),
    {
        proof {
            use_type_invariant(&*self);
        }
        let mut held = held;
        let ghost before = held@;
        let ghost buffered = self@;
        let available: usize = self.buf.len() - self.offset;
        if missing <= available {
            let end: usize = self.offset + missing;
            held.extend_from_slice(slice_subrange(self.buf.as_slice(), self.offset, end));
            self.offset = end;
            assert(held@ =~= before + buffered.take(missing as int));
            assert(self@ =~= buffered.skip(missing as int));
            Step::Done(held)
        } else {
            held.extend_from_slice(
                slice_subrange(self.buf.as_slice(), self.offset, self.buf.len()),
            );
            assert(held@ =~= before + buffered);
            Step::Wait(ReadWait { held, missing: missing - available })
        }
    }

    /// Reads `size` bytes.
    pub fn read(&mut self, size: usize) -> (step: Step<Vec<u8>, ReadWait>)
        ensures
            (step@, final(self)@) == read_start(size as nat, old(self)@),
            step is Done <==> size <= old(self)@.len(),
            step matches Step::Done(bytes) ==> bytes@ == old(self)@.take(size as int)
                && final(self)@ == old(self)@.skip(size as int),
            !(step is Done) ==> step is Wait && final(self)@ == old(self)@,
    {
        self.advance(Vec::new(), size)
    }

    /// Goes on with `read`: `arrival` is what the transport gave, `None` at its
    /// end.
    pub fn resume_read(&mut self, wait: ReadWait, arrival: Option<&[u8]>) -> (step: Step<
        Vec<u8>,
        ReadWait,
    >)
        ensures
            (step@, final(self)@) == read_resumed(wait@, arrival_view(arrival), old(self)@),
            arrival is None ==> step is Closed && final(self)@ == old(self)@,
            arrival matches Some(data) ==> {
                &&& step is Done <==> wait@.missing <= data@.len()
                &&& step matches Step::Done(bytes) ==> bytes@ == wait@.held + data@.take(
                    wait@.missing as int,
                ) && final(self)@ == data@.skip(wait@.missing as int)
                &&& !(step is Done) ==> step is Wait && final(self)@ == data@
            },
    {
        match arrival {
            Some(data) => {
                let mut buf: Vec<u8> = Vec::new();
                buf.extend_from_slice(data);
                assert(buf@ =~= data@);
                self.offset = 0;
                self.buf = buf;
                assert(self@ =~= data@);
                self.advance(wait.held, wait.missing)
            },
            None => Step::Closed,
        }
    }

    /// Reads a 16-bit number.
    pub fn read_u16(&mut self) -> (step: Step<u16, U16Wait>)
        ensures
            (step@, final(self)@) == u16_start(old(self)@),
    {
        let step = self.read(2);
        as_u16(step)
    }

    /// Goes on with `read_u16`.
    pub fn resume_u16(&mut self, wait: U16Wait, arrival: Option<&[u8]>) -> (step: Step<
        u16,
        U16Wait,
    >)
        ensures
            (step@, final(self)@) == u16_resumed(wait@, arrival_view(arrival), old(self)@),
            arrival is None ==> step is Closed && final(self)@ == old(self)@,
    {
        proof {
            use_type_invariant(&wait);
        }
        let step = self.resume_read(wait.wait, arrival);
        as_u16(step)
    }

    /// Reads a 64-bit number.
    pub fn read_u64(&mut self) -> (step: Step<u64, U64Wait>)
        ensures
            (step@, final(self)@) == u64_start(old(self)@),
    {
        let step = self.read(8);
        as_u64(step)
    }

    /// Goes on with `read_u64`.
    pub fn resume_u64(&mut self, wait: U64Wait, arrival: Option<&[u8]>) -> (step: Step<
        u64,
        U64Wait,
    >)
        ensures
            (step@, final(self)@) == u64_resumed(wait@, arrival_view(arrival), old(self)@),
            arrival is None ==> step is Closed && final(self)@ == old(self)@,
    {
        proof {
            use_type_invariant(&wait);
        }
        let step = self.resume_read(wait.wait, arrival);
        as_u64(step)
    }

    /// Goes on with a chunk whose length was read as `len` says.
    fn read_content(&mut self, len: Step<u64, U64Wait>) -> (step: Step<Vec<u8>, ChunkWait>)
        ensures
            (step@, final(self)@) == chunk_after((len@, old(self)@)),
    {
        match len {
            Step::Done(n) => {
                if n <= usize::MAX as u64 {
                    let step = self.read(n as usize);
                    as_content(step)
                } else {
                    Step::Failed(ReadError::Length)
                }
            },
            Step::Wait(wait) => Step::Wait(ChunkWait::Length(wait)),
            Step::Closed => Step::Closed,
            Step::Failed(e) => Step::Failed(e),
        }
    }

    /// Reads a chunk.
    pub fn read_chunk(&mut self) -> (step: Step<Vec<u8>, ChunkWait>)
        ensures
            (step@, final(self)@) == chunk_start(old(self)@),
    {
        let len = self.read_u64();
        self.read_content(len)
    }

    /// Goes on with `read_chunk`.
    pub fn resume_chunk(&mut self, wait: ChunkWait, arrival: Option<&[u8]>) -> (step: Step<
        Vec<u8>,
        ChunkWait,
    >)
        ensures
            (step@, final(self)@) == chunk_resumed(wait@, arrival_view(arrival), old(self)@),
            arrival is None ==> step is Closed && final(self)@ == old(self)@,
    {
        match wait {
            ChunkWait::Length(wait) => {
                let len = self.resume_u64(wait, arrival);
                self.read_content(len)
            },
            ChunkWait::Content(wait) => {
                let step = self.resume_read(wait, arrival);
                as_content(step)
            },
        }
    }

    /// Reads a string.
    pub fn read_str(&mut self) -> (step: Step<String, ChunkWait>)
        ensures
            (step@, final(self)@) == str_start(old(self)@),
    {
        let step = self.read_chunk();
        as_str(step)
    }

    /// Goes on with `read_str`.
    pub fn resume_str(&mut self, wait: ChunkWait, arrival: Option<&[u8]>) -> (step: Step<
        String,
        ChunkWait,
    >)
        ensures
            (step@, final(self)@) == str_resumed(wait@, arrival_view(arrival), old(self)@),
            arrival is None ==> step is Closed && final(self)@ == old(self)@,
    {
        let step = self.resume_chunk(wait, arrival);
        as_str(step)
    }

    /// The bytes that send the 64-bit number `data`.
    pub fn send_u64(data: u64) -> (bytes: Vec<u8>)
        ensures
            bytes@ == wire::be_bytes(data as nat, 8),
    {
        wire::encode_be(data, 8)
    }

    /// The bytes that send the 16-bit number `data`.
    pub fn send_u16(data: u16) -> (bytes: Vec<u8>)
        ensures
            bytes@ == wire::be_bytes(data as nat, 2),
            bytes@ == seq![(data / 256) as u8, (data % 256) as u8],
    {
        proof {
            reveal_with_fuel(wire::be_bytes, 3);
            assert(wire::be_bytes(data as nat, 2) =~= seq![(data / 256) as u8, (data % 256) as u8]);
        }
        wire::encode_be(data as u64, 2)
    }

    /// The bytes that send the chunk `data`.
    pub fn send_chunk(data: &[u8]) -> (bytes: Vec<u8>)
        ensures
            bytes@ == wire::chunk_bytes(data@),
            bytes@ == wire::be_bytes(data@.len(), 8) + data@,
    {
        let mut bytes = Self::send_u64(data.len() as u64);
        let ghost length = bytes@;
        bytes.extend_from_slice(data);
        assert(bytes@ =~= length + data@);
        bytes
    }

    /// The bytes that send the string `data`.
    pub fn send_str(data: &str) -> (bytes: Vec<u8>)
        ensures
            bytes@ == wire::str_bytes(data@),
            bytes@ == wire::chunk_bytes(encode_utf8(data@)),
    {
        Self::send_chunk(data.as_bytes())
    }
}

/// Takes the two bytes of a read for the number that they spell.
fn as_u16(step: Step<Vec<u8>, ReadWait>) -> (number: Step<u16, U16Wait>)
    requires
        step@ matches Step::Done(bytes) ==> bytes.len() == 2,
        step@ matches Step::Wait(need) ==> need.held.len() + need.missing == 2,
    ensures
        number@ == u16_after((step@, Seq::empty())).0,
{
    match step {
        Step::Done(bytes) => {
            proof {
                wire::lemma_be_value_fits(bytes@);
            }
            Step::Done(wire::decode_be(bytes.as_slice()) as u16)
        },
        Step::Wait(wait) => Step::Wait(U16Wait { wait }),
        Step::Closed => Step::Closed,
        Step::Failed(e) => Step::Failed(e),
    }
}

/// Takes the eight bytes of a read for the number that they spell.
fn as_u64(step: Step<Vec<u8>, ReadWait>) -> (number: Step<u64, U64Wait>)
    requires
        step@ matches Step::Done(bytes) ==> bytes.len() == 8,
        step@ matches Step::Wait(need) ==> need.held.len() + need.missing == 8,
    ensures
        number@ == u64_after((step@, Seq::empty())).0,
{
    match step {
        Step::Done(bytes) => {
            proof {
                wire::lemma_be_value_fits(bytes@);
            }
            Step::Done(wire::decode_be(bytes.as_slice()))
        },
        Step::Wait(wait) => Step::Wait(U64Wait { wait }),
        Step::Closed => Step::Closed,
        Step::Failed(e) => Step::Failed(e),
    }
}

/// Takes a read for the content of a chunk.
fn as_content(step: Step<Vec<u8>, ReadWait>) -> (content: Step<Vec<u8>, ChunkWait>)
    ensures
        content@ == content_after((step@, Seq::empty())).0,
{
    match step {
        Step::Done(bytes) => Step::Done(bytes),
        Step::Wait(wait) => Step::Wait(ChunkWait::Content(wait)),
        Step::Closed => Step::Closed,
        Step::Failed(e) => Step::Failed(e),
    }
}

/// Takes the content of a chunk for the string that it encodes.
fn as_str(step: Step<Vec<u8>, ChunkWait>) -> (text: Step<String, ChunkWait>)
    ensures
        text@ == str_after((step@, Seq::empty())).0,
{
    match step {
        Step::Done(bytes) => match string_from_utf8(bytes) {
            Some(text) => Step::Done(text),
            None => Step::Failed(ReadError::Utf8),
        },
        Step::Wait(wait) => Step::Wait(wait),
        Step::Closed => Step::Closed,
        Step::Failed(e) => Step::Failed(e),
    }
}

/// At the end of the transport every read that waits is closed, and what is buffered
/// stays.
pub proof fn end_closes_every_read(need: Need, chunk: ChunkNeed, buffered: Seq<u8>)
    ensures
        read_resumed(need, None, buffered) == (Step::<Seq<u8>, Need>::Closed, buffered),
        u16_resumed(need, None, buffered) == (Step::<u16, Need>::Closed, buffered),
        u64_resumed(need, None, buffered) == (Step::<u64, Need>::Closed, buffered),
        chunk_resumed(chunk, None, buffered) == (Step::<Seq<u8>, ChunkNeed>::Closed, buffered),
        str_resumed(chunk, None, buffered) == (Step::<Seq<char>, ChunkNeed>::Closed, buffered),
{
}

/// A read of bytes or of a number that waits leaves what it found in the buffer,
/// whether it found it there when it started or the transport has just brought it.
pub proof fn waiting_read_leaves_buffer(size: nat, need: Need, found: Seq<u8>, buffered: Seq<u8>)
    ensures
        read_start(size, found).0 is Wait ==> read_start(size, found).1 == found,
        u16_start(found).0 is Wait ==> u16_start(found).1 == found,
        u64_start(found).0 is Wait ==> u64_start(found).1 == found,
        ({
            let read = read_resumed(need, Some(found), buffered);
            let small = u16_resumed(need, Some(found), buffered);
            let large = u64_resumed(need, Some(found), buffered);
            &&& read.0 is Wait ==> read.1 == found
            &&& small.0 is Wait ==> small.1 == found
            &&& large.0 is Wait ==> large.1 == found
        }),
{
}

/// A read of a chunk or of a string that waits leaves what it found in the buffer,
/// but for what is read of the length: nothing until the length is there, and all of
/// it from then on.
pub proof fn waiting_chunk_leaves_buffer(need: Need, found: Seq<u8>, buffered: Seq<u8>)
    ensures
        ({
            let (step, left) = chunk_start(found);
            step matches Step::Wait(wait) ==> left == if wait is Length {
                found
            } else {
                found.skip(8)
            }
        }),
        ({
            let (step, left) = chunk_resumed(ChunkNeed::Length(need), Some(found), buffered);
            step matches Step::Wait(wait) ==> left == if wait is Length {
                found
            } else {
                found.skip(need.missing as int)
            }
        }),
        ({
            let (step, left) = chunk_resumed(ChunkNeed::Content(need), Some(found), buffered);
            step matches Step::Wait(wait) ==> wait is Content && left == found
        }),
        forall|chunk: ChunkNeed|
            {
                let content = chunk_resumed(chunk, Some(found), buffered);
                let text = #[trigger] str_resumed(chunk, Some(found), buffered);
                &&& text.1 == content.1
                &&& text.0 is Wait <==> content.0 is Wait
                &&& text.0 matches Step::Wait(wait) ==> content.0 == Step::<Seq<u8>, ChunkNeed>::Wait(
                    wait,
                )
            },
        str_start(found).1 == chunk_start(found).1,
        str_start(found).0 is Wait <==> chunk_start(found).0 is Wait,
{
}

} // verus!
