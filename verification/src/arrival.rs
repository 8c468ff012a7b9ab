//! How the bytes of a stream arrive does not matter.
//!
//! A transport hands over a stream in pieces of its own choosing. Whatever the
//! pieces are, a read yields what the front of the whole stream holds, and
//! leaves the rest of it to the next read.

use vstd::prelude::*;

use crate::stream;
use crate::stream::{After, ChunkNeed, Need, Step};
use crate::wire;
use crate::wire::Parsed;

verus! {

/// Where a read stands once it has been given the pieces that it asked for, out
/// of those that the transport has.
pub struct Run<T, W> {
    pub step: Step<T, W>,
    pub buffered: Seq<u8>,
    pub unread: Seq<Seq<u8>>,
}

/// A read that is resumed with one piece after the other for as long as it
/// waits and there are pieces.
pub open spec fn run<T, W>(
    start: After<T, W>,
    resumed: spec_fn(W, Option<Seq<u8>>, Seq<u8>) -> After<T, W>,
    pieces: Seq<Seq<u8>>,
) -> Run<T, W>
    decreases pieces.len(),
{
    match start.0 {
        Step::Wait(need) if pieces.len() > 0 => run(
            resumed(need, Some(pieces.first()), start.1),
            resumed,
            pieces.drop_first(),
        ),
        _ => Run { step: start.0, buffered: start.1, unread: pieces },
    }
}

/// Each kind of read on a context that buffers `buffered`, with `pieces` still
/// to arrive.
pub open spec fn read_run(size: nat, buffered: Seq<u8>, pieces: Seq<Seq<u8>>) -> Run<
    Seq<u8>,
    Need,
> {
    run(
        stream::read_start(size, buffered),
        |need, arrival, rest| stream::read_resumed(need, arrival, rest),
        pieces,
    )
}

pub open spec fn u16_run(buffered: Seq<u8>, pieces: Seq<Seq<u8>>) -> Run<u16, Need> {
    run(
        stream::u16_start(buffered),
        |need, arrival, rest| stream::u16_resumed(need, arrival, rest),
        pieces,
    )
}

pub open spec fn u64_run(buffered: Seq<u8>, pieces: Seq<Seq<u8>>) -> Run<u64, Need> {
    run(
        stream::u64_start(buffered),
        |need, arrival, rest| stream::u64_resumed(need, arrival, rest),
        pieces,
    )
}

pub open spec fn chunk_run(buffered: Seq<u8>, pieces: Seq<Seq<u8>>) -> Run<Seq<u8>, ChunkNeed> {
    run(
        stream::chunk_start(buffered),
        |need, arrival, rest| stream::chunk_resumed(need, arrival, rest),
        pieces,
    )
}

pub open spec fn str_run(buffered: Seq<u8>, pieces: Seq<Seq<u8>>) -> Run<Seq<char>, ChunkNeed> {
    run(
        stream::str_start(buffered),
        |need, arrival, rest| stream::str_resumed(need, arrival, rest),
        pieces,
    )
}

/// A read that yields the value at the front of the stream and leaves the
/// stream behind it, fails on what is no value and leaves the stream behind that,
/// and waits for the rest of a value that has not arrived in full.
pub open spec fn yields<T, W>(run: Run<T, W>, parsed: Parsed<T>) -> bool {
    match parsed {
        Parsed::Value(value, rest) => run.step == Step::<T, W>::Done(value) && run.buffered
            + run.unread.flatten() == rest,
        Parsed::Short => run.step is Wait && run.unread.len() == 0,
        Parsed::Bad(e, rest) => run.step == Step::<T, W>::Failed(e) && run.buffered
            + run.unread.flatten() == rest,
    }
}

/// The stream of which `held` was taken, `buffered` is next and `pieces` follow.
spec fn whole(held: Seq<u8>, buffered: Seq<u8>, pieces: Seq<Seq<u8>>) -> Seq<u8> {
    held + (buffered + pieces.flatten())
}

proof fn lemma_taken(held: Seq<u8>, missing: nat, buffered: Seq<u8>, pieces: Seq<Seq<u8>>)
    ensures
        missing <= buffered.len() ==> {
            let stream = whole(held, buffered, pieces);
            let size = held.len() + missing;
            &&& size <= stream.len()
            &&& stream.take(size as int) == held + buffered.take(missing as int)
            &&& stream.skip(size as int) == buffered.skip(missing as int) + pieces.flatten()
        },
        missing > buffered.len() && pieces.len() > 0 ==> whole(held, buffered, pieces) == whole(
            held + buffered,
            pieces.first(),
            pieces.drop_first(),
        ),
        missing > buffered.len() && pieces.len() == 0 ==> whole(held, buffered, pieces).len()
            < held.len() + missing,
{
    let stream = whole(held, buffered, pieces);
    let size = held.len() + missing;
    if missing <= buffered.len() {
        assert(stream.take(size as int) =~= held + buffered.take(missing as int));
        assert(stream.skip(size as int) =~= buffered.skip(missing as int) + pieces.flatten());
    } else if pieces.len() > 0 {
        assert(pieces.flatten() =~= pieces.first() + pieces.drop_first().flatten());
        assert(whole(held, buffered, pieces) =~= whole(
            held + buffered,
            pieces.first(),
            pieces.drop_first(),
        ));
    }
}

proof fn lemma_read(held: Seq<u8>, missing: nat, buffered: Seq<u8>, pieces: Seq<Seq<u8>>)
    ensures
        yields(
            run(
                stream::read_step(held, missing, buffered),
                |need, arrival, rest| stream::read_resumed(need, arrival, rest),
                pieces,
            ),
            wire::parse_bytes(whole(held, buffered, pieces), held.len() + missing),
        ),
    decreases pieces.len(),
{
    lemma_taken(held, missing, buffered, pieces);
    if missing > buffered.len() && pieces.len() > 0 {
        lemma_read(
            held + buffered,
            (missing - buffered.len()) as nat,
            pieces.first(),
            pieces.drop_first(),
        );
    }
}

proof fn lemma_u16(held: Seq<u8>, missing: nat, buffered: Seq<u8>, pieces: Seq<Seq<u8>>)
    requires
        held.len() + missing == 2,
    ensures
        yields(
            run(
                stream::u16_after(stream::read_step(held, missing, buffered)),
                |need, arrival, rest| stream::u16_resumed(need, arrival, rest),
                pieces,
            ),
            wire::parse_u16(whole(held, buffered, pieces)),
        ),
    decreases pieces.len(),
{
    lemma_taken(held, missing, buffered, pieces);
    if missing > buffered.len() && pieces.len() > 0 {
        lemma_u16(
            held + buffered,
            (missing - buffered.len()) as nat,
            pieces.first(),
            pieces.drop_first(),
        );
    }
}

proof fn lemma_u64(held: Seq<u8>, missing: nat, buffered: Seq<u8>, pieces: Seq<Seq<u8>>)
    requires
        held.len() + missing == 8,
    ensures
        yields(
            run(
                stream::u64_after(stream::read_step(held, missing, buffered)),
                |need, arrival, rest| stream::u64_resumed(need, arrival, rest),
                pieces,
            ),
            wire::parse_u64(whole(held, buffered, pieces)),
        ),
    decreases pieces.len(),
{
    lemma_taken(held, missing, buffered, pieces);
    if missing > buffered.len() && pieces.len() > 0 {
        lemma_u64(
            held + buffered,
            (missing - buffered.len()) as nat,
            pieces.first(),
            pieces.drop_first(),
        );
    }
}

proof fn lemma_content(held: Seq<u8>, missing: nat, buffered: Seq<u8>, pieces: Seq<Seq<u8>>)
    ensures
        yields(
            run(
                stream::content_after(stream::read_step(held, missing, buffered)),
                |need, arrival, rest| stream::chunk_resumed(need, arrival, rest),
                pieces,
            ),
            wire::parse_bytes(whole(held, buffered, pieces), held.len() + missing),
        ),
    decreases pieces.len(),
{
    lemma_taken(held, missing, buffered, pieces);
    if missing > buffered.len() && pieces.len() > 0 {
        lemma_content(
            held + buffered,
            (missing - buffered.len()) as nat,
            pieces.first(),
            pieces.drop_first(),
        );
    }
}

proof fn lemma_chunk(held: Seq<u8>, missing: nat, buffered: Seq<u8>, pieces: Seq<Seq<u8>>)
    requires
        held.len() + missing == 8,
    ensures
        yields(
            run(
                stream::chunk_after(
                    stream::u64_after(stream::read_step(held, missing, buffered)),
                ),
                |need, arrival, rest| stream::chunk_resumed(need, arrival, rest),
                pieces,
            ),
            wire::parse_chunk(whole(held, buffered, pieces)),
        ),
    decreases pieces.len(),
{
    lemma_taken(held, missing, buffered, pieces);
    if missing <= buffered.len() {
        let len = wire::be_value(held + buffered.take(missing as int)) as u64;
        let rest = buffered.skip(missing as int);
        if len <= usize::MAX {
            lemma_content(Seq::empty(), len as nat, rest, pieces);
            assert(whole(Seq::empty(), rest, pieces) =~= rest + pieces.flatten());
        }
    } else if pieces.len() > 0 {
        lemma_chunk(
            held + buffered,
            (missing - buffered.len()) as nat,
            pieces.first(),
            pieces.drop_first(),
        );
    }
}

/// The read of a string runs as the read of its chunk does.
proof fn lemma_str(start: After<Seq<u8>, ChunkNeed>, pieces: Seq<Seq<u8>>)
    ensures
        ({
            let chunk = run(
                start,
                |need, arrival, rest| stream::chunk_resumed(need, arrival, rest),
                pieces,
            );
            let text = run(
                stream::str_after(start),
                |need, arrival, rest| stream::str_resumed(need, arrival, rest),
                pieces,
            );
            &&& (text.step, text.buffered) == stream::str_after((chunk.step, chunk.buffered))
            &&& text.unread == chunk.unread
        }),
    decreases pieces.len(),
{
    if let Step::Wait(need) = start.0 {
        if pieces.len() > 0 {
            lemma_str(
                stream::chunk_resumed(need, Some(pieces.first()), start.1),
                pieces.drop_first(),
            );
        }
    }
}

/// `StreamContext::read` yields the first `size` bytes of the stream, however
/// they arrive.
pub proof fn read_in_pieces(size: nat, buffered: Seq<u8>, pieces: Seq<Seq<u8>>)
    ensures
        yields(
            read_run(size, buffered, pieces),
            wire::parse_bytes(buffered + pieces.flatten(), size),
        ),
{
    lemma_read(Seq::empty(), size, buffered, pieces);
    assert(whole(Seq::empty(), buffered, pieces) =~= buffered + pieces.flatten());
}

/// `StreamContext::read_u16` yields the 16-bit number at the front of the
/// stream, however its bytes arrive.
pub proof fn u16_in_pieces(buffered: Seq<u8>, pieces: Seq<Seq<u8>>)
    ensures
        yields(u16_run(buffered, pieces), wire::parse_u16(buffered + pieces.flatten())),
{
    lemma_u16(Seq::empty(), 2, buffered, pieces);
    assert(whole(Seq::empty(), buffered, pieces) =~= buffered + pieces.flatten());
}

/// `StreamContext::read_u64` yields the 64-bit number at the front of the
/// stream, however its bytes arrive.
pub proof fn u64_in_pieces(buffered: Seq<u8>, pieces: Seq<Seq<u8>>)
    ensures
        yields(u64_run(buffered, pieces), wire::parse_u64(buffered + pieces.flatten())),
{
    lemma_u64(Seq::empty(), 8, buffered, pieces);
    assert(whole(Seq::empty(), buffered, pieces) =~= buffered + pieces.flatten());
}

/// `StreamContext::read_chunk` yields the chunk at the front of the stream,
/// however its bytes arrive.
pub proof fn chunk_in_pieces(buffered: Seq<u8>, pieces: Seq<Seq<u8>>)
    ensures
        yields(chunk_run(buffered, pieces), wire::parse_chunk(buffered + pieces.flatten())),
{
    lemma_chunk(Seq::empty(), 8, buffered, pieces);
    assert(whole(Seq::empty(), buffered, pieces) =~= buffered + pieces.flatten());
}

/// `StreamContext::read_str` yields the string at the front of the stream,
/// however its bytes arrive.
pub proof fn str_in_pieces(buffered: Seq<u8>, pieces: Seq<Seq<u8>>)
    ensures
        yields(str_run(buffered, pieces), wire::parse_str(buffered + pieces.flatten())),
{
    chunk_in_pieces(buffered, pieces);
    lemma_str(stream::chunk_start(buffered), pieces);
}

/// The chunks that were read one after the other, and what is left of the stream.
pub struct Chunks {
    pub chunks: Seq<Seq<u8>>,
    pub buffered: Seq<u8>,
    pub unread: Seq<Seq<u8>>,
}

/// Up to `count` reads of a chunk, one after the other, until one is not done.
pub open spec fn chunks_run(count: nat, buffered: Seq<u8>, pieces: Seq<Seq<u8>>) -> Chunks
    decreases count,
{
    let chunk = chunk_run(buffered, pieces);
    if count > 0 && chunk.step is Done {
        let later = chunks_run((count - 1) as nat, chunk.buffered, chunk.unread);
        Chunks { chunks: seq![chunk.step->Done_0] + later.chunks, ..later }
    } else {
        Chunks { chunks: Seq::empty(), buffered, unread: pieces }
    }
}

/// The chunks that carry each of `data`, in order.
pub open spec fn chunk_stream(data: Seq<Seq<u8>>) -> Seq<u8>
    decreases data.len(),
{
    if data.len() == 0 {
        Seq::empty()
    } else {
        wire::chunk_bytes(data.first()) + chunk_stream(data.drop_first())
    }
}

/// Chunks that are sent one after the other are read back one by one, however they
/// arrive, and what follows them is left.
pub proof fn chunks_are_read_one_by_one(
    data: Seq<Seq<u8>>,
    rest: Seq<u8>,
    buffered: Seq<u8>,
    pieces: Seq<Seq<u8>>,
)
    requires
        buffered + pieces.flatten() == chunk_stream(data) + rest,
        forall|i: int| 0 <= i < data.len() ==> (#[trigger] data[i]).len() <= usize::MAX,
    ensures
        ({
            let end = chunks_run(data.len(), buffered, pieces);
            end.chunks == data && end.buffered + end.unread.flatten() == rest
        }),
    decreases data.len(),
{
    if data.len() == 0 {
        assert(chunk_stream(data) + rest =~= rest);
        assert(chunks_run(0, buffered, pieces).chunks =~= data);
    } else {
        let first = data.first();
        let later = data.drop_first();
        let behind = chunk_stream(later) + rest;
        assert(buffered + pieces.flatten() =~= wire::chunk_bytes(first) + behind);
        assert(data[0].len() <= usize::MAX);
        chunk_in_pieces(buffered, pieces);
        wire::chunk_roundtrip(first, behind);
        let chunk = chunk_run(buffered, pieces);
        assert forall|i: int| 0 <= i < later.len() implies (#[trigger] later[i]).len()
            <= usize::MAX by {
            assert(later[i] == data[i + 1]);
        }
        chunks_are_read_one_by_one(later, rest, chunk.buffered, chunk.unread);
        assert(seq![first] + later =~= data);
    }
}

/// Behind the last of the chunks that were sent a read finds the end of the stream:
/// it waits until the transport ends, and is then closed.
pub proof fn end_follows_last_chunk(
    data: Seq<Seq<u8>>,
    buffered: Seq<u8>,
    pieces: Seq<Seq<u8>>,
)
    requires
        buffered + pieces.flatten() == chunk_stream(data),
        forall|i: int| 0 <= i < data.len() ==> (#[trigger] data[i]).len() <= usize::MAX,
    ensures
        ({
            let end = chunks_run(data.len(), buffered, pieces);
            let next = chunk_run(end.buffered, end.unread);
            &&& end.chunks == data
            &&& next.unread.len() == 0
            &&& next.step matches Step::Wait(need) && stream::chunk_resumed(
                need,
                None,
                next.buffered,
            ).0 is Closed
        }),
{
    assert(chunk_stream(data) + Seq::<u8>::empty() =~= chunk_stream(data));
    chunks_are_read_one_by_one(data, Seq::empty(), buffered, pieces);
    let end = chunks_run(data.len(), buffered, pieces);
    chunk_in_pieces(end.buffered, end.unread);
}

/// A string that is not UTF-8 fails the read, however it arrives; the stream behind
/// it is left to the next read.
pub proof fn bad_string_leaves_the_rest(
    data: Seq<u8>,
    rest: Seq<u8>,
    buffered: Seq<u8>,
    pieces: Seq<Seq<u8>>,
)
    requires
        !vstd::utf8::valid_utf8(data),
        data.len() <= usize::MAX,
        buffered + pieces.flatten() == wire::chunk_bytes(data) + rest,
    ensures
        ({
            let end = str_run(buffered, pieces);
            &&& end.step == Step::<Seq<char>, ChunkNeed>::Failed(wire::ReadError::Utf8)
            &&& end.buffered + end.unread.flatten() == rest
        }),
{
    str_in_pieces(buffered, pieces);
    wire::chunk_roundtrip(data, rest);
}

/// A read of a 16-bit number can be abandoned while it waits: every byte that it
/// holds is still buffered, so that the next read finds it. (The transport never
/// answers with no bytes.)
pub proof fn abandoned_u16_loses_nothing(buffered: Seq<u8>, pieces: Seq<Seq<u8>>)
    requires
        forall|i: int| 0 <= i < pieces.len() ==> (#[trigger] pieces[i]).len() > 0,
    ensures
        ({
            let end = u16_run(buffered, pieces);
            end.step is Wait ==> end.buffered == buffered + pieces.flatten()
        }),
{
    let stream = buffered + pieces.flatten();
    u16_in_pieces(buffered, pieces);
    if u16_run(buffered, pieces).step is Wait {
        assert(stream.len() < 2);
        if pieces.len() == 0 {
            assert(stream =~= buffered);
        } else {
            let rest = pieces.drop_first();
            assert(pieces[0].len() > 0);
            assert(pieces.flatten() =~= pieces.first() + rest.flatten());
            assert(buffered.len() == 0 && rest.flatten().len() == 0);
            if rest.len() > 0 {
                assert(rest[0] == pieces[1]);
                assert(rest.flatten() =~= rest.first() + rest.drop_first().flatten());
            }
            reveal_with_fuel(run, 3);
            assert(stream =~= pieces.first());
        }
    }
}

/// The read that follows an abandoned one yields what the abandoned one would have
/// yielded.
pub proof fn abandoned_u16_is_read_again(
    buffered: Seq<u8>,
    pieces: Seq<Seq<u8>>,
    later: Seq<Seq<u8>>,
)
    requires
        forall|i: int| 0 <= i < pieces.len() ==> (#[trigger] pieces[i]).len() > 0,
        u16_run(buffered, pieces).step is Wait,
    ensures
        yields(
            u16_run(u16_run(buffered, pieces).buffered, later),
            wire::parse_u16(buffered + pieces.flatten() + later.flatten()),
        ),
{
    abandoned_u16_loses_nothing(buffered, pieces);
    u16_in_pieces(buffered + pieces.flatten(), later);
}

} // verus!
