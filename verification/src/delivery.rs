//! What two relays at the ends of a tunnel do together: the bytes that one of
//! them reads from TCP are the bytes that the other writes to TCP.

use vstd::prelude::*;

use crate::arrival;
use crate::relay;
use crate::relay::{Asked, Phase, Told, CODE_DATA};
use crate::stream::{ChunkNeed, Need, Step};
use crate::wire;
use crate::wire::Parsed;

verus! {

/// Whether everything that a relay in `phase` is told follows from what it asked
/// for.
pub open spec fn all_expected(phase: Phase, told: Seq<Told>) -> bool
    decreases told.len(),
{
    told.len() == 0 || {
        &&& relay::expects(phase, told.first())
        &&& all_expected(relay::pair_step(phase, told.first()).0, told.drop_first())
    }
}

/// The bytes that a relay sends on the tunnel while it is told `told`.
pub open spec fn sent(phase: Phase, told: Seq<Told>) -> Seq<u8>
    decreases told.len(),
{
    if told.len() == 0 {
        Seq::empty()
    } else {
        let (next, asked) = relay::pair_step(phase, told.first());
        let now = match asked {
            Asked::Send(bytes) => bytes,
            _ => Seq::empty(),
        };
        now + sent(next, told.drop_first())
    }
}

/// The bytes that TCP had for the relay, read by read.
pub open spec fn tcp_data(told: Seq<Told>) -> Seq<Seq<u8>>
    decreases told.len(),
{
    if told.len() == 0 {
        Seq::empty()
    } else {
        let now = match told.first() {
            Told::TcpRead(data) if data.len() > 0 => seq![data],
            _ => Seq::empty(),
        };
        now + tcp_data(told.drop_first())
    }
}

/// The chunks that the tunnel had for the relay.
pub open spec fn chunk_data(told: Seq<Told>) -> Seq<Seq<u8>>
    decreases told.len(),
{
    if told.len() == 0 {
        Seq::empty()
    } else {
        let now = match told.first() {
            Told::Chunk(Some(chunk)) => seq![chunk],
            _ => Seq::empty(),
        };
        now + chunk_data(told.drop_first())
    }
}

/// The bytes of the current chunk that TCP has not taken.
pub open spec fn outstanding(phase: Phase) -> Seq<u8> {
    match phase {
        Phase::Writing { chunk, written } => chunk.skip(written as int),
        _ => Seq::empty(),
    }
}

/// The bytes that TCP takes while the relay is told `told`: of those that it is
/// offered, as many as it says.
pub open spec fn taken(phase: Phase, told: Seq<Told>) -> Seq<u8>
    decreases told.len(),
{
    if told.len() == 0 {
        Seq::empty()
    } else {
        let offered = outstanding(phase);
        let now = match told.first() {
            Told::Written(count) => if count < offered.len() {
                offered.take(count as int)
            } else {
                offered
            },
            _ => Seq::empty(),
        };
        now + taken(relay::pair_step(phase, told.first()).0, told.drop_first())
    }
}

/// A relay sends one frame for each read of TCP, in the order of the reads, and
/// nothing else.
pub proof fn relay_sends_what_tcp_had(phase: Phase, told: Seq<Told>)
    ensures
        sent(phase, told) == relay::frames(tcp_data(told)),
    decreases told.len(),
{
    if told.len() > 0 {
        let next = relay::pair_step(phase, told.first()).0;
        let rest = tcp_data(told.drop_first());
        relay_sends_what_tcp_had(next, told.drop_first());
        match told.first() {
            Told::TcpRead(data) if data.len() > 0 => {
                assert((seq![data] + rest).drop_first() =~= rest);
            },
            _ => {
                assert(Seq::<Seq<u8>>::empty() + rest =~= rest);
                assert(Seq::<u8>::empty() + sent(next, told.drop_first()) =~= sent(
                    next,
                    told.drop_first(),
                ));
            },
        }
    }
}

/// The bytes that TCP has not taken in the end: the rest of the chunk that the
/// relay is writing, or was writing when TCP failed.
pub open spec fn left_over(phase: Phase, told: Seq<Told>) -> Seq<u8>
    decreases told.len(),
{
    if told.len() == 0 || told.first() is TcpFailed {
        outstanding(phase)
    } else {
        left_over(relay::pair_step(phase, told.first()).0, told.drop_first())
    }
}

proof fn lemma_taken(phase: Phase, told: Seq<Told>)
    requires
        all_expected(phase, told),
        phase matches Phase::Writing { chunk, written } ==> written < chunk.len(),
    ensures
        taken(phase, told) + left_over(phase, told) == outstanding(phase) + chunk_data(
            told,
        ).flatten(),
    decreases told.len(),
{
    let chunks = chunk_data(told);
    if told.len() == 0 {
        assert(taken(phase, told) + outstanding(phase) =~= outstanding(phase)
            + chunks.flatten());
    } else {
        let first = told.first();
        let next = relay::pair_step(phase, first).0;
        let rest = told.drop_first();
        let later = chunk_data(rest);
        let end = left_over(phase, told);
        lemma_taken(next, rest);
        match first {
            Told::Chunk(Some(chunk)) => {
                assert(chunks.first() == chunk);
                assert(chunks.drop_first() =~= later);
                assert(chunk.skip(0) =~= chunk);
                assert(taken(phase, told) =~= taken(next, rest));
                assert(outstanding(phase) + chunks.flatten() =~= outstanding(next)
                    + later.flatten());
            },
            Told::Written(count) => {
                assert(chunks =~= later);
                let offered = outstanding(phase);
                let now = if count < offered.len() {
                    offered.take(count as int)
                } else {
                    offered
                };
                assert(offered =~= now + outstanding(next));
                assert(taken(phase, told) + end =~= now + (taken(next, rest) + end));
                assert(now + (outstanding(next) + later.flatten()) =~= offered + later.flatten());
            },
            Told::TcpFailed => {
                reveal_with_fuel(all_expected, 2);
                assert(rest.len() == 0);
                assert(chunks =~= Seq::empty());
                assert(taken(phase, told) + end =~= outstanding(phase) + chunks.flatten());
            },
            _ => {
                assert(chunks =~= later);
                assert(taken(phase, told) =~= taken(next, rest));
                assert(outstanding(next) =~= outstanding(phase));
            },
        }
    }
}

/// TCP takes the chunks that the tunnel had, in order, whole and once; what it
/// has not taken is the end of the last chunk that the relay had to write.
pub proof fn relay_writes_what_tunnel_had(told: Seq<Told>)
    requires
        all_expected(Phase::Selecting, told),
    ensures
        taken(Phase::Selecting, told) + left_over(Phase::Selecting, told) == chunk_data(
            told,
        ).flatten(),
{
    lemma_taken(Phase::Selecting, told);
    assert(Seq::<u8>::empty() + chunk_data(told).flatten() =~= chunk_data(told).flatten());
}

/// Something that a relay is told, and the pieces of the tunnel that arrived on the
/// way to it.
#[verifier::ext_equal]
pub struct Moment {
    pub told: Told,
    pub pieces: Seq<Seq<u8>>,
}

/// What a relay is told in `history`.
pub open spec fn told_of(history: Seq<Moment>) -> Seq<Told> {
    history.map_values(|moment: Moment| moment.told)
}

/// The bytes of the tunnel that arrive in `history`.
pub open spec fn arrived(history: Seq<Moment>) -> Seq<u8>
    decreases history.len(),
{
    if history.len() == 0 {
        Seq::empty()
    } else {
        history.first().pieces.flatten() + arrived(history.drop_first())
    }
}

/// Whether a relay in `phase` whose stream buffers `buffered` can be told
/// `moment.told` after `moment.pieces` have arrived. While it selects it reads a
/// code; where TCP is first, that read is given up while it waits, or before it
/// began. The transport ends or fails only under a read that waits.
pub open spec fn heard(phase: Phase, buffered: Seq<u8>, moment: Moment) -> bool {
    match phase {
        Phase::Selecting => {
            let code = arrival::u16_run(buffered, moment.pieces);
            match moment.told {
                Told::Code(Some(c)) => code.step == Step::<u16, Need>::Done(c)
                    && code.unread.len() == 0,
                Told::Code(None) => code.step is Wait,
                Told::StreamFailed => code.step is Wait,
                _ => moment.pieces.len() == 0 || code.step is Wait,
            }
        },
        Phase::ReadingChunk => {
            let chunk = arrival::chunk_run(buffered, moment.pieces);
            match moment.told {
                Told::Chunk(Some(c)) => chunk.step == Step::<Seq<u8>, ChunkNeed>::Done(c)
                    && chunk.unread.len() == 0,
                Told::Chunk(None) => chunk.step is Wait,
                _ => chunk.step is Wait || chunk.step is Failed,
            }
        },
        _ => moment.pieces.len() == 0,
    }
}

/// What the stream of that relay buffers then.
pub open spec fn buffered_then(phase: Phase, buffered: Seq<u8>, moment: Moment) -> Seq<u8> {
    match phase {
        Phase::Selecting => if moment.pieces.len() == 0 && !(moment.told is Code) {
            buffered
        } else {
            arrival::u16_run(buffered, moment.pieces).buffered
        },
        Phase::ReadingChunk => arrival::chunk_run(buffered, moment.pieces).buffered,
        _ => buffered,
    }
}

/// Whether `history` can happen to a relay in `phase` whose stream buffers
/// `buffered`: it is told what follows from what it asked for and from what
/// arrives. The transport never answers with no bytes.
pub open spec fn happens(phase: Phase, buffered: Seq<u8>, history: Seq<Moment>) -> bool
    decreases history.len(),
{
    history.len() == 0 || {
        let moment = history.first();
        &&& relay::expects(phase, moment.told)
        &&& forall|i: int|
            0 <= i < moment.pieces.len() ==> (#[trigger] moment.pieces[i]).len() > 0
        &&& heard(phase, buffered, moment)
        &&& happens(
            relay::pair_step(phase, moment.told).0,
            buffered_then(phase, buffered, moment),
            history.drop_first(),
        )
    }
}

/// What the stream of that relay buffers in the end.
pub open spec fn buffered_after(phase: Phase, buffered: Seq<u8>, history: Seq<Moment>) -> Seq<u8>
    decreases history.len(),
{
    if history.len() == 0 {
        buffered
    } else {
        let moment = history.first();
        buffered_after(
            relay::pair_step(phase, moment.told).0,
            buffered_then(phase, buffered, moment),
            history.drop_first(),
        )
    }
}

proof fn lemma_expected(phase: Phase, buffered: Seq<u8>, history: Seq<Moment>)
    requires
        happens(phase, buffered, history),
    ensures
        all_expected(phase, told_of(history)),
    decreases history.len(),
{
    if history.len() > 0 {
        let moment = history.first();
        lemma_expected(
            relay::pair_step(phase, moment.told).0,
            buffered_then(phase, buffered, moment),
            history.drop_first(),
        );
        assert(told_of(history).drop_first() =~= told_of(history.drop_first()));
    }
}

/// Whether a relay is told a code that does not announce data.
pub open spec fn told_to_close(told: Seq<Told>) -> bool
    decreases told.len(),
{
    told.len() > 0 && ((told.first() matches Told::Code(Some(code)) && code != CODE_DATA)
        || told_to_close(told.drop_first()))
}

/// The stream of frames that carry `data`, with `tail` behind it, from where a relay
/// in `phase` reads on.
spec fn ahead(phase: Phase, data: Seq<Seq<u8>>, tail: Seq<u8>) -> Seq<u8> {
    if phase is ReadingChunk {
        wire::chunk_bytes(data.first()) + (relay::frames(data.drop_first()) + tail)
    } else {
        relay::frames(data) + tail
    }
}

/// A relay that stands in front of `ahead(phase, data, tail)`, of which `buffered` is
/// there and more arrives in `history`, gets the first chunks of `data`. It has got
/// them all once it is told to close, and, without a tail, once the whole stream has
/// arrived and nothing is buffered any more.
spec fn gets(
    phase: Phase,
    buffered: Seq<u8>,
    history: Seq<Moment>,
    data: Seq<Seq<u8>>,
    tail: Seq<u8>,
) -> bool {
    let chunks = chunk_data(told_of(history));
    &&& chunks.is_prefix_of(data)
    &&& told_to_close(told_of(history)) ==> chunks == data
    &&& tail.len() == 0 && buffered + arrived(history) == ahead(phase, data, tail)
        && buffered_after(phase, buffered, history).len() == 0 ==> chunks == data
}

spec fn stands_before(
    phase: Phase,
    buffered: Seq<u8>,
    history: Seq<Moment>,
    data: Seq<Seq<u8>>,
    tail: Seq<u8>,
) -> bool {
    &&& happens(phase, buffered, history)
    &&& phase is ReadingChunk ==> data.len() > 0
    &&& (buffered + arrived(history)).is_prefix_of(ahead(phase, data, tail))
    &&& forall|i: int| 0 <= i < data.len() ==> (#[trigger] data[i]).len() <= usize::MAX
    &&& wire::parse_u16(tail) matches Parsed::Value(code, _) ==> code != CODE_DATA
}

proof fn lemma_gets_nothing(
    phase: Phase,
    buffered: Seq<u8>,
    data: Seq<Seq<u8>>,
    tail: Seq<u8>,
)
    requires
        phase is ReadingChunk ==> data.len() > 0,
    ensures
        gets(phase, buffered, Seq::empty(), data, tail),
{
    assert(chunk_data(told_of(Seq::empty())) =~= Seq::empty());
    if data.len() > 0 {
        wire::lemma_be_len(CODE_DATA as nat, 2);
        wire::lemma_be_len(data.first().len(), 8);
        assert(ahead(phase, data, tail).len() > 0);
    } else {
        assert(data =~= Seq::empty());
    }
    assert(buffered + arrived(Seq::empty()) =~= buffered);
}

/// What follows the first moment of `history`, if `behind` is what is still to come
/// of `data` then.
spec fn goes_on(
    phase: Phase,
    buffered: Seq<u8>,
    history: Seq<Moment>,
    data: Seq<Seq<u8>>,
    behind: Seq<Seq<u8>>,
    tail: Seq<u8>,
) -> bool {
    let moment = history.first();
    let rest = history.drop_first();
    let next = relay::pair_step(phase, moment.told).0;
    let then = buffered_then(phase, buffered, moment);
    &&& stands_before(next, then, rest, behind, tail)
    &&& gets(next, then, rest, behind, tail) ==> gets(phase, buffered, history, data, tail)
}

proof fn lemma_split(history: Seq<Moment>, buffered: Seq<u8>)
    requires
        history.len() > 0,
    ensures
        buffered + arrived(history) == (buffered + history.first().pieces.flatten()) + arrived(
            history.drop_first(),
        ),
        told_of(history).len() > 0,
        told_of(history).first() == history.first().told,
        told_of(history).drop_first() == told_of(history.drop_first()),
{
    assert(buffered + arrived(history) =~= (buffered + history.first().pieces.flatten()) + arrived(
        history.drop_first(),
    ));
    assert(told_of(history).drop_first() =~= told_of(history.drop_first()));
}

proof fn lemma_code_read(
    buffered: Seq<u8>,
    history: Seq<Moment>,
    data: Seq<Seq<u8>>,
    tail: Seq<u8>,
)
    requires
        stands_before(Phase::Selecting, buffered, history, data, tail),
        history.len() > 0,
        history.first().told matches Told::Code(Some(_)),
        data.len() > 0,
    ensures
        goes_on(Phase::Selecting, buffered, history, data, data, tail),
{
    let moment = history.first();
    let rest = history.drop_first();
    let code = arrival::u16_run(buffered, moment.pieces);
    let front = buffered + moment.pieces.flatten();
    let stream = relay::frames(data) + tail;
    let then = code.buffered;
    let behind = ahead(Phase::ReadingChunk, data, tail);
    lemma_split(history, buffered);
    assert(front.is_prefix_of(stream));
    arrival::u16_in_pieces(buffered, moment.pieces);
    assert(code.buffered + code.unread.flatten() =~= then);
    assert(stream =~= wire::be_bytes(CODE_DATA as nat, 2) + behind);
    wire::u16_roundtrip(CODE_DATA, behind);
    wire::longer_stream(front, stream);
    assert(stream.skip(2) =~= behind);
    assert((front + arrived(rest)).skip(2) =~= then + arrived(rest));
    assert(chunk_data(told_of(history)) =~= chunk_data(told_of(rest)));
}

/// A code behind the last frame is not one that announces data.
proof fn lemma_code_behind(
    buffered: Seq<u8>,
    history: Seq<Moment>,
    data: Seq<Seq<u8>>,
    tail: Seq<u8>,
)
    requires
        stands_before(Phase::Selecting, buffered, history, data, tail),
        history.len() > 0,
        history.first().told matches Told::Code(Some(_)),
        data.len() == 0,
    ensures
        gets(Phase::Selecting, buffered, history, data, tail),
{
    let moment = history.first();
    let rest = history.drop_first();
    let front = buffered + moment.pieces.flatten();
    lemma_split(history, buffered);
    assert(relay::frames(data) + tail =~= tail);
    assert(front.is_prefix_of(tail));
    arrival::u16_in_pieces(buffered, moment.pieces);
    wire::longer_stream(front, tail);
    reveal_with_fuel(happens, 2);
    assert(rest.len() == 0);
    reveal_with_fuel(chunk_data, 2);
    assert(chunk_data(told_of(history)) =~= data);
}

proof fn lemma_code_not_read(
    buffered: Seq<u8>,
    history: Seq<Moment>,
    data: Seq<Seq<u8>>,
    tail: Seq<u8>,
)
    requires
        stands_before(Phase::Selecting, buffered, history, data, tail),
        history.len() > 0,
        !(history.first().told matches Told::Code(Some(_))),
    ensures
        goes_on(Phase::Selecting, buffered, history, data, data, tail),
{
    let moment = history.first();
    lemma_split(history, buffered);
    arrival::abandoned_u16_loses_nothing(buffered, moment.pieces);
    assert(buffered_then(Phase::Selecting, buffered, moment) =~= buffered
        + moment.pieces.flatten());
    assert(chunk_data(told_of(history)) =~= chunk_data(told_of(history.drop_first())));
}

proof fn lemma_chunk_read(
    buffered: Seq<u8>,
    history: Seq<Moment>,
    data: Seq<Seq<u8>>,
    tail: Seq<u8>,
)
    requires
        stands_before(Phase::ReadingChunk, buffered, history, data, tail),
        history.len() > 0,
        history.first().told matches Told::Chunk(Some(_)),
    ensures
        goes_on(Phase::ReadingChunk, buffered, history, data, data.drop_first(), tail),
{
    let moment = history.first();
    let rest = history.drop_first();
    let chunk = arrival::chunk_run(buffered, moment.pieces);
    let front = buffered + moment.pieces.flatten();
    let stream = ahead(Phase::ReadingChunk, data, tail);
    let then = chunk.buffered;
    let first = data.first();
    let behind = data.drop_first();
    lemma_split(history, buffered);
    assert(front.is_prefix_of(stream));
    assert(data[0].len() <= usize::MAX);
    arrival::chunk_in_pieces(buffered, moment.pieces);
    assert(chunk.buffered + chunk.unread.flatten() =~= then);
    wire::lemma_chunk_off_front(front, first, relay::frames(behind) + tail);
    let size = wire::chunk_bytes(first).len() as int;
    assert(stream.skip(size) =~= relay::frames(behind) + tail);
    assert((front + arrived(rest)).skip(size) =~= then + arrived(rest));
    assert forall|i: int| 0 <= i < behind.len() implies (#[trigger] behind[i]).len()
        <= usize::MAX by {
        assert(behind[i] == data[i + 1]);
    }
    assert(chunk_data(told_of(history)) =~= seq![first] + chunk_data(told_of(rest)));
    assert(seq![first] + behind =~= data);
}

proof fn lemma_chunk_not_read(
    buffered: Seq<u8>,
    history: Seq<Moment>,
    data: Seq<Seq<u8>>,
    tail: Seq<u8>,
)
    requires
        stands_before(Phase::ReadingChunk, buffered, history, data, tail),
        history.len() > 0,
        !(history.first().told matches Told::Chunk(Some(_))),
    ensures
        gets(Phase::ReadingChunk, buffered, history, data, tail),
{
    let moment = history.first();
    let rest = history.drop_first();
    let front = buffered + moment.pieces.flatten();
    lemma_split(history, buffered);
    reveal_with_fuel(happens, 2);
    assert(rest.len() == 0);
    assert(front + arrived(rest) =~= front);
    reveal_with_fuel(chunk_data, 2);
    reveal_with_fuel(told_to_close, 2);
    assert(chunk_data(told_of(history)) =~= Seq::empty());
    assert(data[0].len() <= usize::MAX);
    arrival::chunk_in_pieces(buffered, moment.pieces);
    wire::chunk_roundtrip(data.first(), relay::frames(data.drop_first()) + tail);
}

proof fn lemma_gets(
    phase: Phase,
    buffered: Seq<u8>,
    history: Seq<Moment>,
    data: Seq<Seq<u8>>,
    tail: Seq<u8>,
)
    requires
        stands_before(phase, buffered, history, data, tail),
    ensures
        gets(phase, buffered, history, data, tail),
    decreases history.len(),
{
    if history.len() == 0 {
        assert(history =~= Seq::empty());
        lemma_gets_nothing(phase, buffered, data, tail);
    } else {
        let moment = history.first();
        let rest = history.drop_first();
        let next = relay::pair_step(phase, moment.told).0;
        let then = buffered_then(phase, buffered, moment);
        match phase {
            Phase::Selecting => {
                if !(moment.told matches Told::Code(Some(_))) {
                    lemma_code_not_read(buffered, history, data, tail);
                    lemma_gets(next, then, rest, data, tail);
                } else if data.len() > 0 {
                    lemma_code_read(buffered, history, data, tail);
                    lemma_gets(next, then, rest, data, tail);
                } else {
                    lemma_code_behind(buffered, history, data, tail);
                }
            },
            Phase::ReadingChunk => {
                if moment.told matches Told::Chunk(Some(_)) {
                    lemma_chunk_read(buffered, history, data, tail);
                    lemma_gets(next, then, rest, data.drop_first(), tail);
                } else {
                    lemma_chunk_not_read(buffered, history, data, tail);
                }
            },
            _ => {
                lemma_split(history, buffered);
                assert(buffered + moment.pieces.flatten() =~= buffered);
                assert(chunk_data(told_of(history)) =~= chunk_data(told_of(rest)));
                lemma_gets(next, then, rest, data, tail);
            },
        }
    }
}

/// From the front of a stream of frames a relay gets the first of the chunks that
/// they carry, however the stream arrives, and however often the relay gives up
/// reading a code because TCP is first. Once the whole stream has arrived and
/// nothing is buffered any more, the relay has got all chunks.
pub proof fn relay_receives_frames(
    data: Seq<Seq<u8>>,
    buffered: Seq<u8>,
    history: Seq<Moment>,
)
    requires
        happens(Phase::Selecting, buffered, history),
        (buffered + arrived(history)).is_prefix_of(relay::frames(data)),
        forall|i: int| 0 <= i < data.len() ==> (#[trigger] data[i]).len() <= usize::MAX,
    ensures
        chunk_data(told_of(history)).is_prefix_of(data),
        buffered + arrived(history) == relay::frames(data) && buffered_after(
            Phase::Selecting,
            buffered,
            history,
        ).len() == 0 ==> chunk_data(told_of(history)) == data,
{
    assert(relay::frames(data) + Seq::<u8>::empty() =~= relay::frames(data));
    lemma_gets(Phase::Selecting, buffered, history, data, Seq::empty());
}

/// Behind frames a code that does not announce data ends a relay, however the stream
/// arrives, and whatever follows the code: until then the relay gets the first of the
/// chunks that the frames carry, and once it is told such a code it has got them all.
pub proof fn relay_closes_behind_frames(
    data: Seq<Seq<u8>>,
    code: u16,
    rest: Seq<u8>,
    buffered: Seq<u8>,
    history: Seq<Moment>,
)
    requires
        code != CODE_DATA,
        happens(Phase::Selecting, buffered, history),
        (buffered + arrived(history)).is_prefix_of(
            relay::frames(data) + wire::be_bytes(code as nat, 2) + rest,
        ),
        forall|i: int| 0 <= i < data.len() ==> (#[trigger] data[i]).len() <= usize::MAX,
    ensures
        chunk_data(told_of(history)).is_prefix_of(data),
        told_to_close(told_of(history)) ==> chunk_data(told_of(history)) == data,
{
    let tail = wire::be_bytes(code as nat, 2) + rest;
    assert(relay::frames(data) + wire::be_bytes(code as nat, 2) + rest =~= relay::frames(data)
        + tail);
    wire::u16_roundtrip(code, rest);
    lemma_gets(Phase::Selecting, buffered, history, data, tail);
}

proof fn lemma_flatten_first(first: Seq<Seq<u8>>, all: Seq<Seq<u8>>)
    requires
        first.is_prefix_of(all),
    ensures
        first.flatten().is_prefix_of(all.flatten()),
    decreases first.len(),
{
    if first.len() > 0 {
        assert(first.first() == all.first());
        assert(first.drop_first().is_prefix_of(all.drop_first()));
        lemma_flatten_first(first.drop_first(), all.drop_first());
        assert(first.flatten() =~= first.first() + first.drop_first().flatten());
        assert(all.flatten() =~= all.first() + all.drop_first().flatten());
    }
}

/// At no time has TCP taken anything at one end of the tunnel but the first bytes
/// that it had at the other, in order. A relay that is told `near` sends frames; the
/// first of their bytes are buffered at the other end, and more arrive while the
/// relay there goes through `far`.
pub proof fn tunnel_keeps_order(near: Seq<Told>, buffered: Seq<u8>, far: Seq<Moment>)
    requires
        happens(Phase::Selecting, buffered, far),
        (buffered + arrived(far)).is_prefix_of(sent(Phase::Selecting, near)),
        forall|i: int|
            0 <= i < tcp_data(near).len() ==> (#[trigger] tcp_data(near)[i]).len() <= usize::MAX,
    ensures
        taken(Phase::Selecting, told_of(far)).is_prefix_of(tcp_data(near).flatten()),
{
    relay_sends_what_tcp_had(Phase::Selecting, near);
    relay_receives_frames(tcp_data(near), buffered, far);
    lemma_expected(Phase::Selecting, buffered, far);
    relay_writes_what_tunnel_had(told_of(far));
    lemma_flatten_first(chunk_data(told_of(far)), tcp_data(near));
}

/// The tunnel carries bytes unchanged: once all frames have arrived and nothing is
/// buffered any more, what TCP has taken at the far end, and what it has yet to
/// take of the last chunk, is what TCP had at the near end.
pub proof fn tunnel_carries_bytes(near: Seq<Told>, buffered: Seq<u8>, far: Seq<Moment>)
    requires
        happens(Phase::Selecting, buffered, far),
        buffered + arrived(far) == sent(Phase::Selecting, near),
        buffered_after(Phase::Selecting, buffered, far).len() == 0,
        forall|i: int|
            0 <= i < tcp_data(near).len() ==> (#[trigger] tcp_data(near)[i]).len() <= usize::MAX,
    ensures
        taken(Phase::Selecting, told_of(far)) + left_over(Phase::Selecting, told_of(far))
            == tcp_data(near).flatten(),
{
    relay_sends_what_tcp_had(Phase::Selecting, near);
    relay_receives_frames(tcp_data(near), buffered, far);
    lemma_expected(Phase::Selecting, buffered, far);
    relay_writes_what_tunnel_had(told_of(far));
}

/// A relay that reads the closing code stops, however the code arrives, and
/// whatever follows it.
pub proof fn closing_code_stops_relay(
    rest: Seq<u8>,
    buffered: Seq<u8>,
    pieces: Seq<Seq<u8>>,
)
    requires
        buffered + pieces.flatten() == wire::be_bytes(relay::CODE_CLOSE as nat, 2) + rest,
    ensures
        ({
            let code = arrival::u16_run(buffered, pieces);
            code.step matches Step::Done(c) && relay::pair_step(
                Phase::Selecting,
                Told::Code(Some(c)),
            ) == (Phase::Stopped, Asked::Stop)
        }),
{
    arrival::u16_in_pieces(buffered, pieces);
    wire::u16_roundtrip(relay::CODE_CLOSE, rest);
}

} // verus!
