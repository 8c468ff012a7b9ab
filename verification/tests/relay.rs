use penoxy::relay::{PairAction, PairEvent, StreamPair, CODE_CLOSE, CODE_DATA};
use penoxy::stream::{Step, StreamContext};

fn pair() -> StreamPair {
    StreamPair::new("10.0.0.1:1234".to_string())
}

#[test]
fn pair_keeps_its_address() {
    assert_eq!(pair().addr(), "10.0.0.1:1234");
    assert!(pair().unwritten().is_none());
}

#[test]
fn tcp_bytes_are_sent_in_a_frame() {
    let mut pair = pair();
    match pair.run(PairEvent::TcpRead(vec![5, 6])) {
        PairAction::Send(bytes) => {
            assert_eq!(bytes, vec![0, 1, 0, 0, 0, 0, 0, 0, 0, 2, 5, 6]);
        }
        _ => panic!("a frame is due"),
    }
    assert!(matches!(pair.run(PairEvent::Sent), PairAction::Select));
    assert!(matches!(pair.run(PairEvent::TcpNotReady), PairAction::Select));
}

#[test]
fn end_of_tcp_stops_the_relay() {
    assert!(matches!(pair().run(PairEvent::TcpRead(vec![])), PairAction::Stop));
}

#[test]
fn codes_close_or_announce_data() {
    assert!(matches!(pair().run(PairEvent::Code(Some(CODE_CLOSE))), PairAction::Stop));
    assert!(matches!(pair().run(PairEvent::Code(Some(CODE_DATA))), PairAction::ReadChunk));
    assert!(matches!(pair().run(PairEvent::Code(Some(2))), PairAction::Stop));
    assert!(matches!(pair().run(PairEvent::Code(None)), PairAction::Stop));
}

#[test]
fn failures_fail_the_relay() {
    assert!(matches!(pair().run(PairEvent::TcpFailed), PairAction::Fail));
    assert!(matches!(pair().run(PairEvent::StreamFailed), PairAction::Fail));
    let mut sending = pair();
    sending.run(PairEvent::TcpRead(vec![1]));
    assert!(matches!(sending.run(PairEvent::StreamFailed), PairAction::Fail));
    let mut reading = pair();
    reading.run(PairEvent::Code(Some(1)));
    assert!(matches!(reading.run(PairEvent::StreamFailed), PairAction::Fail));
    let mut writing = pair();
    writing.run(PairEvent::Code(Some(1)));
    writing.run(PairEvent::Chunk(Some(vec![1])));
    assert!(matches!(writing.run(PairEvent::TcpFailed), PairAction::Fail));
}

#[test]
fn chunk_is_written_bit_by_bit() {
    let mut pair = pair();
    pair.run(PairEvent::Code(Some(1)));
    assert!(matches!(pair.run(PairEvent::Chunk(Some(vec![1, 2, 3, 4]))), PairAction::Write));
    assert_eq!(pair.unwritten(), Some(&[1u8, 2, 3, 4][..]));
    assert!(matches!(pair.run(PairEvent::Written(1)), PairAction::Write));
    assert_eq!(pair.unwritten(), Some(&[2u8, 3, 4][..]));
    assert!(matches!(pair.run(PairEvent::TcpNotReady), PairAction::Write));
    assert!(matches!(pair.run(PairEvent::Written(0)), PairAction::Write));
    assert_eq!(pair.unwritten(), Some(&[2u8, 3, 4][..]));
    assert!(matches!(pair.run(PairEvent::Written(3)), PairAction::Select));
    assert!(pair.unwritten().is_none());
}

#[test]
fn empty_chunk_is_skipped_and_missing_chunk_stops() {
    let mut pair = pair();
    pair.run(PairEvent::Code(Some(1)));
    assert!(matches!(pair.run(PairEvent::Chunk(Some(vec![]))), PairAction::Select));
    pair.run(PairEvent::Code(Some(1)));
    assert!(matches!(pair.run(PairEvent::Chunk(None)), PairAction::Stop));
}

/// Runs the far relay on `pieces` until the tunnel ends; TCP takes two bytes at
/// a time.
fn far_end(pieces: &[&[u8]]) -> Vec<u8> {
    let mut pieces = pieces.iter();
    let mut context = StreamContext::new();
    let mut pair = pair();
    let mut written = vec![];
    let mut action = PairAction::Select;
    loop {
        action = match action {
            PairAction::Select => {
                let mut step = context.read_u16();
                let code = loop {
                    match step {
                        Step::Done(code) => break Some(code),
                        Step::Wait(wait) => {
                            step = context.resume_u16(wait, pieces.next().copied());
                        }
                        _ => break None,
                    }
                };
                pair.run(PairEvent::Code(code))
            }
            PairAction::ReadChunk => {
                let mut step = context.read_chunk();
                let chunk = loop {
                    match step {
                        Step::Done(chunk) => break Some(chunk),
                        Step::Wait(wait) => {
                            step = context.resume_chunk(wait, pieces.next().copied());
                        }
                        _ => break None,
                    }
                };
                pair.run(PairEvent::Chunk(chunk))
            }
            PairAction::Write => {
                let offered = pair.unwritten().unwrap();
                let count = offered.len().min(2);
                written.extend_from_slice(&offered[..count]);
                pair.run(PairEvent::Written(count))
            }
            PairAction::Stop => return written,
            _ => panic!("the far end only receives"),
        };
    }
}

#[test]
fn tunnel_carries_bytes_unchanged() {
    let reads: [&[u8]; 3] = [b"GET / HTTP/1.1\r\n", b"\r\n", &[0, 1, 0, 255]];
    let mut near = pair();
    let mut stream = vec![];
    for read in reads {
        match near.run(PairEvent::TcpRead(read.to_vec())) {
            PairAction::Send(bytes) => stream.extend(bytes),
            _ => panic!("a frame is due"),
        }
        near.run(PairEvent::Sent);
    }
    let expected = reads.concat();
    for size in 1..stream.len() + 1 {
        let pieces: Vec<&[u8]> = stream.chunks(size).collect();
        assert_eq!(far_end(&pieces), expected);
    }
    stream.extend(StreamContext::send_u16(CODE_CLOSE));
    stream.extend([9; 20]);
    assert_eq!(far_end(&[&stream]), expected);
}

#[test]
fn part_of_a_stream_gives_the_first_bytes() {
    let mut near = pair();
    let mut stream = vec![];
    for read in [vec![1, 2, 3], vec![4, 5]] {
        match near.run(PairEvent::TcpRead(read)) {
            PairAction::Send(bytes) => stream.extend(bytes),
            _ => panic!("a frame is due"),
        }
        near.run(PairEvent::Sent);
    }
    assert_eq!(stream.len(), 25);
    assert_eq!(far_end(&[&stream[..12]]), vec![]);
    assert_eq!(far_end(&[&stream[..13]]), vec![1, 2, 3]);
    assert_eq!(far_end(&[&stream[..24]]), vec![1, 2, 3]);
    assert_eq!(far_end(&[&stream[..5], &stream[5..]]), vec![1, 2, 3, 4, 5]);
}

#[test]
fn codes_that_are_given_up_lose_nothing() {
    let mut near = pair();
    let mut stream = vec![];
    for read in [vec![1, 2, 3], vec![4, 5]] {
        match near.run(PairEvent::TcpRead(read)) {
            PairAction::Send(bytes) => stream.extend(bytes),
            _ => panic!("a frame is due"),
        }
        near.run(PairEvent::Sent);
    }
    let mut bytes = stream.chunks(1);
    let mut context = StreamContext::new();
    let mut far = pair();
    let mut written = vec![];
    for _ in 0..2 {
        let wait = match context.read_u16() {
            Step::Wait(wait) => wait,
            _ => panic!("no code is buffered"),
        };
        assert!(matches!(context.resume_u16(wait, bytes.next()), Step::Wait(_)));
        assert!(matches!(far.run(PairEvent::TcpRead(vec![9])), PairAction::Send(_)));
        assert!(matches!(far.run(PairEvent::Sent), PairAction::Select));
        let mut step = context.read_u16();
        while let Step::Wait(wait) = step {
            step = context.resume_u16(wait, bytes.next());
        }
        assert!(matches!(step, Step::Done(CODE_DATA)));
        far.run(PairEvent::Code(Some(CODE_DATA)));
        let mut step = context.read_chunk();
        while let Step::Wait(wait) = step {
            step = context.resume_chunk(wait, bytes.next());
        }
        match step {
            Step::Done(chunk) => {
                far.run(PairEvent::Chunk(Some(chunk)));
            }
            _ => panic!("the chunk is whole"),
        }
        let offered = far.unwritten().unwrap().to_vec();
        far.run(PairEvent::Written(offered.len()));
        written.extend(offered);
    }
    assert_eq!(written, vec![1, 2, 3, 4, 5]);
}
