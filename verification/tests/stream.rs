use penoxy::stream::{ChunkWait, Step, StreamContext};
use penoxy::wire::{decode_be, encode_be, ReadError};

/// Reads a string from `pieces`, one after the other; `None` at their end.
fn read_str(context: &mut StreamContext, pieces: &[&[u8]]) -> Result<Option<String>, ReadError> {
    let mut pieces = pieces.iter();
    let mut step = context.read_str();
    loop {
        match step {
            Step::Done(text) => return Ok(Some(text)),
            Step::Wait(wait) => step = context.resume_str(wait, pieces.next().copied()),
            Step::Closed => return Ok(None),
            Step::Failed(e) => return Err(e),
        }
    }
}

fn read_chunk(context: &mut StreamContext, pieces: &[&[u8]]) -> Option<Vec<u8>> {
    let mut pieces = pieces.iter();
    let mut step: Step<Vec<u8>, ChunkWait> = context.read_chunk();
    loop {
        match step {
            Step::Done(chunk) => return Some(chunk),
            Step::Wait(wait) => step = context.resume_chunk(wait, pieces.next().copied()),
            Step::Closed => return None,
            Step::Failed(e) => panic!("{:?}", e),
        }
    }
}

/// What is buffered, as far as one more byte goes.
fn next_byte(context: &mut StreamContext) -> Option<u8> {
    match context.read(1) {
        Step::Done(bytes) => Some(bytes[0]),
        _ => None,
    }
}

#[test]
fn numbers_are_big_endian() {
    assert_eq!(StreamContext::send_u16(0x0102), vec![1, 2]);
    assert_eq!(StreamContext::send_u16(1), 1u16.to_be_bytes().to_vec());
    assert_eq!(StreamContext::send_u16(u16::MAX), vec![255, 255]);
    assert_eq!(StreamContext::send_u64(0x0102030405060708), vec![1, 2, 3, 4, 5, 6, 7, 8]);
    assert_eq!(StreamContext::send_u64(u64::MAX), u64::MAX.to_be_bytes().to_vec());
    assert_eq!(encode_be(0x010203, 2), vec![2, 3]);
    assert_eq!(decode_be(&[]), 0);
    assert_eq!(decode_be(&[1, 0, 2]), 0x010002);
    assert_eq!(decode_be(&[255; 8]), u64::MAX);
}

#[test]
fn chunk_has_length_in_front() {
    assert_eq!(StreamContext::send_chunk(&[7, 8, 9]), vec![0, 0, 0, 0, 0, 0, 0, 3, 7, 8, 9]);
    assert_eq!(StreamContext::send_chunk(&[]), vec![0; 8]);
}

#[test]
fn string_is_chunk_of_utf8() {
    let bytes = StreamContext::send_str("né");
    assert_eq!(bytes, vec![0, 0, 0, 0, 0, 0, 0, 3, b'n', 0xc3, 0xa9]);
}

#[test]
fn read_of_nothing_is_done_at_once() {
    let mut context = StreamContext::new();
    assert!(matches!(context.read(0), Step::Done(bytes) if bytes.is_empty()));
}

#[test]
fn read_takes_just_what_it_needs() {
    let mut context = StreamContext::new();
    let wait = match context.read(3) {
        Step::Wait(wait) => wait,
        _ => panic!("nothing has arrived"),
    };
    let wait = match context.resume_read(wait, Some(&[1, 2])) {
        Step::Wait(wait) => wait,
        _ => panic!("two bytes are not three"),
    };
    match context.resume_read(wait, Some(&[3, 4, 5])) {
        Step::Done(bytes) => assert_eq!(bytes, vec![1, 2, 3]),
        _ => panic!("all has arrived"),
    }
    assert_eq!(next_byte(&mut context), Some(4));
    assert_eq!(next_byte(&mut context), Some(5));
    assert_eq!(next_byte(&mut context), None);
}

#[test]
fn end_of_transport_closes_read_and_keeps_buffer() {
    let mut context = StreamContext::new();
    let wait = match context.read(1) {
        Step::Wait(wait) => wait,
        _ => panic!("nothing has arrived"),
    };
    assert!(matches!(context.resume_read(wait, Some(&[1, 2, 3])), Step::Done(_)));
    let wait = match context.read_u64() {
        Step::Wait(wait) => wait,
        _ => panic!("two bytes are not eight"),
    };
    assert!(matches!(context.resume_u64(wait, None), Step::Closed));
    assert_eq!(next_byte(&mut context), Some(2));
    assert_eq!(next_byte(&mut context), Some(3));
}

#[test]
fn u64_in_two_pieces() {
    let mut context = StreamContext::new();
    let wait = match context.read_u64() {
        Step::Wait(wait) => wait,
        _ => panic!("nothing has arrived"),
    };
    let wait = match context.resume_u64(wait, Some(&[0, 0, 0, 0, 0])) {
        Step::Wait(wait) => wait,
        _ => panic!("five bytes are not eight"),
    };
    assert!(matches!(context.resume_u64(wait, Some(&[1, 0, 2, 9])), Step::Done(0x010002)));
    assert_eq!(next_byte(&mut context), Some(9));
}

#[test]
fn abandoned_code_is_read_again() {
    let mut context = StreamContext::new();
    let wait = match context.read_u16() {
        Step::Wait(wait) => wait,
        _ => panic!("nothing has arrived"),
    };
    let abandoned = context.resume_u16(wait, Some(&[0]));
    assert!(matches!(abandoned, Step::Wait(_)));
    drop(abandoned);
    let wait = match context.read_u16() {
        Step::Wait(wait) => wait,
        _ => panic!("one byte is not two"),
    };
    assert!(matches!(context.resume_u16(wait, Some(&[1, 5])), Step::Done(1)));
    assert_eq!(next_byte(&mut context), Some(5));
}

#[test]
fn strings_arrive_in_any_pieces() {
    let mut bytes = StreamContext::send_str("127.0.0.1:80");
    bytes.extend(StreamContext::send_str("héé"));
    for size in 1..bytes.len() + 1 {
        let pieces: Vec<&[u8]> = bytes.chunks(size).collect();
        let mut context = StreamContext::new();
        let mut used = 0;
        let mut texts = vec![];
        for _ in 0..2 {
            let mut step = context.read_str();
            loop {
                match step {
                    Step::Done(text) => {
                        texts.push(text);
                        break;
                    }
                    Step::Wait(wait) => {
                        step = context.resume_str(wait, Some(pieces[used]));
                        used += 1;
                    }
                    _ => panic!("the strings are whole"),
                }
            }
        }
        assert_eq!(texts, vec!["127.0.0.1:80".to_string(), "héé".to_string()]);
        assert_eq!(used, pieces.len());
        assert_eq!(next_byte(&mut context), None);
    }
}

#[test]
fn chunk_round_trip() {
    let data: Vec<u8> = (0..40000u32).map(|i| i as u8).collect();
    let bytes = StreamContext::send_chunk(&data);
    let pieces: Vec<&[u8]> = bytes.chunks(penoxy::stream::BUF_SIZE).collect();
    assert_eq!(pieces.len(), 3);
    assert_eq!(read_chunk(&mut StreamContext::new(), &pieces), Some(data));
    assert_eq!(read_chunk(&mut StreamContext::new(), &pieces[..2]), None);
    assert_eq!(read_chunk(&mut StreamContext::new(), &[&[0; 8]]), Some(vec![]));
}

#[test]
fn string_that_is_no_utf8_fails() {
    let bytes = StreamContext::send_chunk(&[b'a', 0xff, b'b']);
    assert_eq!(read_str(&mut StreamContext::new(), &[&bytes]), Err(ReadError::Utf8));
    let cut = StreamContext::send_chunk(&[0xc3]);
    assert_eq!(read_str(&mut StreamContext::new(), &[&cut]), Err(ReadError::Utf8));
}

#[test]
fn huge_length_waits_or_fails() {
    let mut context = StreamContext::new();
    let length = [255u8; 8];
    if usize::MAX as u64 == u64::MAX {
        assert_eq!(read_str(&mut context, &[&length, &[1, 2, 3]]), Ok(None));
    } else {
        assert_eq!(read_str(&mut context, &[&length]), Err(ReadError::Length));
    }
}

#[test]
fn chunks_are_read_back_one_by_one() {
    let data: [&[u8]; 4] = [&[1, 2, 3], &[], &[4; 20], &[5]];
    let bytes: Vec<u8> = data.iter().flat_map(|d| StreamContext::send_chunk(d)).collect();
    for size in 1..bytes.len() + 1 {
        let mut pieces = bytes.chunks(size);
        let mut context = StreamContext::new();
        let mut chunks = vec![];
        loop {
            let mut step = context.read_chunk();
            while let Step::Wait(wait) = step {
                step = context.resume_chunk(wait, pieces.next());
            }
            match step {
                Step::Done(chunk) => chunks.push(chunk),
                Step::Closed => break,
                _ => panic!("the chunks are whole"),
            }
        }
        assert_eq!(chunks, data.map(|d| d.to_vec()).to_vec());
    }
}

#[test]
fn bad_string_leaves_what_follows() {
    let mut bytes = StreamContext::send_chunk(&[0xff, 0xfe]);
    bytes.extend(StreamContext::send_str("next"));
    let mut context = StreamContext::new();
    assert_eq!(read_str(&mut context, &[&bytes[..9], &bytes[9..12]]), Err(ReadError::Utf8));
    assert_eq!(read_str(&mut context, &[&bytes[12..]]), Ok(Some("next".to_string())));
}
