use dispersal::error::StreamError;
use dispersal::io::{MemoryReader, Read, Write};
use dispersal::padding::{pad_vec, unpad_vec};
use dispersal::padding_streaming::{finish_tail, mod_positive, Op, PaddedReader, PaddedWriter};

fn sample(len: usize) -> Vec<u8> {
    // Bytes that hold zeros and markers, so that the data looks like padding.
    (0..len)
        .map(|i| [0u8, 0x80, 7, 0, 0x80, 0x80, 255, 1][(i * 5 + len) % 8])
        .collect()
}

fn read_all<R: Read>(reader: &mut R, step: usize) -> Result<Vec<u8>, StreamError> {
    let mut out = Vec::new();
    let mut buf = vec![0u8; step];
    loop {
        let n = reader.read(&mut buf)?;
        if n == 0 {
            return Ok(out);
        }
        out.extend_from_slice(&buf[..n]);
    }
}

fn lengths(b: usize) -> Vec<usize> {
    vec![0, 1, b - 1, b, b + 1, 10 * b]
}

#[test]
fn pad_gives_the_marker_and_zeros() {
    assert_eq!(pad_vec(b"test", 8), b"test\x80\x00\x00\x00".to_vec());
    assert_eq!(pad_vec(b"", 4), vec![0x80, 0, 0, 0]);
    assert_eq!(pad_vec(b"abcd", 4), b"abcd\x80\x00\x00\x00".to_vec());
    assert_eq!(pad_vec(b"abcde", 4), b"abcde\x80\x00\x00".to_vec());
    assert_eq!(pad_vec(b"abc", 4), b"abc\x80".to_vec());
    assert_eq!(pad_vec(b"hello worlds", 2).len(), 14);
    assert_eq!(pad_vec(b"x", 1), b"x\x80".to_vec());
}

#[test]
fn unpad_removes_the_marker_and_zeros() {
    assert_eq!(unpad_vec(b"test\x80\x00\x00\x00", 8), Ok(b"test".to_vec()));
    assert_eq!(unpad_vec(b"test\x80\x00\x00\x00", 4), Ok(b"test".to_vec()));
    assert_eq!(unpad_vec(b"\x80\x00\x00\x00", 4), Ok(Vec::new()));
    assert_eq!(unpad_vec(b"ab\x80\x80", 4), Ok(b"ab\x80".to_vec()));
}

#[test]
fn unpad_rejects_what_is_not_padded() {
    assert_eq!(unpad_vec(b"", 4), Err(StreamError::InvalidData));
    assert_eq!(unpad_vec(b"abc", 4), Err(StreamError::InvalidData));
    assert_eq!(
        unpad_vec(b"abcde\x80\x00", 4),
        Err(StreamError::InvalidData)
    );
    assert_eq!(unpad_vec(b"abcd", 4), Err(StreamError::InvalidData));
    assert_eq!(
        unpad_vec(b"\x00\x00\x00\x00", 4),
        Err(StreamError::InvalidData)
    );
    assert_eq!(
        unpad_vec(b"abc\x80\x00\x00\x00\x00", 4),
        Err(StreamError::InvalidData)
    );
    assert_eq!(unpad_vec(b"ab\x80\x01", 4), Err(StreamError::InvalidData));
}

#[test]
fn padding_round_trip() {
    for b in [2usize, 8, 16] {
        for len in lengths(b) {
            let data = sample(len);
            let padded = pad_vec(&data, b);
            assert_eq!(padded.len() % b, 0);
            assert!(padded.len() > data.len());
            assert!(padded.len() <= data.len() + b);
            assert_eq!(unpad_vec(&padded, b), Ok(data));
        }
    }
}

#[test]
fn mod_positive_lies_between_one_and_the_modulus() {
    assert_eq!(mod_positive(0, 5), 5);
    assert_eq!(mod_positive(5, 5), 5);
    assert_eq!(mod_positive(7, 5), 2);
    assert_eq!(mod_positive(4, 5), 4);
    assert_eq!(mod_positive(9, 1), 1);
}

#[test]
fn finish_tail_pads_and_unpads() {
    assert_eq!(
        finish_tail(Op::Pad, b"abcdef".to_vec(), 2, 4),
        Ok(b"abcdef\x80\x00".to_vec())
    );
    assert_eq!(
        finish_tail(Op::Pad, b"abcd".to_vec(), 0, 4),
        Ok(b"abcd\x80\x00\x00\x00".to_vec())
    );
    assert_eq!(
        finish_tail(Op::Pad, Vec::new(), 0, 4),
        Ok(b"\x80\x00\x00\x00".to_vec())
    );
    assert_eq!(
        finish_tail(Op::Unpad, b"abcdef\x80\x00".to_vec(), 0, 4),
        Ok(b"abcdef".to_vec())
    );
    assert_eq!(
        finish_tail(Op::Unpad, b"abcdef\x80\x00".to_vec(), 1, 4),
        Err(StreamError::InvalidData)
    );
    assert_eq!(
        finish_tail(Op::Unpad, b"ab\x80".to_vec(), 0, 4),
        Err(StreamError::InvalidData)
    );
    assert_eq!(
        finish_tail(Op::Unpad, Vec::new(), 0, 4),
        Err(StreamError::InvalidData)
    );
}

#[test]
fn padded_reader_pads_for_every_read_size() {
    for b in [1usize, 2, 8, 16] {
        for len in [0usize, 1, b - 1, b, b + 1, 3 * b - 1, 10 * b] {
            let data = sample(len);
            let expected = pad_vec(&data, b);
            for step in [1usize, 2, 3, b, b + 1, 2 * b + 1, 1024] {
                let mut reader = PaddedReader::new(b, MemoryReader::new(data.clone()), Op::Pad);
                assert_eq!(read_all(&mut reader, step), Ok(expected.clone()));
                let mut buf = [0u8; 4];
                assert_eq!(reader.read(&mut buf), Ok(0));
            }
        }
    }
}

#[test]
fn padded_reader_unpads_for_every_read_size() {
    for b in [1usize, 2, 8, 16] {
        for len in [0usize, 1, b - 1, b, b + 1, 3 * b - 1, 10 * b] {
            let data = sample(len);
            let padded = pad_vec(&data, b);
            for step in [1usize, 2, 3, b, b + 1, 2 * b + 1, 1024] {
                let mut reader = PaddedReader::new(b, MemoryReader::new(padded.clone()), Op::Unpad);
                assert_eq!(read_all(&mut reader, step), Ok(data.clone()));
            }
        }
    }
}

#[test]
fn padded_reader_fills_the_buffer_while_more_is_to_come() {
    let data = sample(100);
    let mut reader = PaddedReader::new(16, MemoryReader::new(data.clone()), Op::Pad);
    let mut buf = [0u8; 30];
    assert_eq!(reader.read(&mut buf), Ok(30));
    assert_eq!(buf.to_vec(), data[..30].to_vec());
    assert_eq!(reader.read(&mut buf), Ok(30));
    assert_eq!(reader.read(&mut buf), Ok(30));
    assert_eq!(reader.read(&mut buf), Ok(22));
    assert_eq!(buf[..10].to_vec(), data[90..].to_vec());
    assert_eq!(buf[10..22].to_vec(), b"\x80\0\0\0\0\0\0\0\0\0\0\0".to_vec());
    assert_eq!(reader.read(&mut buf), Ok(0));
    assert_eq!(reader.read(&mut []), Ok(0));
}

#[test]
fn padded_reader_rejects_what_is_not_padded() {
    for bad in [
        b"".to_vec(),
        b"abc".to_vec(),
        b"abcd".to_vec(),
        b"abcd\x80\0\0".to_vec(),
    ] {
        for step in [1usize, 3, 4, 100] {
            let mut reader = PaddedReader::new(4, MemoryReader::new(bad.clone()), Op::Unpad);
            assert_eq!(read_all(&mut reader, step), Err(StreamError::InvalidData));
        }
    }
}

fn write_in_steps(b: usize, op: Op, data: &[u8], step: usize) -> Result<Vec<u8>, StreamError> {
    let sink: Vec<u8> = vec![0xee];
    let mut writer = PaddedWriter::new(b, sink, op);
    for piece in data.chunks(step) {
        writer.write_all(piece)?;
    }
    writer.write_all(&[])?;
    writer.flush()?;
    writer.flush()?;
    let out = writer.into_inner();
    assert_eq!(out[0], 0xee);
    Ok(out[1..].to_vec())
}

#[test]
fn padded_writer_pads_for_every_write_size() {
    for b in [1usize, 2, 8, 16] {
        for len in [0usize, 1, b - 1, b, b + 1, 3 * b - 1, 10 * b] {
            let data = sample(len);
            let expected = pad_vec(&data, b);
            for step in [1usize, 2, 3, b, b + 1, 2 * b + 1, 1024] {
                assert_eq!(
                    write_in_steps(b, Op::Pad, &data, step),
                    Ok(expected.clone())
                );
            }
        }
    }
}

#[test]
fn padded_writer_unpads_for_every_write_size() {
    for b in [1usize, 2, 8, 16] {
        for len in [0usize, 1, b - 1, b, b + 1, 3 * b - 1, 10 * b] {
            let data = sample(len);
            let padded = pad_vec(&data, b);
            for step in [1usize, 2, 3, b, b + 1, 2 * b + 1, 1024] {
                assert_eq!(
                    write_in_steps(b, Op::Unpad, &padded, step),
                    Ok(data.clone())
                );
            }
        }
    }
}

#[test]
fn padded_writer_rejects_what_is_not_padded() {
    for bad in [
        b"".to_vec(),
        b"abc".to_vec(),
        b"abcd".to_vec(),
        b"abcd\x80\0\0".to_vec(),
    ] {
        for step in [1usize, 3, 4, 100] {
            assert_eq!(
                write_in_steps(4, Op::Unpad, &bad, step),
                Err(StreamError::InvalidData)
            );
        }
    }
}

#[test]
fn padded_writer_holds_back_the_last_block() {
    let mut writer = PaddedWriter::new(4, Vec::<u8>::new(), Op::Unpad);
    writer.write_all(b"abcdef").unwrap();
    writer.write_all(b"\x80\0").unwrap();
    assert!(!writer.flushed());
    writer.flush().unwrap();
    assert!(writer.flushed());
    assert_eq!(writer.write_all(b"more"), Err(StreamError::InvalidInput));
    assert_eq!(writer.into_inner(), b"abcdef".to_vec());
}

/// What is left of a block without its trailing zeros and the marker before
/// them.
fn slow_unpad(block: &[u8]) -> Option<Vec<u8>> {
    let mut end = block.len();
    while end > 0 && block[end - 1] == 0 {
        end -= 1;
    }
    if end > 0 && block[end - 1] == 0x80 {
        Some(block[..end - 1].to_vec())
    } else {
        None
    }
}

#[test]
fn unpad_of_every_small_block() {
    let letters = [0u8, 0x80, 1];
    for size in 1usize..=5 {
        let count = letters.len().pow(size as u32);
        for code in 0..count {
            let block: Vec<u8> = (0..size)
                .map(|i| letters[code / letters.len().pow(i as u32) % letters.len()])
                .collect();
            assert_eq!(
                unpad_vec(&block, size),
                slow_unpad(&block).ok_or(StreamError::InvalidData)
            );
            let mut two = vec![7u8; size];
            two.extend_from_slice(&block);
            assert_eq!(
                unpad_vec(&two, size).ok(),
                slow_unpad(&block).map(|tail| {
                    let mut all = vec![7u8; size];
                    all.extend_from_slice(&tail);
                    all
                })
            );
        }
    }
}

#[test]
fn padded_reader_leaves_the_rest_of_the_buffer_when_it_pads() {
    let mut reader = PaddedReader::new(8, MemoryReader::new(b"abcdef".to_vec()), Op::Pad);
    let mut buf = [9u8; 16];
    assert_eq!(reader.read(&mut buf), Ok(8));
    assert_eq!(
        buf.to_vec(),
        b"abcdef\x80\0\x09\x09\x09\x09\x09\x09\x09\x09".to_vec()
    );
    assert_eq!(reader.read(&mut buf), Ok(0));
    assert_eq!(
        buf.to_vec(),
        b"abcdef\x80\0\x09\x09\x09\x09\x09\x09\x09\x09".to_vec()
    );
}

#[test]
fn padded_reader_leaves_the_rest_of_the_buffer_when_it_unpads() {
    for (padded, plain) in [
        (b"abcdef\x80\0".to_vec(), b"abcdef".to_vec()),
        (b"abcdefgh\x80\0\0\0\0\0\0\0".to_vec(), b"abcdefgh".to_vec()),
        (b"\x80\0\0\0\0\0\0\0".to_vec(), b"".to_vec()),
        (b"abcdefghijk\x80\0\0\0\0".to_vec(), b"abcdefghijk".to_vec()),
    ] {
        for size in [1usize, 5, 8, 9, 16, 17, 40] {
            let mut reader = PaddedReader::new(8, MemoryReader::new(padded.clone()), Op::Unpad);
            let mut got = Vec::new();
            loop {
                let mut buf = vec![9u8; size];
                let n = reader.read(&mut buf).unwrap();
                assert!(buf[n..].iter().all(|byte| *byte == 9));
                if n == 0 {
                    break;
                }
                got.extend_from_slice(&buf[..n]);
            }
            assert_eq!(got, plain);
        }
    }
}

#[test]
fn padded_reader_fails_in_the_read_that_reaches_the_end() {
    // Twelve bytes without padding, in blocks of four: eight of them are
    // delivered as they are, and the read that asks for more fails.
    let data = b"abcdefghijkl".to_vec();
    let mut reader = PaddedReader::new(4, MemoryReader::new(data.clone()), Op::Unpad);
    let mut buf = [0u8; 8];
    assert_eq!(reader.read(&mut buf), Ok(8));
    assert_eq!(buf.to_vec(), b"abcdefgh".to_vec());
    assert_eq!(reader.read(&mut buf[..1]), Err(StreamError::InvalidData));

    let mut reader = PaddedReader::new(4, MemoryReader::new(data.clone()), Op::Unpad);
    let mut buf = [0u8; 9];
    assert_eq!(reader.read(&mut buf), Err(StreamError::InvalidData));

    let mut reader = PaddedReader::new(4, MemoryReader::new(data), Op::Unpad);
    let mut buf = [0u8; 3];
    assert_eq!(reader.read(&mut buf), Ok(3));
    assert_eq!(reader.read(&mut buf), Ok(3));
    assert_eq!(reader.read(&mut buf), Err(StreamError::InvalidData));
}

#[test]
fn unpadding_reader_over_a_padding_reader_gives_the_data() {
    for b in [1usize, 2, 8, 16] {
        for len in [0usize, 1, b, b + 1, 10 * b] {
            for step in [1usize, 7, 64] {
                let data = sample(len);
                let padding = PaddedReader::new(b, MemoryReader::new(data.clone()), Op::Pad);
                let mut unpadding = PaddedReader::new(b, padding, Op::Unpad);
                assert_eq!(read_all(&mut unpadding, step), Ok(data));
            }
        }
    }
}

#[test]
fn padded_writer_hands_on_all_but_the_last_block() {
    let mut writer = PaddedWriter::new(4, vec![0xeeu8], Op::Pad);
    writer.write_all(b"abc").unwrap();
    writer.write_all(b"").unwrap();
    writer.write_all(b"defghij").unwrap();
    assert_eq!(writer.into_inner(), b"\xeeabcdef".to_vec());

    let mut writer = PaddedWriter::new(4, Vec::<u8>::new(), Op::Unpad);
    writer.write_all(b"ab").unwrap();
    writer.write_all(b"c").unwrap();
    assert_eq!(writer.into_inner(), Vec::<u8>::new());
}
