use dispersal::block_mode_streaming::{DecryptWriteStream, EncryptReadStream};
use dispersal::error::StreamError;
use dispersal::header::read_share_header;
use dispersal::ida::Ida;
use dispersal::io::{Bytes, Read, Write};
use dispersal::padding::pad_vec;
use dispersal::padding_streaming::{Op, PaddedReader, PaddedWriter};
use dispersal::partitioner::{InputPartition, OutputPartition, Partitioner};
use dispersal::shamir::Shamir;
use dispersal::shamir_ida::ShamirIda;
use dispersal::utils::read_full;

/// A source that gives at most `step` bytes at a time, and fails once `fuse`
/// bytes were given.
struct Trickle {
    data: Vec<u8>,
    pos: usize,
    step: usize,
    fuse: Option<usize>,
}

impl Trickle {
    fn new(data: Vec<u8>, step: usize) -> Self {
        Trickle {
            data,
            pos: 0,
            step,
            fuse: None,
        }
    }
}

impl Read for Trickle {
    fn wf(&self) -> bool {
        unreachable!()
    }

    fn remaining(&self) -> Bytes {
        unreachable!()
    }

    fn reliable(&self) -> bool {
        unreachable!()
    }

    fn read(&mut self, buf: &mut [u8]) -> Result<usize, StreamError> {
        if let Some(fuse) = self.fuse {
            if self.pos >= fuse {
                return Err(StreamError::Io);
            }
        }
        let n = buf.len().min(self.step).min(self.data.len() - self.pos);
        buf[..n].copy_from_slice(&self.data[self.pos..self.pos + n]);
        self.pos += n;
        Ok(n)
    }
}

/// A sink that fails once it holds `limit` bytes.
struct Brittle {
    data: Vec<u8>,
    limit: usize,
}

impl Write for Brittle {
    fn wf(&self) -> bool {
        unreachable!()
    }

    fn written(&self) -> Bytes {
        unreachable!()
    }

    fn reliable(&self) -> bool {
        unreachable!()
    }

    fn follows(&self, _earlier: &Self) -> bool {
        unreachable!()
    }

    fn lemma_follows_itself(&self) {}

    fn lemma_follows_chain(&self, _middle: &Self, _earlier: &Self) {}

    fn write_all(&mut self, buf: &[u8]) -> Result<(), StreamError> {
        if self.data.len() + buf.len() > self.limit {
            return Err(StreamError::Io);
        }
        self.data.extend_from_slice(buf);
        Ok(())
    }
}

fn read_all<R: Read>(reader: &mut R, step: usize) -> Result<Vec<u8>, StreamError> {
    let mut out = Vec::new();
    let mut buf = vec![0u8; step];
    loop {
        let n = reader.read(&mut buf)?;
        if n == 0 {
            return Ok(out);
        }
        out.extend_from_slice(&buf[..n]);
    }
}

#[test]
fn read_full_gathers_short_reads() {
    let mut reader = Trickle::new((0..10u8).collect(), 3);
    let mut buf = [0u8; 8];
    assert_eq!(read_full(&mut reader, &mut buf), Ok(8));
    assert_eq!(buf, [0, 1, 2, 3, 4, 5, 6, 7]);
    assert_eq!(read_full(&mut reader, &mut buf), Ok(2));
    assert_eq!(buf[..2], [8, 9]);
}

#[test]
fn read_full_hands_on_the_failure() {
    let mut reader = Trickle::new((0..10u8).collect(), 3);
    reader.fuse = Some(6);
    let mut buf = [0u8; 8];
    assert_eq!(read_full(&mut reader, &mut buf), Err(StreamError::Io));
    assert_eq!(read_share_header(&mut reader), Err(StreamError::Io));
}

#[test]
fn padded_reader_over_short_reads() {
    let data: Vec<u8> = (0..100u8).collect();
    let expected = pad_vec(&data, 16);
    for step in [1usize, 5, 16, 40] {
        let mut reader = PaddedReader::new(16, Trickle::new(data.clone(), 7), Op::Pad);
        assert_eq!(read_all(&mut reader, step), Ok(expected.clone()));
    }
}

#[test]
fn padded_reader_hands_on_the_failure() {
    let mut source = Trickle::new((0..100u8).collect(), 7);
    source.fuse = Some(50);
    let mut reader = PaddedReader::new(16, source, Op::Pad);
    assert_eq!(read_all(&mut reader, 10), Err(StreamError::Io));
}

#[test]
fn padded_writer_hands_on_the_failure() {
    let mut writer = PaddedWriter::new(
        4,
        Brittle {
            data: Vec::new(),
            limit: 6,
        },
        Op::Pad,
    );
    assert_eq!(writer.write_all(b"abcdefgh"), Ok(()));
    assert_eq!(writer.write_all(b"ijkl"), Err(StreamError::Io));
    assert_eq!(writer.write_all(b"m"), Err(StreamError::InvalidInput));
    let mut writer = PaddedWriter::new(
        4,
        Brittle {
            data: Vec::new(),
            limit: 6,
        },
        Op::Pad,
    );
    assert_eq!(writer.write_all(b"abcdef"), Ok(()));
    assert_eq!(writer.flush(), Err(StreamError::Io));
}

#[test]
fn encrypt_read_stream_over_short_reads_and_failures() {
    let key = vec![7u8; 32];
    let iv = vec![9u8; 16];
    let data: Vec<u8> = (0..2000u32).map(|i| i as u8).collect();
    let mut whole = EncryptReadStream::new(
        key.clone(),
        iv.clone(),
        dispersal::io::MemoryReader::new(data.clone()),
    );
    let expected = read_all(&mut whole, 4096).unwrap();
    let mut stream = EncryptReadStream::new(key.clone(), iv.clone(), Trickle::new(data.clone(), 5));
    assert_eq!(read_all(&mut stream, 77), Ok(expected));
    let mut source = Trickle::new(data, 5);
    source.fuse = Some(1500);
    let mut stream = EncryptReadStream::new(key, iv, source);
    assert_eq!(read_all(&mut stream, 77), Err(StreamError::Io));
    let mut buf = [0u8; 4];
    assert!(stream.read(&mut buf).is_err());
}

#[test]
fn decrypt_write_stream_hands_on_the_failure() {
    let key = vec![7u8; 32];
    let iv = vec![9u8; 16];
    let data: Vec<u8> = (0..200u8).collect();
    let mut source = EncryptReadStream::new(
        key.clone(),
        iv.clone(),
        dispersal::io::MemoryReader::new(data),
    );
    let encrypted = read_all(&mut source, 64).unwrap();
    let mut sink = DecryptWriteStream::new(
        key,
        iv,
        Brittle {
            data: Vec::new(),
            limit: 100,
        },
    );
    assert_eq!(sink.write_all(&encrypted), Err(StreamError::Io));
    assert_eq!(sink.write_all(&encrypted), Err(StreamError::InvalidInput));
    assert_eq!(sink.flush(), Err(StreamError::InvalidInput));
}

fn outputs(n: u8, limit: usize) -> Vec<OutputPartition<Brittle>> {
    (1..=n)
        .map(|x| OutputPartition {
            x,
            writer: Brittle {
                data: Vec::new(),
                limit,
            },
        })
        .collect()
}

fn inputs(parts: &[OutputPartition<Brittle>], step: usize) -> Vec<InputPartition<Trickle>> {
    parts
        .iter()
        .map(|p| InputPartition {
            x: p.x,
            reader: Trickle::new(p.writer.data.clone(), step),
        })
        .collect()
}

#[test]
fn schemes_over_short_reads() {
    let message: Vec<u8> = (0..3000u32).map(|i| (i * 11) as u8).collect();

    let shamir = Shamir::new(2);
    let mut shares = outputs(3, 100_000);
    shamir
        .split(Trickle::new(message.clone(), 13), &mut shares)
        .unwrap();
    let joined = shamir
        .join(&mut inputs(&shares[1..], 17), Vec::<u8>::new())
        .unwrap();
    assert_eq!(joined, message);

    let ida = Ida::new(2);
    let mut shares = outputs(3, 100_000);
    ida.split(Trickle::new(message.clone(), 13), &mut shares)
        .unwrap();
    let joined = ida
        .join(&mut inputs(&shares[..2], 17), Vec::<u8>::new())
        .unwrap();
    assert_eq!(joined, message);

    let hybrid = ShamirIda::new(2);
    let mut shares = outputs(3, 100_000);
    hybrid
        .split(Trickle::new(message.clone(), 13), &mut shares)
        .unwrap();
    let mut sources = inputs(&shares[..2], 17);
    sources.swap(0, 1);
    let joined = hybrid.join(&mut sources, Vec::<u8>::new()).unwrap();
    assert_eq!(joined, message);
}

#[test]
fn schemes_hand_on_failures() {
    let message: Vec<u8> = (0..3000u32).map(|i| (i * 11) as u8).collect();
    let mut broken = Trickle::new(message.clone(), 13);
    broken.fuse = Some(2000);

    let shamir = Shamir::new(2);
    assert_eq!(
        shamir.split(broken, &mut outputs(3, 100_000)),
        Err(StreamError::Io)
    );
    assert_eq!(
        shamir.split(Trickle::new(message.clone(), 13), &mut outputs(3, 1000)),
        Err(StreamError::Io)
    );
    let ida = Ida::new(2);
    assert_eq!(
        ida.split(Trickle::new(message.clone(), 13), &mut outputs(3, 1000)),
        Err(StreamError::Io)
    );
    let hybrid = ShamirIda::new(2);
    assert_eq!(
        hybrid.split(Trickle::new(message.clone(), 13), &mut outputs(3, 1000)),
        Err(StreamError::Io)
    );

    let mut shares = outputs(2, 100_000);
    hybrid
        .split(Trickle::new(message.clone(), 13), &mut shares)
        .unwrap();
    let mut sources = inputs(&shares, 17);
    sources[1].reader.fuse = Some(20);
    assert!(hybrid.join(&mut sources, Vec::<u8>::new()).is_err());
    let mut sources = inputs(&shares, 17);
    sources[1].reader.fuse = Some(1000);
    assert!(hybrid.join(&mut sources, Vec::<u8>::new()).is_err());
    let result = hybrid.join(
        &mut inputs(&shares, 17),
        Brittle {
            data: Vec::new(),
            limit: 500,
        },
    );
    assert!(matches!(result, Err(StreamError::Io)));
}
