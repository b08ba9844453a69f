use dispersal::aes_cbc::{decrypt_blocks, encrypt_blocks};
use dispersal::block_mode_streaming::{DecryptWriteStream, EncryptReadStream};
use dispersal::error::StreamError;
use dispersal::header::{agreed_threshold, read_share_header, write_share_header, ShareHeader};
use dispersal::io::{MemoryReader, Read, Write};
use dispersal::padding::pad_vec;
use dispersal::random::random_bytes;
use dispersal::utils::{append_bytes, copy_bytes, copy_range, read_full, zero_bytes};

fn hex(text: &str) -> Vec<u8> {
    (0..text.len() / 2)
        .map(|i| u8::from_str_radix(&text[2 * i..2 * i + 2], 16).unwrap())
        .collect()
}

fn key() -> Vec<u8> {
    hex("603deb1015ca71be2b73aef0857d77811f352c073b6108d72d9810a30914dff4")
}

fn iv() -> Vec<u8> {
    hex("000102030405060708090a0b0c0d0e0f")
}

fn plain() -> Vec<u8> {
    hex("6bc1bee22e409f96e93d7e117393172aae2d8a571e03ac9c9eb76fac45af8e5130c81c46a35ce411e5fbc1191a0a52eff69f2445df4f9b17ad2b417be66c3710")
}

fn cipher() -> Vec<u8> {
    hex("f58c4c04d6e5f1ba779eabfb5f7bfbd69cfc4e967edb808d679f777bc6702c7d39f23369a9d9bacfa530e26304231461b2eb05e2c39be9fcda6c19078c6a9d1b")
}

fn read_all<R: Read>(reader: &mut R, step: usize) -> Result<Vec<u8>, StreamError> {
    let mut out = Vec::new();
    let mut buf = vec![0u8; step];
    loop {
        let n = reader.read(&mut buf)?;
        if n == 0 {
            return Ok(out);
        }
        out.extend_from_slice(&buf[..n]);
    }
}

#[test]
fn encrypt_blocks_gives_the_known_ciphertext() {
    let mut data = plain();
    let mut chain = iv();
    encrypt_blocks(&key(), &mut chain, &mut data);
    assert_eq!(data, cipher());
    assert_eq!(chain, cipher()[48..].to_vec());
}

#[test]
fn encrypt_blocks_chains_from_call_to_call() {
    let mut data = plain();
    let mut chain = iv();
    let (first, second) = data.split_at_mut(16);
    encrypt_blocks(&key(), &mut chain, first);
    encrypt_blocks(&key(), &mut chain, &mut []);
    encrypt_blocks(&key(), &mut chain, second);
    assert_eq!(data, cipher());
}

#[test]
fn decrypt_blocks_gives_the_known_plaintext() {
    let mut data = cipher();
    let mut chain = iv();
    let (first, second) = data.split_at_mut(32);
    decrypt_blocks(&key(), &mut chain, first);
    assert_eq!(chain, cipher()[16..32].to_vec());
    decrypt_blocks(&key(), &mut chain, second);
    assert_eq!(data, plain());
    assert_eq!(chain, cipher()[48..].to_vec());
}

#[test]
fn encrypt_read_stream_gives_the_known_ciphertext() {
    for step in [1usize, 5, 16, 64, 100, 2000] {
        let mut stream = EncryptReadStream::new(key(), iv(), MemoryReader::new(plain()));
        let out = read_all(&mut stream, step).unwrap();
        assert_eq!(out.len(), 80);
        assert_eq!(out[..64].to_vec(), cipher());
    }
}

#[test]
fn encrypt_read_stream_is_the_encryption_of_the_padded_data() {
    for len in [0usize, 1, 15, 16, 17, 1023, 1024, 1025, 3000] {
        let data: Vec<u8> = (0..len).map(|i| (i * 31) as u8).collect();
        let mut expected = pad_vec(&data, 16);
        let mut chain = iv();
        encrypt_blocks(&key(), &mut chain, &mut expected);
        assert_ne!(expected, pad_vec(&data, 16));
        for step in [7usize, 1024, 5000] {
            let mut stream = EncryptReadStream::new(key(), iv(), MemoryReader::new(data.clone()));
            assert_eq!(read_all(&mut stream, step), Ok(expected.clone()));
        }
    }
}

fn decrypt_in_steps(data: &[u8], step: usize) -> Result<Vec<u8>, StreamError> {
    let mut stream = DecryptWriteStream::new(key(), iv(), vec![0x11u8]);
    for piece in data.chunks(step) {
        stream.write_all(piece)?;
    }
    stream.flush()?;
    stream.flush()?;
    let out = stream.into_inner();
    assert_eq!(out[0], 0x11);
    Ok(out[1..].to_vec())
}

#[test]
fn decrypt_write_stream_undoes_the_encrypt_read_stream() {
    for len in [0usize, 1, 15, 16, 17, 127, 128, 129, 1025, 3000] {
        let data: Vec<u8> = (0..len).map(|i| (i * 31 + 5) as u8).collect();
        let mut stream = EncryptReadStream::new(key(), iv(), MemoryReader::new(data.clone()));
        let encrypted = read_all(&mut stream, 333).unwrap();
        assert_eq!(encrypted.len(), (len / 16 + 1) * 16);
        for step in [1usize, 16, 17, 128, 129, 4000] {
            assert_eq!(decrypt_in_steps(&encrypted, step), Ok(data.clone()));
        }
    }
}

#[test]
fn decrypt_write_stream_rejects_a_partial_block() {
    let mut stream = EncryptReadStream::new(key(), iv(), MemoryReader::new(b"some data".to_vec()));
    let mut encrypted = read_all(&mut stream, 64).unwrap();
    encrypted.push(0);
    assert_eq!(
        decrypt_in_steps(&encrypted, 5),
        Err(StreamError::InvalidData)
    );
    assert_eq!(decrypt_in_steps(&[], 5), Err(StreamError::InvalidData));
}

#[test]
fn decrypt_write_stream_rejects_malformed_padding() {
    // The known plaintext does not end in a padding.
    assert_eq!(
        decrypt_in_steps(&cipher(), 64),
        Err(StreamError::InvalidData)
    );
}

#[test]
fn decrypt_write_stream_takes_nothing_after_the_flush() {
    let mut stream = EncryptReadStream::new(key(), iv(), MemoryReader::new(b"some data".to_vec()));
    let encrypted = read_all(&mut stream, 64).unwrap();
    let mut sink = DecryptWriteStream::new(key(), iv(), Vec::<u8>::new());
    sink.write_all(&encrypted).unwrap();
    sink.flush().unwrap();
    assert_eq!(sink.write_all(&encrypted), Err(StreamError::InvalidInput));
    assert_eq!(sink.into_inner(), b"some data".to_vec());
}

#[test]
fn read_full_reads_to_the_end_or_the_full_buffer() {
    let mut reader = MemoryReader::new(vec![1, 2, 3, 4, 5]);
    let mut buf = [9u8; 3];
    assert_eq!(read_full(&mut reader, &mut buf), Ok(3));
    assert_eq!(buf, [1, 2, 3]);
    assert_eq!(read_full(&mut reader, &mut buf), Ok(2));
    assert_eq!(buf, [4, 5, 3]);
    assert_eq!(read_full(&mut reader, &mut buf), Ok(0));
    assert_eq!(read_full(&mut reader, &mut []), Ok(0));
}

#[test]
fn read_full_leaves_the_rest_of_the_buffer() {
    let mut reader = MemoryReader::new(vec![1, 2, 3]);
    let mut buf = [9u8; 5];
    assert_eq!(read_full(&mut reader, &mut buf), Ok(3));
    assert_eq!(buf, [1, 2, 3, 9, 9]);
}

#[test]
fn memory_reader_leaves_the_rest_of_the_buffer() {
    let mut reader = MemoryReader::new(vec![1, 2, 3]);
    let mut buf = [9u8; 5];
    assert_eq!(reader.read(&mut buf), Ok(3));
    assert_eq!(buf, [1, 2, 3, 9, 9]);
    assert_eq!(reader.read(&mut buf), Ok(0));
    assert_eq!(buf, [1, 2, 3, 9, 9]);
}

#[test]
fn encrypt_read_stream_leaves_the_rest_of_the_buffer() {
    let mut stream = EncryptReadStream::new(key(), iv(), MemoryReader::new(plain()[..20].to_vec()));
    let mut buf = [9u8; 40];
    assert_eq!(stream.read(&mut buf), Ok(32));
    assert_eq!(buf[..16].to_vec(), cipher()[..16].to_vec());
    assert_eq!(buf[32..].to_vec(), vec![9u8; 8]);
    assert_eq!(stream.read(&mut buf), Ok(0));
    assert_eq!(buf[32..].to_vec(), vec![9u8; 8]);
}

#[test]
fn memory_reader_and_vector_sink() {
    let mut reader = MemoryReader::new(vec![1, 2, 3]);
    let mut buf = [0u8; 2];
    assert_eq!(reader.read(&mut buf), Ok(2));
    assert_eq!(reader.read(&mut buf), Ok(1));
    assert_eq!(buf, [3, 2]);
    assert_eq!(reader.read(&mut buf), Ok(0));
    let mut sink: Vec<u8> = vec![1];
    sink.write_all(&[2, 3]).unwrap();
    sink.write_all(&[]).unwrap();
    assert_eq!(sink, vec![1, 2, 3]);
}

#[test]
fn byte_helpers() {
    let mut v = vec![1u8, 2];
    append_bytes(&mut v, &[3, 4]);
    assert_eq!(v, vec![1, 2, 3, 4]);
    assert_eq!(copy_range(&v, 1, 3), vec![2, 3]);
    assert_eq!(zero_bytes(3), vec![0, 0, 0]);
    let mut target = [0u8; 2];
    copy_bytes(&mut target, &[7, 8]);
    assert_eq!(target, [7, 8]);
}

#[test]
fn random_bytes_have_the_length_asked_for() {
    assert_eq!(random_bytes(0).unwrap().len(), 0);
    let first = random_bytes(48).unwrap();
    let second = random_bytes(48).unwrap();
    assert_eq!(first.len(), 48);
    assert_ne!(first, second);
    assert_ne!(first, vec![0u8; 48]);
}

#[test]
fn share_header_round_trip() {
    let mut sink: Vec<u8> = Vec::new();
    write_share_header(&mut sink, &ShareHeader { k: 3, x: 7 }).unwrap();
    assert_eq!(sink, vec![3, 7]);
    sink.push(42);
    let mut reader = MemoryReader::new(sink);
    assert_eq!(
        read_share_header(&mut reader),
        Ok(ShareHeader { k: 3, x: 7 })
    );
    let mut rest = [0u8; 4];
    assert_eq!(reader.read(&mut rest), Ok(1));
    assert_eq!(rest[0], 42);
}

#[test]
fn share_header_of_a_short_file() {
    let mut reader = MemoryReader::new(vec![3]);
    assert_eq!(
        read_share_header(&mut reader),
        Err(StreamError::InvalidData)
    );
    let mut reader = MemoryReader::new(Vec::new());
    assert_eq!(
        read_share_header(&mut reader),
        Err(StreamError::InvalidData)
    );
}

#[test]
fn agreed_threshold_of_headers() {
    let h = |k: u8, x: u8| ShareHeader { k, x };
    assert_eq!(agreed_threshold(&[h(2, 1), h(2, 2)]), Some(2));
    assert_eq!(agreed_threshold(&[h(2, 5), h(2, 2), h(9, 9)]), Some(2));
    assert_eq!(agreed_threshold(&[]), None);
    assert_eq!(agreed_threshold(&[h(2, 1)]), None);
    assert_eq!(agreed_threshold(&[h(2, 1), h(3, 2)]), None);
    assert_eq!(agreed_threshold(&[h(2, 1), h(2, 1)]), None);
    assert_eq!(agreed_threshold(&[h(2, 0), h(2, 1)]), None);
    assert_eq!(agreed_threshold(&[h(1, 1)]), None);
    assert_eq!(agreed_threshold(&[h(0, 1)]), None);
}
