use dispersal::error::StreamError;
use dispersal::io::MemoryReader;
use dispersal::partitioner::{
    test_join, InMemoryPartition, InputPartition, OutputPartition, Partitioner,
};
use dispersal::shamir_ida::ShamirIda;
use dispersal::share_file::{join_shares, read_share_headers, split_shares, write_share_headers};

fn base_two_of_three() {
    let plaintext: Vec<u8> = "hello world".as_bytes().into();
    let shamir = ShamirIda::new(2);
    let mut partitions = shamir.split_in_memory(&plaintext, 3).unwrap();
    for partition in partitions.iter() {
        assert_ne!(plaintext, partition.value);
    }
    assert!(test_join(&shamir, &mut partitions[..], 2, &plaintext));
}

#[test]
fn two_of_three_cbc_aes256_iso() {
    base_two_of_three();
}

#[test]
fn shamir_ida_five_of_ten() {
    let plaintext: Vec<u8> = "this is a much longer text".as_bytes().into();
    let shamir = ShamirIda::new(5);
    let mut partitions = shamir.split_in_memory(&plaintext, 10).unwrap();
    for partition in partitions.iter() {
        assert_ne!(plaintext, partition.value);
    }
    assert!(test_join(&shamir, &mut partitions[..], 5, &plaintext));
}

#[test]
fn hybrid_share_lengths() {
    // The key and the initialisation vector take 48 bytes; eleven bytes are
    // one block of ciphertext, which is padded to 18 bytes, nine rows of two.
    let plaintext: Vec<u8> = "hello world".as_bytes().into();
    let scheme = ShamirIda::new(2);
    let partitions = scheme.split_in_memory(&plaintext, 3).unwrap();
    assert_eq!(partitions.len(), 3);
    for partition in partitions.iter() {
        assert_eq!(partition.value.len(), 48 + 9);
    }
}

#[test]
fn hybrid_empty_and_long_messages() {
    for len in [0usize, 16, 1024, 5000] {
        let plaintext: Vec<u8> = (0..len).map(|i| (i * 3) as u8).collect();
        let scheme = ShamirIda::new(3);
        let partitions = scheme.split_in_memory(&plaintext, 4).unwrap();
        assert!(test_join(&scheme, &partitions[..], 3, &plaintext));
    }
}

#[test]
fn hybrid_shares_differ_from_split_to_split() {
    let plaintext: Vec<u8> = "hello world".as_bytes().into();
    let scheme = ShamirIda::new(2);
    let first = scheme.split_in_memory(&plaintext, 2).unwrap();
    let second = scheme.split_in_memory(&plaintext, 2).unwrap();
    assert_ne!(first[0].value, second[0].value);
}

#[test]
fn hybrid_join_rejects_short_shares() {
    let scheme = ShamirIda::new(2);
    let first = InMemoryPartition {
        x: 1,
        value: vec![1u8; 47],
    };
    let second = InMemoryPartition {
        x: 2,
        value: vec![2u8; 60],
    };
    assert_eq!(
        scheme.join_in_memory(&vec![&first, &second]),
        Err(StreamError::InvalidData)
    );
}

#[test]
fn hybrid_join_rejects_shares_of_another_split() {
    let plaintext: Vec<u8> = "hello world".as_bytes().into();
    let scheme = ShamirIda::new(2);
    let first = scheme.split_in_memory(&plaintext, 2).unwrap();
    let second = scheme.split_in_memory(&plaintext, 2).unwrap();
    let mixed = vec![&first[0], &second[1]];
    assert_ne!(scheme.join_in_memory(&mixed), Ok(plaintext));
}

fn share_files(message: &[u8], k: u8, n: u8) -> Vec<Vec<u8>> {
    let mut outputs: Vec<OutputPartition<Vec<u8>>> = (1..=n)
        .map(|x| OutputPartition {
            x,
            writer: Vec::new(),
        })
        .collect();
    split_shares(k, MemoryReader::new(message.to_vec()), &mut outputs).unwrap();
    outputs.into_iter().map(|o| o.writer).collect()
}

fn sources(files: &[&Vec<u8>]) -> Vec<InputPartition<MemoryReader>> {
    files
        .iter()
        .map(|f| InputPartition {
            x: 0,
            reader: MemoryReader::new((*f).clone()),
        })
        .collect()
}

#[test]
fn share_files_hold_header_key_share_and_cipher_share() {
    let files = share_files(b"hello world", 2, 3);
    assert_eq!(files.len(), 3);
    for (j, file) in files.iter().enumerate() {
        assert_eq!(file.len(), 2 + 48 + 9);
        assert_eq!(file[0], 2);
        assert_eq!(file[1] as usize, j + 1);
    }
}

#[test]
fn share_files_join_by_the_index_of_their_header() {
    let message: Vec<u8> = (0..2500u32).map(|i| (i * 7) as u8).collect();
    let files = share_files(&message, 3, 5);
    for choice in [[0usize, 1, 2], [4, 2, 0], [3, 4, 1]] {
        let mut inputs = sources(&[&files[choice[0]], &files[choice[1]], &files[choice[2]]]);
        assert_eq!(join_shares(&mut inputs, vec![9u8]), {
            let mut expected = vec![9u8];
            expected.extend_from_slice(&message);
            Ok(expected)
        });
    }
}

#[test]
fn share_files_that_do_not_agree() {
    let files = share_files(b"hello world", 2, 3);
    let other = share_files(b"hello world", 3, 3);
    // Too few and too many for the threshold.
    assert_eq!(
        join_shares(&mut sources(&[&files[0]]), Vec::<u8>::new()),
        Err(StreamError::InvalidInput)
    );
    assert_eq!(
        join_shares(
            &mut sources(&[&files[0], &files[1], &files[2]]),
            Vec::<u8>::new()
        ),
        Err(StreamError::InvalidInput)
    );
    // Another threshold, the same share twice, the index zero.
    assert_eq!(
        join_shares(&mut sources(&[&files[0], &other[1]]), Vec::<u8>::new()),
        Err(StreamError::InvalidInput)
    );
    assert_eq!(
        join_shares(&mut sources(&[&files[0], &files[0]]), Vec::<u8>::new()),
        Err(StreamError::InvalidInput)
    );
    let mut zero = files[1].clone();
    zero[1] = 0;
    assert_eq!(
        join_shares(&mut sources(&[&files[0], &zero]), Vec::<u8>::new()),
        Err(StreamError::InvalidInput)
    );
    assert_eq!(
        join_shares(&mut sources(&[]), Vec::<u8>::new()),
        Err(StreamError::InvalidInput)
    );
}

#[test]
fn share_files_that_are_cut_short() {
    let files = share_files(b"hello world", 2, 2);
    let stub = vec![2u8];
    assert_eq!(
        join_shares(&mut sources(&[&files[0], &stub]), Vec::<u8>::new()),
        Err(StreamError::InvalidData)
    );
    let head = files[1][..30].to_vec();
    assert_eq!(
        join_shares(&mut sources(&[&files[0], &head]), Vec::<u8>::new()),
        Err(StreamError::InvalidData)
    );
    let most = files[1][..files[1].len() - 1].to_vec();
    assert!(join_shares(&mut sources(&[&files[0], &most]), Vec::<u8>::new()).is_err());
}

#[test]
fn share_headers_of_all_shares() {
    let mut outputs: Vec<OutputPartition<Vec<u8>>> = [5u8, 9]
        .iter()
        .map(|x| OutputPartition {
            x: *x,
            writer: vec![1u8],
        })
        .collect();
    write_share_headers(2, &mut outputs).unwrap();
    assert_eq!(outputs[0].writer, vec![1, 2, 5]);
    assert_eq!(outputs[1].writer, vec![1, 2, 9]);
    let first = vec![2u8, 5, 7, 7];
    let second = vec![2u8, 9];
    let mut inputs = sources(&[&first, &second]);
    assert_eq!(read_share_headers(&mut inputs), Ok(2));
    assert_eq!(inputs[0].x, 5);
    assert_eq!(inputs[1].x, 9);
    assert_eq!(inputs[0].reader.pos, 2);
}
