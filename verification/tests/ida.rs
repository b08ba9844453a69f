use dispersal::error::StreamError;
use dispersal::gf256::Gf256;
use dispersal::ida::{decode_chunk, encode_chunk, Ida};
use dispersal::partitioner::{test_join, InMemoryPartition, Partitioner};
use dispersal::poly::lagrange_eval;

#[test]
fn ida_two_of_three() {
    let plaintext: Vec<u8> = "hello worlds".as_bytes().into();
    let ida = Ida::new(2);
    let mut partitions = ida.split_in_memory(&plaintext, 3).unwrap();
    for partition in partitions.iter() {
        assert_ne!(plaintext, partition.value);
        assert!(plaintext.len() > partition.value.len());
    }
    assert!(test_join(&ida, &mut partitions[..], 2, &plaintext));
}

#[test]
fn ida_five_of_ten() {
    let plaintext: Vec<u8> = "this is a much longer text".as_bytes().into();
    let ida = Ida::new(5);
    let mut partitions = ida.split_in_memory(&plaintext, 10).unwrap();
    for partition in partitions.iter() {
        assert_ne!(plaintext, partition.value);
        assert!(plaintext.len() > partition.value.len());
    }
    assert!(test_join(&ida, &mut partitions[..], 5, &plaintext));
}

#[test]
fn ida_share_lengths() {
    // Twelve bytes are padded to fourteen, which are seven rows of two.
    let plaintext: Vec<u8> = "hello worlds".as_bytes().into();
    let ida = Ida::new(2);
    let partitions = ida.split_in_memory(&plaintext, 3).unwrap();
    for partition in partitions.iter() {
        assert_eq!(partition.value.len(), 7);
    }
    // Twenty-six bytes are padded to thirty, which are six rows of five.
    let plaintext: Vec<u8> = "this is a much longer text".as_bytes().into();
    let ida = Ida::new(5);
    let partitions = ida.split_in_memory(&plaintext, 10).unwrap();
    for partition in partitions.iter() {
        assert_eq!(partition.value.len(), 6);
    }
}

#[test]
fn ida_empty_message() {
    let plaintext: Vec<u8> = Vec::new();
    let ida = Ida::new(3);
    let partitions = ida.split_in_memory(&plaintext, 5).unwrap();
    for partition in partitions.iter() {
        assert_eq!(partition.value.len(), 1);
    }
    assert!(test_join(&ida, &partitions[..], 3, &plaintext));
}

#[test]
fn ida_message_longer_than_a_chunk() {
    let plaintext: Vec<u8> = (0..5000u32).map(|i| (i * 13 + 1) as u8).collect();
    let ida = Ida::new(3);
    let partitions = ida.split_in_memory(&plaintext, 4).unwrap();
    for partition in partitions.iter() {
        assert_eq!(partition.value.len(), 1667);
    }
    assert!(test_join(&ida, &partitions[..], 3, &plaintext));
}

#[test]
fn ida_shares_at_the_data_nodes_are_the_data() {
    // The share with index 1 of rows of two bytes holds the second byte of
    // each row.
    let plaintext: Vec<u8> = vec![10, 20, 30, 40, 50];
    let ida = Ida::new(2);
    let partitions = ida.split_in_memory(&plaintext, 2).unwrap();
    assert_eq!(partitions[0].x, 1);
    assert_eq!(partitions[0].value, vec![20u8, 40u8, 0x80u8]);
}

#[test]
fn ida_join_rejects_malformed_padding() {
    let ida = Ida::new(2);
    let first = InMemoryPartition {
        x: 1,
        value: vec![7u8, 9u8],
    };
    let second = InMemoryPartition {
        x: 2,
        value: vec![7u8, 9u8],
    };
    let inputs = vec![&first, &second];
    assert_eq!(ida.join_in_memory(&inputs), Err(StreamError::InvalidData));
}

#[test]
fn ida_join_rejects_empty_shares() {
    let ida = Ida::new(2);
    let first = InMemoryPartition {
        x: 1,
        value: Vec::new(),
    };
    let second = InMemoryPartition {
        x: 2,
        value: Vec::new(),
    };
    let inputs = vec![&first, &second];
    assert_eq!(ida.join_in_memory(&inputs), Err(StreamError::InvalidData));
}

#[test]
fn encode_and_decode_chunk() {
    let field = Gf256::new();
    let data_xs = [0u8, 1u8];
    let share_xs = [3u8, 4u8];
    let encode = lagrange_eval(&field, &data_xs, &share_xs);
    let data = [10u8, 20u8, 30u8, 40u8];
    let shares = encode_chunk(&field, &encode, &data, 2);
    assert_eq!(shares.len(), 2);
    assert_eq!(shares[0].len(), 2);
    // The line through (0, 10) and (1, 20) has the slope 30, so its value at
    // 3 is 10 ^ 30 * 3 and at 4 is 10 ^ 30 * 4.
    assert_eq!(shares[0][0], 10 ^ field.mult(30, 3));
    assert_eq!(shares[1][0], 10 ^ field.mult(30, 4));
    let decode = lagrange_eval(&field, &share_xs, &data_xs);
    assert_eq!(decode_chunk(&field, &decode, &shares, 2), data.to_vec());
}

#[test]
fn ida_with_the_most_shares() {
    let plaintext: Vec<u8> = (0..1000u32).map(|i| (i * 5) as u8).collect();
    let ida = Ida::new(255);
    let partitions = ida.split_in_memory(&plaintext, 255).unwrap();
    assert_eq!(partitions.len(), 255);
    for partition in partitions.iter() {
        assert_eq!(partition.value.len(), 4);
    }
    assert!(test_join(&ida, &partitions[..], 255, &plaintext));
}

#[test]
fn ida_join_in_any_order() {
    let plaintext: Vec<u8> = "this is a much longer text".as_bytes().into();
    let ida = Ida::new(3);
    let partitions = ida.split_in_memory(&plaintext, 5).unwrap();
    let inputs = vec![&partitions[4], &partitions[0], &partitions[2]];
    assert_eq!(ida.join_in_memory(&inputs), Ok(plaintext));
}
