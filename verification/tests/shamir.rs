use dispersal::gf256::Gf256;
use dispersal::partitioner::{indices_are_valid, test_join, InMemoryPartition, Partitioner};
use dispersal::shamir::{combine_chunk, combine_weights, share_chunk, Shamir};

fn refs(parts: &[InMemoryPartition]) -> Vec<&InMemoryPartition> {
    parts.iter().collect()
}

#[test]
fn shamir_two_of_three() {
    let plaintext: Vec<u8> = "hello world".as_bytes().into();
    let s = Shamir::new(2);
    let partitions = s.split_in_memory(&plaintext, 3).unwrap();
    for partition in partitions.iter() {
        assert_ne!(plaintext, partition.value);
        assert_eq!(plaintext.len(), partition.value.len());
    }
    {
        let result = s.join_in_memory(&refs(&partitions[0..2])).unwrap();
        assert_eq!(plaintext, result);
    }
    {
        let result = s.join_in_memory(&refs(&partitions[1..3])).unwrap();
        assert_eq!(plaintext, result);
    }
}

#[test]
fn shamir_five_of_ten() {
    let plaintext: Vec<u8> = "this is a much longer text".as_bytes().into();
    let s = Shamir::new(5);
    let partitions = s.split_in_memory(&plaintext, 10).unwrap();
    for partition in partitions.iter() {
        assert_ne!(plaintext, partition.value);
        assert!(plaintext.len() == partition.value.len());
    }
    {
        let result = s.join_in_memory(&refs(&partitions[0..5])).unwrap();
        assert_eq!(plaintext, result);
    }
    {
        let result = s.join_in_memory(&refs(&partitions[1..6])).unwrap();
        assert_eq!(plaintext, result);
    }
    {
        let result = s.join_in_memory(&refs(&partitions[5..10])).unwrap();
        assert_eq!(plaintext, result);
    }
}

#[test]
fn shamir_every_pair_of_three_joins() {
    let plaintext: Vec<u8> = "hello world".as_bytes().into();
    let s = Shamir::new(2);
    let partitions = s.split_in_memory(&plaintext, 3).unwrap();
    assert_eq!(partitions.len(), 3);
    for (j, partition) in partitions.iter().enumerate() {
        assert_eq!(partition.x as usize, j + 1);
        assert_eq!(partition.value.len(), 11);
    }
    assert!(test_join(&s, &partitions[..], 2, &plaintext));
    let other: Vec<u8> = "hello worle".as_bytes().into();
    assert!(!test_join(&s, &partitions[..], 2, &other));
}

#[test]
fn shamir_every_five_of_ten_joins() {
    let plaintext: Vec<u8> = "this is a much longer text".as_bytes().into();
    let s = Shamir::new(5);
    let partitions = s.split_in_memory(&plaintext, 10).unwrap();
    assert!(test_join(&s, &partitions[..], 5, &plaintext));
}

#[test]
fn shamir_empty_message() {
    let plaintext: Vec<u8> = Vec::new();
    let s = Shamir::new(3);
    let partitions = s.split_in_memory(&plaintext, 4).unwrap();
    for partition in partitions.iter() {
        assert!(partition.value.is_empty());
    }
    assert!(test_join(&s, &partitions[..], 3, &plaintext));
}

#[test]
fn shamir_message_longer_than_a_chunk() {
    let plaintext: Vec<u8> = (0..1500u32).map(|i| (i * 7 + 3) as u8).collect();
    let s = Shamir::new(3);
    let partitions = s.split_in_memory(&plaintext, 5).unwrap();
    for partition in partitions.iter() {
        assert_eq!(partition.value.len(), 1500);
    }
    assert!(test_join(&s, &partitions[..], 3, &plaintext));
}

#[test]
fn shamir_join_stops_at_the_shortest_share() {
    let plaintext: Vec<u8> = (0..700u32).map(|i| i as u8).collect();
    let s = Shamir::new(2);
    let mut partitions = s.split_in_memory(&plaintext, 2).unwrap();
    partitions[1].value.truncate(600);
    let result = s.join_in_memory(&refs(&partitions[..])).unwrap();
    assert_eq!(result, plaintext[..600].to_vec());
}

#[test]
fn share_chunk_evaluates_the_polynomial() {
    let field = Gf256::new();
    // 7 + 3 x + 5 x^2 at 1 is 7 ^ 3 ^ 5 = 1, at 2 is 7 ^ 6 ^ 20 = 21, and at 3,
    // whose square is 5, is 7 ^ 5 ^ 17 = 19.
    let coefficients = vec![vec![3u8], vec![5u8]];
    let shares = share_chunk(&field, &[1u8, 2u8, 3u8], &[7u8], &coefficients);
    assert_eq!(shares, vec![vec![1u8], vec![21u8], vec![19u8]]);
}

#[test]
fn combine_chunk_interpolates_at_zero() {
    let field = Gf256::new();
    let xs = [1u8, 2u8, 3u8];
    let weights = combine_weights(&field, &xs);
    // The weights of the nodes 1, 2, 3 at zero are 1, 1, 1.
    assert_eq!(weights, vec![1u8, 1u8, 1u8]);
    let chunks = vec![vec![1u8], vec![21u8], vec![19u8]];
    assert_eq!(combine_chunk(&field, &weights, &chunks, 1), vec![7u8]);
}

#[test]
fn indices_are_valid_when_nonzero_and_different() {
    assert!(indices_are_valid(&[]));
    assert!(indices_are_valid(&[1]));
    assert!(indices_are_valid(&[3, 1, 2, 255]));
    assert!(!indices_are_valid(&[0]));
    assert!(!indices_are_valid(&[1, 2, 0]));
    assert!(!indices_are_valid(&[1, 2, 1]));
    assert!(!indices_are_valid(&[7, 7]));
}

#[test]
fn shamir_with_the_most_shares() {
    let plaintext: Vec<u8> = (0..600u32).map(|i| (i * 5) as u8).collect();
    let s = Shamir::new(255);
    let partitions = s.split_in_memory(&plaintext, 255).unwrap();
    assert_eq!(partitions.len(), 255);
    assert_eq!(partitions[254].x, 255);
    assert!(test_join(&s, &partitions[..], 255, &plaintext));
    let mut backwards = refs(&partitions[..]);
    backwards.reverse();
    assert_eq!(s.join_in_memory(&backwards), Ok(plaintext));
}
