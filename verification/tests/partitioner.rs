use dispersal::io::MemoryReader;
use dispersal::partitioner::{
    collect_input_xs, collect_output_xs, read_chunks, same_bytes, test_join, write_chunks,
    InMemoryPartition, InputPartition, OutputPartition, Partitioner,
};
use dispersal::shamir::Shamir;

fn inputs(shares: &[&[u8]]) -> Vec<InputPartition<MemoryReader>> {
    shares
        .iter()
        .enumerate()
        .map(|(j, share)| InputPartition {
            x: j as u8 + 1,
            reader: MemoryReader::new(share.to_vec()),
        })
        .collect()
}

#[test]
fn same_bytes_compares_length_and_bytes() {
    assert!(same_bytes(&[], &[]));
    assert!(same_bytes(&[1, 2, 3], &[1, 2, 3]));
    assert!(!same_bytes(&[1, 2, 3], &[1, 2]));
    assert!(!same_bytes(&[1, 2], &[1, 2, 3]));
    assert!(!same_bytes(&[1, 2, 3], &[1, 2, 4]));
}

#[test]
fn indices_of_partitions() {
    let outputs: Vec<OutputPartition<Vec<u8>>> = [4u8, 2, 9]
        .iter()
        .map(|x| OutputPartition {
            x: *x,
            writer: Vec::new(),
        })
        .collect();
    assert_eq!(collect_output_xs(&outputs), vec![4, 2, 9]);
    assert_eq!(
        collect_input_xs(&inputs(&[&[1u8][..], &[2u8][..]])),
        vec![1, 2]
    );
}

#[test]
fn write_chunks_appends_to_each_output() {
    let mut outputs: Vec<OutputPartition<Vec<u8>>> = [1u8, 2]
        .iter()
        .map(|x| OutputPartition {
            x: *x,
            writer: vec![*x],
        })
        .collect();
    write_chunks(&mut outputs, &vec![vec![7, 7], vec![]]).unwrap();
    write_chunks(&mut outputs, &vec![vec![8], vec![9, 9, 9]]).unwrap();
    assert_eq!(outputs[0].writer, vec![1, 7, 7, 8]);
    assert_eq!(outputs[1].writer, vec![2, 9, 9, 9]);
}

#[test]
fn read_chunks_gives_the_shortest_count() {
    let mut sources = inputs(&[&[1u8, 2, 3, 4, 5][..], &[6u8, 7, 8][..]]);
    let mut bufs = vec![vec![0u8; 4], vec![0u8; 4]];
    assert_eq!(read_chunks(&mut sources, &mut bufs, 2), Ok(2));
    assert_eq!(bufs[0][..2], [1, 2]);
    assert_eq!(bufs[1][..2], [6, 7]);
    assert_eq!(read_chunks(&mut sources, &mut bufs, 2), Ok(1));
    assert_eq!(bufs[0][..1], [3]);
    assert_eq!(bufs[1][..1], [8]);
    assert_eq!(read_chunks(&mut sources, &mut bufs, 2), Ok(0));
    assert_eq!(read_chunks(&mut sources, &mut bufs, 0), Ok(0));
}

#[test]
fn test_join_tells_a_wrong_share() {
    let plaintext: Vec<u8> = "hello world".as_bytes().into();
    let s = Shamir::new(2);
    let mut partitions = s.split_in_memory(&plaintext, 4).unwrap();
    assert!(test_join(&s, &partitions[..], 2, &plaintext));
    partitions[3].value[0] ^= 1;
    assert!(!test_join(&s, &partitions[..], 2, &plaintext));
    assert!(test_join(&s, &partitions[..3], 2, &plaintext));
}

#[test]
fn test_join_of_too_few_shares() {
    // No two of one share can be chosen, so nothing is left to fail.
    let s = Shamir::new(2);
    let only = vec![InMemoryPartition {
        x: 1,
        value: vec![1, 2, 3],
    }];
    assert!(test_join(&s, &only[..], 2, &vec![9u8]));
}
