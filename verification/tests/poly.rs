use dispersal::gf256::Gf256;
use dispersal::poly::lagrange_eval;

#[test]
fn test_lagrange() {
    let field = Gf256::new();
    let result = lagrange_eval(
        &field,
        &[1u8, 2u8, 3u8, 4u8, 5u8],
        &[1u8, 2u8, 33u8, 109u8, 130u8, 141u8, 236u8],
    );
    assert_eq!(
        result,
        [
            [1u8, 0u8, 0u8, 0u8, 0u8],
            [0u8, 1u8, 0u8, 0u8, 0u8],
            [30u8, 199u8, 254u8, 13u8, 43u8],
            [240u8, 175u8, 216u8, 15u8, 137u8],
            [146u8, 138u8, 21u8, 26u8, 22u8],
            [236u8, 245u8, 3u8, 228u8, 255u8],
            [98u8, 107u8, 130u8, 91u8, 209u8]
        ]
    );
}

#[test]
fn lagrange_is_the_unit_vector_at_a_node() {
    let field = Gf256::new();
    let xs = [7u8, 0u8, 200u8, 13u8];
    let result = lagrange_eval(&field, &xs, &xs);
    for j in 0..4 {
        for i in 0..4 {
            assert_eq!(result[j][i], if i == j { 1 } else { 0 });
        }
    }
}

#[test]
fn lagrange_of_no_points_and_no_nodes() {
    let field = Gf256::new();
    assert_eq!(
        lagrange_eval(&field, &[1u8, 2u8], &[]),
        Vec::<Vec<u8>>::new()
    );
    assert_eq!(lagrange_eval(&field, &[], &[5u8]), vec![Vec::<u8>::new()]);
}

#[test]
fn lagrange_of_two_nodes() {
    let field = Gf256::new();
    // For the nodes 0 and 1 the basis is 1 + t and t.
    let result = lagrange_eval(&field, &[0u8, 1u8], &[6u8]);
    assert_eq!(result, vec![vec![7u8, 6u8]]);
}

#[test]
fn lagrange_values_sum_to_one() {
    let field = Gf256::new();
    let result = lagrange_eval(&field, &[1u8, 2u8, 3u8, 4u8, 5u8], &[33u8, 0u8, 255u8]);
    for row in result.iter() {
        assert_eq!(row.iter().fold(0u8, |a, b| a ^ b), 1);
    }
}
