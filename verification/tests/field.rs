use dispersal::gf256::Gf256;

#[test]
fn field_laws_hold_for_every_pair() {
    let field = Gf256::new();
    for a in 0..=255u8 {
        assert_eq!(field.add(a, 0), a);
        assert_eq!(field.mult(a, 1), a);
        assert_eq!(field.add(a, a), 0);
        for b in 0..=255u8 {
            assert_eq!(field.mult(a, b), field.mult(b, a));
            assert_eq!(field.sub(a, b), field.add(a, b));
            if b != 0 {
                assert_eq!(field.mult(field.div(a, b), b), a);
            }
        }
    }
}

#[test]
fn field_products() {
    let field = Gf256::new();
    // x^7 * x is x^8, which is x^4 + x^3 + x^2 + 1 modulo the polynomial.
    assert_eq!(field.mult(0x80, 2), 0x1d);
    assert_eq!(field.mult(2, 2), 4);
    assert_eq!(field.mult(3, 3), 5);
    assert_eq!(field.mult(0x1d, 0), 0);
    assert_eq!(field.div(1, 2), 0x8e);
    assert_eq!(field.div(0x1d, 2), 0x80);
    assert_eq!(field.add(0x53, 0xca), 0x99);
}

#[test]
fn add_scaled_multiword_over_the_shorter_length() {
    let field = Gf256::new();
    let mut dst = vec![1u8, 2u8, 3u8, 4u8];
    field.add_scaled_multiword(&mut dst, &[0x80u8, 1u8], 2);
    assert_eq!(dst, vec![1 ^ 0x1d, 2 ^ 2, 3, 4]);
    let mut dst = vec![5u8];
    field.add_scaled_multiword(&mut dst, &[1u8, 1u8, 1u8], 3);
    assert_eq!(dst, vec![6u8]);
    let mut dst = vec![5u8, 6u8];
    field.add_scaled_multiword(&mut dst, &[9u8, 9u8], 0);
    assert_eq!(dst, vec![5u8, 6u8]);
    field.add_scaled_multiword(&mut dst, &[9u8, 8u8], 1);
    assert_eq!(dst, vec![12u8, 14u8]);
}

#[test]
fn multiplication_is_associative_and_distributive() {
    let field = Gf256::new();
    for a in [0u8, 1, 2, 3, 29, 128, 200, 255] {
        for b in [0u8, 1, 7, 64, 142, 254] {
            for c in [0u8, 1, 5, 99, 255] {
                assert_eq!(
                    field.mult(field.mult(a, b), c),
                    field.mult(a, field.mult(b, c))
                );
                assert_eq!(
                    field.mult(a, field.add(b, c)),
                    field.add(field.mult(a, b), field.mult(a, c))
                );
            }
        }
    }
}

/// The product by shifting and adding, modulo x^8 + x^4 + x^3 + x^2 + 1.
fn slow_mult(a: u8, b: u8) -> u8 {
    let mut shifted = a;
    let mut product = 0u8;
    for i in 0..8 {
        if (b >> i) & 1 == 1 {
            product ^= shifted;
        }
        let carry = shifted & 0x80 != 0;
        shifted = (shifted & 0x7f) << 1;
        if carry {
            shifted ^= 0x1d;
        }
    }
    product
}

fn slow_power(a: u8, e: u32) -> u8 {
    (0..e).fold(1u8, |p, _| slow_mult(p, a))
}

#[test]
fn products_and_quotients_follow_the_polynomial() {
    let field = Gf256::new();
    let inverses: Vec<u8> = (0..=255u8).map(|b| slow_power(b, 254)).collect();
    for a in 0..=255u8 {
        for b in 0..=255u8 {
            assert_eq!(field.mult(a, b), slow_mult(a, b));
            if b != 0 {
                assert_eq!(field.div(a, b), slow_mult(a, inverses[b as usize]));
            }
        }
    }
}
