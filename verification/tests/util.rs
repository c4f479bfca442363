use accumulator::util::{shamir_trick, solve_linear_congruence, Group, Rsa2048};
use rug::Integer;

#[test]
fn test_linear_congruence_solver() {
    assert_eq!(
        (Integer::from(-2), Integer::from(4)),
        solve_linear_congruence(&Integer::from(3), &Integer::from(2), &Integer::from(4)).unwrap()
    );

    assert_eq!(
        (Integer::from(-2), Integer::from(4)),
        solve_linear_congruence(&Integer::from(3), &Integer::from(2), &Integer::from(4)).unwrap()
    );

    assert_eq!(
        (Integer::from(1), Integer::from(2)),
        solve_linear_congruence(&Integer::from(5), &Integer::from(1), &Integer::from(2)).unwrap()
    );

    assert_eq!(
        (Integer::from(-3), Integer::from(5)),
        solve_linear_congruence(&Integer::from(2), &Integer::from(4), &Integer::from(5)).unwrap()
    );

    assert_eq!(
        (Integer::from(2491), Integer::from(529)),
        solve_linear_congruence(
            &Integer::from(230),
            &Integer::from(1081),
            &Integer::from(12167)
        )
        .unwrap()
    );
}

#[test]
fn test_linear_congruence_solver_no_solution() {
    // Let g = gcd(a, m). If b is not divisible by g, there are no solutions.
    let result =
        solve_linear_congruence(&Integer::from(33), &Integer::from(7), &Integer::from(143));
    assert!(result.is_err());

    let result =
        solve_linear_congruence(&Integer::from(13), &Integer::from(14), &Integer::from(39));
    assert!(result.is_err());
}

#[test]
fn test_shamir_trick() {
    let (x, y, z) = (&Integer::from(13), &Integer::from(17), &Integer::from(19));
    let g = Rsa2048::unknown_order_elem();
    let xth_root = Rsa2048::exp(&g, &Integer::from(17 * 19));
    let yth_root = Rsa2048::exp(&g, &Integer::from(13 * 19));
    let xyth_root = Rsa2048::exp(&g, z);
    assert!(shamir_trick::<Rsa2048>(&xth_root, &yth_root, x, y) == Some(xyth_root));
}

#[test]
fn test_shamir_trick_failure() {
    let (x, y, _z) = (&Integer::from(7), &Integer::from(14), &Integer::from(19)); // Inputs not coprime.
    let g = Rsa2048::unknown_order_elem();
    let xth_root = Rsa2048::exp(&g, &Integer::from(14 * 19));
    let yth_root = Rsa2048::exp(&g, &Integer::from(7 * 19));
    assert!(shamir_trick::<Rsa2048>(&xth_root, &yth_root, x, y) == None);
}

#[test]
fn test_shamir_trick_inconsistent_roots() {
    // consistent exponents but roots of different bases are rejected
    let x = Integer::from(3);
    let y = Integer::from(5);
    let g = Rsa2048::unknown_order_elem();
    let xth_root = Rsa2048::exp(&g, &Integer::from(5));
    let yth_root = Rsa2048::exp(&Rsa2048::op(&g, &g), &Integer::from(3));
    assert!(shamir_trick::<Rsa2048>(&xth_root, &yth_root, &x, &y) == None);
}

#[test]
fn test_rsa_modulus_digits() {
    // the modulus is the RSA-2048 challenge number: odd, 2048 bits, and its
    // last decimal digits are ...720357
    let n = Rsa2048::modulus();
    assert!(n.is_odd());
    assert_eq!(n.significant_bits(), 2048);
    assert_eq!(Integer::from(&n % 1_000_000u32), Integer::from(720_357));
}

#[test]
fn test_rsa_group_values() {
    // exponentiation and the group operation really work modulo the RSA-2048
    // modulus: small results are exact integers
    let g = Rsa2048::unknown_order_elem();
    assert_eq!(Rsa2048::exp(&g, &Integer::from(10)), Integer::from(1024));
    assert_eq!(
        Rsa2048::op(&Integer::from(3), &Integer::from(5)),
        Integer::from(15)
    );
    // a negative exponent goes through the modular inverse: g^-1 * g == 1
    let ginv = Rsa2048::exp(&g, &Integer::from(-1));
    assert_eq!(Rsa2048::op(&ginv, &g), Integer::from(1));
    assert!(ginv != Integer::from(2));
}

#[test]
fn test_congruence_solution_solves() {
    // mu really solves a * mu == b (mod m) whenever the solver succeeds
    let cases: [(i64, i64, i64); 4] = [(3, 2, 4), (5, 1, 2), (2, 4, 5), (230, 1081, 12167)];
    for (a, b, m) in cases {
        let (mu, nu) =
            solve_linear_congruence(&Integer::from(a), &Integer::from(b), &Integer::from(m))
                .unwrap();
        let lhs = (Integer::from(a) * &mu - Integer::from(b)) % Integer::from(m);
        assert_eq!(lhs, Integer::from(0));
        assert!(nu > 0);
    }
}
