use ntt_poly::ntt::forward;
use ntt_poly::ntt::inverse;
use ntt_poly::ntt::mod_reduce;
use ntt_poly::ntt::pow_mod;
use ntt_poly::ntt::working_modulus;

#[test]
fn transform_round_trip() {
    let c = working_modulus(8, 50).unwrap();
    let x = vec![3i128, 1, 4, 1, 5, 9, 2, 6];
    let f = forward(x.clone(), &c);
    assert_ne!(f, x);
    let y = inverse(f, &c);
    assert_eq!(y, x);
}

#[test]
fn working_modulus_constants_are_consistent() {
    let c = working_modulus(4, 10).unwrap();
    let p = c.modulus;
    assert!(p > 10);
    assert_eq!((p - 1) % 4, 0);
    assert_eq!(pow_mod(c.root, 4, p), 1);
    assert_eq!(pow_mod(c.root, 2, p), p - 1);
    assert_eq!((c.root * c.root_inv) % p, 1);
    assert_eq!((4 * c.len_inv) % p, 1);
}

#[test]
fn working_modulus_none_when_bound_unreachable() {
    assert!(working_modulus(4, 0x8000_0000).is_none());
}

#[test]
fn mod_reduce_is_canonical() {
    assert_eq!(mod_reduce(-5, 7), 2);
    assert_eq!(mod_reduce(9, 7), 2);
    assert_eq!(mod_reduce(-14, 7), 0);
    assert_eq!(mod_reduce(0, 7), 0);
}

