use ntt_poly::ntt::working_modulus;
use ntt_poly::polynomial::Polynomial;

#[test]
fn add() {
    let a = Polynomial::new(vec![1i128, 2, 3, 4]);
    let b = Polynomial::new(vec![1i128, 2]);
    let s = a.add(b);
    assert_eq!(s.coef, vec![1i128, 2, 4, 6]);
}

#[test]
fn mul() {
    let a = Polynomial::new(vec![1i128, 2, 3]);
    let b = Polynomial::new(vec![1i128, 2, 3, 4, 5, 6, 7, 8, 9]);
    let n = (a.len() + b.len()).next_power_of_two();
    let mx: i128 = 9;
    let m: i128 = (mx << 1) * (n as i128) + 1;
    let c = working_modulus(n as u64, m).unwrap();
    let prod = a.mul(b, &c);
    assert_eq!(prod.coef, vec![1i128, 4, 10, 16, 22, 28, 34, 40, 46, 42, 27]);
}

#[test]
fn diff() {
    let a = Polynomial::new(vec![3i128, 2, 1]);
    let da = a.diff();
    assert_eq!(da.coef, vec![6i128, 2]);
}

#[test]
fn new_pads_left_and_is_idempotent() {
    let p = Polynomial::new(vec![1i128, 2, 3, 4, 5]);
    assert_eq!(p.coef, vec![0i128, 0, 0, 1, 2, 3, 4, 5]);
    assert!(p.len() >= 5);
    assert!(p.len().is_power_of_two());
    let q = Polynomial::new(p.coef.clone());
    assert_eq!(q.coef, p.coef);
}

#[test]
fn add_commutes() {
    let a = Polynomial::new(vec![4i128, -1, 7]);
    let b = Polynomial::new(vec![2i128, 9]);
    let left = a.clone().add(b.clone());
    let right = b.add(a);
    assert_eq!(left.coef, right.coef);
}

#[test]
fn add_negation_gives_zero() {
    let a = Polynomial::new(vec![5i128, -7, 9]);
    let n = a.clone().neg();
    let s = a.add(n);
    assert_eq!(s.coef, vec![0i128, 0, 0, 0]);
}

#[test]
fn sub_of_self_gives_zero() {
    let a = Polynomial::new(vec![8i128, -2]);
    let d = a.clone().sub(a);
    assert_eq!(d.coef, vec![0i128, 0]);
}

#[test]
fn mul_brute_known_product() {
    let a = Polynomial::new(vec![1i128, 2]);
    let b = Polynomial::new(vec![3i128, 4]);
    let prod = a.mul_brute(b);
    assert_eq!(prod.coef, vec![0i128, 3, 10, 8]);
}

#[test]
fn brute_force_and_transform_agree() {
    let a = Polynomial::new(vec![2i128, -3, 1]);
    let b = Polynomial::new(vec![-1i128, 4]);
    let brute = a.clone().mul_brute(b.clone());
    let trimmed: Vec<i128> =
        brute.coef.iter().skip_while(|&&x| x == 0).cloned().collect();
    let n = (a.len() + b.len()).next_power_of_two();
    let c = working_modulus(n as u64, 100).unwrap();
    let fast = a.mul(b, &c);
    assert_eq!(fast.coef, trimmed);
    assert_eq!(fast.coef, vec![-2i128, 11, -13, 4]);
}

#[test]
fn diff_trims_to_constant() {
    let a = Polynomial::new(vec![0i128, 5, 3]);
    let da = a.diff();
    assert_eq!(da.coef, vec![5i128]);
}

#[test]
fn degree_counts_from_first_nonzero() {
    let a = Polynomial::new(vec![0i128, 0, 5, 1]);
    assert_eq!(a.degree(), 1);
    let b = Polynomial::new(vec![7i128]);
    assert_eq!(b.degree(), 0);
}
