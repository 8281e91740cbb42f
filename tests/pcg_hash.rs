use rtracer::pcg::{hash, random_u32};

#[test]
fn hash_of_zero() {
    assert_eq!(hash(0), 129708002);
}

#[test]
fn hash_of_one_and_initial_seed() {
    assert_eq!(hash(1), 2831084092);
    assert_eq!(hash(153544), 565495189);
}

#[test]
fn random_stream_is_reproducible() {
    let mut a: u32 = 0;
    let mut b: u32 = 0;
    let first: Vec<u32> = (0..5).map(|_| random_u32(&mut a)).collect();
    let second: Vec<u32> = (0..5).map(|_| random_u32(&mut b)).collect();
    assert_eq!(first, second);
    assert_eq!(first[0], 129708002);
    assert_eq!(first[1], 817759070);
    assert_eq!(a, first[4]);
}
