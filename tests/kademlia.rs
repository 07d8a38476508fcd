use magnet_dht::kademlia::{distance_less, distance_to_integer, get_distance};

#[test]
fn calculates_distance1() {
    let node1: [u8; 20] = [0, 0, 0, 0, 0, 0, 0, 0, 0, 0, 0, 0, 0, 0, 0, 0, 0, 0, 1, 0];
    let node2: [u8; 20] = [0, 0, 0, 0, 0, 0, 0, 0, 0, 0, 0, 0, 0, 0, 0, 0, 0, 0, 0, 1];

    let mut result: [u8; 20] = [0; 20];

    result[18] = 1;
    result[19] = 1;

    assert_eq!(get_distance(&node1, &node2), result);
}

#[test]
fn distance_laws_on_samples() {
    let a: [u8; 20] = [7; 20];
    let mut b: [u8; 20] = [0; 20];
    b[0] = 0xf0;
    b[19] = 0x0f;
    let c: [u8; 20] = [0x55; 20];
    assert_eq!(get_distance(&a, &a), [0u8; 20]);
    assert_eq!(get_distance(&a, &b), get_distance(&b, &a));
    let ac = get_distance(&a, &c);
    let ab = get_distance(&a, &b);
    let bc = get_distance(&b, &c);
    let mut or = [0u8; 20];
    for i in 0..20 {
        or[i] = ab[i] | bc[i];
        assert_eq!(ac[i] & !or[i], 0);
    }
    assert!(!distance_less(&or, &ac));
}

#[test]
fn compares_all_160_bits() {
    let mut high: [u8; 20] = [0; 20];
    high[0] = 1;
    let mut low: [u8; 20] = [0; 20];
    low[19] = 0xff;
    assert!(distance_less(&low, &high));
    assert!(!distance_less(&high, &low));
    assert!(!distance_less(&low, &low));
}

#[test]
fn integer_of_all_160_bits() {
    let mut d: [u8; 20] = [0; 20];
    d[0] = 1;
    d[3] = 2;
    d[18] = 1;
    d[19] = 2;
    assert_eq!(distance_to_integer(&d), (0x0100_0002, 0x0102));

    let mut high: [u8; 20] = [0; 20];
    high[0] = 1;
    let zero: [u8; 20] = [0; 20];
    assert!(distance_to_integer(&zero) < distance_to_integer(&high));
    assert_eq!(distance_to_integer(&[0xff; 20]), (u32::MAX, u128::MAX));
}
