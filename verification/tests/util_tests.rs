use t2048::codec::{parse_hex32, push_hex32, u128_from_be_bytes, u128_to_be_bytes};
use t2048::util::{odd, position, two_or_four};

#[test]
fn test_two_or_four() {
    let all = 100000;
    let nums = (1..=all).fold(Vec::with_capacity(all), |mut nums, _| {
        nums.push(two_or_four());
        nums
    });
    let num_2 = nums.iter().filter(|&&num| num == 2).count();
    println!("num_2 = {} %", num_2 as f64 / all as f64 * 100.0);
    let num_4 = nums.iter().filter(|&&num| num == 4).count();
    println!("num_4 = {} %", num_4 as f64 / all as f64 * 100.0);
    assert_eq!(num_2 + num_4, all);
}

#[test]
fn test_position_stays_in_range() {
    for _ in 0..1000 {
        let (x, y) = position(5);
        assert!(x < 5 && y < 5);
    }
}

#[test]
fn test_odd() {
    assert!(odd(3));
    assert!(odd(5));
    assert!(!odd(0));
    assert!(!odd(4));
}

#[test]
fn test_hex_rendering_of_255() {
    let mut out = Vec::new();
    push_hex32(&mut out, 255);
    let mut expected = vec![48u8; 30];
    expected.push(102);
    expected.push(102);
    assert_eq!(out, expected);
}

#[test]
fn test_hex_parse_round_trip() {
    for v in [0u128, 1, 9, 10, 15, 16, 255, 2048, u128::MAX] {
        let mut out = Vec::new();
        push_hex32(&mut out, v);
        assert_eq!(parse_hex32(&out, 0), Some(v));
    }
    // an uppercase digit is not canonical and is rejected
    let mut out = vec![65u8];
    out.extend(vec![48u8; 31]);
    assert_eq!(parse_hex32(&out, 0), None);
}

#[test]
fn test_best_score_bytes_are_big_endian() {
    let bytes = u128_to_be_bytes(2048);
    let mut expected = vec![0u8; 16];
    expected[14] = 8;
    assert_eq!(bytes, expected);
    assert_eq!(u128_from_be_bytes(&bytes), 2048);
    assert_eq!(u128_from_be_bytes(&vec![0u8; 16]), 0);
    assert_eq!(u128_from_be_bytes(&vec![255u8; 16]), u128::MAX);
}
