use asphaleia_storage::clock::wall_clock_now;
use asphaleia_storage::clock::MonotonicClock;
use asphaleia_storage::compression::pack;
use asphaleia_storage::compression::unpack;
use asphaleia_storage::encoding::get_exact;
use asphaleia_storage::encoding::get_i32;
use asphaleia_storage::encoding::get_optional;
use asphaleia_storage::encoding::get_optional_u64;
use asphaleia_storage::encoding::get_prefixed;
use asphaleia_storage::encoding::get_u32;
use asphaleia_storage::encoding::get_u64;
use asphaleia_storage::encoding::put_i32;
use asphaleia_storage::encoding::put_optional;
use asphaleia_storage::encoding::put_optional_u64;
use asphaleia_storage::encoding::put_prefixed;
use asphaleia_storage::encoding::put_u32;
use asphaleia_storage::encoding::put_u64;
use asphaleia_storage::Timestamp;

#[test]
fn numbers_are_written_least_significant_byte_first() {
    let mut out = vec![0xEE];
    put_u64(&mut out, 0x0102030405060708);
    put_u32(&mut out, 0x0A0B0C0D);
    assert_eq!(out, vec![0xEE, 8, 7, 6, 5, 4, 3, 2, 1, 0x0D, 0x0C, 0x0B, 0x0A]);
    assert_eq!(get_u64(&out, 1), Some((0x0102030405060708, 9)));
    assert_eq!(get_u32(&out, 9), Some((0x0A0B0C0D, 13)));
}

#[test]
fn signed_numbers_are_written_in_twos_complement() {
    let mut out = Vec::new();
    put_i32(&mut out, -1);
    put_i32(&mut out, i32::MIN);
    put_i32(&mut out, i32::MAX);
    put_i32(&mut out, 3);
    assert_eq!(
        out,
        vec![255, 255, 255, 255, 0, 0, 0, 0x80, 255, 255, 255, 0x7F, 3, 0, 0, 0]
    );
    assert_eq!(get_i32(&out, 0), Some((-1, 4)));
    assert_eq!(get_i32(&out, 4), Some((i32::MIN, 8)));
    assert_eq!(get_i32(&out, 8), Some((i32::MAX, 12)));
    assert_eq!(get_i32(&out, 12), Some((3, 16)));
}

#[test]
fn bytes_go_behind_their_length() {
    let mut out = Vec::new();
    put_prefixed(&mut out, &[9, 8, 7]);
    assert_eq!(out, vec![3, 0, 0, 0, 0, 0, 0, 0, 9, 8, 7]);
    assert_eq!(get_prefixed(&out, 0), Some((vec![9, 8, 7], 11)));
    let mut empty = Vec::new();
    put_prefixed(&mut empty, &[]);
    assert_eq!(get_prefixed(&empty, 0), Some((Vec::new(), 8)));
}

#[test]
fn optional_values_have_a_tag() {
    let mut out = Vec::new();
    put_optional(&mut out, &None);
    put_optional(&mut out, &Some(vec![5]));
    put_optional_u64(&mut out, None);
    put_optional_u64(&mut out, Some(2));
    assert_eq!(
        out,
        vec![0, 1, 1, 0, 0, 0, 0, 0, 0, 0, 5, 0, 1, 2, 0, 0, 0, 0, 0, 0, 0]
    );
    assert_eq!(get_optional(&out, 0), Some((None, 1)));
    assert_eq!(get_optional(&out, 1), Some((Some(vec![5]), 11)));
    assert_eq!(get_optional_u64(&out, 11), Some((None, 12)));
    assert_eq!(get_optional_u64(&out, 12), Some((Some(2), 21)));
}

#[test]
fn reading_past_the_end_gives_nothing() {
    let data = [1u8, 2, 3, 4, 5, 6, 7, 8, 9];
    assert_eq!(get_u64(&data, 1), Some((0x0908070605040302, 9)));
    assert_eq!(get_u64(&data, 2), None);
    assert_eq!(get_u64(&data, usize::MAX), None);
    assert_eq!(get_u32(&data, 6), None);
    assert_eq!(get_u32(&[], 0), None);
    assert_eq!(get_exact(&data, 4, 5), Some((vec![5, 6, 7, 8, 9], 9)));
    assert_eq!(get_exact(&data, 4, 6), None);
    assert_eq!(get_exact(&data, 9, 0), Some((Vec::new(), 9)));
    assert_eq!(get_exact(&data, 10, 0), None);
    assert_eq!(get_exact(&data, 1, usize::MAX), None);
    assert_eq!(get_optional(&data, 9), None);
    assert_eq!(get_optional_u64(&data, 9), None);
}

#[test]
fn a_length_beyond_the_data_gives_nothing() {
    let mut out = Vec::new();
    put_u64(&mut out, u64::MAX);
    out.extend_from_slice(&[1, 2, 3]);
    assert_eq!(get_prefixed(&out, 0), None);
    let mut short = Vec::new();
    put_u64(&mut short, 4);
    short.extend_from_slice(&[1, 2, 3]);
    assert_eq!(get_prefixed(&short, 0), None);
}

#[test]
fn an_unknown_tag_gives_nothing() {
    assert_eq!(get_optional(&[2, 0, 0, 0, 0, 0, 0, 0, 0], 0), None);
    assert_eq!(get_optional_u64(&[2, 0, 0, 0, 0, 0, 0, 0, 0], 0), None);
}

#[test]
fn pack_and_unpack_round_trip() {
    let value = b"some value, some value, some value, some value".to_vec();
    let packed = pack(&None, 3, &value).unwrap();
    assert_ne!(packed, value);
    assert_eq!(unpack(&None, &packed).unwrap(), value);
    let dict = Some(b"some value".to_vec());
    let packed = pack(&dict, 3, &value).unwrap();
    assert_ne!(packed, value);
    assert_eq!(unpack(&dict, &packed).unwrap(), value);
}

#[test]
fn unpack_of_what_is_no_frame_fails() {
    assert!(unpack(&None, b"plain").is_err());
    assert!(unpack(&Some(b"dictionary".to_vec()), b"plain").is_err());
}

#[test]
fn timestamps_compare_by_seconds_then_nanoseconds() {
    let a = Timestamp { secs: 1, nanos: 999_999_999 };
    let b = Timestamp { secs: 2, nanos: 0 };
    assert!(a.is_at_most(&b));
    assert!(!b.is_at_most(&a));
    assert!(a.is_at_most(&a));
    assert!(a.is_before(&b));
    assert!(!a.is_before(&a));
    assert_eq!(a.later_of(b), b);
    assert_eq!(b.later_of(a), b);
    assert_eq!(Timestamp::from_secs(7), Timestamp { secs: 7, nanos: 0 });
    assert_eq!(a.as_nanos(), 1_999_999_999);
}

#[test]
fn expiry_counts_from_the_last_use() {
    let then = Timestamp { secs: 10, nanos: 500 };
    let ttl = Timestamp { secs: 5, nanos: 0 };
    assert!(!then.expired_at(&Timestamp { secs: 15, nanos: 499 }, &ttl));
    assert!(then.expired_at(&Timestamp { secs: 15, nanos: 500 }, &ttl));
    assert!(then.expired_at(&Timestamp { secs: 16, nanos: 0 }, &ttl));
    assert!(!then.expired_at(&Timestamp { secs: 9, nanos: 0 }, &ttl));
    assert!(then.expired_at(&Timestamp { secs: 9, nanos: 0 }, &Timestamp { secs: 0, nanos: 0 }));
    let far = Timestamp { secs: u64::MAX, nanos: u32::MAX };
    assert!(Timestamp { secs: 0, nanos: 0 }.expired_at(&far, &far));
}

#[test]
fn the_clocks_give_less_than_a_second_of_nanoseconds() {
    let now = wall_clock_now();
    assert!(now.nanos < 1_000_000_000);
    assert!(now.secs > 1_600_000_000);
    let clock = MonotonicClock::start();
    let first = clock.now();
    let second = clock.now();
    assert!(first.nanos < 1_000_000_000);
    assert!(first.is_at_most(&second));
}
