use std::time::{Duration, SystemTime};

use smb_server::utils::{
    checked_span_to_filetime, checked_system_time_to_filetime, dos_pattern_matches, fill_random,
    now_filetime, span_to_filetime, system_time_to_filetime, utf16le, utf16le_to_string,
    utf16le_to_units, zero_unless_filled,
};

#[test]
fn dos_pattern_matching() {
    assert!(dos_pattern_matches("", "anything"));
    assert!(dos_pattern_matches("*", "anything"));
    assert!(dos_pattern_matches("*.*", "README"));
    assert!(dos_pattern_matches("*.txt", "foo.txt"));
    assert!(!dos_pattern_matches("*.txt", "foo.log"));
    assert!(dos_pattern_matches("a?c", "abc"));
    assert!(!dos_pattern_matches("a?c", "ac"));
    assert!(dos_pattern_matches("a*b*c", "axxxbxxxc"));
    assert!(dos_pattern_matches("FOO", "foo"));
    assert!(!dos_pattern_matches("new.txt", "pre_existing.txt"));
}

#[test]
fn a_star_in_the_pattern_is_always_a_wildcard() {
    assert!(dos_pattern_matches("*a", "*xa"));
    assert!(dos_pattern_matches("a*", "a"));
    assert!(dos_pattern_matches("**b", "b"));
    assert!(!dos_pattern_matches("a*b", "a"));
    assert!(dos_pattern_matches("?\u{e9}?", "x\u{e9}\u{1F600}"));
}

#[test]
fn utf16le_round_trips_and_degrades() {
    let text = "a\u{e9}\u{1F600}";
    let bytes = utf16le(text);
    assert_eq!(bytes, vec![0x61, 0, 0xE9, 0, 0x3D, 0xD8, 0x00, 0xDE]);
    assert_eq!(utf16le_to_string(&bytes), text);
    assert_eq!(utf16le_to_string(&bytes[..7]), "");
    assert_eq!(utf16le_to_string(&[0x3D, 0xD8, 0x61, 0]), "\u{FFFD}a");
    assert_eq!(utf16le_to_units(&bytes), Some(vec![0x61, 0xE9, 0xD83D, 0xDE00]));
    assert_eq!(utf16le_to_units(&bytes[..1]), None);
}

#[test]
fn filetime_counts_from_1601() {
    assert_eq!(system_time_to_filetime(SystemTime::UNIX_EPOCH), 116_444_736_000_000_000);
    let t = SystemTime::UNIX_EPOCH + Duration::new(1, 250);
    assert_eq!(system_time_to_filetime(t), 116_444_736_010_000_002);
    assert_eq!(checked_system_time_to_filetime(t), Some(116_444_736_010_000_002));
    let before = SystemTime::UNIX_EPOCH - Duration::new(1, 0);
    assert_eq!(system_time_to_filetime(before), 0);
    assert_eq!(checked_span_to_filetime(Some((u64::MAX, 0))), None);
    assert_eq!(span_to_filetime(Some((0, 999_999_999))), 116_444_736_009_999_999);
    let now = now_filetime().expect("the clock is before the last FILETIME");
    assert!(now > 116_444_736_000_000_000);
}

#[test]
fn random_bytes_differ_and_failure_zeroes() {
    let mut a = [0u8; 32];
    let mut b = [0u8; 32];
    fill_random(&mut a);
    fill_random(&mut b);
    assert_ne!(a, b);
    let mut c = [7u8; 4];
    zero_unless_filled(&mut c, true);
    assert_eq!(c, [7; 4]);
    zero_unless_filled(&mut c, false);
    assert_eq!(c, [0; 4]);
}

#[test]
fn a_later_time_has_no_smaller_filetime() {
    let epoch = SystemTime::UNIX_EPOCH;
    let times = [
        epoch - Duration::new(5, 0),
        epoch,
        epoch + Duration::new(0, 99),
        epoch + Duration::new(0, 100),
        epoch + Duration::new(0, 999_999_999),
        epoch + Duration::new(1, 0),
        epoch + Duration::new(1_700_000_000, 123_456_789),
    ];
    let ticks: Vec<u64> = times.iter().map(|t| system_time_to_filetime(*t)).collect();
    for pair in ticks.windows(2) {
        assert!(pair[0] <= pair[1]);
    }
    assert_eq!(ticks[6], 116_444_736_000_000_000 + 17_000_000_001_234_567);
}
