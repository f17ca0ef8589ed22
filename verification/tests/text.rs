use souporcell::text::{byte_is_space, parse_number, parse_u32, parse_usize, split_whitespace};

#[test]
fn tokens_are_maximal_runs() {
    assert_eq!(split_whitespace(b" 12  3\t4\r"), vec![b"12".to_vec(), b"3".to_vec(), b"4".to_vec()]);
    assert_eq!(split_whitespace(b"abc"), vec![b"abc".to_vec()]);
    assert_eq!(split_whitespace(b""), Vec::<Vec<u8>>::new());
    assert_eq!(split_whitespace(b" \t\n\x0b\x0c\r"), Vec::<Vec<u8>>::new());
    assert_eq!(split_whitespace(b"a\x0bb\x0cc"), vec![b"a".to_vec(), b"b".to_vec(), b"c".to_vec()]);
}

#[test]
fn white_space_is_six_bytes() {
    let spaces: Vec<u8> = (0..=255u8).filter(|b| byte_is_space(*b)).collect();
    assert_eq!(spaces, vec![9, 10, 11, 12, 13, 32]);
}

#[test]
fn numbers_are_decimal_with_optional_plus() {
    assert_eq!(parse_u32(b"0"), Some(0));
    assert_eq!(parse_u32(b"007"), Some(7));
    assert_eq!(parse_u32(b"+15"), Some(15));
    assert_eq!(parse_u32(b"4294967295"), Some(u32::MAX));
    assert_eq!(parse_u32(b"4294967296"), None);
    assert_eq!(parse_u32(b"00000000000000000000000000000042"), Some(42));
    assert_eq!(parse_u32(b""), None);
    assert_eq!(parse_u32(b"+"), None);
    assert_eq!(parse_u32(b"-1"), None);
    assert_eq!(parse_u32(b"++1"), None);
    assert_eq!(parse_u32(b"1+"), None);
    assert_eq!(parse_u32(b"1.0"), None);
    assert_eq!(parse_u32(b"12a"), None);
    assert_eq!(parse_u32(b"99999999999999999999999999x"), None);
}

#[test]
fn sizes_fit_the_word() {
    assert_eq!(parse_usize(format!("{}", usize::MAX).as_bytes()), Some(usize::MAX));
    assert_eq!(parse_usize(format!("{}0", usize::MAX).as_bytes()), None);
    assert_eq!(parse_usize(b"340282366920938463463374607431768211456"), None);
    assert_eq!(parse_usize(b"18"), Some(18));
}

#[test]
fn bound_is_inclusive() {
    assert_eq!(parse_number(b"10", 10), Some(10));
    assert_eq!(parse_number(b"11", 10), None);
    assert_eq!(parse_number(b"9", 0), None);
    assert_eq!(parse_number(b"0", 0), Some(0));
    assert_eq!(parse_number(b"18446744073709551615", u64::MAX), Some(u64::MAX));
    assert_eq!(parse_number(b"18446744073709551616", u64::MAX), None);
}

#[test]
fn parse_agrees_with_std_on_samples() {
    for s in ["0", "1", "+1", "-1", "", "+", "0019", "4294967295", "4294967296", " 1", "1 ", "1_0", "0x10"] {
        assert_eq!(parse_u32(s.as_bytes()), s.parse::<u32>().ok());
        assert_eq!(parse_usize(s.as_bytes()), s.parse::<usize>().ok());
    }
}
