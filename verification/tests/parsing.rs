use lobby_ping::parsing::parse;

#[test]
fn parse_no_reference_is_absent() {
    let raw = b"PING 9.9.9.9 (9.9.9.9) 56(84) bytes of data.\nfrom 9.9.9.9: time=5ms\n";
    assert_eq!(parse(b"1.2.3.4", raw), None);
}

#[test]
fn parse_empty_output_is_absent() {
    assert_eq!(parse(b"1.2.3.4", b""), None);
}

#[test]
fn parse_referencing_line_without_sample_is_absent() {
    let raw = b"PING 1.2.3.4 (1.2.3.4) 56(84) bytes of data.\nno samples here\n";
    assert_eq!(parse(b"1.2.3.4", raw), None);
}

#[test]
fn parse_single_sample() {
    let raw = b"64 bytes from 1.2.3.4: icmp_seq=1 ttl=64 time=42ms\n";
    assert_eq!(parse(b"1.2.3.4", raw), Some(42));
}

#[test]
fn parse_takes_minimum_across_lines() {
    let raw = b"reply from 1.2.3.4: time=42ms\nreply from 1.2.3.4: time=17ms\nreply from 1.2.3.4: time=29ms\n";
    assert_eq!(parse(b"1.2.3.4", raw), Some(17));
}

#[test]
fn parse_takes_minimum_within_one_line() {
    let raw = b"1.2.3.4 seq=9 time=30ms then time=12ms\n";
    assert_eq!(parse(b"1.2.3.4", raw), Some(12));
}

#[test]
fn parse_ignores_other_addresses_even_with_lower_sample() {
    // Multi-hop style output: an intermediate hop answers faster than the
    // target; only the target's own line may contribute.
    let raw = b"from 9.9.9.9: time=5ms\nfrom 1.2.3.4: time=80ms\n";
    assert_eq!(parse(b"1.2.3.4", raw), Some(80));
}

#[test]
fn parse_requires_ms_right_after_digits() {
    let raw = b"1.2.3.4 time=42mx and time=7 ms\n";
    assert_eq!(parse(b"1.2.3.4", raw), None);
}

#[test]
fn parse_requires_at_least_one_digit() {
    let raw = b"1.2.3.4 time=ms\n";
    assert_eq!(parse(b"1.2.3.4", raw), None);
}

#[test]
fn parse_uses_rightmost_equals_before_digits() {
    let raw = b"1.2.3.4 a=b=12ms\n";
    assert_eq!(parse(b"1.2.3.4", raw), Some(12));
}

#[test]
fn parse_digits_not_preceded_by_equals_do_not_match() {
    let raw = b"1.2.3.4 took 12ms\n";
    assert_eq!(parse(b"1.2.3.4", raw), None);
}

#[test]
fn parse_saturates_huge_sample() {
    let raw = b"1.2.3.4 time=99999999999999999999999999ms\n";
    assert_eq!(parse(b"1.2.3.4", raw), Some(u64::MAX));
}

#[test]
fn parse_exact_u64_max_sample() {
    let raw = b"1.2.3.4 time=18446744073709551615ms\n";
    assert_eq!(parse(b"1.2.3.4", raw), Some(u64::MAX));
}

#[test]
fn parse_handles_output_without_trailing_newline() {
    let raw = b"reply from 1.2.3.4: time=33ms";
    assert_eq!(parse(b"1.2.3.4", raw), Some(33));
}

#[test]
fn parse_windows_style_output() {
    let raw = b"Pinging 1.2.3.4 with 32 bytes of data:\r\nReply from 1.2.3.4: bytes=32 time=23ms TTL=57\r\nReply from 1.2.3.4: bytes=32 time=21ms TTL=57\r\n";
    assert_eq!(parse(b"1.2.3.4", raw), Some(21));
}

#[test]
fn parse_is_idempotent() {
    let raw = b"from 1.2.3.4: time=42ms\nfrom 1.2.3.4: time=17ms\n";
    let first = parse(b"1.2.3.4", raw);
    let second = parse(b"1.2.3.4", raw);
    assert_eq!(first, second);
    assert_eq!(first, Some(17));
}

#[test]
fn parse_empty_address_matches_every_line() {
    let raw = b"whatever time=5ms\n";
    assert_eq!(parse(b"", raw), Some(5));
}

#[test]
fn parse_zero_sample() {
    let raw = b"from 1.2.3.4: time=0ms\n";
    assert_eq!(parse(b"1.2.3.4", raw), Some(0));
}
