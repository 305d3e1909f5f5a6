use rs_cidr_verifier::{is_ipv4_in_cidr, is_ipv6_in_cidr, CidrError};

// --- IPv4 membership scenarios ---

#[test]
fn v4_member_of_slash24() {
    assert_eq!(is_ipv4_in_cidr("192.168.1.5", "192.168.1.0/24"), Ok(true));
}

#[test]
fn v4_outside_slash24() {
    assert_eq!(is_ipv4_in_cidr("192.168.2.5", "192.168.1.0/24"), Ok(false));
}

#[test]
fn v4_prefix_too_long_is_invalid_cidr() {
    assert_eq!(
        is_ipv4_in_cidr("10.0.0.1", "10.0.0.0/33"),
        Err(CidrError::InvalidCidr)
    );
}

#[test]
fn v4_missing_separator_is_invalid_cidr() {
    assert_eq!(
        is_ipv4_in_cidr("10.0.0.1", "10.0.0.0"),
        Err(CidrError::InvalidCidr)
    );
}

#[test]
fn v4_duplicated_separator_is_invalid_cidr() {
    assert_eq!(
        is_ipv4_in_cidr("10.0.0.1", "10.0.0.0/8/8"),
        Err(CidrError::InvalidCidr)
    );
}

#[test]
fn v4_garbage_address_is_invalid_address() {
    assert_eq!(
        is_ipv4_in_cidr("not-an-ip", "10.0.0.0/8"),
        Err(CidrError::InvalidAddress)
    );
}

#[test]
fn v4_out_of_range_octet_is_invalid_address() {
    assert_eq!(
        is_ipv4_in_cidr("999.1.1.1", "10.0.0.0/8"),
        Err(CidrError::InvalidAddress)
    );
}

#[test]
fn v4_address_error_reported_before_cidr_error() {
    // both inputs are bad: the address is reported first
    assert_eq!(
        is_ipv4_in_cidr("not-an-ip", "10.0.0.0/33"),
        Err(CidrError::InvalidAddress)
    );
}

#[test]
fn v4_prefix_zero_matches_everything() {
    assert_eq!(is_ipv4_in_cidr("8.8.8.8", "192.168.1.0/0"), Ok(true));
    assert_eq!(is_ipv4_in_cidr("0.0.0.0", "255.255.255.255/0"), Ok(true));
}

#[test]
fn v4_full_prefix_requires_equality() {
    assert_eq!(is_ipv4_in_cidr("10.0.0.1", "10.0.0.1/32"), Ok(true));
    assert_eq!(is_ipv4_in_cidr("10.0.0.2", "10.0.0.1/32"), Ok(false));
}

#[test]
fn v4_host_bits_of_base_are_ignored_not_zeroed() {
    // the base keeps its host bits; membership looks only at the prefix
    assert_eq!(is_ipv4_in_cidr("10.1.2.3", "10.0.0.5/8"), Ok(true));
    assert_eq!(is_ipv4_in_cidr("11.0.0.5", "10.0.0.5/8"), Ok(false));
}

#[test]
fn v4_leading_zero_octet_is_invalid() {
    assert_eq!(
        is_ipv4_in_cidr("192.168.01.5", "192.168.1.0/24"),
        Err(CidrError::InvalidAddress)
    );
}

#[test]
fn v4_malformed_addresses_rejected() {
    for bad in [
        "", ".", "1.2.3", "1.2.3.4.5", "1..2.3", "1.2.3.", ".1.2.3.4", "256.0.0.1",
        "1.2.3.4 ", " 1.2.3.4", "+1.2.3.4", "-1.2.3.4", "0x1.2.3.4", "1.2.3.0256",
    ] {
        assert_eq!(
            is_ipv4_in_cidr(bad, "10.0.0.0/8"),
            Err(CidrError::InvalidAddress),
            "address {:?} should be invalid",
            bad
        );
    }
}

#[test]
fn v4_malformed_cidrs_rejected() {
    for bad in [
        "10.0.0.0/", "/8", "10.0.0.0/ 8", "10.0.0.0/+8", "10.0.0.0/-1", "10.0.0.0/3a",
        "10.0.0/8", "10.0.0.256/8", "10.0.0.0/999", "10.0.0.0//8",
    ] {
        assert_eq!(
            is_ipv4_in_cidr("10.0.0.1", bad),
            Err(CidrError::InvalidCidr),
            "cidr {:?} should be invalid",
            bad
        );
    }
}

#[test]
fn v4_prefix_with_leading_zeros_is_accepted() {
    // the prefix is a plain decimal integer, leading zeros and all
    assert_eq!(is_ipv4_in_cidr("10.0.0.1", "10.0.0.0/08"), Ok(true));
    assert_eq!(is_ipv4_in_cidr("10.0.0.1", "10.0.0.0/0008"), Ok(true));
    assert_eq!(is_ipv4_in_cidr("10.0.0.1", "10.0.0.0/00000000032"), Ok(false));
    assert_eq!(is_ipv4_in_cidr("10.0.0.0", "10.0.0.0/00000000032"), Ok(true));
}

// --- IPv6 membership scenarios ---

#[test]
fn v6_member_of_slash32() {
    assert_eq!(is_ipv6_in_cidr("2001:db8::1", "2001:db8::/32"), Ok(true));
}

#[test]
fn v6_loopback_outside_slash32() {
    assert_eq!(is_ipv6_in_cidr("::1", "2001:db8::/32"), Ok(false));
}

#[test]
fn v6_prefix_zero_matches_everything() {
    assert_eq!(is_ipv6_in_cidr("fe80::1", "::/0"), Ok(true));
    assert_eq!(
        is_ipv6_in_cidr("ffff:ffff:ffff:ffff:ffff:ffff:ffff:ffff", "::/0"),
        Ok(true)
    );
}

#[test]
fn v6_full_prefix_requires_equality() {
    assert_eq!(is_ipv6_in_cidr("2001:db8::1", "2001:db8::1/128"), Ok(true));
    assert_eq!(is_ipv6_in_cidr("2001:db8::2", "2001:db8::1/128"), Ok(false));
}

#[test]
fn v6_prefix_too_long_is_invalid_cidr() {
    assert_eq!(
        is_ipv6_in_cidr("::1", "::/129"),
        Err(CidrError::InvalidCidr)
    );
}

#[test]
fn v6_uppercase_hex_accepted() {
    assert_eq!(is_ipv6_in_cidr("2001:DB8::1", "2001:db8::/32"), Ok(true));
}

#[test]
fn v6_embedded_ipv4_tail() {
    assert_eq!(
        is_ipv6_in_cidr("::ffff:192.168.1.1", "::ffff:192.168.0.0/112"),
        Ok(true)
    );
    assert_eq!(
        is_ipv6_in_cidr("::ffff:10.0.0.1", "::ffff:192.168.0.0/112"),
        Ok(false)
    );
}

#[test]
fn v6_cross_family_text_is_invalid_address() {
    assert_eq!(
        is_ipv6_in_cidr("192.168.1.5", "2001:db8::/32"),
        Err(CidrError::InvalidAddress)
    );
    assert_eq!(
        is_ipv4_in_cidr("2001:db8::1", "10.0.0.0/8"),
        Err(CidrError::InvalidAddress)
    );
}

#[test]
fn v6_malformed_addresses_rejected() {
    for bad in [
        "", ":", "::::", ":::", "1:", ":1", "1:2:3:4:5:6:7", "1:2:3:4:5:6:7:8:9", "12345::",
        "1::2::3", "g::1", "::1:2:3:4:5:6:7:8", "1:2:3:4:5:6:7:8::", "1.2.3.4",
        "1:2:3:4:5:6:7:1.2.3.4", "::ffff:1.2.3.4.5", "::ffff:999.0.0.1", "1:2:3:4:5:6:1.2.3.4:7",
        "2001:db8::1 ", "fe80::1%eth0",
    ] {
        assert_eq!(
            is_ipv6_in_cidr(bad, "::/0"),
            Err(CidrError::InvalidAddress),
            "address {:?} should be invalid",
            bad
        );
    }
}

#[test]
fn v6_compression_forms_accepted() {
    // "::" alone, leading, interior and trailing compression
    assert_eq!(is_ipv6_in_cidr("::", "::/128"), Ok(true));
    assert_eq!(is_ipv6_in_cidr("::2:3:4:5:6:7:8", "0:2::/32"), Ok(true));
    assert_eq!(is_ipv6_in_cidr("1::8", "1::/16"), Ok(true));
    assert_eq!(is_ipv6_in_cidr("1:2:3:4:5:6:7::", "1:2::/32"), Ok(true));
    assert_eq!(is_ipv6_in_cidr("1:2:3:4:5:6:7:8", "1:2:3:4::/64"), Ok(true));
}

#[test]
fn membership_ignores_bits_beyond_the_prefix() {
    // 10.0.0.0/9: the top nine bits decide; flipping any lower bit of
    // the address or of the base changes nothing
    assert_eq!(is_ipv4_in_cidr("10.0.0.0", "10.0.0.0/9"), Ok(true));
    assert_eq!(is_ipv4_in_cidr("10.127.255.255", "10.0.0.0/9"), Ok(true));
    assert_eq!(is_ipv4_in_cidr("10.0.0.0", "10.64.32.16/9"), Ok(true));
    // flipping a bit inside the prefix does change the answer
    assert_eq!(is_ipv4_in_cidr("10.128.0.0", "10.0.0.0/9"), Ok(false));

    assert_eq!(is_ipv6_in_cidr("2001:db8::", "2001:db8::ffff/32"), Ok(true));
    assert_eq!(
        is_ipv6_in_cidr("2001:db8:ffff:ffff:ffff:ffff:ffff:ffff", "2001:db8::/32"),
        Ok(true)
    );
    assert_eq!(is_ipv6_in_cidr("2001:db9::", "2001:db8::/32"), Ok(false));
}

#[test]
fn v6_error_kinds() {
    assert_eq!(
        is_ipv6_in_cidr("2001:db8::1", "2001:db8::"),
        Err(CidrError::InvalidCidr)
    );
    assert_eq!(
        is_ipv6_in_cidr("2001:db8::1", "2001:db8::/32/64"),
        Err(CidrError::InvalidCidr)
    );
    assert_eq!(
        is_ipv6_in_cidr("2001:db8::1", "1::2::3/32"),
        Err(CidrError::InvalidCidr)
    );
    // a bad address wins over a bad CIDR text
    assert_eq!(
        is_ipv6_in_cidr("not-an-ip", "::/200"),
        Err(CidrError::InvalidAddress)
    );
}
