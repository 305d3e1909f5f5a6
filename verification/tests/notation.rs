use rs_cidr_verifier::ipv4::parse_ipv4_addr;
use rs_cidr_verifier::ipv6::parse_ipv6_addr;
use rs_cidr_verifier::CidrError;

// Addresses in standard notation and their values, beside near-misses
// that every standard parser rejects.
#[test]
fn v4_reference_battery() {
    assert_eq!(parse_ipv4_addr("0.0.0.0"), Ok(0));
    assert_eq!(parse_ipv4_addr("255.255.255.255"), Ok(4294967295));
    assert_eq!(parse_ipv4_addr("1.2.3.4"), Ok(16909060));
    assert_eq!(parse_ipv4_addr("10.0.0.1"), Ok(167772161));
    assert_eq!(parse_ipv4_addr("192.168.100.200"), Ok(3232261320));
    assert_eq!(parse_ipv4_addr("249.250.251.252"), Ok(4193975292));
    assert_eq!(parse_ipv4_addr("00.1.2.3"), Err(CidrError::InvalidAddress));
    assert_eq!(parse_ipv4_addr("0.00.2.3"), Err(CidrError::InvalidAddress));
    assert_eq!(parse_ipv4_addr("1.2.3.04"), Err(CidrError::InvalidAddress));
    assert_eq!(parse_ipv4_addr("256.1.1.1"), Err(CidrError::InvalidAddress));
    assert_eq!(parse_ipv4_addr("1.256.1.1"), Err(CidrError::InvalidAddress));
    assert_eq!(parse_ipv4_addr("95.1.1.256"), Err(CidrError::InvalidAddress));
    assert_eq!(parse_ipv4_addr("1.2.3"), Err(CidrError::InvalidAddress));
    assert_eq!(parse_ipv4_addr("1.2.3.4.5"), Err(CidrError::InvalidAddress));
    assert_eq!(parse_ipv4_addr(".."), Err(CidrError::InvalidAddress));
    assert_eq!(parse_ipv4_addr("1..2.3"), Err(CidrError::InvalidAddress));
    assert_eq!(parse_ipv4_addr("...."), Err(CidrError::InvalidAddress));
    assert_eq!(parse_ipv4_addr("1.2.3."), Err(CidrError::InvalidAddress));
    assert_eq!(parse_ipv4_addr("4.3.2.1 "), Err(CidrError::InvalidAddress));
    assert_eq!(parse_ipv4_addr("0.0.0.00"), Err(CidrError::InvalidAddress));
    assert_eq!(parse_ipv4_addr("10.010.1.1"), Err(CidrError::InvalidAddress));
    assert_eq!(parse_ipv4_addr("030.1.2.3"), Err(CidrError::InvalidAddress));
    assert_eq!(parse_ipv4_addr("255.255.255.256"), Err(CidrError::InvalidAddress));
    assert_eq!(parse_ipv4_addr("12.34.56.78"), Ok(203569230));
    assert_eq!(parse_ipv4_addr("100.200.100.200"), Ok(1690854600));
    assert_eq!(parse_ipv4_addr("9.9.9.9"), Ok(151587081));
    assert_eq!(parse_ipv4_addr("1000.1.1.1"), Err(CidrError::InvalidAddress));
}

#[test]
fn v6_reference_battery() {
    assert_eq!(parse_ipv6_addr("::"), Ok(0x0));
    assert_eq!(parse_ipv6_addr("::1"), Ok(0x1));
    assert_eq!(parse_ipv6_addr("1::"), Ok(0x10000000000000000000000000000));
    assert_eq!(parse_ipv6_addr("0:0:0:0:0:0:0:0"), Ok(0x0));
    assert_eq!(parse_ipv6_addr("1:2:3:4:5:6:7:8"), Ok(0x10002000300040005000600070008));
    assert_eq!(parse_ipv6_addr("fe80::1"), Ok(0xfe800000000000000000000000000001));
    assert_eq!(parse_ipv6_addr("2001:db8::8a2e:370:7334"), Ok(0x20010db80000000000008a2e03707334));
    assert_eq!(parse_ipv6_addr("2001:0db8:85a3:0000:0000:8a2e:0370:7334"), Ok(0x20010db885a3000000008a2e03707334));
    assert_eq!(parse_ipv6_addr("::ffff:192.168.1.1"), Ok(0xffffc0a80101));
    assert_eq!(parse_ipv6_addr("64:ff9b::1.2.3.4"), Ok(0x64ff9b000000000000000001020304));
    assert_eq!(parse_ipv6_addr("1:2:3:4:5:6:1.2.3.4"), Ok(0x10002000300040005000601020304));
    assert_eq!(parse_ipv6_addr("::1.2.3.4"), Ok(0x1020304));
    assert_eq!(parse_ipv6_addr("abcd:ef01:2345:6789:abcd:ef01:2345:6789"), Ok(0xabcdef0123456789abcdef0123456789));
    assert_eq!(parse_ipv6_addr("FE80::A:b:C"), Ok(0xfe800000000000000000000a000b000c));
    assert_eq!(parse_ipv6_addr("0:0:0:0:0:0:13.1.68.3"), Ok(0xd014403));
    assert_eq!(parse_ipv6_addr("::2:3:4:5:6:7:8"), Ok(0x2000300040005000600070008));
    assert_eq!(parse_ipv6_addr("1:2:3:4:5:6:7::"), Ok(0x10002000300040005000600070000));
    assert_eq!(parse_ipv6_addr("2:3:4:5:6:7:8::"), Ok(0x20003000400050006000700080000));
    assert_eq!(parse_ipv6_addr("12345::"), Err(CidrError::InvalidAddress));
    assert_eq!(parse_ipv6_addr("1::2::3"), Err(CidrError::InvalidAddress));
    assert_eq!(parse_ipv6_addr(":::"), Err(CidrError::InvalidAddress));
    assert_eq!(parse_ipv6_addr("::::"), Err(CidrError::InvalidAddress));
    assert_eq!(parse_ipv6_addr("1:2:3:4:5:6:7"), Err(CidrError::InvalidAddress));
    assert_eq!(parse_ipv6_addr("1:2:3:4:5:6:7:8:9"), Err(CidrError::InvalidAddress));
    assert_eq!(parse_ipv6_addr("::1:2:3:4:5:6:7:8"), Err(CidrError::InvalidAddress));
    assert_eq!(parse_ipv6_addr("1:2:3:4:5:6:7:8::"), Err(CidrError::InvalidAddress));
    assert_eq!(parse_ipv6_addr(":"), Err(CidrError::InvalidAddress));
    assert_eq!(parse_ipv6_addr(""), Err(CidrError::InvalidAddress));
    assert_eq!(parse_ipv6_addr("1:"), Err(CidrError::InvalidAddress));
    assert_eq!(parse_ipv6_addr("::ffff:1.2.3.4.5"), Err(CidrError::InvalidAddress));
    assert_eq!(parse_ipv6_addr("::ffff:999.0.0.1"), Err(CidrError::InvalidAddress));
    assert_eq!(parse_ipv6_addr("1:2:3:4:5:6:1.2.3.4:7"), Err(CidrError::InvalidAddress));
    assert_eq!(parse_ipv6_addr("g::"), Err(CidrError::InvalidAddress));
    assert_eq!(parse_ipv6_addr("0db8::01ff"), Ok(0xdb800000000000000000000000001ff));
    assert_eq!(parse_ipv6_addr("1:2:3:4:5::1.2.3.4"), Ok(0x10002000300040005000001020304));
    assert_eq!(parse_ipv6_addr("1:2:3:4:5:6::1.2.3.4"), Err(CidrError::InvalidAddress));
    assert_eq!(parse_ipv6_addr("::0:0:0:0:0:0:0"), Ok(0x0));
    assert_eq!(parse_ipv6_addr("0::0:0:0:0:0:0"), Ok(0x0));
    assert_eq!(parse_ipv6_addr("01:002:0003:4::"), Ok(0x10002000300040000000000000000));
    assert_eq!(parse_ipv6_addr("::abcde"), Err(CidrError::InvalidAddress));
    assert_eq!(parse_ipv6_addr("1.2.3.4::"), Err(CidrError::InvalidAddress));
    assert_eq!(parse_ipv6_addr("::1.2.3.4:5"), Err(CidrError::InvalidAddress));
    assert_eq!(parse_ipv6_addr("fe80::1%eth0"), Err(CidrError::InvalidAddress));
}
