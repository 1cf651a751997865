use bgp_analyzer::text::{append_dec, append_hex, dec_string, ipv4_string, ipv6_string};
use bgp_analyzer::wire::{get_u128, get_u16, get_u32};

fn v6(groups: [u16; 8]) -> Vec<u8> {
    let mut b = Vec::new();
    for g in groups {
        b.extend(g.to_be_bytes());
    }
    b
}

#[test]
fn decimal_text() {
    assert_eq!(dec_string(0), "0");
    assert_eq!(dec_string(7), "7");
    assert_eq!(dec_string(4294967295), "4294967295");
    assert_eq!(dec_string(u64::MAX), "18446744073709551615");
    let mut s = String::from("AS");
    append_dec(&mut s, 65001);
    assert_eq!(s, "AS65001");
}

#[test]
fn hex_text_is_lower_case_without_leading_zeros() {
    let mut s = String::new();
    append_hex(&mut s, 0);
    s.push(':');
    append_hex(&mut s, 0x0db8);
    s.push(':');
    append_hex(&mut s, 0xABCD);
    assert_eq!(s, "0:db8:abcd");
}

#[test]
fn ipv4_dotted_quad() {
    assert_eq!(ipv4_string(&[192, 0, 2, 1]), "192.0.2.1");
    assert_eq!(ipv4_string(&[0, 0, 0, 0]), "0.0.0.0");
    assert_eq!(ipv4_string(&[255, 255, 255, 255]), "255.255.255.255");
}

#[test]
fn ipv6_compresses_longest_zero_run() {
    assert_eq!(ipv6_string(&v6([0; 8])), "::");
    assert_eq!(ipv6_string(&v6([0, 0, 0, 0, 0, 0, 0, 1])), "::1");
    assert_eq!(ipv6_string(&v6([0x2001, 0xdb8, 0, 0, 0, 0, 0, 1])), "2001:db8::1");
    assert_eq!(ipv6_string(&v6([1, 0, 0, 2, 0, 0, 0, 3])), "1:0:0:2::3");
    assert_eq!(ipv6_string(&v6([1, 0, 0, 2, 0, 0, 3, 4])), "1::2:0:0:3:4");
    assert_eq!(ipv6_string(&v6([0x2001, 0xdb8, 0, 1, 1, 1, 1, 1])), "2001:db8:0:1:1:1:1:1");
    assert_eq!(ipv6_string(&v6([0x2001, 0xdb8, 0, 0, 0, 0, 0, 0])), "2001:db8::");
}

#[test]
fn ipv6_text_follows_rfc_5952() {
    let cases: Vec<([u16; 8], &str)> = vec![
        ([0, 0, 0, 0, 0, 0, 0xc000, 0x0201], "::c000:201"),
        ([0xfe80, 0, 0, 0, 0x1, 0x2, 0x3, 0x4], "fe80::1:2:3:4"),
        ([0x2a00, 0x1450, 0x4001, 0x80b, 0, 0, 0, 0x200e], "2a00:1450:4001:80b::200e"),
        ([1, 2, 3, 4, 5, 6, 7, 8], "1:2:3:4:5:6:7:8"),
        ([0, 1, 0, 1, 0, 1, 0, 1], "0:1:0:1:0:1:0:1"),
        ([0, 0, 1, 0, 0, 0, 1, 0], "0:0:1::1:0"),
    ];
    for (g, expected) in cases {
        assert_eq!(ipv6_string(&v6(g)), expected);
    }
}

#[test]
fn ipv4_mapped_ipv6_uses_dotted_tail() {
    assert_eq!(ipv6_string(&v6([0, 0, 0, 0, 0, 0xffff, 0xc000, 0x0201])), "::ffff:192.0.2.1");
}

#[test]
fn big_endian_fields() {
    let data = [0u8, 1, 2, 3, 4, 5, 6, 7, 8, 9, 10, 11, 12, 13, 14, 15, 16];
    assert_eq!(get_u16(&data, 1), 0x0102);
    assert_eq!(get_u32(&data, 2), 0x02030405);
    assert_eq!(get_u128(&data, 1), 0x0102030405060708090a0b0c0d0e0f10);
}
