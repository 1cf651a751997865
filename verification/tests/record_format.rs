use bgp_analyzer::bgp_extract::{AsPathSegment, BgpExtractor, BgpPrefix};
use bgp_analyzer::error::DecodeError;
use bgp_analyzer::mrt_parser::{
    Bgp4MpSubtype, MrtParser, MrtType, PeerIndexTable, PeerIp, TableDumpV2Subtype,
};

fn be16(v: u16) -> Vec<u8> {
    v.to_be_bytes().to_vec()
}

fn be32(v: u32) -> Vec<u8> {
    v.to_be_bytes().to_vec()
}

fn record(timestamp: u32, mrt_type: u16, subtype: u16, body: &[u8]) -> Vec<u8> {
    let mut r = be32(timestamp);
    r.extend(be16(mrt_type));
    r.extend(be16(subtype));
    r.extend(be32(body.len() as u32));
    r.extend_from_slice(body);
    r
}

fn attr(flags: u8, code: u8, body: &[u8]) -> Vec<u8> {
    let mut a = vec![flags, code, body.len() as u8];
    a.extend_from_slice(body);
    a
}

fn as_path_attr(seg_type: u8, asns: &[u32]) -> Vec<u8> {
    let mut body = vec![seg_type, asns.len() as u8];
    for a in asns {
        body.extend(be32(*a));
    }
    attr(0x40, 2, &body)
}

/// A BGP UPDATE message with the given path attributes and IPv4 NLRI.
fn update_message(attrs: &[u8], nlri: &[u8]) -> Vec<u8> {
    let mut m = vec![0xFFu8; 16];
    let total = 19 + 2 + 2 + attrs.len() + nlri.len();
    m.extend(be16(total as u16));
    m.push(2);
    m.extend(be16(0));
    m.extend(be16(attrs.len() as u16));
    m.extend_from_slice(attrs);
    m.extend_from_slice(nlri);
    m
}

/// A BGP4MP MESSAGE_AS4 body: peer AS, local AS, interface, IPv4 peer
/// address, then the message.
fn bgp4mp_as4_body(peer_as: u32, local_as: u32, message: &[u8]) -> Vec<u8> {
    let mut b = be32(peer_as);
    b.extend(be32(local_as));
    b.extend(be16(0));
    b.extend(be16(1));
    b.extend([192, 0, 2, 254]);
    b.extend_from_slice(message);
    b
}

#[test]
fn header_is_read_big_endian() {
    let rec = record(1_700_000_000, 16, 4, &[1, 2, 3]);
    let h = MrtParser::parse_header(&rec, 0).unwrap();
    assert_eq!(h.timestamp, 1_700_000_000);
    assert_eq!(h.mrt_type, MrtType::Bgp4Mp);
    assert_eq!(h.subtype, 4);
    assert_eq!(h.length, 3);
    assert_eq!(h.microsecond_timestamp, None);
}

#[test]
fn short_header_is_unexpected_eof() {
    let rec = record(1, 13, 2, &[]);
    assert!(matches!(MrtParser::parse_header(&rec[..11], 0), Err(DecodeError::UnexpectedEof)));
    assert!(matches!(MrtParser::parse_header(&rec, 1), Err(DecodeError::UnexpectedEof)));
}

#[test]
fn type_codes_map_to_variants() {
    assert_eq!(MrtType::from(13), MrtType::TableDumpV2);
    assert_eq!(MrtType::from(17), MrtType::Bgp4MpEt);
    assert_eq!(MrtType::from(99), MrtType::Unknown(99));
    assert_eq!(TableDumpV2Subtype::from(1), TableDumpV2Subtype::PeerIndexTable);
    assert_eq!(TableDumpV2Subtype::from(4), TableDumpV2Subtype::RibIpv6Unicast);
    assert_eq!(TableDumpV2Subtype::from(7), TableDumpV2Subtype::Unknown(7));
    assert_eq!(Bgp4MpSubtype::from(4), Bgp4MpSubtype::MessageAs4);
    assert_eq!(Bgp4MpSubtype::from(0), Bgp4MpSubtype::StateChange);
}

#[test]
fn records_are_framed_until_a_truncated_one() {
    let mut data = record(10, 13, 2, &[1, 2, 3, 4]);
    data.extend(record(11, 16, 4, &[9]));
    // A third header announces more body than is left.
    let mut third = record(12, 16, 4, &[7, 7, 7, 7]);
    third.truncate(14);
    data.extend(third);

    let spans = MrtParser::stream_records(&data).unwrap();
    assert_eq!(spans.len(), 2);
    assert_eq!(spans[0].offset, 12);
    assert_eq!(spans[0].body(&data), &[1, 2, 3, 4]);
    assert_eq!(spans[1].header.timestamp, 11);
    assert_eq!(spans[1].body(&data), &[9]);

    let records = MrtParser::parse_records(&data).unwrap();
    assert_eq!(records.len(), 2);
    assert_eq!(records[0].header.mrt_type, MrtType::TableDumpV2);
    assert_eq!(records[0].data, vec![1, 2, 3, 4]);
    assert_eq!(records[1].data, vec![9]);
}

#[test]
fn framing_and_copying_agree() {
    let mut data = record(1, 16, 4, &[5, 6]);
    data.extend(record(2, 13, 2, &[]));
    data.extend(record(3, 17, 1, &[8, 8, 8]));
    let spans = MrtParser::stream_records(&data).unwrap();
    let records = MrtParser::parse_records(&data).unwrap();
    assert_eq!(spans.len(), records.len());
    for (s, r) in spans.iter().zip(records.iter()) {
        assert_eq!(s.header.timestamp, r.header.timestamp);
        assert_eq!(s.body(&data), r.data.as_slice());
    }
}

#[test]
fn peer_index_table_decodes_both_families() {
    let mut body = be32(0x0A000001);
    body.extend(be16(3));
    body.extend(b"rv2");
    body.extend(be16(2));
    // IPv4 peer, two-byte AS.
    body.push(0);
    body.extend(be32(0xC0000201));
    body.extend([192, 0, 2, 1]);
    body.extend(be16(64512));
    // IPv6 peer, four-byte AS.
    body.push(3);
    body.extend(be32(7));
    let v6: [u8; 16] = [0x20, 0x01, 0x0d, 0xb8, 0, 0, 0, 0, 0, 0, 0, 0, 0, 0, 0, 1];
    body.extend(v6);
    body.extend(be32(4_200_000_000));

    let t = PeerIndexTable::parse(&body).unwrap();
    assert_eq!(t.collector_bgp_id, 0x0A000001);
    assert_eq!(t.view_name, "rv2");
    assert_eq!(t.peers.len(), 2);
    assert_eq!(t.peers[0].peer_bgp_id, 0xC0000201);
    assert_eq!(t.peers[0].peer_as, 64512);
    assert_eq!(t.peers[0].peer_ip, PeerIp::V4(0xC0000201));
    assert_eq!(t.peers[1].peer_as, 4_200_000_000);
    assert_eq!(t.peers[1].peer_ip, PeerIp::V6(u128::from_be_bytes(v6)));
}

#[test]
fn peer_index_table_view_name_is_read_lossily() {
    let mut body = be32(1);
    body.extend(be16(3));
    body.extend([b'a', 0xFF, b'b']);
    body.extend(be16(0));
    let t = PeerIndexTable::parse(&body).unwrap();
    assert_eq!(t.view_name, "a\u{FFFD}b");
    assert!(t.peers.is_empty());
}

#[test]
fn truncated_peer_index_table_is_unexpected_eof() {
    let mut body = be32(1);
    body.extend(be16(0));
    body.extend(be16(1));
    body.push(0);
    body.extend(be32(5));
    body.extend([10, 0]);
    assert!(matches!(PeerIndexTable::parse(&body), Err(DecodeError::UnexpectedEof)));
    assert!(matches!(PeerIndexTable::parse(&body[..5]), Err(DecodeError::UnexpectedEof)));
}

#[test]
fn bgp4mp_update_is_extracted() {
    let mut attrs = attr(0x40, 1, &[0]);
    attrs.extend(as_path_attr(1, &[65001, 65002, 65003]));
    attrs.extend(attr(0x40, 3, &[192, 0, 2, 1]));
    let msg = update_message(&attrs, &[24, 10, 0, 0, 16, 172, 16]);
    let body = bgp4mp_as4_body(65001, 64999, &msg);
    let rec = record(1234, 16, 4, &body);
    let header = MrtParser::parse_header(&rec, 0).unwrap();
    let update = BgpExtractor::extract_from_record(&header, &rec[12..]).unwrap().unwrap();

    let announced: Vec<String> = update.announced_prefixes.iter().map(|p| p.cidr()).collect();
    assert_eq!(announced, vec!["10.0.0.0/24".to_string(), "172.16.0.0/16".to_string()]);
    assert!(update.withdrawn_prefixes.is_empty());
    assert_eq!(update.as_path.len(), 1);
    assert_eq!(update.as_path[0].asns, vec![65001, 65002, 65003]);
    assert_eq!(update.origin_as, Some(65003));
    assert_eq!(update.next_hop, Some("192.0.2.1".to_string()));
    assert_eq!(update.peer_as, Some(65001));
    assert_eq!(update.source_as, Some(64999));
    assert_eq!(update.timestamp, 1234);
}

#[test]
fn non_update_messages_and_state_changes_give_none() {
    // A KEEPALIVE (type 4) message.
    let mut keepalive = vec![0xFFu8; 16];
    keepalive.extend(be16(19));
    keepalive.push(4);
    let body = bgp4mp_as4_body(1, 2, &keepalive);
    let rec = record(1, 16, 4, &body);
    let header = MrtParser::parse_header(&rec, 0).unwrap();
    assert!(BgpExtractor::extract_from_record(&header, &rec[12..]).unwrap().is_none());

    let state = record(1, 16, 0, &[0, 1, 0, 2]);
    let header = MrtParser::parse_header(&state, 0).unwrap();
    assert!(BgpExtractor::extract_from_record(&header, &state[12..]).unwrap().is_none());

    let other = record(1, 12, 0, &[]);
    let header = MrtParser::parse_header(&other, 0).unwrap();
    assert!(BgpExtractor::extract_from_record(&header, &other[12..]).unwrap().is_none());
}

#[test]
fn rib_entry_is_extracted_with_its_prefix() {
    let mut attrs = as_path_attr(1, &[3356, 1299, 13335]);
    attrs.extend(attr(0x40, 3, &[203, 0, 113, 9]));
    let mut body = be32(42);
    body.extend([22, 198, 51, 100]);
    body.extend(be16(1));
    body.extend(be16(0));
    body.extend(be32(1_600_000_000));
    body.extend(be16(attrs.len() as u16));
    body.extend(attrs);
    let rec = record(99, 13, 2, &body);
    let header = MrtParser::parse_header(&rec, 0).unwrap();
    let update = BgpExtractor::extract_table_dump_v2(&header, &rec[12..]).unwrap().unwrap();
    assert_eq!(update.announced_prefixes.len(), 1);
    assert_eq!(update.announced_prefixes[0].cidr(), "198.51.100.0/22");
    assert_eq!(update.origin_as, Some(13335));
    assert_eq!(update.next_hop, Some("203.0.113.9".to_string()));
    assert_eq!(update.peer_as, None);
    assert_eq!(update.timestamp, 99);

    // A RIB entry without entries carries nothing.
    let mut empty = be32(1);
    empty.extend([8, 10]);
    empty.extend(be16(0));
    let rec = record(1, 13, 2, &empty);
    let header = MrtParser::parse_header(&rec, 0).unwrap();
    assert!(BgpExtractor::extract_table_dump_v2(&header, &rec[12..]).unwrap().is_none());
}

#[test]
fn ipv6_rib_prefix_uses_compressed_text() {
    let mut attrs = as_path_attr(1, &[6939, 2914]);
    attrs.extend(attr(0x40, 1, &[0]));
    let mut body = be32(7);
    body.extend([32, 0x20, 0x01, 0x0d, 0xb8]);
    body.extend(be16(1));
    body.extend(be16(0));
    body.extend(be32(0));
    body.extend(be16(attrs.len() as u16));
    body.extend(attrs);
    let rec = record(5, 13, 4, &body);
    let header = MrtParser::parse_header(&rec, 0).unwrap();
    let update = BgpExtractor::extract_from_record(&header, &rec[12..]).unwrap().unwrap();
    assert_eq!(update.announced_prefixes[0].cidr(), "2001:db8::/32");
    assert_eq!(update.origin_as, Some(2914));
}

#[test]
fn mp_reach_prefixes_replace_the_nlri() {
    let mut mp = be16(2);
    mp.push(1);
    mp.push(16);
    mp.extend([0x20, 0x01, 0x0d, 0xb8, 0, 0, 0, 0, 0, 0, 0, 0, 0, 0, 0, 1]);
    mp.extend([48, 0x2a, 0x00, 0x14, 0x50, 0x40, 0x01]);
    let listed = BgpExtractor::parse_mp_reach_nlri(&mp).unwrap().unwrap();
    assert_eq!(listed.len(), 1);
    assert_eq!(listed[0].cidr(), "2a00:1450:4001::/48");

    let mut attrs = as_path_attr(1, &[15169]);
    attrs.extend(attr(0x80, 14, &mp));
    let msg = update_message(&attrs, &[24, 10, 1, 2]);
    let body = bgp4mp_as4_body(15169, 6447, &msg);
    let rec = record(8, 16, 4, &body);
    let header = MrtParser::parse_header(&rec, 0).unwrap();
    let update = BgpExtractor::extract_from_record(&header, &rec[12..]).unwrap().unwrap();
    assert_eq!(update.announced_prefixes.len(), 1);
    assert_eq!(update.announced_prefixes[0].cidr(), "2a00:1450:4001::/48");
}

#[test]
fn mp_reach_without_nlri_is_none() {
    let mut mp = be16(2);
    mp.push(1);
    mp.push(4);
    mp.extend([1, 2, 3, 4]);
    assert!(BgpExtractor::parse_mp_reach_nlri(&mp).unwrap().is_none());
    assert!(BgpExtractor::parse_mp_reach_nlri(&[0, 1, 1]).unwrap().is_none());
}

#[test]
fn nlri_prefix_errors() {
    assert!(matches!(
        BgpExtractor::parse_nlri_prefixes(&[33, 1, 2, 3, 4, 5], true),
        Err(DecodeError::PrefixTooLong)
    ));
    assert!(matches!(
        BgpExtractor::parse_nlri_prefixes(&[24, 10, 0], true),
        Err(DecodeError::UnexpectedEof)
    ));
    let ok = BgpExtractor::parse_nlri_prefixes(&[0, 32, 8, 8, 8, 8], true).unwrap();
    assert_eq!(ok.len(), 2);
    assert_eq!(ok[0].cidr(), "0.0.0.0/0");
    assert_eq!(ok[1].cidr(), "8.8.8.8/32");
}

#[test]
fn overlong_withdrawn_routes_is_fatal() {
    let mut m = vec![0xFFu8; 16];
    m.extend(be16(23));
    m.push(2);
    m.extend(be16(200));
    m.extend(be16(0));
    let body = bgp4mp_as4_body(1, 2, &m);
    let rec = record(1, 16, 4, &body);
    let header = MrtParser::parse_header(&rec, 0).unwrap();
    let err = BgpExtractor::extract_from_record(&header, &rec[12..]).unwrap_err();
    assert!(matches!(err, DecodeError::LengthOutOfRange));
    assert!(err.is_fatal());
    assert!(DecodeError::PrefixTooLong.is_fatal());
    assert!(!DecodeError::UnexpectedEof.is_fatal());
}

#[test]
fn flatten_keeps_sequences_and_first_of_sets() {
    let path = vec![
        AsPathSegment { segment_type: 1, asns: vec![1, 2] },
        AsPathSegment { segment_type: 2, asns: vec![9, 8, 7] },
        AsPathSegment { segment_type: 3, asns: vec![5] },
        AsPathSegment { segment_type: 1, asns: vec![3] },
    ];
    assert_eq!(BgpExtractor::flatten_as_path(&path), vec![1, 2, 9, 3]);
    assert_eq!(BgpExtractor::extract_origin_as(&path), Some(3));
    assert!(path[1].is_as_set());
    assert!(path[0].is_as_sequence());
    assert!(!path[2].is_as_set());
}

#[test]
fn origin_is_last_as_of_last_nonempty_sequence() {
    let path = vec![
        AsPathSegment { segment_type: 1, asns: vec![10, 20] },
        AsPathSegment { segment_type: 2, asns: vec![30, 40] },
        AsPathSegment { segment_type: 1, asns: vec![] },
    ];
    let origin = BgpExtractor::extract_origin_as(&path);
    assert_eq!(origin, Some(20));
    // The origin lies on the flattened path.
    assert!(BgpExtractor::flatten_as_path(&path).contains(&origin.unwrap()));
    assert_eq!(BgpExtractor::extract_origin_as(&[]), None);
}

#[test]
fn cidr_notation() {
    let p = BgpPrefix::new("192.168.0.0".to_string(), 16);
    assert_eq!(p.cidr(), "192.168.0.0/16");
    assert_eq!(p.prefix, "192.168.0.0");
    assert_eq!(p.prefix_len, 16);
}

#[test]
fn rib_entry_ignores_what_follows_its_first_entry() {
    let mut attrs = as_path_attr(1, &[3356, 13335]);
    attrs.extend(attr(0x40, 3, &[203, 0, 113, 9]));
    let mut body = be32(42);
    body.extend([24, 198, 51, 100]);
    body.extend(be16(2));
    body.extend(be16(0));
    body.extend(be32(0));
    body.extend(be16(attrs.len() as u16));
    body.extend(attrs);
    let mut longer = body.clone();
    // A second entry with another path, and then stray bytes.
    longer.extend(be16(1));
    longer.extend(be32(0));
    let other = as_path_attr(1, &[1, 2, 3]);
    longer.extend(be16(other.len() as u16));
    longer.extend(other);
    longer.extend([0xAB, 0xCD]);
    let short_rec = record(7, 13, 2, &body);
    let long_rec = record(7, 13, 2, &longer);
    let h1 = MrtParser::parse_header(&short_rec, 0).unwrap();
    let h2 = MrtParser::parse_header(&long_rec, 0).unwrap();
    let a = BgpExtractor::extract_from_record(&h1, &short_rec[12..]).unwrap().unwrap();
    let b = BgpExtractor::extract_from_record(&h2, &long_rec[12..]).unwrap().unwrap();
    assert_eq!(a.origin_as, Some(13335));
    assert_eq!(b.origin_as, Some(13335));
    assert_eq!(a.as_path[0].asns, b.as_path[0].asns);
    assert_eq!(b.announced_prefixes[0].cidr(), "198.51.100.0/24");
}

#[test]
fn rib_entry_parser_reads_only_the_first_entry() {
    let attrs = as_path_attr(1, &[64500, 64501]);
    let mut body = be32(1);
    body.extend([16, 10, 20]);
    body.extend(be16(3));
    body.extend(be16(0));
    body.extend(be32(0));
    body.extend(be16(attrs.len() as u16));
    body.extend(attrs);
    let mut longer = body.clone();
    longer.extend([1, 2, 3, 4, 5]);
    let rec = record(3, 13, 2, &body);
    let header = MrtParser::parse_header(&rec, 0).unwrap();
    let st = TableDumpV2Subtype::RibIpv4Unicast;
    let a = BgpExtractor::parse_rib_entry(&header, &body, &st).unwrap().unwrap();
    let b = BgpExtractor::parse_rib_entry(&header, &longer, &st).unwrap().unwrap();
    assert_eq!(a.origin_as, Some(64501));
    assert_eq!(b.origin_as, Some(64501));
    assert_eq!(b.announced_prefixes[0].cidr(), "10.20.0.0/16");
    // No entries: nothing.
    let mut none = be32(1);
    none.extend([16, 10, 20]);
    none.extend(be16(0));
    assert!(BgpExtractor::parse_rib_entry(&header, &none, &st).unwrap().is_none());
}
