use std::io::Write;

use bgp_analyzer::bgp_extract::{AsPathSegment, BgpExtractor, BgpPrefix, BgpUpdate};
use bgp_analyzer::parallel_processor::{CountError, ParallelProcessor};
use bgp_analyzer::topology::AsTopology;

fn update(prefixes: &[(&str, u8)], path: &[u32]) -> BgpUpdate {
    let as_path = vec![AsPathSegment { segment_type: 1, asns: path.to_vec() }];
    let origin_as = BgpExtractor::extract_origin_as(&as_path);
    BgpUpdate {
        announced_prefixes: prefixes.iter().map(|(p, l)| BgpPrefix::new(p.to_string(), *l)).collect(),
        withdrawn_prefixes: Vec::new(),
        as_path,
        origin_as,
        next_hop: None,
        source_as: None,
        peer_as: None,
        timestamp: 0,
    }
}

fn be16(v: u16) -> Vec<u8> {
    v.to_be_bytes().to_vec()
}

fn be32(v: u32) -> Vec<u8> {
    v.to_be_bytes().to_vec()
}

fn rib_record(prefix: [u8; 3], path: &[u32]) -> Vec<u8> {
    let mut seg = vec![1u8, path.len() as u8];
    for a in path {
        seg.extend(be32(*a));
    }
    let mut attrs = vec![0x40u8, 2, seg.len() as u8];
    attrs.extend(seg);
    let mut body = be32(1);
    body.push(24);
    body.extend(prefix);
    body.extend(be16(1));
    body.extend(be16(0));
    body.extend(be32(0));
    body.extend(be16(attrs.len() as u16));
    body.extend(attrs);
    let mut r = be32(100);
    r.extend(be16(13));
    r.extend(be16(2));
    r.extend(be32(body.len() as u32));
    r.extend(body);
    r
}

#[test]
fn new_processor_is_empty() {
    let p = ParallelProcessor::new();
    assert_eq!(p.unique_prefix_count(), 0);
    assert_eq!(p.unique_asn_count(), 0);
    assert_eq!(p.get_asn_degree_map().unwrap().len(), 0);
}

#[test]
fn updates_fill_the_three_tables() {
    let mut p = ParallelProcessor::new();
    let n = p
        .ingest_updates(vec![
            update(&[("10.0.0.0", 8)], &[1, 2, 3]),
            update(&[("10.0.0.0", 8), ("192.0.2.0", 24)], &[4, 2, 3]),
            update(&[], &[]),
        ])
        .unwrap();
    // Two of the three updates have a non-empty path.
    assert_eq!(n, 2);
    assert_eq!(p.unique_prefix_count(), 2);
    // Origins: AS3 (twice); the update without a path has none.
    assert_eq!(p.unique_asn_count(), 1);
    assert_eq!(p.all_updates.get(&3).unwrap().len(), 2);
    assert_eq!(*p.prefix_as_map.get("10.0.0.0/8").unwrap(), vec![1, 2, 3, 4, 2, 3]);
    assert_eq!(*p.prefix_as_map.get("192.0.2.0/24").unwrap(), vec![4, 2, 3]);
    assert_eq!(*p.as_link_counts.get(&(2, 3)).unwrap(), 2);
    assert_eq!(*p.as_link_counts.get(&(1, 2)).unwrap(), 1);
    assert_eq!(*p.as_link_counts.get(&(4, 2)).unwrap(), 1);
    assert_eq!(p.as_link_counts.len(), 3);
}

#[test]
fn degree_counts_both_ends_of_each_link() {
    let mut p = ParallelProcessor::new();
    p.ingest_updates(vec![update(&[], &[1, 2, 3]), update(&[], &[1, 2]), update(&[], &[5, 5])]).unwrap();
    let d = p.get_asn_degree_map().unwrap();
    assert_eq!(*d.get(&1).unwrap(), 2);
    assert_eq!(*d.get(&2).unwrap(), 3);
    assert_eq!(*d.get(&3).unwrap(), 1);
    // A link from an AS to itself counts twice.
    assert_eq!(*d.get(&5).unwrap(), 2);
    assert!(d.get(&4).is_none());
    // The degrees add up to twice the link counts.
    let degree_sum: u64 = d.iter().map(|e| *e.value()).sum();
    let link_sum: u64 = p.as_link_counts.iter().map(|e| *e.value()).sum();
    assert_eq!(degree_sum, 2 * link_sum);
}

#[test]
fn record_update_reports_whether_the_path_is_empty() {
    let mut p = ParallelProcessor::new();
    assert_eq!(p.record_update(update(&[("10.0.0.0", 8)], &[7, 8])), Ok(true));
    assert_eq!(p.record_update(update(&[("10.0.0.0", 8)], &[])), Ok(false));
    assert_eq!(*p.prefix_as_map.get("10.0.0.0/8").unwrap(), vec![7, 8]);
}

#[test]
fn link_count_overflow_is_refused_and_changes_nothing() {
    let mut p = ParallelProcessor::new();
    p.as_link_counts.insert((1, 2), u64::MAX);
    let r = p.record_update(update(&[("10.0.0.0", 8)], &[1, 2]));
    assert_eq!(r, Err(CountError::CounterOverflow));
    assert_eq!(p.unique_prefix_count(), 0);
    assert_eq!(*p.as_link_counts.get(&(1, 2)).unwrap(), u64::MAX);
    let r = p.ingest_updates(vec![update(&[], &[3, 4]), update(&[], &[1, 2]), update(&[], &[5, 6])]);
    assert_eq!(r, Err(CountError::CounterOverflow));
    // The run before the refused update is recorded, the rest is not.
    assert!(p.as_link_counts.get(&(3, 4)).is_some());
    assert!(p.as_link_counts.get(&(5, 6)).is_none());
}

#[test]
fn degree_overflow_is_reported() {
    let mut p = ParallelProcessor::new();
    p.as_link_counts.insert((1, 2), u64::MAX);
    p.as_link_counts.insert((3, 2), 1);
    assert!(matches!(p.get_asn_degree_map(), Err(CountError::CounterOverflow)));
    assert!(matches!(AsTopology::build_from_processor(&p), Err(CountError::CounterOverflow)));
}

#[test]
fn file_images_are_decoded_record_by_record() {
    let mut data = rib_record([10, 1, 2], &[100, 200]);
    data.extend(rib_record([10, 3, 4], &[300]));
    let f = ParallelProcessor::extract_updates(&data).unwrap();
    assert_eq!(f.total_records, 2);
    assert_eq!(f.updates.len(), 2);
    assert_eq!(f.updates[0].announced_prefixes[0].cidr(), "10.1.2.0/24");
    assert_eq!(f.updates[1].origin_as, Some(300));
    let mut p = ParallelProcessor::new();
    assert_eq!(p.ingest_updates(f.updates).unwrap(), 2);
    assert_eq!(p.unique_prefix_count(), 2);
}

fn wrap13(body: Vec<u8>) -> Vec<u8> {
    let mut r = be32(1);
    r.extend(be16(13));
    r.extend(be16(2));
    r.extend(be32(body.len() as u32));
    r.extend(body);
    r
}

#[test]
fn truncated_rib_record_is_skipped() {
    // A RIB body too short for its prefix length field only drops the record.
    let mut data = wrap13(be32(1));
    data.extend(rib_record([10, 9, 9], &[9]));
    let f = ParallelProcessor::extract_updates(&data).unwrap();
    assert_eq!(f.total_records, 2);
    assert_eq!(f.updates.len(), 1);
    assert_eq!(f.updates[0].origin_as, Some(9));
}

#[test]
fn attributes_past_the_record_end_stop_the_file() {
    let mut body = be32(1);
    body.extend([24, 10, 0, 0]);
    body.extend(be16(1));
    body.extend(be16(0));
    body.extend(be32(0));
    body.extend(be16(50));
    body.push(0x40);
    let f = ParallelProcessor::extract_updates(&wrap13(body));
    assert!(matches!(f, Err(bgp_analyzer::error::DecodeError::LengthOutOfRange)));
}

#[test]
fn file_images_are_decompressed_by_magic_bytes() {
    let plain = rib_record([10, 1, 2], &[100, 200]);

    let mut gz = flate2::write::GzEncoder::new(Vec::new(), flate2::Compression::default());
    gz.write_all(&plain).unwrap();
    let gz_bytes = gz.finish().unwrap();
    assert_eq!(&gz_bytes[..2], &[0x1F, 0x8B]);
    assert_eq!(ParallelProcessor::decode_file_image(&gz_bytes), Some(plain.clone()));

    let mut bz = bzip2::write::BzEncoder::new(Vec::new(), bzip2::Compression::default());
    bz.write_all(&plain).unwrap();
    let bz_bytes = bz.finish().unwrap();
    assert_eq!(&bz_bytes[..2], b"BZ");
    assert_eq!(ParallelProcessor::decode_file_image(&bz_bytes), Some(plain.clone()));

    // Anything else is taken as it is.
    assert_eq!(ParallelProcessor::decode_file_image(&plain), Some(plain.clone()));
    assert_eq!(ParallelProcessor::decode_file_image(&[0x1F]), Some(vec![0x1F]));

    // A gzip magic without a valid stream cannot be decompressed.
    assert_eq!(ParallelProcessor::decode_file_image(&[0x1F, 0x8B, 0, 0, 0]), None);
    assert_eq!(ParallelProcessor::decode_file_image(b"BZh9garbage"), None);
}
