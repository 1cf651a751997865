//! MRT (RFC 6396) record framing and the TABLE_DUMP_V2 peer index table.
use vstd::prelude::*;

use crate::error::DecodeError;
use crate::wire::{be128, be16, be32, get_u128, get_u16, get_u32};

verus! {

/// Size of the common MRT header: timestamp, type, subtype, length.
pub const MRT_HEADER_LEN: usize = 12;

/// The MRT record type of the common header.
#[derive(Debug, Clone, Copy, PartialEq, Eq, Structural)]
pub enum MrtType {
    TableDumpV2,
    Bgp4Mp,
    Bgp4MpEt,
    Unknown(u16),
}

impl MrtType {
    /// The record type a raw type code stands for.
    pub open spec fn spec_from_code(v: u16) -> MrtType {
        if v == 13 {
            MrtType::TableDumpV2
        } else if v == 16 {
            MrtType::Bgp4Mp
        } else if v == 17 {
            MrtType::Bgp4MpEt
        } else {
            MrtType::Unknown(v)
        }
    }
}

impl From<u16> for MrtType {
    fn from(v: u16) -> (r: Self) {
        match v {
            13 => MrtType::TableDumpV2,
            16 => MrtType::Bgp4Mp,
            17 => MrtType::Bgp4MpEt,
            _ => MrtType::Unknown(v),
        }
    }
}

impl vstd::std_specs::convert::FromSpecImpl<u16> for MrtType {
    open spec fn obeys_from_spec() -> bool {
        true
    }

    open spec fn from_spec(v: u16) -> MrtType {
        MrtType::spec_from_code(v)
    }
}

/// Subtypes of TABLE_DUMP_V2 records.
#[derive(Debug, Clone, Copy, PartialEq, Eq, Structural)]
pub enum TableDumpV2Subtype {
    PeerIndexTable,
    RibIpv4Unicast,
    RibIpv4Multicast,
    RibIpv6Unicast,
    RibIpv6Multicast,
    RibGeneric,
    Unknown(u16),
}

impl TableDumpV2Subtype {
    /// The subtype a raw subtype code stands for.
    pub open spec fn spec_from_code(v: u16) -> TableDumpV2Subtype {
        if v == 1 {
            TableDumpV2Subtype::PeerIndexTable
        } else if v == 2 {
            TableDumpV2Subtype::RibIpv4Unicast
        } else if v == 3 {
            TableDumpV2Subtype::RibIpv4Multicast
        } else if v == 4 {
            TableDumpV2Subtype::RibIpv6Unicast
        } else if v == 5 {
            TableDumpV2Subtype::RibIpv6Multicast
        } else if v == 6 {
            TableDumpV2Subtype::RibGeneric
        } else {
            TableDumpV2Subtype::Unknown(v)
        }
    }
}

impl From<u16> for TableDumpV2Subtype {
    fn from(v: u16) -> (r: Self) {
        match v {
            1 => TableDumpV2Subtype::PeerIndexTable,
            2 => TableDumpV2Subtype::RibIpv4Unicast,
            3 => TableDumpV2Subtype::RibIpv4Multicast,
            4 => TableDumpV2Subtype::RibIpv6Unicast,
            5 => TableDumpV2Subtype::RibIpv6Multicast,
            6 => TableDumpV2Subtype::RibGeneric,
            _ => TableDumpV2Subtype::Unknown(v),
        }
    }
}

impl vstd::std_specs::convert::FromSpecImpl<u16> for TableDumpV2Subtype {
    open spec fn obeys_from_spec() -> bool {
        true
    }

    open spec fn from_spec(v: u16) -> TableDumpV2Subtype {
        TableDumpV2Subtype::spec_from_code(v)
    }
}

/// Subtypes of BGP4MP / BGP4MP_ET records.
#[derive(Debug, Clone, Copy, PartialEq, Eq, Structural)]
pub enum Bgp4MpSubtype {
    StateChange,
    StateChangeAs4,
    Message,
    MessageAs4,
    MessageLocal,
    MessageLocalAs4,
    Unknown(u16),
}

impl Bgp4MpSubtype {
    /// The subtype a raw subtype code stands for.
    pub open spec fn spec_from_code(v: u16) -> Bgp4MpSubtype {
        if v == 0 {
            Bgp4MpSubtype::StateChange
        } else if v == 1 {
            Bgp4MpSubtype::StateChangeAs4
        } else if v == 2 {
            Bgp4MpSubtype::Message
        } else if v == 3 {
            Bgp4MpSubtype::MessageLocal
        } else if v == 4 {
            Bgp4MpSubtype::MessageAs4
        } else if v == 5 {
            Bgp4MpSubtype::MessageLocalAs4
        } else {
            Bgp4MpSubtype::Unknown(v)
        }
    }
}

impl From<u16> for Bgp4MpSubtype {
    fn from(v: u16) -> (r: Self) {
        match v {
            0 => Bgp4MpSubtype::StateChange,
            1 => Bgp4MpSubtype::StateChangeAs4,
            2 => Bgp4MpSubtype::Message,
            3 => Bgp4MpSubtype::MessageLocal,
            4 => Bgp4MpSubtype::MessageAs4,
            5 => Bgp4MpSubtype::MessageLocalAs4,
            _ => Bgp4MpSubtype::Unknown(v),
        }
    }
}

impl vstd::std_specs::convert::FromSpecImpl<u16> for Bgp4MpSubtype {
    open spec fn obeys_from_spec() -> bool {
        true
    }

    open spec fn from_spec(v: u16) -> Bgp4MpSubtype {
        Bgp4MpSubtype::spec_from_code(v)
    }
}

/// The common header of an MRT record.
#[derive(Debug)]
pub struct MrtHeader {
    pub timestamp: u32,
    pub microsecond_timestamp: Option<u32>,
    pub mrt_type: MrtType,
    pub subtype: u16,
    pub length: u32,
}

/// A whole MRT record: its header and a copy of its body.
#[derive(Debug)]
pub struct MrtRecord {
    pub header: MrtHeader,
    pub data: Vec<u8>,
}

/// Where a record sits in the buffer it was framed from: its header and the
/// offset of its body, which is `header.length` bytes long.
#[derive(Debug)]
pub struct RecordSpan {
    pub header: MrtHeader,
    pub offset: usize,
}

impl RecordSpan {
    /// The body of this record inside `data`.
    pub fn body<'a>(&self, data: &'a [u8]) -> (r: &'a [u8])
        requires
            self.offset + self.header.length <= data@.len(),
        ensures
            r@ == data@.subrange(self.offset as int, self.offset + self.header.length),
    {
        let _n = data.len();
        let end = self.offset + self.header.length as usize;
        &data[self.offset..end]
    }
}

/// The header stored at `s[p..p + 12]`.
pub open spec fn spec_header_at(s: Seq<u8>, p: int) -> MrtHeader {
    MrtHeader {
        timestamp: be32(s, p) as u32,
        microsecond_timestamp: None,
        mrt_type: MrtType::spec_from_code(be16(s, p + 4) as u16),
        subtype: be16(s, p + 6) as u16,
        length: be32(s, p + 8) as u32,
    }
}

/// The records found from position `p` on: each a header and the offset of
/// its body. Framing stops at the first header that does not fit, or whose
/// body runs past the end of the buffer.
pub open spec fn spec_frames_from(s: Seq<u8>, p: int) -> Seq<(MrtHeader, int)>
    decreases s.len() - p,
{
    if 0 <= p && p + 12 <= s.len() {
        let h = spec_header_at(s, p);
        let end = p + 12 + h.length;
        if end <= s.len() {
            seq![(h, p + 12)] + spec_frames_from(s, end)
        } else {
            Seq::empty()
        }
    } else {
        Seq::empty()
    }
}

/// The records of a whole buffer.
pub open spec fn spec_frames(s: Seq<u8>) -> Seq<(MrtHeader, int)> {
    spec_frames_from(s, 0)
}

/// Every framed record lies inside the buffer, after the header that
/// precedes it.
pub proof fn lemma_frames_in_bounds(s: Seq<u8>, p: int)
    requires
        0 <= p,
    ensures
        forall|i: int|
            0 <= i < spec_frames_from(s, p).len() ==> {
                let (h, off) = #[trigger] spec_frames_from(s, p)[i];
                &&& p + 12 <= off
                &&& off + h.length <= s.len()
            },
    decreases s.len() - p,
{
    if 0 <= p && p + 12 <= s.len() {
        let h = spec_header_at(s, p);
        let end = p + 12 + h.length;
        if end <= s.len() {
            lemma_frames_in_bounds(s, end);
            let rest = spec_frames_from(s, end);
            assert forall|i: int| 0 <= i < spec_frames_from(s, p).len() implies {
                let (h2, off) = #[trigger] spec_frames_from(s, p)[i];
                &&& p + 12 <= off
                &&& off + h2.length <= s.len()
            } by {
                if i > 0 {
                    assert(spec_frames_from(s, p)[i] == rest[i - 1]);
                }
            }
        }
    }
}

pub struct MrtParser;

impl MrtParser {
    /// Reads the common header at `data[pos..pos + 12]`; fails when fewer than
    /// twelve bytes are left.
    pub fn parse_header(data: &[u8], pos: usize) -> (res: Result<MrtHeader, DecodeError>)
        ensures
            pos + 12 <= data@.len() ==> res == Ok::<MrtHeader, DecodeError>(
                spec_header_at(data@, pos as int),
            ),
            pos + 12 > data@.len() ==> res == Err::<MrtHeader, DecodeError>(
                DecodeError::UnexpectedEof,
            ),
    {
        if pos > data.len() || data.len() - pos < MRT_HEADER_LEN {
            return Err(DecodeError::UnexpectedEof);
        }
        let timestamp = get_u32(data, pos);
        let mrt_type_raw = get_u16(data, pos + 4);
        let subtype = get_u16(data, pos + 6);
        let length = get_u32(data, pos + 8);
        let mrt_type = MrtType::from(mrt_type_raw);
        Ok(MrtHeader { timestamp, microsecond_timestamp: None, mrt_type, subtype, length })
    }

    /// Frames the records of `data` without copying their bodies.
    pub fn stream_records(data: &[u8]) -> (res: Result<Vec<RecordSpan>, DecodeError>)
        ensures
            res is Ok,
            res matches Ok(v) ==> {
                &&& v@.len() == spec_frames(data@).len()
                &&& forall|i: int|
                    0 <= i < v@.len() ==> (#[trigger] v@[i]).header == spec_frames(data@)[i].0
                        && v@[i].offset == spec_frames(data@)[i].1
            },
    {
        let mut spans: Vec<RecordSpan> = Vec::new();
        let mut pos: usize = 0;
        while pos <= data.len() && data.len() - pos >= MRT_HEADER_LEN
            invariant
                pos <= data@.len() + 12,
                spans@.len() + spec_frames_from(data@, pos as int).len() == spec_frames(data@).len(),
                forall|i: int|
                    0 <= i < spans@.len() ==> (#[trigger] spans@[i]).header == spec_frames(
                        data@,
                    )[i].0 && spans@[i].offset == spec_frames(data@)[i].1,
                forall|i: int|
                    0 <= i < spec_frames_from(data@, pos as int).len() ==> (
                    #[trigger] spec_frames_from(data@, pos as int)[i]) == spec_frames(
                        data@,
                    )[spans@.len() + i],
            ensures
                spans@.len() == spec_frames(data@).len(),
                forall|i: int|
                    0 <= i < spans@.len() ==> (#[trigger] spans@[i]).header == spec_frames(
                        data@,
                    )[i].0 && spans@[i].offset == spec_frames(data@)[i].1,
            decreases data@.len() - pos,
        {
            let header = match Self::parse_header(data, pos) {
                Ok(h) => h,
                Err(_) => break,
            };
            let start = pos + MRT_HEADER_LEN;
            let record_data_len = header.length as usize;
            if data.len() - start < record_data_len {
                assert(spec_frames_from(data@, pos as int).len() == 0);
                break;
            }
            let ghost rest = spec_frames_from(data@, (start + record_data_len) as int);
            assert(spec_frames_from(data@, pos as int) == seq![
                (spec_header_at(data@, pos as int), start as int),
            ] + rest);
            assert(spec_frames_from(data@, pos as int)[0] == (header, start as int));
            spans.push(RecordSpan { header, offset: start });
            pos = start + record_data_len;
            assert forall|i: int| 0 <= i < rest.len() implies #[trigger] rest[i] == spec_frames(
                data@,
            )[spans@.len() + i] by {
                assert(rest[i] == spec_frames_from(data@, (pos - record_data_len - 12) as int)[i
                    + 1]);
            }
        }
        Ok(spans)
    }

    /// Frames the records of `data` and copies each body out.
    pub fn parse_records(data: &[u8]) -> (res: Result<Vec<MrtRecord>, DecodeError>)
        ensures
            res is Ok,
            res matches Ok(v) ==> {
                &&& v@.len() == spec_frames(data@).len()
                &&& forall|i: int|
                    0 <= i < v@.len() ==> {
                        let (h, off) = spec_frames(data@)[i];
                        &&& (#[trigger] v@[i]).header == h
                        &&& v@[i].data@ == data@.subrange(off, off + h.length)
                    }
            },
    {
        let spans = match Self::stream_records(data) {
            Ok(s) => s,
            Err(e) => return Err(e),
        };
        proof {
            lemma_frames_in_bounds(data@, 0);
        }
        let mut records: Vec<MrtRecord> = Vec::new();
        let mut i: usize = 0;
        while i < spans.len()
            invariant
                i <= spans@.len(),
                spans@.len() == spec_frames(data@).len(),
                forall|j: int|
                    0 <= j < spans@.len() ==> (#[trigger] spans@[j]).header == spec_frames(
                        data@,
                    )[j].0 && spans@[j].offset == spec_frames(data@)[j].1,
                forall|j: int|
                    0 <= j < spec_frames(data@).len() ==> {
                        let (h, off) = #[trigger] spec_frames(data@)[j];
                        &&& 12 <= off
                        &&& off + h.length <= data@.len()
                    },
                records@.len() == i,
                forall|j: int|
                    0 <= j < i ==> {
                        let (h, off) = spec_frames(data@)[j];
                        &&& (#[trigger] records@[j]).header == h
                        &&& records@[j].data@ == data@.subrange(off, off + h.length)
                    },
            decreases spans@.len() - i,
        {
            let span = &spans[i];
            assert(spec_frames(data@)[i as int].1 == span.offset);
            let body = span.body(data);
            let header = MrtHeader {
                timestamp: span.header.timestamp,
                microsecond_timestamp: span.header.microsecond_timestamp,
                mrt_type: span.header.mrt_type,
                subtype: span.header.subtype,
                length: span.header.length,
            };
            records.push(MrtRecord { header, data: vstd::slice::slice_to_vec(body) });
            i = i + 1;
        }
        Ok(records)
    }
}

/// The address of a BGP peer: IPv4 or IPv6, as the big-endian integer of
/// its bytes.
#[derive(Debug, Clone, Copy, PartialEq, Eq, Structural)]
pub enum PeerIp {
    V4(u32),
    V6(u128),
}

/// One peer of a PEER_INDEX_TABLE.
#[derive(Debug, Clone, Copy)]
pub struct PeerEntry {
    pub peer_bgp_id: u32,
    pub peer_as: u32,
    pub peer_ip: PeerIp,
}

/// The TABLE_DUMP_V2 PEER_INDEX_TABLE: the collector, the view name and
/// the peers that RIB entries refer to by index.
#[derive(Debug)]
pub struct PeerIndexTable {
    pub collector_bgp_id: u32,
    pub view_name: String,
    pub peers: Vec<PeerEntry>,
}

/// The text of a byte string read as UTF-8, each invalid sequence replaced
/// by U+FFFD.
pub uninterp spec fn utf8_lossy_text(b: Seq<u8>) -> Seq<char>;

/// std's `String::from_utf8_lossy`, made an owned `String`.
#[verifier::external_body]
fn utf8_lossy(b: &[u8]) -> (r: String)
    ensures
        r@ == utf8_lossy_text(b@),
{
    String::from_utf8_lossy(b).to_string()
}

/// The peer entry stored at `s[p..]` and the position after it: a type
/// byte (bit 0: IPv6 address, bit 1: four-byte AS number), the BGP
/// identifier, the address and the AS number; none when the buffer ends
/// first.
pub open spec fn peer_at(s: Seq<u8>, p: int) -> Option<(PeerEntry, int)> {
    if p < 0 || p + 1 > s.len() {
        None
    } else {
        let t = s[p];
        let is_v6 = t % 2 == 1;
        let as4 = (t / 2) % 2 == 1;
        let ip_at = p + 5;
        let ip_len: int = if is_v6 {
            16
        } else {
            4
        };
        let as_at = ip_at + ip_len;
        let as_len: int = if as4 {
            4
        } else {
            2
        };
        if as_at + as_len > s.len() {
            None
        } else {
            Some(
                (
                    PeerEntry {
                        peer_bgp_id: be32(s, p + 1) as u32,
                        peer_as: if as4 {
                            be32(s, as_at) as u32
                        } else {
                            be16(s, as_at) as u32
                        },
                        peer_ip: if is_v6 {
                            PeerIp::V6(be128(s, ip_at) as u128)
                        } else {
                            PeerIp::V4(be32(s, ip_at) as u32)
                        },
                    },
                    as_at + as_len,
                ),
            )
        }
    }
}

/// `k` more peer entries from `s[p..]`, appended to `acc`; none when the
/// buffer ends first.
pub open spec fn peers_from(s: Seq<u8>, p: int, k: nat, acc: Seq<PeerEntry>) -> Option<Seq<PeerEntry>>
    decreases k,
{
    if k == 0 {
        Some(acc)
    } else {
        match peer_at(s, p) {
            None => None,
            Some((e, q)) => peers_from(s, q, (k - 1) as nat, acc.push(e)),
        }
    }
}

/// A PEER_INDEX_TABLE body: collector BGP identifier, view name bytes, and
/// the peers; none when the buffer ends first.
pub open spec fn spec_peer_table(s: Seq<u8>) -> Option<(u32, Seq<u8>, Seq<PeerEntry>)> {
    if s.len() < 6 {
        None
    } else {
        let n = be16(s, 4);
        if 6 + n + 2 > s.len() {
            None
        } else {
            match peers_from(s, 8 + n, be16(s, 6 + n) as nat, Seq::empty()) {
                None => None,
                Some(peers) => Some((be32(s, 0) as u32, s.subrange(6, 6 + n), peers)),
            }
        }
    }
}

impl PeerIndexTable {
    /// Decodes a PEER_INDEX_TABLE body (see [`spec_peer_table`]), the view
    /// name read as UTF-8 with invalid sequences replaced; `UnexpectedEof`
    /// when the buffer ends before the last field.
    pub fn parse(data: &[u8]) -> (res: Result<Self, DecodeError>)
        ensures
            match res {
                Ok(t) => exists|name: Seq<u8>|
                    {
                        &&& spec_peer_table(data@) == Some((t.collector_bgp_id, name, t.peers@))
                        &&& t.view_name@ == utf8_lossy_text(name)
                    },
                Err(e) => e == DecodeError::UnexpectedEof && spec_peer_table(data@) is None,
            },
    {
        if data.len() < 6 {
            return Err(DecodeError::UnexpectedEof);
        }
        let collector_bgp_id = get_u32(data, 0);
        let view_name_len = get_u16(data, 4) as usize;
        if data.len() - 6 < view_name_len + 2 {
            return Err(DecodeError::UnexpectedEof);
        }
        let name_bytes = &data[6..6 + view_name_len];
        let view_name = utf8_lossy(name_bytes);
        let peer_count = get_u16(data, 6 + view_name_len);
        let mut pos: usize = 8 + view_name_len;
        let mut peers: Vec<PeerEntry> = Vec::new();
        let mut k: u16 = 0;
        while k < peer_count
            invariant
                k <= peer_count,
                pos <= data@.len(),
                6 + view_name_len + 2 <= data@.len(),
                peer_count == be16(data@, 6 + view_name_len),
                view_name_len == be16(data@, 4),
                peers_from(data@, 8 + view_name_len, peer_count as nat, Seq::empty()) == peers_from(
                    data@,
                    pos as int,
                    (peer_count - k) as nat,
                    peers@,
                ),
            decreases peer_count - k,
        {
            match Self::parse_peer(data, pos) {
                Some((entry, next)) => {
                    peers.push(entry);
                    pos = next;
                },
                None => {
                    return Err(DecodeError::UnexpectedEof);
                },
            }
            k = k + 1;
        }
        proof {
            assert(name_bytes@ == data@.subrange(6, 6 + view_name_len));
        }
        Ok(PeerIndexTable { collector_bgp_id, view_name, peers })
    }

    /// The peer entry at `data[pos..]` and the position after it (see
    /// [`peer_at`]).
    fn parse_peer(data: &[u8], pos: usize) -> (r: Option<(PeerEntry, usize)>)
        requires
            pos <= data@.len(),
        ensures
            match r {
                Some((e, q)) => peer_at(data@, pos as int) == Some((e, q as int)) && q <= data@.len(),
                None => peer_at(data@, pos as int) is None,
            },
    {
        if data.len() - pos < 1 {
            return None;
        }
        let peer_type = data[pos];
        let is_v6 = peer_type & 1 == 1;
        let as4 = (peer_type >> 1) & 1 == 1;
        assert((peer_type & 1 == 1) == (peer_type % 2 == 1)) by (bit_vector);
        assert(((peer_type >> 1) & 1 == 1) == ((peer_type / 2) % 2 == 1)) by (bit_vector);
        let ip_len: usize = if is_v6 {
            16
        } else {
            4
        };
        let as_len: usize = if as4 {
            4
        } else {
            2
        };
        if data.len() - pos < 5 + ip_len + as_len {
            return None;
        }
        let peer_bgp_id = get_u32(data, pos + 1);
        let ip_at = pos + 5;
        let peer_ip = if is_v6 {
            PeerIp::V6(get_u128(data, ip_at))
        } else {
            PeerIp::V4(get_u32(data, ip_at))
        };
        let as_at = ip_at + ip_len;
        let peer_as = if as4 {
            get_u32(data, as_at)
        } else {
            get_u16(data, as_at) as u32
        };
        Some((PeerEntry { peer_bgp_id, peer_as, peer_ip }, as_at + as_len))
    }
}

} // verus!
