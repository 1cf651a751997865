//! Decoding of BGP UPDATE messages (RFC 4271, RFC 4760) carried in BGP4MP
//! records, and of TABLE_DUMP_V2 RIB entries (RFC 6396).
use vstd::prelude::*;
use vstd::string::*;

use crate::error::DecodeError;
use crate::mrt_parser::{Bgp4MpSubtype, MrtHeader, MrtType, TableDumpV2Subtype};
use crate::text::{append_dec, dec_text, ipv4_string, ipv4_text, ipv6_string, ipv6_text};
use crate::wire::{be16, be32, get_u16, get_u32};

verus! {

/// An announced or withdrawn prefix: the address in text form and its length.
#[derive(Debug, Clone)]
pub struct BgpPrefix {
    pub prefix: String,
    pub prefix_len: u8,
}

/// What a [`BgpPrefix`] stands for.
pub struct PrefixView {
    pub prefix: Seq<char>,
    pub prefix_len: u8,
}

impl View for BgpPrefix {
    type V = PrefixView;

    open spec fn view(&self) -> PrefixView {
        PrefixView { prefix: self.prefix@, prefix_len: self.prefix_len }
    }
}

/// `prefix/len` notation of a prefix.
pub open spec fn cidr_text(p: PrefixView) -> Seq<char> {
    p.prefix + seq!['/'] + dec_text(p.prefix_len as nat)
}

impl BgpPrefix {
    pub fn new(prefix: String, prefix_len: u8) -> (r: Self)
        ensures
            r.prefix == prefix,
            r.prefix_len == prefix_len,
    {
        Self { prefix, prefix_len }
    }

    /// The prefix in `address/length` notation.
    pub fn cidr(&self) -> (r: String)
        ensures
            r@ == cidr_text(self@),
    {
        proof { reveal_strlit("/"); }
        let mut s = self.prefix.clone();
        s.append("/");
        append_dec(&mut s, self.prefix_len as u64);
        assert(s@ =~= cidr_text(self@));
        s
    }
}

/// One segment of an AS_PATH attribute.
#[derive(Debug, Clone)]
pub struct AsPathSegment {
    pub segment_type: u8,
    pub asns: Vec<u32>,
}

/// What an [`AsPathSegment`] stands for.
pub struct SegmentView {
    pub segment_type: u8,
    pub asns: Seq<u32>,
}

impl View for AsPathSegment {
    type V = SegmentView;

    open spec fn view(&self) -> SegmentView {
        SegmentView { segment_type: self.segment_type, asns: self.asns@ }
    }
}

impl AsPathSegment {
    /// An AS_SET segment (type 2).
    pub fn is_as_set(&self) -> (r: bool)
        ensures
            r == (self.segment_type == 2),
    {
        self.segment_type == 2
    }

    /// An AS_SEQUENCE segment (type 1).
    pub fn is_as_sequence(&self) -> (r: bool)
        ensures
            r == (self.segment_type == 1),
    {
        self.segment_type == 1
    }
}

/// Decoder of the routing information in MRT records.
pub struct BgpExtractor;

/// The routing information one record carries.
#[derive(Debug, Clone)]
pub struct BgpUpdate {
    pub announced_prefixes: Vec<BgpPrefix>,
    pub withdrawn_prefixes: Vec<BgpPrefix>,
    pub as_path: Vec<AsPathSegment>,
    pub origin_as: Option<u32>,
    pub next_hop: Option<String>,
    pub source_as: Option<u32>,
    pub peer_as: Option<u32>,
    pub timestamp: u32,
}

/// What a [`BgpUpdate`] stands for.
pub struct UpdateView {
    pub announced_prefixes: Seq<PrefixView>,
    pub withdrawn_prefixes: Seq<PrefixView>,
    pub as_path: Seq<SegmentView>,
    pub origin_as: Option<u32>,
    pub next_hop: Option<Seq<char>>,
    pub source_as: Option<u32>,
    pub peer_as: Option<u32>,
    pub timestamp: u32,
}

pub open spec fn prefixes_view(v: Seq<BgpPrefix>) -> Seq<PrefixView> {
    v.map_values(|p: BgpPrefix| p@)
}

pub open spec fn segments_view(v: Seq<AsPathSegment>) -> Seq<SegmentView> {
    v.map_values(|s: AsPathSegment| s@)
}

pub open spec fn opt_string_view(o: Option<String>) -> Option<Seq<char>> {
    match o {
        Some(s) => Some(s@),
        None => None,
    }
}

impl View for BgpUpdate {
    type V = UpdateView;

    open spec fn view(&self) -> UpdateView {
        UpdateView {
            announced_prefixes: prefixes_view(self.announced_prefixes@),
            withdrawn_prefixes: prefixes_view(self.withdrawn_prefixes@),
            as_path: segments_view(self.as_path@),
            origin_as: self.origin_as,
            next_hop: opt_string_view(self.next_hop),
            source_as: self.source_as,
            peer_as: self.peer_as,
            timestamp: self.timestamp,
        }
    }
}

pub open spec fn prefixes_result_view(r: Result<Vec<BgpPrefix>, DecodeError>) -> Result<
    Seq<PrefixView>,
    DecodeError,
> {
    match r {
        Ok(v) => Ok(prefixes_view(v@)),
        Err(e) => Err(e),
    }
}

pub open spec fn update_result_view(r: Result<Option<BgpUpdate>, DecodeError>) -> Result<
    Option<UpdateView>,
    DecodeError,
> {
    match r {
        Ok(Some(u)) => Ok(Some(u@)),
        Ok(None) => Ok(None),
        Err(e) => Err(e),
    }
}

// ---------------------------------------------------------------------------
// The wire format, as functions on byte sequences.
// ---------------------------------------------------------------------------

/// `b` followed by zero bytes up to `width` bytes.
pub open spec fn padded(b: Seq<u8>, width: nat) -> Seq<u8> {
    b + Seq::new((width - b.len()) as nat, |i: int| 0u8)
}

/// Text of an address given by its leading bytes: dotted quad for IPv4,
/// RFC 5952 for IPv6; the missing trailing bytes are zero.
pub open spec fn addr_text(b: Seq<u8>, is_ipv4: bool) -> Seq<char> {
    if is_ipv4 {
        ipv4_text(padded(b, 4))
    } else {
        ipv6_text(padded(b, 16))
    }
}

/// Number of address bytes a prefix of `prefix_len` bits occupies.
pub open spec fn prefix_byte_count(prefix_len: u8) -> int {
    (prefix_len as int + 7) / 8
}

/// Address width of a family in bytes.
pub open spec fn addr_width(is_ipv4: bool) -> int {
    if is_ipv4 {
        4
    } else {
        16
    }
}

/// A list of length-prefixed prefixes from position `p` on, appended to `acc`.
pub open spec fn prefix_list_from(s: Seq<u8>, p: int, is_ipv4: bool, acc: Seq<PrefixView>) -> Result<
    Seq<PrefixView>,
    DecodeError,
>
    decreases s.len() - p,
{
    if p < 0 || p >= s.len() {
        Ok(acc)
    } else {
        let plen = s[p];
        let bc = prefix_byte_count(plen);
        if bc > addr_width(is_ipv4) {
            Err(DecodeError::PrefixTooLong)
        } else if p + 1 + bc > s.len() {
            Err(DecodeError::UnexpectedEof)
        } else {
            prefix_list_from(
                s,
                p + 1 + bc,
                is_ipv4,
                acc.push(
                    PrefixView {
                        prefix: addr_text(s.subrange(p + 1, p + 1 + bc), is_ipv4),
                        prefix_len: plen,
                    },
                ),
            )
        }
    }
}

/// The prefixes of a withdrawn-routes / NLRI field.
pub open spec fn spec_prefix_list(s: Seq<u8>, is_ipv4: bool) -> Result<Seq<PrefixView>, DecodeError> {
    prefix_list_from(s, 0, is_ipv4, Seq::empty())
}

/// The `i`-th AS number of a segment body at `q`, `w` bytes each.
pub open spec fn asn_at(s: Seq<u8>, q: int, w: int, i: int) -> u32 {
    if w == 4 {
        be32(s, q + 4 * i) as u32
    } else {
        be16(s, q + 2 * i) as u32
    }
}

/// Bytes per AS number of a segment of type `t` with `n` numbers whose body
/// starts at `q`: four when the segment is a set or sequence and the rest of
/// the attribute can hold `n` four-byte numbers, else two.
pub open spec fn asn_width(s: Seq<u8>, t: u8, n: int, q: int) -> int {
    if s.len() > 2 && (t == 1 || t == 2) && s.len() - q >= n * 4 {
        4
    } else {
        2
    }
}

/// The segments of an AS_PATH attribute body from `p` on, appended to `acc`.
pub open spec fn as_path_from(s: Seq<u8>, p: int, acc: Seq<SegmentView>) -> Result<
    Seq<SegmentView>,
    DecodeError,
>
    decreases s.len() - p,
{
    if p < 0 || p >= s.len() {
        Ok(acc)
    } else if p + 2 > s.len() {
        Err(DecodeError::UnexpectedEof)
    } else {
        let t = s[p];
        let n = s[p + 1] as int;
        let q = p + 2;
        let w = asn_width(s, t, n, q);
        if q + n * w > s.len() {
            Err(DecodeError::UnexpectedEof)
        } else {
            as_path_from(
                s,
                q + n * w,
                acc.push(
                    SegmentView {
                        segment_type: t,
                        asns: Seq::new(n as nat, |i: int| asn_at(s, q, w, i)),
                    },
                ),
            )
        }
    }
}

/// The segments of an AS_PATH attribute body.
pub open spec fn spec_as_path(s: Seq<u8>) -> Result<Seq<SegmentView>, DecodeError> {
    as_path_from(s, 0, Seq::empty())
}

/// The prefixes of an MP_REACH_NLRI attribute body, or `None` when it is too
/// short, has no NLRI after its next hop, or its NLRI is truncated.
pub open spec fn spec_mp_reach(a: Seq<u8>) -> Result<Option<Seq<PrefixView>>, DecodeError> {
    if a.len() < 5 {
        Ok(None)
    } else {
        let start = 4 + a[3] as int;
        if start >= a.len() {
            Ok(None)
        } else {
            match spec_prefix_list(a.subrange(start, a.len() as int), be16(a, 0) == 1) {
                Ok(v) => Ok(Some(v)),
                Err(DecodeError::PrefixTooLong) => Err(DecodeError::PrefixTooLong),
                Err(_) => Ok(None),
            }
        }
    }
}

/// Whether an attribute's flags announce a two-byte length.
pub open spec fn extended_length(flags: u8) -> bool {
    flags & 0x10u8 != 0u8
}

/// The header of the path attribute at `p` (where `p` is inside `s`): its
/// type code, where its body starts and its length; `None` when the type
/// code is missing.
pub open spec fn attr_header_at(s: Seq<u8>, p: int) -> Result<Option<(u8, int, int)>, DecodeError> {
    if p + 1 >= s.len() {
        Ok(None)
    } else if extended_length(s[p]) {
        if p + 4 > s.len() {
            Err(DecodeError::UnexpectedEof)
        } else {
            Ok(Some((s[p + 1], p + 4, be16(s, p + 2))))
        }
    } else {
        if p + 3 > s.len() {
            Err(DecodeError::UnexpectedEof)
        } else {
            Ok(Some((s[p + 1], p + 3, s[p + 2] as int)))
        }
    }
}

/// Bit 4 (0x10) of a flags byte, the Extended Length bit, read as a number.
proof fn lemma_extended_length_bit(f: u8)
    ensures
        extended_length(f) <==> (f / 16) % 2 == 1,
{
    assert((f & 0x10u8 != 0u8) <==> ((f / 16u8) % 2u8 == 1u8)) by (bit_vector);
}

/// An attribute header is laid out as RFC 4271 says: a flags byte, a type
/// byte, then a length that takes two bytes (big-endian) when the Extended
/// Length bit 0x10 of the flags is set and one byte when it is clear; the
/// body follows the length.
pub proof fn lemma_attr_header_layout(s: Seq<u8>, p: int)
    requires
        0 <= p < s.len(),
    ensures
        p + 1 >= s.len() ==> attr_header_at(s, p) == Ok::<Option<(u8, int, int)>, DecodeError>(None),
        p + 1 < s.len() && (s[p] / 16) % 2 == 1 ==> attr_header_at(s, p) == if p + 4 > s.len() {
            Err::<Option<(u8, int, int)>, DecodeError>(DecodeError::UnexpectedEof)
        } else {
            Ok(Some((s[p + 1], p + 4, s[p + 2] * 256 + s[p + 3])))
        },
        p + 1 < s.len() && (s[p] / 16) % 2 == 0 ==> attr_header_at(s, p) == if p + 3 > s.len() {
            Err::<Option<(u8, int, int)>, DecodeError>(DecodeError::UnexpectedEof)
        } else {
            Ok(Some((s[p + 1], p + 3, s[p + 2] as int)))
        },
{
    lemma_extended_length_bit(s[p]);
}

/// A lone attribute decodes the same whatever the Extended Length bit of
/// its flags, as long as its length field is written to match: two bytes
/// with the bit set, one byte with it clear.
pub proof fn lemma_attr_decodes_alike_either_length_form(
    long_flags: u8,
    short_flags: u8,
    attr_type: u8,
    body: Seq<u8>,
)
    requires
        (long_flags / 16) % 2 == 1,
        (short_flags / 16) % 2 == 0,
        body.len() < 256,
    ensures
        spec_path_attributes(seq![long_flags, attr_type, 0u8, body.len() as u8] + body)
            == spec_path_attributes(seq![short_flags, attr_type, body.len() as u8] + body),
{
    let n = body.len() as int;
    let s1 = seq![long_flags, attr_type, 0u8, n as u8] + body;
    let s2 = seq![short_flags, attr_type, n as u8] + body;
    lemma_attr_header_layout(s1, 0);
    lemma_attr_header_layout(s2, 0);
    assert(s1[0] == long_flags && s1[1] == attr_type && s1[2] == 0u8 && s1[3] == n as u8);
    assert(s2[0] == short_flags && s2[1] == attr_type && s2[2] == n as u8);
    assert(attr_header_at(s1, 0) == Ok::<Option<(u8, int, int)>, DecodeError>(Some((attr_type, 4, n))));
    assert(attr_header_at(s2, 0) == Ok::<Option<(u8, int, int)>, DecodeError>(Some((attr_type, 3, n))));
    assert(s1.subrange(4, 4 + n) =~= body);
    assert(s2.subrange(3, 3 + n) =~= body);
    match attr_effect(attr_type, body, empty_attrs()) {
        Err(e) => {},
        Ok(acc2) => {
            assert(attrs_from(s1, 4 + n, acc2) == Ok::<AttrsView, DecodeError>(acc2));
            assert(attrs_from(s2, 3 + n, acc2) == Ok::<AttrsView, DecodeError>(acc2));
        },
    }
}

/// What the path attributes say: the AS path, the next hop and the prefixes
/// of MP_REACH_NLRI, each from the last attribute of its kind.
pub struct AttrsView {
    pub as_path: Seq<SegmentView>,
    pub next_hop: Option<Seq<char>>,
    pub mp_reach: Option<Seq<PrefixView>>,
}

/// How one attribute of type `t` with body `a` updates `acc`.
pub open spec fn attr_effect(t: u8, a: Seq<u8>, acc: AttrsView) -> Result<AttrsView, DecodeError> {
    if t == 2 {
        match spec_as_path(a) {
            Ok(path) => Ok(AttrsView { as_path: path, next_hop: acc.next_hop, mp_reach: acc.mp_reach }),
            Err(e) => Err(e),
        }
    } else if t == 3 {
        if a.len() >= 4 {
            Ok(AttrsView { as_path: acc.as_path, next_hop: Some(ipv4_text(a)), mp_reach: acc.mp_reach })
        } else {
            Ok(acc)
        }
    } else if t == 14 {
        match spec_mp_reach(a) {
            Ok(m) => Ok(AttrsView { as_path: acc.as_path, next_hop: acc.next_hop, mp_reach: m }),
            Err(e) => Err(e),
        }
    } else {
        Ok(acc)
    }
}

/// The path attributes from `p` on, applied to `acc`; the scan stops quietly
/// at a missing type code or at an attribute that runs past the end.
pub open spec fn attrs_from(s: Seq<u8>, p: int, acc: AttrsView) -> Result<AttrsView, DecodeError>
    decreases s.len() - p,
{
    if p < 0 || p >= s.len() {
        Ok(acc)
    } else {
        match attr_header_at(s, p) {
            Err(e) => Err(e),
            Ok(None) => Ok(acc),
            Ok(Some((t, start, alen))) => {
                if start + alen > s.len() {
                    Ok(acc)
                } else {
                    match attr_effect(t, s.subrange(start, start + alen), acc) {
                        Err(e) => Err(e),
                        Ok(acc2) => attrs_from(s, start + alen, acc2),
                    }
                }
            },
        }
    }
}

pub open spec fn empty_attrs() -> AttrsView {
    AttrsView { as_path: Seq::empty(), next_hop: None, mp_reach: None }
}

/// What a path attributes field says.
pub open spec fn spec_path_attributes(s: Seq<u8>) -> Result<AttrsView, DecodeError> {
    attrs_from(s, 0, empty_attrs())
}

/// The MP_UNREACH_NLRI prefixes of the path attributes from `p` on: those of
/// the last such attribute whose prefix list decodes, else `acc`.
pub open spec fn unreach_from(s: Seq<u8>, p: int, acc: Seq<PrefixView>) -> Result<
    Seq<PrefixView>,
    DecodeError,
>
    decreases s.len() - p,
{
    if p < 0 || p >= s.len() {
        Ok(acc)
    } else {
        match attr_header_at(s, p) {
            Err(e) => Err(e),
            Ok(None) => Ok(acc),
            Ok(Some((t, start, alen))) => {
                if t == 15 && alen >= 3 {
                    if start + alen > s.len() {
                        Err(DecodeError::LengthOutOfRange)
                    } else {
                        let a = s.subrange(start, start + alen);
                        match spec_prefix_list(a.subrange(3, alen), be16(a, 0) == 1) {
                            Err(DecodeError::PrefixTooLong) => Err(DecodeError::PrefixTooLong),
                            Ok(v) => unreach_from(s, start + alen, v),
                            Err(_) => unreach_from(s, start + alen, acc),
                        }
                    }
                } else if start + alen > s.len() {
                    Ok(acc)
                } else {
                    unreach_from(s, start + alen, acc)
                }
            },
        }
    }
}

/// The withdrawn MP_UNREACH_NLRI prefixes of a path attributes field.
pub open spec fn spec_mp_unreach(s: Seq<u8>) -> Result<Seq<PrefixView>, DecodeError> {
    unreach_from(s, 0, Seq::empty())
}

/// The AS the path originates from: the last AS of the last non-empty
/// AS_SEQUENCE segment.
pub open spec fn spec_origin_as(path: Seq<SegmentView>) -> Option<u32>
    decreases path.len(),
{
    if path.len() == 0 {
        None
    } else if path.last().segment_type == 1 && path.last().asns.len() > 0 {
        Some(path.last().asns.last())
    } else {
        spec_origin_as(path.drop_last())
    }
}

/// What one segment contributes to the flat path: all of a sequence, the
/// first AS of a set, nothing otherwise.
pub open spec fn segment_contribution(seg: SegmentView) -> Seq<u32> {
    if seg.segment_type == 1 {
        seg.asns
    } else if seg.segment_type == 2 && seg.asns.len() > 0 {
        seq![seg.asns[0]]
    } else {
        Seq::empty()
    }
}

/// The AS path as one list of AS numbers.
pub open spec fn spec_flatten(path: Seq<SegmentView>) -> Seq<u32>
    decreases path.len(),
{
    if path.len() == 0 {
        Seq::empty()
    } else {
        spec_flatten(path.drop_last()) + segment_contribution(path.last())
    }
}

/// The update a message with the given fields and attributes describes.
pub open spec fn update_of(
    announced: Seq<PrefixView>,
    withdrawn: Seq<PrefixView>,
    attrs: AttrsView,
    source_as: Option<u32>,
    peer_as: Option<u32>,
    timestamp: u32,
) -> UpdateView {
    UpdateView {
        announced_prefixes: announced,
        withdrawn_prefixes: withdrawn,
        as_path: attrs.as_path,
        origin_as: spec_origin_as(attrs.as_path),
        next_hop: attrs.next_hop,
        source_as,
        peer_as,
        timestamp,
    }
}

/// A BGP message: `None` unless it is an UPDATE with a valid marker.
pub open spec fn spec_update_message(
    s: Seq<u8>,
    timestamp: u32,
    peer_as: Option<u32>,
    local_as: Option<u32>,
) -> Result<Option<UpdateView>, DecodeError> {
    if s.len() < 19 {
        Ok(None)
    } else if exists|i: int| 0 <= i < 16 && s[i] != 0xFF {
        Ok(None)
    } else if s[18] != 2 {
        Ok(None)
    } else if s.len() < 21 {
        Err(DecodeError::UnexpectedEof)
    } else {
        let wend = 21 + be16(s, 19);
        if wend > s.len() {
            Err(DecodeError::LengthOutOfRange)
        } else {
            match spec_prefix_list(s.subrange(21, wend), true) {
                Err(e) => Err(e),
                Ok(withdrawn) => {
                    if wend + 2 > s.len() {
                        Err(DecodeError::UnexpectedEof)
                    } else {
                        let astart = wend + 2;
                        let aend = astart + be16(s, wend);
                        if aend > s.len() {
                            Err(DecodeError::LengthOutOfRange)
                        } else {
                            let attrs_bytes = s.subrange(astart, aend);
                            match spec_path_attributes(attrs_bytes) {
                                Err(e) => Err(e),
                                Ok(attrs) => match spec_mp_unreach(attrs_bytes) {
                                    Err(e) => Err(e),
                                    Ok(unreach) => match spec_prefix_list(
                                        s.subrange(aend, s.len() as int),
                                        true,
                                    ) {
                                        Err(e) => Err(e),
                                        Ok(nlri) => {
                                            let announced = match attrs.mp_reach {
                                                Some(v) => v,
                                                None => nlri,
                                            };
                                            Ok(
                                                Some(
                                                    update_of(
                                                        announced,
                                                        withdrawn + unreach,
                                                        attrs,
                                                        local_as,
                                                        peer_as,
                                                        timestamp,
                                                    ),
                                                ),
                                            )
                                        },
                                    },
                                },
                            }
                        }
                    }
                },
            }
        }
    }
}

/// Whether a BGP4MP subtype carries a BGP message.
pub open spec fn is_message_subtype(st: Bgp4MpSubtype) -> bool {
    st is Message || st is MessageAs4 || st is MessageLocal || st is MessageLocalAs4
}

/// Whether a BGP4MP subtype uses four-byte AS numbers.
pub open spec fn is_as4_subtype(st: Bgp4MpSubtype) -> bool {
    st is MessageAs4 || st is MessageLocalAs4
}

/// A BGP4MP record body: peer AS, local AS, interface index, address
/// family, peer address (16 bytes for family 2, else 4; the local address
/// is not skipped), then the BGP message.
pub open spec fn spec_bgp4mp(timestamp: u32, subtype: u16, s: Seq<u8>) -> Result<
    Option<UpdateView>,
    DecodeError,
> {
    let st = Bgp4MpSubtype::spec_from_code(subtype);
    if !is_message_subtype(st) {
        Ok(None)
    } else {
        let w: int = if is_as4_subtype(st) {
            4
        } else {
            2
        };
        let afi_pos = 2 * w + 2;
        if afi_pos + 2 > s.len() {
            Err(DecodeError::UnexpectedEof)
        } else {
            let ip_len: int = if be16(s, afi_pos) == 2 {
                16
            } else {
                4
            };
            let msg = afi_pos + 2 + ip_len;
            if msg > s.len() {
                Err(DecodeError::UnexpectedEof)
            } else {
                let peer = if w == 4 {
                    be32(s, 0) as u32
                } else {
                    be16(s, 0) as u32
                };
                let local = if w == 4 {
                    be32(s, 4) as u32
                } else {
                    be16(s, 2) as u32
                };
                spec_update_message(s.subrange(msg, s.len() as int), timestamp, Some(peer), Some(local))
            }
        }
    }
}

/// Whether a TABLE_DUMP_V2 subtype is an IPv4 / IPv6 unicast or multicast RIB.
pub open spec fn is_rib_subtype(st: TableDumpV2Subtype) -> bool {
    st is RibIpv4Unicast || st is RibIpv4Multicast || st is RibIpv6Unicast || st is RibIpv6Multicast
}

/// A RIB entry record body: sequence number, prefix, entry count, then the
/// first entry only (peer index, originated time, attributes).
pub open spec fn spec_rib_entry(timestamp: u32, st: TableDumpV2Subtype, s: Seq<u8>) -> Result<
    Option<UpdateView>,
    DecodeError,
> {
    let is_ipv4 = st is RibIpv4Unicast || st is RibIpv4Multicast;
    if s.len() < 5 {
        Err(DecodeError::UnexpectedEof)
    } else {
        let plen = s[4];
        let bc = prefix_byte_count(plen);
        if bc > addr_width(is_ipv4) {
            Err(DecodeError::PrefixTooLong)
        } else if 5 + bc > s.len() {
            Err(DecodeError::UnexpectedEof)
        } else {
            let p = 5 + bc;
            if p + 2 > s.len() {
                Err(DecodeError::UnexpectedEof)
            } else if be16(s, p) == 0 {
                Ok(None)
            } else if p + 10 > s.len() {
                Err(DecodeError::UnexpectedEof)
            } else {
                let astart = p + 10;
                let aend = astart + be16(s, p + 8);
                if aend > s.len() {
                    Err(DecodeError::LengthOutOfRange)
                } else {
                    match spec_path_attributes(s.subrange(astart, aend)) {
                        Err(e) => Err(e),
                        Ok(attrs) => {
                            let announced = match attrs.mp_reach {
                                Some(v) => v,
                                None => seq![
                                    PrefixView {
                                        prefix: addr_text(s.subrange(5, p), is_ipv4),
                                        prefix_len: plen,
                                    },
                                ],
                            };
                            Ok(Some(update_of(announced, Seq::empty(), attrs, None, None, timestamp)))
                        },
                    }
                }
            }
        }
    }
}

/// Where the first entry of a RIB entry record body ends: after the
/// sequence number, the prefix, the entry count, and that entry's peer
/// index, originated time, attribute length and attributes.
pub open spec fn rib_first_entry_end(s: Seq<u8>) -> int {
    let p = 5 + prefix_byte_count(s[4]);
    p + 10 + be16(s, p + 8)
}

/// A RIB entry record without entries carries nothing.
pub proof fn lemma_rib_entry_without_entries(timestamp: u32, st: TableDumpV2Subtype, s: Seq<u8>)
    requires
        s.len() >= 5,
        prefix_byte_count(s[4]) <= addr_width(st is RibIpv4Unicast || st is RibIpv4Multicast),
        5 + prefix_byte_count(s[4]) + 2 <= s.len(),
        be16(s, 5 + prefix_byte_count(s[4])) == 0,
    ensures
        spec_rib_entry(timestamp, st, s) == Ok::<Option<UpdateView>, DecodeError>(None),
{
}

/// A RIB entry record is decoded from its first entry alone: whatever
/// follows that entry leaves the result unchanged.
pub proof fn lemma_rib_entry_reads_first_entry(
    timestamp: u32,
    st: TableDumpV2Subtype,
    s: Seq<u8>,
    tail: Seq<u8>,
)
    requires
        s.len() >= 5,
        prefix_byte_count(s[4]) <= addr_width(st is RibIpv4Unicast || st is RibIpv4Multicast),
        5 + prefix_byte_count(s[4]) + 10 <= s.len(),
        be16(s, 5 + prefix_byte_count(s[4])) != 0,
        rib_first_entry_end(s) <= s.len(),
    ensures
        spec_rib_entry(timestamp, st, s) == spec_rib_entry(
            timestamp,
            st,
            s.subrange(0, rib_first_entry_end(s)) + tail,
        ),
{
    let e = rib_first_entry_end(s);
    let s2 = s.subrange(0, e) + tail;
    let p = 5 + prefix_byte_count(s[4]);
    assert forall|i: int| 0 <= i < e implies #[trigger] s2[i] == s[i] by {}
    assert(s2[4] == s[4]);
    assert(be16(s2, p) == be16(s, p));
    assert(be16(s2, p + 8) == be16(s, p + 8));
    assert(s2.subrange(p + 10, e) =~= s.subrange(p + 10, e));
    assert(s2.subrange(5, p) =~= s.subrange(5, p));
}

/// A TABLE_DUMP_V2 record: RIB entries decode, other subtypes give `None`.
pub open spec fn spec_table_dump_v2(timestamp: u32, subtype: u16, s: Seq<u8>) -> Result<
    Option<UpdateView>,
    DecodeError,
> {
    let st = TableDumpV2Subtype::spec_from_code(subtype);
    if is_rib_subtype(st) {
        spec_rib_entry(timestamp, st, s)
    } else {
        Ok(None)
    }
}

/// The routing information of a record with header `h` and body `s`.
#[verifier::opaque]
pub open spec fn spec_extract(h: MrtHeader, s: Seq<u8>) -> Result<Option<UpdateView>, DecodeError> {
    match h.mrt_type {
        MrtType::TableDumpV2 => spec_table_dump_v2(h.timestamp, h.subtype, s),
        MrtType::Bgp4Mp | MrtType::Bgp4MpEt => spec_bgp4mp(h.timestamp, h.subtype, s),
        _ => Ok(None),
    }
}

/// The origin AS, when there is one, lies on the flattened path.
pub proof fn lemma_origin_on_flat_path(path: Seq<SegmentView>)
    ensures
        spec_origin_as(path) matches Some(o) ==> spec_flatten(path).contains(o),
    decreases path.len(),
{
    if path.len() > 0 {
        let last = path.last();
        if last.segment_type == 1 && last.asns.len() > 0 {
            let f = spec_flatten(path);
            assert(f == spec_flatten(path.drop_last()) + last.asns);
            assert(f[f.len() - 1] == last.asns.last());
        } else {
            lemma_origin_on_flat_path(path.drop_last());
            if let Some(o) = spec_origin_as(path.drop_last()) {
                let f0 = spec_flatten(path.drop_last());
                let i = choose|i: int| 0 <= i < f0.len() && f0[i] == o;
                assert(spec_flatten(path)[i] == o);
            }
        }
    }
}

// ---------------------------------------------------------------------------
// Decoding.
// ---------------------------------------------------------------------------

/// Text of an address from its leading bytes, zero-padded to the family's width.
fn address_string(bytes: &[u8], is_ipv4: bool) -> (r: String)
    requires
        bytes@.len() <= addr_width(is_ipv4),
    ensures
        r@ == addr_text(bytes@, is_ipv4),
{
    let width: usize = if is_ipv4 {
        4
    } else {
        16
    };
    let ghost full_spec = padded(bytes@, width as nat);
    let mut full: Vec<u8> = Vec::new();
    let mut i: usize = 0;
    while i < width
        invariant
            i <= width,
            width == addr_width(is_ipv4),
            bytes@.len() <= width,
            full_spec == padded(bytes@, width as nat),
            full@.len() == i,
            forall|j: int| 0 <= j < i ==> full@[j] == full_spec[j],
        decreases width - i,
    {
        if i < bytes.len() {
            full.push(bytes[i]);
        } else {
            full.push(0);
        }
        i = i + 1;
    }
    assert(full@ =~= full_spec);
    if is_ipv4 {
        ipv4_string(full.as_slice())
    } else {
        ipv6_string(full.as_slice())
    }
}

impl BgpExtractor {
    /// Decodes a list of length-prefixed prefixes that fills `data`.
    fn parse_prefix_list(data: &[u8], is_ipv4: bool) -> (res: Result<Vec<BgpPrefix>, DecodeError>)
        ensures
            prefixes_result_view(res) == spec_prefix_list(data@, is_ipv4),
    {
        let mut prefixes: Vec<BgpPrefix> = Vec::new();
        let mut pos: usize = 0;
        assert(prefixes_view(prefixes@) =~= Seq::empty());
        let width: usize = if is_ipv4 {
            4
        } else {
            16
        };
        while pos < data.len()
            invariant
                pos <= data@.len(),
                width == addr_width(is_ipv4),
                spec_prefix_list(data@, is_ipv4) == prefix_list_from(
                    data@,
                    pos as int,
                    is_ipv4,
                    prefixes_view(prefixes@),
                ),
            decreases data@.len() - pos,
        {
            let prefix_len = data[pos];
            let byte_count = (prefix_len as usize + 7) / 8;
            if byte_count > width {
                return Err(DecodeError::PrefixTooLong);
            }
            if data.len() - pos - 1 < byte_count {
                return Err(DecodeError::UnexpectedEof);
            }
            let bytes = &data[pos + 1..pos + 1 + byte_count];
            let text = address_string(bytes, is_ipv4);
            let ghost old_view = prefixes_view(prefixes@);
            let prefix = BgpPrefix::new(text, prefix_len);
            let ghost pv = prefix@;
            prefixes.push(prefix);
            assert(prefixes_view(prefixes@) =~= old_view.push(pv));
            pos = pos + 1 + byte_count;
        }
        Ok(prefixes)
    }

    /// Decodes NLRI prefixes.
    pub fn parse_nlri_prefixes(data: &[u8], is_ipv4: bool) -> (res: Result<Vec<BgpPrefix>, DecodeError>)
        ensures
            prefixes_result_view(res) == spec_prefix_list(data@, is_ipv4),
    {
        Self::parse_prefix_list(data, is_ipv4)
    }

    /// Decodes the segments of an AS_PATH attribute body.
    fn parse_as_path(data: &[u8]) -> (res: Result<Vec<AsPathSegment>, DecodeError>)
        ensures
            match res {
                Ok(v) => spec_as_path(data@) == Ok::<Seq<SegmentView>, DecodeError>(
                    segments_view(v@),
                ),
                Err(e) => spec_as_path(data@) == Err::<Seq<SegmentView>, DecodeError>(e),
            },
    {
        let mut segments: Vec<AsPathSegment> = Vec::new();
        let mut pos: usize = 0;
        assert(segments_view(segments@) =~= Seq::empty());
        while pos < data.len()
            invariant
                pos <= data@.len(),
                spec_as_path(data@) == as_path_from(data@, pos as int, segments_view(segments@)),
            decreases data@.len() - pos,
        {
            if data.len() - pos < 2 {
                return Err(DecodeError::UnexpectedEof);
            }
            let segment_type = data[pos];
            let asn_count = data[pos + 1] as usize;
            let q = pos + 2;
            let bytes_per_asn: usize = if data.len() > 2 && (segment_type == 1 || segment_type == 2)
                && data.len() - q >= asn_count * 4 {
                4
            } else {
                2
            };
            if data.len() - q < asn_count * bytes_per_asn {
                return Err(DecodeError::UnexpectedEof);
            }
            let ghost w = bytes_per_asn as int;
            let dlen = data.len();
            let mut asns: Vec<u32> = Vec::new();
            let mut k: usize = 0;
            while k < asn_count
                invariant
                    k <= asn_count,
                    q + asn_count * bytes_per_asn <= data@.len(),
                    dlen == data@.len(),
                    bytes_per_asn == 2 || bytes_per_asn == 4,
                    w == bytes_per_asn,
                    asns@ =~= Seq::new(k as nat, |i: int| asn_at(data@, q as int, w, i)),
                decreases asn_count - k,
            {
                let v = if bytes_per_asn == 4 {
                    assert(q + 4 * k + 4 <= data@.len()) by (nonlinear_arith)
                        requires
                            k < asn_count,
                            q + asn_count * 4 <= data@.len(),
                    ;
                    get_u32(data, q + 4 * k)
                } else {
                    assert(q + 2 * k + 2 <= data@.len()) by (nonlinear_arith)
                        requires
                            k < asn_count,
                            q + asn_count * 2 <= data@.len(),
                    ;
                    get_u16(data, q + 2 * k) as u32
                };
                asns.push(v);
                k = k + 1;
            }
            let ghost old_view = segments_view(segments@);
            let seg = AsPathSegment { segment_type, asns };
            let ghost sv = seg@;
            segments.push(seg);
            assert(segments_view(segments@) =~= old_view.push(sv));
            pos = q + asn_count * bytes_per_asn;
        }
        Ok(segments)
    }

    /// Decodes the prefixes of an MP_REACH_NLRI attribute body.
    pub fn parse_mp_reach_nlri(data: &[u8]) -> (res: Result<Option<Vec<BgpPrefix>>, DecodeError>)
        ensures
            match res {
                Ok(Some(v)) => spec_mp_reach(data@) == Ok::<Option<Seq<PrefixView>>, DecodeError>(
                    Some(prefixes_view(v@)),
                ),
                Ok(None) => spec_mp_reach(data@) == Ok::<Option<Seq<PrefixView>>, DecodeError>(
                    None,
                ),
                Err(e) => spec_mp_reach(data@) == Err::<Option<Seq<PrefixView>>, DecodeError>(e),
            },
    {
        if data.len() < 5 {
            return Ok(None);
        }
        let afi = get_u16(data, 0);
        let next_hop_len = data[3] as usize;
        let nlri_start = 4 + next_hop_len;
        if nlri_start >= data.len() {
            return Ok(None);
        }
        let is_ipv4 = afi == 1;
        let nlri_data = &data[nlri_start..data.len()];
        match Self::parse_prefix_list(nlri_data, is_ipv4) {
            Ok(v) => Ok(Some(v)),
            Err(DecodeError::PrefixTooLong) => Err(DecodeError::PrefixTooLong),
            Err(_) => Ok(None),
        }
    }
}

/// The spec reading of a decoded attribute header.
pub open spec fn attr_header_view(r: Result<Option<(u8, usize, usize)>, DecodeError>) -> Result<
    Option<(u8, int, int)>,
    DecodeError,
> {
    match r {
        Ok(Some((t, st, l))) => Ok(Some((t, st as int, l as int))),
        Ok(None) => Ok(None),
        Err(e) => Err(e),
    }
}

pub open spec fn opt_prefixes_view(o: Option<Vec<BgpPrefix>>) -> Option<Seq<PrefixView>> {
    match o {
        Some(v) => Some(prefixes_view(v@)),
        None => None,
    }
}

/// The decoded path attributes: AS path, next hop, MP_REACH_NLRI prefixes.
pub type PathAttributes = (Vec<AsPathSegment>, Option<String>, Option<Vec<BgpPrefix>>);

pub open spec fn attrs_view(a: PathAttributes) -> AttrsView {
    AttrsView {
        as_path: segments_view(a.0@),
        next_hop: opt_string_view(a.1),
        mp_reach: opt_prefixes_view(a.2),
    }
}

pub open spec fn attrs_result_view(r: Result<PathAttributes, DecodeError>) -> Result<
    AttrsView,
    DecodeError,
> {
    match r {
        Ok(a) => Ok(attrs_view(a)),
        Err(e) => Err(e),
    }
}

/// Reads the header of the attribute at `pos`.
fn attr_header(data: &[u8], pos: usize) -> (r: Result<Option<(u8, usize, usize)>, DecodeError>)
    requires
        pos < data@.len(),
    ensures
        attr_header_view(r) == attr_header_at(data@, pos as int),
        r matches Ok(Some((t, st, l))) ==> st == pos + 3 || st == pos + 4,
{
    if data.len() - pos < 2 {
        return Ok(None);
    }
    let flags = data[pos];
    let attr_type = data[pos + 1];
    if flags & 0x10u8 != 0u8 {
        if data.len() - pos < 4 {
            return Err(DecodeError::UnexpectedEof);
        }
        let attr_len = get_u16(data, pos + 2) as usize;
        Ok(Some((attr_type, pos + 4, attr_len)))
    } else {
        if data.len() - pos < 3 {
            return Err(DecodeError::UnexpectedEof);
        }
        Ok(Some((attr_type, pos + 3, data[pos + 2] as usize)))
    }
}

impl BgpExtractor {
    const AS_PATH_ATTR: u8 = 2;
    const NEXT_HOP_ATTR: u8 = 3;
    const MP_REACH_NLRI_ATTR: u8 = 14;
    const MP_UNREACH_NLRI_ATTR: u8 = 15;

    /// Decodes a path attributes field: the last AS_PATH, NEXT_HOP and
    /// MP_REACH_NLRI attributes win.
    fn parse_bgp_path_attributes(data: &[u8]) -> (res: Result<PathAttributes, DecodeError>)
        ensures
            attrs_result_view(res) == spec_path_attributes(data@),
    {
        let mut as_path: Vec<AsPathSegment> = Vec::new();
        let mut next_hop: Option<String> = None;
        let mut mp_reach: Option<Vec<BgpPrefix>> = None;
        let mut pos: usize = 0;
        assert(segments_view(as_path@) =~= Seq::empty());
        while pos < data.len()
            invariant
                spec_path_attributes(data@) == attrs_from(
                    data@,
                    pos as int,
                    attrs_view((as_path, next_hop, mp_reach)),
                ),
            ensures
                spec_path_attributes(data@) == Ok::<AttrsView, DecodeError>(
                    attrs_view((as_path, next_hop, mp_reach)),
                ),
            decreases data@.len() - pos,
        {
            let (attr_type, attr_start, attr_len) = match attr_header(data, pos) {
                Ok(Some(h)) => h,
                Ok(None) => break,
                Err(e) => return Err(e),
            };
            if attr_len > data.len() - attr_start {
                break;
            }
            let attr_data = &data[attr_start..attr_start + attr_len];
            if attr_type == Self::AS_PATH_ATTR {
                match Self::parse_as_path(attr_data) {
                    Ok(p) => {
                        as_path = p;
                    },
                    Err(e) => return Err(e),
                }
            } else if attr_type == Self::NEXT_HOP_ATTR {
                if attr_len >= 4 {
                    next_hop = Some(ipv4_string(attr_data));
                }
            } else if attr_type == Self::MP_REACH_NLRI_ATTR {
                match Self::parse_mp_reach_nlri(attr_data) {
                    Ok(m) => {
                        mp_reach = m;
                    },
                    Err(e) => return Err(e),
                }
            }
            pos = attr_start + attr_len;
        }
        Ok((as_path, next_hop, mp_reach))
    }

    /// The MP_UNREACH_NLRI prefixes of a path attributes field.
    fn extract_mp_unreach_prefixes(data: &[u8]) -> (res: Result<Vec<BgpPrefix>, DecodeError>)
        ensures
            prefixes_result_view(res) == spec_mp_unreach(data@),
    {
        let mut prefixes: Vec<BgpPrefix> = Vec::new();
        let mut pos: usize = 0;
        assert(prefixes_view(prefixes@) =~= Seq::empty());
        while pos < data.len()
            invariant
                spec_mp_unreach(data@) == unreach_from(data@, pos as int, prefixes_view(prefixes@)),
            ensures
                spec_mp_unreach(data@) == Ok::<Seq<PrefixView>, DecodeError>(prefixes_view(prefixes@)),
            decreases data@.len() - pos,
        {
            let (attr_type, attr_start, attr_len) = match attr_header(data, pos) {
                Ok(Some(h)) => h,
                Ok(None) => break,
                Err(e) => return Err(e),
            };
            if attr_type == Self::MP_UNREACH_NLRI_ATTR && attr_len >= 3 {
                if attr_len > data.len() - attr_start {
                    return Err(DecodeError::LengthOutOfRange);
                }
                let attr_data = &data[attr_start..attr_start + attr_len];
                let afi = get_u16(attr_data, 0);
                let nlri_data = &attr_data[3..attr_len];
                match Self::parse_prefix_list(nlri_data, afi == 1) {
                    Ok(pfxs) => {
                        prefixes = pfxs;
                    },
                    Err(DecodeError::PrefixTooLong) => return Err(DecodeError::PrefixTooLong),
                    Err(_) => {},
                }
            } else if attr_len > data.len() - attr_start {
                break;
            }
            pos = attr_start + attr_len;
        }
        Ok(prefixes)
    }

    /// The origin AS of a path: the last AS of its last non-empty AS_SEQUENCE.
    pub fn extract_origin_as(as_path: &[AsPathSegment]) -> (r: Option<u32>)
        ensures
            r == spec_origin_as(segments_view(as_path@)),
    {
        let mut i = as_path.len();
        assert(as_path@.subrange(0, i as int) =~= as_path@);
        while i > 0
            invariant
                i <= as_path@.len(),
                spec_origin_as(segments_view(as_path@)) == spec_origin_as(
                    segments_view(as_path@.subrange(0, i as int)),
                ),
            decreases i,
        {
            let ghost prefix = segments_view(as_path@.subrange(0, i as int));
            assert(prefix.last() == as_path@[i - 1]@);
            assert(prefix.drop_last() =~= segments_view(as_path@.subrange(0, i - 1)));
            let seg = &as_path[i - 1];
            if seg.is_as_sequence() && seg.asns.len() > 0 {
                return Some(seg.asns[seg.asns.len() - 1]);
            }
            i = i - 1;
        }
        None
    }

    /// The AS path as one list: sequences in full, the first AS of each set.
    pub fn flatten_as_path(as_path: &[AsPathSegment]) -> (r: Vec<u32>)
        ensures
            r@ == spec_flatten(segments_view(as_path@)),
    {
        let mut result: Vec<u32> = Vec::new();
        let mut i: usize = 0;
        while i < as_path.len()
            invariant
                i <= as_path@.len(),
                result@ == spec_flatten(segments_view(as_path@.subrange(0, i as int))),
            decreases as_path@.len() - i,
        {
            let seg = &as_path[i];
            let ghost before = result@;
            let ghost next = segments_view(as_path@.subrange(0, i + 1));
            assert(next.drop_last() =~= segments_view(as_path@.subrange(0, i as int)));
            assert(next.last() == seg@);
            if seg.is_as_sequence() {
                let mut k: usize = 0;
                while k < seg.asns.len()
                    invariant
                        k <= seg.asns@.len(),
                        result@ == before + seg.asns@.subrange(0, k as int),
                    decreases seg.asns@.len() - k,
                {
                    result.push(seg.asns[k]);
                    k = k + 1;
                    assert(result@ =~= before + seg.asns@.subrange(0, k as int));
                }
                assert(seg.asns@.subrange(0, seg.asns@.len() as int) =~= seg.asns@);
            } else if seg.is_as_set() {
                if seg.asns.len() > 0 {
                    result.push(seg.asns[0]);
                }
            }
            assert(result@ =~= before + segment_contribution(seg@));
            i = i + 1;
        }
        assert(as_path@.subrange(0, as_path@.len() as int) =~= as_path@);
        result
    }
}

impl BgpExtractor {
    /// Decodes a BGP message; only UPDATE messages with a valid marker give
    /// an update.
    fn parse_bgp_update_message(
        data: &[u8],
        timestamp: u32,
        peer_as: Option<u32>,
        local_as: Option<u32>,
    ) -> (res: Result<Option<BgpUpdate>, DecodeError>)
        ensures
            update_result_view(res) == spec_update_message(data@, timestamp, peer_as, local_as),
    {
        if data.len() < 19 {
            return Ok(None);
        }
        let mut k: usize = 0;
        while k < 16
            invariant
                k <= 16,
                data@.len() >= 19,
                forall|i: int| 0 <= i < k ==> data@[i] == 0xFF,
            decreases 16 - k,
        {
            if data[k] != 0xFF {
                assert(exists|i: int| 0 <= i < 16 && data@[i] != 0xFF) by {
                    assert(data@[k as int] != 0xFF);
                }
                return Ok(None);
            }
            k = k + 1;
        }
        let msg_type = data[18];
        if msg_type != 2 {
            return Ok(None);
        }
        if data.len() < 21 {
            return Err(DecodeError::UnexpectedEof);
        }
        let withdrawn_len = get_u16(data, 19) as usize;
        if withdrawn_len > data.len() - 21 {
            return Err(DecodeError::LengthOutOfRange);
        }
        let wend = 21 + withdrawn_len;
        let withdrawn_prefixes = match Self::parse_prefix_list(&data[21..wend], true) {
            Ok(v) => v,
            Err(e) => return Err(e),
        };
        if data.len() - wend < 2 {
            return Err(DecodeError::UnexpectedEof);
        }
        let path_attr_len = get_u16(data, wend) as usize;
        let astart = wend + 2;
        if path_attr_len > data.len() - astart {
            return Err(DecodeError::LengthOutOfRange);
        }
        let aend = astart + path_attr_len;
        let path_attr_data = &data[astart..aend];
        let (as_path, next_hop, mp_reach) = match Self::parse_bgp_path_attributes(path_attr_data) {
            Ok(a) => a,
            Err(e) => return Err(e),
        };
        let mut mp_unreach = match Self::extract_mp_unreach_prefixes(path_attr_data) {
            Ok(v) => v,
            Err(e) => return Err(e),
        };
        let nlri = match Self::parse_nlri_prefixes(&data[aend..data.len()], true) {
            Ok(v) => v,
            Err(e) => return Err(e),
        };
        let ghost attrs = attrs_view((as_path, next_hop, mp_reach));
        let announced_prefixes = match mp_reach {
            Some(v) => v,
            None => nlri,
        };
        let mut withdrawn = withdrawn_prefixes;
        let ghost w0 = prefixes_view(withdrawn@);
        let ghost u0 = prefixes_view(mp_unreach@);
        withdrawn.append(&mut mp_unreach);
        assert(prefixes_view(withdrawn@) =~= w0 + u0);
        let origin_as = Self::extract_origin_as(as_path.as_slice());
        let update = BgpUpdate {
            announced_prefixes,
            withdrawn_prefixes: withdrawn,
            as_path,
            origin_as,
            next_hop,
            source_as: local_as,
            peer_as,
            timestamp,
        };
        assert(update@ == update_of(
            update@.announced_prefixes,
            w0 + u0,
            attrs,
            local_as,
            peer_as,
            timestamp,
        ));
        Ok(Some(update))
    }

    /// Decodes a BGP4MP / BGP4MP_ET record body.
    fn extract_bgp4mp(header: &MrtHeader, data: &[u8]) -> (res: Result<Option<BgpUpdate>, DecodeError>)
        ensures
            update_result_view(res) == spec_bgp4mp(header.timestamp, header.subtype, data@),
    {
        let subtype = Bgp4MpSubtype::from(header.subtype);
        let is_update = match subtype {
            Bgp4MpSubtype::Message
            | Bgp4MpSubtype::MessageAs4
            | Bgp4MpSubtype::MessageLocal
            | Bgp4MpSubtype::MessageLocalAs4 => true,
            _ => false,
        };
        if !is_update {
            return Ok(None);
        }
        let is_as4 = match subtype {
            Bgp4MpSubtype::MessageAs4 | Bgp4MpSubtype::MessageLocalAs4 => true,
            _ => false,
        };
        let w: usize = if is_as4 {
            4
        } else {
            2
        };
        let afi_pos = 2 * w + 2;
        if data.len() < afi_pos + 2 {
            return Err(DecodeError::UnexpectedEof);
        }
        let peer_as = if is_as4 {
            get_u32(data, 0)
        } else {
            get_u16(data, 0) as u32
        };
        let local_as = if is_as4 {
            get_u32(data, 4)
        } else {
            get_u16(data, 2) as u32
        };
        let afi = get_u16(data, afi_pos);
        let ip_len: usize = if afi == 2 {
            16
        } else {
            4
        };
        let msg = afi_pos + 2 + ip_len;
        if data.len() < msg {
            return Err(DecodeError::UnexpectedEof);
        }
        Self::parse_bgp_update_message(
            &data[msg..data.len()],
            header.timestamp,
            Some(peer_as),
            Some(local_as),
        )
    }

    /// Decodes a TABLE_DUMP_V2 RIB entry record body (its first entry).
    pub fn parse_rib_entry(header: &MrtHeader, data: &[u8], subtype: &TableDumpV2Subtype) -> (res: Result<
        Option<BgpUpdate>,
        DecodeError,
    >)
        ensures
            update_result_view(res) == spec_rib_entry(header.timestamp, *subtype, data@),
    {
        if data.len() < 5 {
            return Err(DecodeError::UnexpectedEof);
        }
        let prefix_len = data[4];
        let is_ipv4 = match subtype {
            TableDumpV2Subtype::RibIpv4Unicast | TableDumpV2Subtype::RibIpv4Multicast => true,
            _ => false,
        };
        let width: usize = if is_ipv4 {
            4
        } else {
            16
        };
        let byte_count = (prefix_len as usize + 7) / 8;
        if byte_count > width {
            return Err(DecodeError::PrefixTooLong);
        }
        if data.len() - 5 < byte_count {
            return Err(DecodeError::UnexpectedEof);
        }
        let prefix = address_string(&data[5..5 + byte_count], is_ipv4);
        let p = 5 + byte_count;
        if data.len() - p < 2 {
            return Err(DecodeError::UnexpectedEof);
        }
        let entry_count = get_u16(data, p);
        if entry_count == 0 {
            return Ok(None);
        }
        if data.len() - p < 10 {
            return Err(DecodeError::UnexpectedEof);
        }
        let path_attr_len = get_u16(data, p + 8) as usize;
        let astart = p + 10;
        if path_attr_len > data.len() - astart {
            return Err(DecodeError::LengthOutOfRange);
        }
        let (as_path, next_hop, mp_reach) = match Self::parse_bgp_path_attributes(
            &data[astart..astart + path_attr_len],
        ) {
            Ok(a) => a,
            Err(e) => return Err(e),
        };
        let ghost attrs = attrs_view((as_path, next_hop, mp_reach));
        let announced_prefixes = match mp_reach {
            Some(v) => v,
            None => {
                let v = vec![BgpPrefix::new(prefix, prefix_len)];
                assert(prefixes_view(v@) =~= seq![v@[0]@]);
                v
            },
        };
        let origin_as = Self::extract_origin_as(as_path.as_slice());
        let withdrawn_prefixes: Vec<BgpPrefix> = Vec::new();
        assert(prefixes_view(withdrawn_prefixes@) =~= Seq::empty());
        let update = BgpUpdate {
            announced_prefixes,
            withdrawn_prefixes,
            as_path,
            origin_as,
            next_hop,
            source_as: None,
            peer_as: None,
            timestamp: header.timestamp,
        };
        assert(update@ == update_of(
            update@.announced_prefixes,
            Seq::empty(),
            attrs,
            None,
            None,
            header.timestamp,
        ));
        Ok(Some(update))
    }

    /// Decodes a TABLE_DUMP_V2 record body: RIB entries only.
    pub fn extract_table_dump_v2(header: &MrtHeader, data: &[u8]) -> (res: Result<
        Option<BgpUpdate>,
        DecodeError,
    >)
        ensures
            update_result_view(res) == spec_table_dump_v2(header.timestamp, header.subtype, data@),
    {
        let subtype = TableDumpV2Subtype::from(header.subtype);
        match subtype {
            TableDumpV2Subtype::RibIpv4Unicast
            | TableDumpV2Subtype::RibIpv4Multicast
            | TableDumpV2Subtype::RibIpv6Unicast
            | TableDumpV2Subtype::RibIpv6Multicast => Self::parse_rib_entry(header, data, &subtype),
            _ => Ok(None),
        }
    }

    /// The routing information of one MRT record: `Ok(None)` for records
    /// that carry none (other types and subtypes, non-UPDATE messages, RIB
    /// entries without entries); `Err` when the body is malformed, where
    /// [`DecodeError::is_fatal`] tells the malformations that abort the
    /// analysis from truncated fields that only drop the record.
    pub fn extract_from_record(header: &MrtHeader, data: &[u8]) -> (res: Result<
        Option<BgpUpdate>,
        DecodeError,
    >)
        ensures
            update_result_view(res) == spec_extract(*header, data@),
    {
        reveal(spec_extract);
        match header.mrt_type {
            MrtType::TableDumpV2 => Self::extract_table_dump_v2(header, data),
            MrtType::Bgp4Mp | MrtType::Bgp4MpEt => Self::extract_bgp4mp(header, data),
            _ => Ok(None),
        }
    }
}

} // verus!
