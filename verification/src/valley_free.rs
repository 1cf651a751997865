//! Gao-Rexford style business relationships between ASes and valley-free
//! checks of AS paths.
use std::collections::HashMap;
use vstd::prelude::*;

use dashmap::DashMap;

use crate::bgp_extract::{cidr_text, spec_flatten, BgpExtractor, BgpUpdate, UpdateView};
use crate::parallel_processor::{
    update_entries_match, update_entries_view, update_table_entries, updates_view, degree_table, degree_table_get, degrees_fit, entries_match, lemma_entries_len, link_endpoints,
    link_table, link_table_entries, lemma_degree_nonneg, spec_degree, CountError, ParallelProcessor,
};
use crate::text::{append_dec, dec_text};
use crate::ranking::{is_ranking, lemma_ranking_contiguous, rank_desc};
use crate::topology::AsTopology;

verus! {

broadcast use vstd::std_specs::hash::group_hash_axioms;

/// The business relationship on a link, seen from its first AS.
#[derive(Debug, Clone, Copy, PartialEq, Eq, Structural)]
pub enum AsRelationship {
    ProviderToCustomer,
    CustomerToProvider,
    PeerToPeer,
}

impl AsRelationship {
    pub open spec fn spec_mirror(self) -> AsRelationship {
        match self {
            AsRelationship::ProviderToCustomer => AsRelationship::CustomerToProvider,
            AsRelationship::CustomerToProvider => AsRelationship::ProviderToCustomer,
            AsRelationship::PeerToPeer => AsRelationship::PeerToPeer,
        }
    }

    /// The same relationship seen from the other end of the link.
    pub fn mirror(&self) -> (r: AsRelationship)
        ensures
            r == self.spec_mirror(),
    {
        match self {
            AsRelationship::ProviderToCustomer => AsRelationship::CustomerToProvider,
            AsRelationship::CustomerToProvider => AsRelationship::ProviderToCustomer,
            AsRelationship::PeerToPeer => AsRelationship::PeerToPeer,
        }
    }

    pub fn label(&self) -> (r: &'static str)
        ensures
            r@ == match self {
                AsRelationship::ProviderToCustomer => "Provider→Customer"@,
                AsRelationship::CustomerToProvider => "Customer→Provider"@,
                AsRelationship::PeerToPeer => "Peer↔Peer"@,
            },
    {
        match self {
            AsRelationship::ProviderToCustomer => "Provider→Customer",
            AsRelationship::CustomerToProvider => "Customer→Provider",
            AsRelationship::PeerToPeer => "Peer↔Peer",
        }
    }

    pub fn short_label(&self) -> (r: &'static str)
        ensures
            r@ == match self {
                AsRelationship::ProviderToCustomer => "p2c"@,
                AsRelationship::CustomerToProvider => "c2p"@,
                AsRelationship::PeerToPeer => "p2p"@,
            },
    {
        match self {
            AsRelationship::ProviderToCustomer => "p2c",
            AsRelationship::CustomerToProvider => "c2p",
            AsRelationship::PeerToPeer => "p2p",
        }
    }
}

/// Mirroring a relationship twice gives it back.
pub proof fn lemma_mirror_involution(r: AsRelationship)
    ensures
        r.spec_mirror().spec_mirror() == r,
{
}

/// The kind of valley a violation is.
#[derive(Debug, Clone, Copy, PartialEq, Eq, Hash, Structural)]
pub enum LeakType {
    ValleyDownUp,
    ValleyDownPeer,
    ValleyPeerUp,
    MultiPeer,
}

impl LeakType {
    pub fn label(&self) -> (r: &'static str)
        ensures
            r@ == match self {
                LeakType::ValleyDownUp => "Valley (Down→Up)"@,
                LeakType::ValleyDownPeer => "Valley (Down→Peer)"@,
                LeakType::ValleyPeerUp => "Valley (Peer→Up)"@,
                LeakType::MultiPeer => "Multi-Peer"@,
            },
    {
        match self {
            LeakType::ValleyDownUp => "Valley (Down→Up)",
            LeakType::ValleyDownPeer => "Valley (Down→Peer)",
            LeakType::ValleyPeerUp => "Valley (Peer→Up)",
            LeakType::MultiPeer => "Multi-Peer",
        }
    }
}

/// One valley found on an AS path.
#[derive(Debug)]
pub struct RouteLeakViolation {
    pub prefix: String,
    pub as_path: Vec<u32>,
    pub relationships: Vec<Option<AsRelationship>>,
    pub violation_index: usize,
    pub violation_desc: String,
    pub leak_type: LeakType,
}

/// What a [`RouteLeakViolation`] holds.
pub struct ViolationView {
    pub prefix: Seq<char>,
    pub as_path: Seq<u32>,
    pub relationships: Seq<Option<AsRelationship>>,
    pub violation_index: usize,
    pub violation_desc: Seq<char>,
    pub leak_type: LeakType,
}

impl View for RouteLeakViolation {
    type V = ViolationView;

    open spec fn view(&self) -> ViolationView {
        ViolationView {
            prefix: self.prefix@,
            as_path: self.as_path@,
            relationships: self.relationships@,
            violation_index: self.violation_index,
            violation_desc: self.violation_desc@,
            leak_type: self.leak_type,
        }
    }
}

pub open spec fn violations_view(v: Seq<RouteLeakViolation>) -> Seq<ViolationView> {
    v.map_values(|x: RouteLeakViolation| x@)
}

/// The key under which the relationship of link `(a, b)` is stored.
pub open spec fn pack(a: u32, b: u32) -> u64 {
    (a as int * 4294967296 + b as int) as u64
}

fn pack_exec(a: u32, b: u32) -> (r: u64)
    ensures
        r == pack(a, b),
{
    assert(a as int * 4294967296 + b as int <= u64::MAX) by (nonlinear_arith)
        requires
            a <= u32::MAX,
            b <= u32::MAX,
    ;
    (a as u64) * 4294967296 + (b as u64)
}

/// Different links have different keys.
pub proof fn lemma_pack_injective(a: u32, b: u32, c: u32, d: u32)
    requires
        pack(a, b) == pack(c, d),
    ensures
        a == c && b == d,
{
    assert(a as int * 4294967296 + b as int <= u64::MAX) by (nonlinear_arith)
        requires
            a <= u32::MAX,
            b <= u32::MAX,
    ;
    assert(c as int * 4294967296 + d as int <= u64::MAX) by (nonlinear_arith)
        requires
            c <= u32::MAX,
            d <= u32::MAX,
    ;
    assert(a == c && b == d) by (nonlinear_arith)
        requires
            a as int * 4294967296 + b as int == c as int * 4294967296 + d as int,
            0 <= b < 4294967296,
            0 <= d < 4294967296,
            0 <= a,
            0 <= c,
    ;
}

/// The relationship between `from` and `to` in a table of link
/// relationships: the stored one, else the mirror of the reverse link's.
pub open spec fn relation_between(m: Map<(u32, u32), AsRelationship>, from: u32, to: u32) -> Option<
    AsRelationship,
> {
    if m.contains_key((from, to)) {
        Some(m[(from, to)])
    } else if m.contains_key((to, from)) {
        Some(m[(to, from)].spec_mirror())
    } else {
        None
    }
}

/// The relationships of consecutive links of a path.
pub open spec fn path_relations(m: Map<(u32, u32), AsRelationship>, path: Seq<u32>) -> Seq<
    Option<AsRelationship>,
> {
    Seq::new((path.len() - 1) as nat, |i: int| relation_between(m, path[i], path[i + 1]))
}

/// Some earlier link goes down (provider to customer).
pub open spec fn seen_down(rels: Seq<Option<AsRelationship>>, i: int) -> bool {
    exists|j: int| 0 <= j < i && rels[j] == Some(AsRelationship::ProviderToCustomer)
}

/// Some earlier link is a peering.
pub open spec fn seen_peer(rels: Seq<Option<AsRelationship>>, i: int) -> bool {
    exists|j: int| 0 <= j < i && rels[j] == Some(AsRelationship::PeerToPeer)
}

/// The valley, if any, that link `i` closes: going up after going down or
/// after a peering, going down after a peering, or peering after going down
/// or after another peering. Links of unknown relationship close none.
pub open spec fn violation_at(rels: Seq<Option<AsRelationship>>, i: int) -> Option<LeakType> {
    match rels[i] {
        Some(AsRelationship::CustomerToProvider) => if seen_down(rels, i) {
            Some(LeakType::ValleyDownUp)
        } else if seen_peer(rels, i) {
            Some(LeakType::ValleyPeerUp)
        } else {
            None
        },
        Some(AsRelationship::ProviderToCustomer) => if seen_peer(rels, i) {
            Some(LeakType::ValleyDownPeer)
        } else {
            None
        },
        Some(AsRelationship::PeerToPeer) => if seen_peer(rels, i) {
            Some(LeakType::MultiPeer)
        } else if seen_down(rels, i) {
            Some(LeakType::ValleyDownPeer)
        } else {
            None
        },
        None => None,
    }
}

/// The links among the first `n` that close a valley, in path order.
pub open spec fn violation_indices(rels: Seq<Option<AsRelationship>>, n: int) -> Seq<int>
    decreases n,
{
    if n <= 0 {
        Seq::empty()
    } else if violation_at(rels, n - 1) is Some {
        violation_indices(rels, n - 1).push(n - 1)
    } else {
        violation_indices(rels, n - 1)
    }
}

/// The text after `AS<a> → AS<b>` in the description of a violation, by the
/// relationship of the link and the kind of valley.
pub open spec fn violation_tail(rel: AsRelationship, leak: LeakType) -> Seq<char> {
    match rel {
        AsRelationship::CustomerToProvider => if leak == LeakType::ValleyDownUp {
            " (c2p) after descending path — Valley detected"@
        } else {
            " (c2p) after peer link — Valley detected"@
        },
        AsRelationship::ProviderToCustomer => " (p2c) after peer link — Valley detected"@,
        AsRelationship::PeerToPeer => if leak == LeakType::MultiPeer {
            " (p2p) — Multiple peer links in path"@
        } else {
            " (p2p) after descending path — Valley detected"@
        },
    }
}

/// The description of a violation on link `a → b`.
pub open spec fn violation_text(rel: AsRelationship, leak: LeakType, a: u32, b: u32) -> Seq<char> {
    "AS"@ + dec_text(a as nat) + " → AS"@ + dec_text(b as nat) + violation_tail(rel, leak)
}

/// The valleys of an AS path under a relationship table: for each link
/// that closes one (see [`violation_at`]), in path order, the prefix, the
/// path, the relationships of all its links, the link's index, a
/// description and the kind of valley. Paths of fewer than three ASes have
/// none.
pub open spec fn path_violations(m: Map<(u32, u32), AsRelationship>, path: Seq<u32>, prefix: Seq<char>) -> Seq<
    ViolationView,
> {
    if path.len() < 3 {
        Seq::empty()
    } else {
        let rels = path_relations(m, path);
        let idx = violation_indices(rels, rels.len() as int);
        Seq::new(
            idx.len(),
            |k: int|
                {
                    let i = idx[k];
                    let leak = violation_at(rels, i).unwrap();
                    ViolationView {
                        prefix: prefix,
                        as_path: path,
                        relationships: rels,
                        violation_index: i as usize,
                        violation_desc: violation_text(rels[i].unwrap(), leak, path[i], path[i + 1]),
                        leak_type: leak,
                    }
                },
        )
    }
}

/// The prefix under which the valleys of an update are reported: its first
/// announced prefix in `address/length` notation, or nothing.
pub open spec fn leak_prefix(u: UpdateView) -> Seq<char> {
    if u.announced_prefixes.len() > 0 {
        cidr_text(u.announced_prefixes[0])
    } else {
        Seq::empty()
    }
}

/// The valleys of an update's flattened AS path.
pub open spec fn update_violations(m: Map<(u32, u32), AsRelationship>, u: UpdateView) -> Seq<ViolationView> {
    path_violations(m, spec_flatten(u.as_path), leak_prefix(u))
}

/// The valleys of a list of updates, update by update.
pub open spec fn updates_violations(m: Map<(u32, u32), AsRelationship>, us: Seq<UpdateView>) -> Seq<
    ViolationView,
>
    decreases us.len(),
{
    if us.len() == 0 {
        Seq::empty()
    } else {
        updates_violations(m, us.drop_last()) + update_violations(m, us.last())
    }
}

/// The valleys of the update lists of a table listing, entry by entry.
pub open spec fn entries_violations(m: Map<(u32, u32), AsRelationship>, es: Seq<(u32, Seq<UpdateView>)>) -> Seq<
    ViolationView,
>
    decreases es.len(),
{
    if es.len() == 0 {
        Seq::empty()
    } else {
        entries_violations(m, es.drop_last()) + updates_violations(m, es.last().1)
    }
}

/// The rank of a kind of valley when reporting, highest first: by label in
/// reverse string order, "Valley (Peer→Up)", "Valley (Down→Up)",
/// "Valley (Down→Peer)", "Multi-Peer".
pub open spec fn leak_rank(l: LeakType) -> u64 {
    match l {
        LeakType::ValleyPeerUp => 3,
        LeakType::ValleyDownUp => 2,
        LeakType::ValleyDownPeer => 1,
        LeakType::MultiPeer => 0,
    }
}

fn leak_rank_exec(l: LeakType) -> (r: u64)
    ensures
        r == leak_rank(l),
{
    match l {
        LeakType::ValleyPeerUp => 3,
        LeakType::ValleyDownUp => 2,
        LeakType::ValleyDownPeer => 1,
        LeakType::MultiPeer => 0,
    }
}

/// The reporting keys of violations: rank of the kind, then link index.
pub open spec fn leak_keys(vs: Seq<ViolationView>) -> Seq<(u64, u64)> {
    vs.map_values(|v: ViolationView| (leak_rank(v.leak_type), v.violation_index as u64))
}

/// The items of `vs` at the positions `order`.
pub open spec fn permuted(vs: Seq<ViolationView>, order: Seq<usize>) -> Seq<ViolationView> {
    order.map_values(|i: usize| vs[i as int])
}

/// Two violations report the same valley: same path, link and kind.
pub open spec fn same_leak(a: ViolationView, b: ViolationView) -> bool {
    &&& a.as_path == b.as_path
    &&& a.violation_index == b.violation_index
    &&& a.leak_type == b.leak_type
}

/// The first violation of each valley, in order.
pub open spec fn first_of_each(vs: Seq<ViolationView>) -> Seq<ViolationView>
    decreases vs.len(),
{
    if vs.len() == 0 {
        Seq::empty()
    } else {
        let rest = first_of_each(vs.drop_last());
        if exists|j: int| 0 <= j < vs.len() - 1 && same_leak(vs[j], vs.last()) {
            rest
        } else {
            rest.push(vs.last())
        }
    }
}

/// Reporting keys in order, highest first.
pub open spec fn keys_nonincreasing(keys: Seq<(u64, u64)>) -> bool {
    forall|i: int, j: int|
        0 <= i < j < keys.len() ==> keys[i].0 > keys[j].0 || (keys[i].0 == keys[j].0 && keys[i].1 >= keys[j].1)
}

/// Every violation that `first_of_each` keeps is one of its input.
pub proof fn lemma_first_of_each_members(vs: Seq<ViolationView>)
    ensures
        forall|i: int|
            0 <= i < first_of_each(vs).len() ==> exists|k: int| 0 <= k < vs.len() && #[trigger] first_of_each(vs)[i] == vs[k],
    decreases vs.len(),
{
    if vs.len() > 0 {
        let d = vs.drop_last();
        lemma_first_of_each_members(d);
        let fo = first_of_each(vs);
        assert forall|i: int| 0 <= i < fo.len() implies exists|k: int| 0 <= k < vs.len() && #[trigger] fo[i] == vs[k] by {
            if i < first_of_each(d).len() {
                let k = choose|k: int| 0 <= k < d.len() && first_of_each(d)[i] == d[k];
                assert(fo[i] == vs[k]);
            } else {
                assert(fo[i] == vs[vs.len() - 1]);
            }
        }
    }
}

/// Every violation of the input has its valley among those
/// `first_of_each` keeps.
proof fn lemma_first_of_each_covers(vs: Seq<ViolationView>)
    ensures
        forall|i: int|
            0 <= i < vs.len() ==> exists|j: int|
                0 <= j < first_of_each(vs).len() && same_leak(first_of_each(vs)[j], #[trigger] vs[i]),
    decreases vs.len(),
{
    if vs.len() > 0 {
        let d = vs.drop_last();
        lemma_first_of_each_covers(d);
        let fo = first_of_each(vs);
        let rest = first_of_each(d);
        assert forall|i: int| 0 <= i < vs.len() implies exists|j: int|
            0 <= j < fo.len() && same_leak(fo[j], #[trigger] vs[i]) by {
            if i < d.len() {
                assert(vs[i] == d[i]);
                let j = choose|j: int| 0 <= j < rest.len() && same_leak(rest[j], d[i]);
                assert(fo[j] == rest[j]);
            } else if exists|k: int| 0 <= k < vs.len() - 1 && same_leak(vs[k], vs.last()) {
                let k = choose|k: int| 0 <= k < vs.len() - 1 && same_leak(vs[k], vs.last());
                assert(vs[k] == d[k]);
                let j = choose|j: int| 0 <= j < rest.len() && same_leak(rest[j], d[k]);
                assert(fo[j] == rest[j]);
            } else {
                assert(fo[rest.len() as int] == vs.last());
            }
        }
    }
}

/// The reported violations are exactly the valleys found: each report is
/// one of the violations, and every violation has its valley (path, link
/// and kind) reported.
pub proof fn lemma_reported_leaks_cover(all: Seq<ViolationView>, order: Seq<usize>)
    requires
        all.len() <= usize::MAX,
        is_ranking(leak_keys(all), order),
    ensures
        forall|j: int|
            0 <= j < first_of_each(permuted(all, order)).len() ==> exists|k: int|
                0 <= k < all.len() && #[trigger] first_of_each(permuted(all, order))[j] == all[k],
        forall|k: int|
            0 <= k < all.len() ==> exists|j: int|
                0 <= j < first_of_each(permuted(all, order)).len() && same_leak(
                    first_of_each(permuted(all, order))[j],
                    #[trigger] all[k],
                ),
{
    let s = permuted(all, order);
    let fo = first_of_each(s);
    lemma_first_of_each_members(s);
    lemma_first_of_each_covers(s);
    assert forall|j: int| 0 <= j < fo.len() implies exists|k: int| 0 <= k < all.len() && #[trigger] fo[j] == all[k] by {
        let i = choose|i: int| 0 <= i < s.len() && fo[j] == s[i];
        assert(order[i] < all.len());
        assert(s[i] == all[order[i] as int]);
    }
    assert forall|k: int| 0 <= k < all.len() implies exists|j: int|
        0 <= j < fo.len() && same_leak(fo[j], #[trigger] all[k]) by {
        assert(leak_keys(all).len() == all.len());
        assert(order.contains(k as usize));
        let i = choose|i: int| 0 <= i < order.len() && order[i] == k as usize;
        assert(order[i] as int == k);
        assert(s[i] == all[order[i] as int]);
        let j = choose|j: int| 0 <= j < fo.len() && same_leak(fo[j], s[i]);
    }
}

/// The violations of a list of updates are exactly those of its updates.
proof fn lemma_updates_violations_members(m: Map<(u32, u32), AsRelationship>, us: Seq<UpdateView>)
    ensures
        forall|v: ViolationView|
            #[trigger] updates_violations(m, us).contains(v) ==> exists|j: int|
                0 <= j < us.len() && update_violations(m, us[j]).contains(v),
        forall|j: int, v: ViolationView|
            #![trigger update_violations(m, us[j]).contains(v)]
            0 <= j < us.len() && update_violations(m, us[j]).contains(v) ==> updates_violations(m, us).contains(v),
    decreases us.len(),
{
    if us.len() > 0 {
        let d = us.drop_last();
        lemma_updates_violations_members(m, d);
        let all = updates_violations(m, us);
        let pre = updates_violations(m, d);
        let last = update_violations(m, us.last());
        assert(all == pre + last);
        assert forall|v: ViolationView| #[trigger] all.contains(v) implies exists|j: int|
            0 <= j < us.len() && update_violations(m, us[j]).contains(v) by {
            let k = choose|k: int| 0 <= k < all.len() && all[k] == v;
            if k < pre.len() {
                assert(pre[k] == v);
                assert(pre.contains(v));
                let j = choose|j: int| 0 <= j < d.len() && update_violations(m, d[j]).contains(v);
                assert(us[j] == d[j]);
            } else {
                assert(all[k] == last[k - pre.len()]);
                assert(us[us.len() - 1] == us.last());
                assert(last.contains(v));
            }
        }
        assert forall|j: int, v: ViolationView|
            #![trigger update_violations(m, us[j]).contains(v)]
            0 <= j < us.len() && update_violations(m, us[j]).contains(v) implies all.contains(v) by {
            if j < d.len() {
                assert(us[j] == d[j]);
                assert(update_violations(m, d[j]).contains(v));
                let k = choose|k: int| 0 <= k < pre.len() && pre[k] == v;
                assert(all[k] == pre[k]);
            } else {
                assert(us[j] == us.last());
                let t = choose|t: int| 0 <= t < last.len() && last[t] == v;
                assert(all[pre.len() + t] == last[t]);
            }
        }
    }
}

/// The violations of a table listing are exactly those of its updates.
proof fn lemma_entries_violations_members(m: Map<(u32, u32), AsRelationship>, es: Seq<(u32, Seq<UpdateView>)>)
    ensures
        forall|v: ViolationView|
            #[trigger] entries_violations(m, es).contains(v) ==> exists|i: int|
                0 <= i < es.len() && updates_violations(m, es[i].1).contains(v),
        forall|i: int, v: ViolationView|
            #![trigger updates_violations(m, es[i].1).contains(v)]
            0 <= i < es.len() && updates_violations(m, es[i].1).contains(v) ==> entries_violations(m, es).contains(v),
    decreases es.len(),
{
    if es.len() > 0 {
        let d = es.drop_last();
        lemma_entries_violations_members(m, d);
        let all = entries_violations(m, es);
        let pre = entries_violations(m, d);
        let last = updates_violations(m, es.last().1);
        assert(all == pre + last);
        assert forall|v: ViolationView| #[trigger] all.contains(v) implies exists|i: int|
            0 <= i < es.len() && updates_violations(m, es[i].1).contains(v) by {
            let k = choose|k: int| 0 <= k < all.len() && all[k] == v;
            if k < pre.len() {
                assert(pre[k] == v);
                assert(pre.contains(v));
                let i = choose|i: int| 0 <= i < d.len() && updates_violations(m, d[i].1).contains(v);
                assert(es[i] == d[i]);
            } else {
                assert(all[k] == last[k - pre.len()]);
                assert(es[es.len() - 1] == es.last());
                assert(last.contains(v));
            }
        }
        assert forall|i: int, v: ViolationView|
            #![trigger updates_violations(m, es[i].1).contains(v)]
            0 <= i < es.len() && updates_violations(m, es[i].1).contains(v) implies all.contains(v) by {
            if i < d.len() {
                assert(es[i] == d[i]);
                assert(updates_violations(m, d[i].1).contains(v));
                let k = choose|k: int| 0 <= k < pre.len() && pre[k] == v;
                assert(all[k] == pre[k]);
            } else {
                assert(es[i] == es.last());
                let t = choose|t: int| 0 <= t < last.len() && last[t] == v;
                assert(all[pre.len() + t] == last[t]);
            }
        }
    }
}

/// A violation of an update is one that [`ValleyFreeChecker::check_as_path`]
/// reports on the update's flattened path, carrying the update's first
/// announced prefix.
pub open spec fn is_update_violation(m: Map<(u32, u32), AsRelationship>, u: UpdateView, v: ViolationView) -> bool {
    &&& v.prefix == leak_prefix(u)
    &&& path_violations(m, spec_flatten(u.as_path), Seq::empty()).contains(
        ViolationView { prefix: Seq::empty(), ..v },
    )
}

/// The violations of an update are those of its flattened path, each under
/// the update's first announced prefix.
proof fn lemma_update_violations_are_path_violations(m: Map<(u32, u32), AsRelationship>, u: UpdateView)
    ensures
        forall|v: ViolationView| #[trigger] update_violations(m, u).contains(v) ==> is_update_violation(m, u, v),
        forall|t: int|
            0 <= t < path_violations(m, spec_flatten(u.as_path), Seq::empty()).len() ==> update_violations(
                m,
                u,
            ).contains(
                ViolationView {
                    prefix: leak_prefix(u),
                    ..#[trigger] path_violations(m, spec_flatten(u.as_path), Seq::empty())[t]
                },
            ),
{
    let flat = spec_flatten(u.as_path);
    let a = update_violations(m, u);
    let b = path_violations(m, flat, Seq::empty());
    assert(a.len() == b.len());
    assert forall|v: ViolationView| #[trigger] a.contains(v) implies is_update_violation(m, u, v) by {
        let t = choose|t: int| 0 <= t < a.len() && a[t] == v;
        assert(b[t] == ViolationView { prefix: Seq::empty(), ..v });
    }
    assert forall|t: int| 0 <= t < b.len() implies a.contains(
        ViolationView { prefix: leak_prefix(u), ..#[trigger] b[t] },
    ) by {
        assert(a[t] == ViolationView { prefix: leak_prefix(u), ..b[t] });
    }
}

/// The route leaks reported for a table listing of updates are the valleys
/// of its updates' flattened paths: each report is a violation that
/// [`ValleyFreeChecker::check_as_path`] finds on the flattened path of some
/// listed update, with that update's first announced prefix; and each
/// violation it finds on the flattened path of a listed update has its
/// valley (path, link and kind) reported.
pub proof fn lemma_route_leaks_are_update_valleys(
    m: Map<(u32, u32), AsRelationship>,
    es: Seq<(u32, Seq<UpdateView>)>,
    order: Seq<usize>,
)
    requires
        entries_violations(m, es).len() <= usize::MAX,
        is_ranking(leak_keys(entries_violations(m, es)), order),
    ensures
        forall|j: int|
            0 <= j < first_of_each(permuted(entries_violations(m, es), order)).len() ==> exists|i: int, n: int|
                0 <= i < es.len() && 0 <= n < es[i].1.len() && is_update_violation(
                    m,
                    es[i].1[n],
                    #[trigger] first_of_each(permuted(entries_violations(m, es), order))[j],
                ),
        forall|i: int, n: int, v: ViolationView|
            0 <= i < es.len() && 0 <= n < es[i].1.len() && #[trigger] path_violations(
                m,
                spec_flatten(es[i].1[n].as_path),
                Seq::empty(),
            ).contains(v) ==> exists|j: int|
                0 <= j < first_of_each(permuted(entries_violations(m, es), order)).len() && {
                    let w = #[trigger] first_of_each(permuted(entries_violations(m, es), order))[j];
                    &&& w.as_path == v.as_path
                    &&& w.violation_index == v.violation_index
                    &&& w.leak_type == v.leak_type
                },
{
    let all = entries_violations(m, es);
    let fo = first_of_each(permuted(all, order));
    lemma_reported_leaks_cover(all, order);
    lemma_entries_violations_members(m, es);
    assert forall|j: int| 0 <= j < fo.len() implies exists|i: int, n: int|
        0 <= i < es.len() && 0 <= n < es[i].1.len() && is_update_violation(m, es[i].1[n], #[trigger] fo[j]) by {
        let k = choose|k: int| 0 <= k < all.len() && fo[j] == all[k];
        assert(all.contains(fo[j]));
        let i = choose|i: int| 0 <= i < es.len() && updates_violations(m, es[i].1).contains(fo[j]);
        lemma_updates_violations_members(m, es[i].1);
        let n = choose|n: int| 0 <= n < es[i].1.len() && update_violations(m, es[i].1[n]).contains(fo[j]);
        lemma_update_violations_are_path_violations(m, es[i].1[n]);
        assert(update_violations(m, es[i].1[n]).contains(fo[j]));
    }
    assert forall|i: int, n: int, v: ViolationView|
        0 <= i < es.len() && 0 <= n < es[i].1.len() && #[trigger] path_violations(
            m,
            spec_flatten(es[i].1[n].as_path),
            Seq::empty(),
        ).contains(v) implies exists|j: int|
        0 <= j < fo.len() && {
            let w = #[trigger] fo[j];
            &&& w.as_path == v.as_path
            &&& w.violation_index == v.violation_index
            &&& w.leak_type == v.leak_type
        } by {
        let u = es[i].1[n];
        let b = path_violations(m, spec_flatten(u.as_path), Seq::empty());
        let t = choose|t: int| 0 <= t < b.len() && b[t] == v;
        lemma_update_violations_are_path_violations(m, u);
        let w = ViolationView { prefix: leak_prefix(u), ..b[t] };
        assert(update_violations(m, u).contains(w));
        lemma_updates_violations_members(m, es[i].1);
        assert(updates_violations(m, es[i].1).contains(w));
        assert(all.contains(w));
        let k = choose|k: int| 0 <= k < all.len() && all[k] == w;
        let j = choose|j: int| 0 <= j < fo.len() && same_leak(fo[j], all[k]);
        assert(same_leak(fo[j], v));
    }
}

/// No two reported violations report the same valley.
pub proof fn lemma_reported_leaks_distinct(vs: Seq<ViolationView>)
    ensures
        forall|i: int, j: int|
            0 <= i < j < first_of_each(vs).len() ==> !same_leak(
                #[trigger] first_of_each(vs)[i],
                #[trigger] first_of_each(vs)[j],
            ),
    decreases vs.len(),
{
    if vs.len() > 0 {
        let d = vs.drop_last();
        lemma_reported_leaks_distinct(d);
        lemma_first_of_each_members(d);
        let fo = first_of_each(vs);
        let rest = first_of_each(d);
        if !exists|j: int| 0 <= j < vs.len() - 1 && same_leak(vs[j], vs.last()) {
            assert forall|i: int, j: int| 0 <= i < j < fo.len() implies !same_leak(#[trigger] fo[i], #[trigger] fo[j]) by {
                if j == rest.len() {
                    let k = choose|k: int| 0 <= k < d.len() && rest[i] == d[k];
                    assert(vs[k] == d[k]);
                }
            }
        }
    }
}

/// The reported violations come highest reporting key first.
pub proof fn lemma_reported_leaks_sorted(all: Seq<ViolationView>, order: Seq<usize>)
    requires
        is_ranking(leak_keys(all), order),
    ensures
        keys_nonincreasing(leak_keys(first_of_each(permuted(all, order)))),
{
    let s = permuted(all, order);
    assert(keys_nonincreasing(leak_keys(s))) by {
        assert forall|i: int, j: int| 0 <= i < j < leak_keys(s).len() implies leak_keys(s)[i].0 > leak_keys(s)[j].0
            || (leak_keys(s)[i].0 == leak_keys(s)[j].0 && leak_keys(s)[i].1 >= leak_keys(s)[j].1) by {
            assert(crate::ranking::ranks_before(leak_keys(all), order[i] as int, order[j] as int));
        }
    }
    lemma_first_of_each_sorted(s);
}

/// Keeping the first violation of each valley keeps a sorted list sorted.
proof fn lemma_first_of_each_sorted(s: Seq<ViolationView>)
    requires
        keys_nonincreasing(leak_keys(s)),
    ensures
        keys_nonincreasing(leak_keys(first_of_each(s))),
    decreases s.len(),
{
    if s.len() > 0 {
        let d = s.drop_last();
        assert(keys_nonincreasing(leak_keys(d))) by {
            assert forall|i: int, j: int| 0 <= i < j < leak_keys(d).len() implies leak_keys(d)[i].0 > leak_keys(d)[j].0
                || (leak_keys(d)[i].0 == leak_keys(d)[j].0 && leak_keys(d)[i].1 >= leak_keys(d)[j].1) by {
                assert(leak_keys(d)[i] == leak_keys(s)[i]);
                assert(leak_keys(d)[j] == leak_keys(s)[j]);
            }
        }
        lemma_first_of_each_sorted(d);
        lemma_first_of_each_members(d);
        let fo = first_of_each(s);
        let rest = first_of_each(d);
        assert forall|i: int, j: int| 0 <= i < j < leak_keys(fo).len() implies leak_keys(fo)[i].0 > leak_keys(fo)[j].0
            || (leak_keys(fo)[i].0 == leak_keys(fo)[j].0 && leak_keys(fo)[i].1 >= leak_keys(fo)[j].1) by {
            if j < rest.len() {
                assert(leak_keys(fo)[i] == leak_keys(rest)[i]);
                assert(leak_keys(fo)[j] == leak_keys(rest)[j]);
            } else {
                let k = choose|k: int| 0 <= k < d.len() && rest[i] == d[k];
                assert(leak_keys(fo)[i] == leak_keys(s)[k]);
                assert(leak_keys(fo)[j] == leak_keys(s)[s.len() - 1]);
            }
        }
    }
}

/// A path is valley-free when, among its links of known relationship, no
/// link goes up after one went down or peered, no link goes down after one
/// peered, and no link peers after one went down or peered: the known links
/// read as ups, then either downs or a single final peering.
pub open spec fn is_valley_free(rels: Seq<Option<AsRelationship>>) -> bool {
    forall|i: int, j: int|
        0 <= i < j < rels.len() ==> {
            &&& rels[i] == Some(AsRelationship::ProviderToCustomer) ==> (rels[j]
                != Some(AsRelationship::CustomerToProvider) && rels[j] != Some(
                AsRelationship::PeerToPeer,
            ))
            &&& rels[i] == Some(AsRelationship::PeerToPeer) ==> rels[j] is None
        }
}

/// A path has no violation exactly when it is valley-free.
pub proof fn lemma_no_violation_iff_valley_free(rels: Seq<Option<AsRelationship>>)
    ensures
        violation_indices(rels, rels.len() as int).len() == 0 <==> is_valley_free(rels),
{
    lemma_violation_indices_empty(rels, rels.len() as int);
    if is_valley_free(rels) {
        assert forall|k: int| 0 <= k < rels.len() implies violation_at(rels, k) is None by {
            if seen_down(rels, k) {
                let j = choose|j: int| 0 <= j < k && rels[j] == Some(AsRelationship::ProviderToCustomer);
                assert(rels[j] == Some(AsRelationship::ProviderToCustomer));
            }
            if seen_peer(rels, k) {
                let j = choose|j: int| 0 <= j < k && rels[j] == Some(AsRelationship::PeerToPeer);
                assert(rels[j] == Some(AsRelationship::PeerToPeer));
            }
        }
    } else {
        let (i, j) = choose|i: int, j: int|
            0 <= i < j < rels.len() && !({
                &&& rels[i] == Some(AsRelationship::ProviderToCustomer) ==> (rels[j]
                    != Some(AsRelationship::CustomerToProvider) && rels[j] != Some(
                    AsRelationship::PeerToPeer,
                ))
                &&& rels[i] == Some(AsRelationship::PeerToPeer) ==> rels[j] is None
            });
        if rels[i] == Some(AsRelationship::ProviderToCustomer) {
            assert(seen_down(rels, j));
        } else {
            assert(seen_peer(rels, j));
        }
        assert(violation_at(rels, j) is Some);
    }
}

/// A path of three or more ASes has no reported valley exactly when its
/// link relationships are valley-free.
pub proof fn lemma_path_violations_empty_iff_valley_free(
    m: Map<(u32, u32), AsRelationship>,
    path: Seq<u32>,
    prefix: Seq<char>,
)
    requires
        path.len() >= 3,
    ensures
        path_violations(m, path, prefix).len() == 0 <==> is_valley_free(path_relations(m, path)),
{
    let rels = path_relations(m, path);
    lemma_no_violation_iff_valley_free(rels);
}

/// No violation among the first `n` links exactly when none of them closes
/// a valley.
pub proof fn lemma_violation_indices_empty(rels: Seq<Option<AsRelationship>>, n: int)
    ensures
        violation_indices(rels, n).len() == 0 <==> forall|k: int|
            0 <= k < n ==> violation_at(rels, k) is None,
    decreases n,
{
    if n > 0 {
        lemma_violation_indices_empty(rels, n - 1);
    }
}

/// Every reported link closes a valley, in increasing order.
pub proof fn lemma_violation_indices_sound(rels: Seq<Option<AsRelationship>>, n: int)
    ensures
        forall|k: int|
            0 <= k < violation_indices(rels, n).len() ==> {
                let i = #[trigger] violation_indices(rels, n)[k];
                &&& 0 <= i < n
                &&& violation_at(rels, i) is Some
            },
        forall|k: int, l: int|
            0 <= k < l < violation_indices(rels, n).len() ==> violation_indices(rels, n)[k]
                < violation_indices(rels, n)[l],
    decreases n,
{
    if n > 0 {
        lemma_violation_indices_sound(rels, n - 1);
    }
}

/// 2 to the power `n`.
pub open spec fn two_pow(n: nat) -> nat
    decreases n,
{
    if n == 0 {
        1
    } else {
        2 * two_pow((n - 1) as nat)
    }
}

/// How often `v` is halved before it falls below 2^53, the first integer
/// past which doubles no longer hold every integer.
pub open spec fn halvings(v: nat) -> nat
    decreases v,
{
    if v < 0x20_0000_0000_0000 {
        0
    } else {
        1 + halvings(v / 2)
    }
}

/// The double nearest to `v`, ties to the even significand, as an integer:
/// `v` rounded to its 53 leading bits. This is what `v as f64` gives.
pub open spec fn double_of(v: nat) -> nat {
    let p = two_pow(halvings(v));
    let q = v / p;
    let r = v % p;
    let q2 = if 2 * r > p || (2 * r == p && q % 2 == 1) {
        q + 1
    } else {
        q
    };
    q2 * p
}

/// The floating-point test `lo / hi >= 0.6` on two doubles `lo <= hi`
/// (with the ratio taken as 1 when `hi` is zero). The double nearest to 0.6
/// is 5404319552844595 / 2^53; the rounded quotient reaches it exactly when
/// the true quotient exceeds the midpoint below it,
/// 10808639105689189 / 2^54 (a quotient on that midpoint rounds to the even
/// neighbour below).
pub open spec fn ratio_reaches_peering(lo: nat, hi: nat) -> bool {
    hi == 0 || lo * 18014398509481984 > 10808639105689189 * hi
}

/// The relationship inferred for a link from the degrees of its ends, as
/// the floating-point computation on the degrees made doubles decides it: a
/// peering when the ratio of the smaller to the larger is at least 0.6 (or
/// both are zero), else provider to customer when the first end has the
/// larger degree, else customer to provider.
pub open spec fn infer_relation(deg_a: int, deg_b: int) -> AsRelationship {
    let x = double_of(deg_a as nat);
    let y = double_of(deg_b as nat);
    let hi = if x >= y {
        x
    } else {
        y
    };
    let lo = if x >= y {
        y
    } else {
        x
    };
    if ratio_reaches_peering(lo, hi) {
        AsRelationship::PeerToPeer
    } else if x > y {
        AsRelationship::ProviderToCustomer
    } else {
        AsRelationship::CustomerToProvider
    }
}

/// The relationship of every link of a link table, inferred from degrees.
pub open spec fn inferred_relations(links: Map<(u32, u32), u64>) -> Map<(u32, u32), AsRelationship> {
    Map::new(
        |k: (u32, u32)| links.contains_key(k),
        |k: (u32, u32)| infer_relation(spec_degree(links, k.0), spec_degree(links, k.1)),
    )
}

/// Relationships stored by packed link key, read back by link.
pub open spec fn unpack_relations(m: Map<u64, AsRelationship>) -> Map<(u32, u32), AsRelationship> {
    Map::new(
        |k: (u32, u32)| m.contains_key(pack(k.0, k.1)),
        |k: (u32, u32)| m[pack(k.0, k.1)],
    )
}

/// The mirror of an optional relationship.
pub open spec fn mirror_opt(r: Option<AsRelationship>) -> Option<AsRelationship> {
    match r {
        Some(x) => Some(x.spec_mirror()),
        None => None,
    }
}

/// The number of links of a relationship table with relationship `rel`.
pub open spec fn relation_count(m: Map<(u32, u32), AsRelationship>, rel: AsRelationship) -> nat {
    links_with(m, rel).len()
}

/// The links of a relationship table with relationship `rel`.
pub open spec fn links_with(m: Map<(u32, u32), AsRelationship>, rel: AsRelationship) -> Set<(u32, u32)> {
    m.dom().filter(|k: (u32, u32)| m[k] == rel)
}

/// Every link of a finite relationship table has one of the three
/// relationships: their counts add up to the number of links.
pub proof fn lemma_relation_counts_sum(m: Map<(u32, u32), AsRelationship>)
    requires
        m.dom().finite(),
    ensures
        relation_count(m, AsRelationship::ProviderToCustomer) + relation_count(m, AsRelationship::CustomerToProvider)
            + relation_count(m, AsRelationship::PeerToPeer) == m.dom().len(),
{
    let a = links_with(m, AsRelationship::ProviderToCustomer);
    let b = links_with(m, AsRelationship::CustomerToProvider);
    let c = links_with(m, AsRelationship::PeerToPeer);
    m.dom().lemma_len_filter(|k: (u32, u32)| m[k] == AsRelationship::ProviderToCustomer);
    m.dom().lemma_len_filter(|k: (u32, u32)| m[k] == AsRelationship::CustomerToProvider);
    m.dom().lemma_len_filter(|k: (u32, u32)| m[k] == AsRelationship::PeerToPeer);
    assert(a.disjoint(b));
    vstd::set_lib::lemma_set_disjoint_lens(a, b);
    assert((a + b).disjoint(c));
    vstd::set_lib::lemma_len_union(a, b);
    vstd::set_lib::lemma_set_disjoint_lens(a + b, c);
    assert(a + b + c =~= m.dom()) by {
        assert forall|k: (u32, u32)| m.dom().contains(k) implies (a + b + c).contains(k) by {
            match m[k] {
                AsRelationship::ProviderToCustomer => assert(a.contains(k)),
                AsRelationship::CustomerToProvider => assert(b.contains(k)),
                AsRelationship::PeerToPeer => assert(c.contains(k)),
            }
        }
    }
}

/// Inferred relationships read the same from both ends of a link: the
/// relationship from `b` to `a` is the mirror of that from `a` to `b`.
pub proof fn lemma_relationship_mirror(links: Map<(u32, u32), u64>, a: u32, b: u32)
    requires
        links.dom().finite(),
    ensures
        relation_between(inferred_relations(links), b, a) == mirror_opt(
            relation_between(inferred_relations(links), a, b),
        ),
{
    let m = inferred_relations(links);
    if m.contains_key((a, b)) && m.contains_key((b, a)) {
        let da = spec_degree(links, a);
        let db = spec_degree(links, b);
        lemma_degree_nonneg(links, a);
        lemma_degree_nonneg(links, b);
        assert(m[(a, b)] == infer_relation(da, db));
        assert(m[(b, a)] == infer_relation(db, da));
    }
}

/// `v as f64`, as an integer (see [`double_of`]).
fn double_of_exec(v: u64) -> (r: u128)
    ensures
        r == double_of(v as nat),
        r <= 0x2_0000_0000_0000_0000,
{
    let mut p: u64 = 1;
    let ghost mut s: nat = 0;
    while v / p >= 0x20_0000_0000_0000
        invariant
            1 <= p <= 4096,
            p == two_pow(s),
            halvings(v as nat) == s + halvings((v / p) as nat),
        decreases 4096 - p,
    {
        let ghost w = v / p;
        assert(p * 0x20_0000_0000_0000 <= v) by (nonlinear_arith)
            requires
                v / p >= 0x20_0000_0000_0000,
                p >= 1,
        {
            vstd::arithmetic::div_mod::lemma_fundamental_div_mod(v as int, p as int);
        }
        proof {
            vstd::arithmetic::div_mod::lemma_div_denominator(v as int, p as int, 2);
        }
        p = p * 2;
        proof {
            s = s + 1;
            assert(v / p == w / 2);
        }
    }
    let q: u64 = v / p;
    let r: u64 = v % p;
    let q2: u64 = if 2 * r > p || (2 * r == p && q % 2 == 1) {
        q + 1
    } else {
        q
    };
    assert(q2 <= 0x20_0000_0000_0000);
    assert((q2 as u128) * (p as u128) <= 0x20_0000_0000_0000u128 * 4096) by (nonlinear_arith)
        requires
            q2 <= 0x20_0000_0000_0000,
            p <= 4096,
    ;
    (q2 as u128) * (p as u128)
}

/// The floating-point peering test (see [`ratio_reaches_peering`]) on two
/// doubles given as integers below 2^65.
fn ratio_reaches_peering_exec(lo: u128, hi: u128) -> (r: bool)
    requires
        lo <= 0x2_0000_0000_0000_0000,
        hi <= 0x2_0000_0000_0000_0000,
    ensures
        r == ratio_reaches_peering(lo as nat, hi as nat),
{
    assert(lo * 18014398509481984 <= 0x2_0000_0000_0000_0000u128 * 18014398509481984) by (nonlinear_arith)
        requires
            lo <= 0x2_0000_0000_0000_0000,
    ;
    assert(10808639105689189 * hi <= 10808639105689189 * 0x2_0000_0000_0000_0000u128) by (nonlinear_arith)
        requires
            hi <= 0x2_0000_0000_0000_0000,
    ;
    hi == 0 || lo * 18014398509481984 > 10808639105689189 * hi
}

/// The relationship inferred from two degrees (see [`infer_relation`]).
fn infer_relation_exec(deg_a: u64, deg_b: u64) -> (r: AsRelationship)
    ensures
        r == infer_relation(deg_a as int, deg_b as int),
{
    let x = double_of_exec(deg_a);
    let y = double_of_exec(deg_b);
    let hi = if x >= y {
        x
    } else {
        y
    };
    let lo = if x >= y {
        y
    } else {
        x
    };
    if ratio_reaches_peering_exec(lo, hi) {
        AsRelationship::PeerToPeer
    } else if x > y {
        AsRelationship::ProviderToCustomer
    } else {
        AsRelationship::CustomerToProvider
    }
}

/// Checks AS paths against inferred link relationships.
pub struct ValleyFreeChecker {
    relationships: HashMap<u64, AsRelationship>,
    links: Vec<(u32, u32)>,
}

impl ValleyFreeChecker {
    /// The relationship of each link, by link.
    pub closed spec fn relation_map(&self) -> Map<(u32, u32), AsRelationship> {
        unpack_relations(self.relationships@)
    }

    /// The link list names each link of the table once.
    #[verifier::type_invariant]
    spec fn links_listed(self) -> bool {
        &&& self.links@.no_duplicates()
        &&& forall|k: (u32, u32)|
            #[trigger] unpack_relations(self.relationships@).contains_key(k) <==> self.links@.contains(k)
    }

    /// A checker for the links seen by `processor`, each with the
    /// relationship inferred from the degrees of its ends.
    /// `Err(CounterOverflow)` when a degree passes `u64::MAX`.
    pub fn new(_topology: &AsTopology, processor: &ParallelProcessor) -> (res: Result<Self, CountError>)
        ensures
            match res {
                Ok(c) => {
                    &&& degrees_fit(processor.tables().links)
                    &&& c.relation_map() == inferred_relations(processor.tables().links)
                },
                Err(e) => e == CountError::CounterOverflow && !degrees_fit(processor.tables().links),
            },
    {
        let degree_map = match processor.get_asn_degree_map() {
            Ok(d) => d,
            Err(e) => return Err(e),
        };
        let (relationships, links) = Self::infer_relationships(&degree_map, &processor.as_link_counts);
        let c = ValleyFreeChecker { relationships, links };
        assert(c.relation_map() =~= inferred_relations(processor.tables().links));
        Ok(c)
    }

    /// The inferred relationship of every link of `as_link_counts`, stored by
    /// packed key, and the list of those links.
    fn infer_relationships(degree_map: &DashMap<u32, u64>, as_link_counts: &DashMap<(u32, u32), u64>) -> (res: (
        HashMap<u64, AsRelationship>,
        Vec<(u32, u32)>,
    ))
        requires
            degree_table(*degree_map).dom() == link_endpoints(link_table(*as_link_counts)),
            forall|a: u32| #[trigger]
                degree_table(*degree_map).contains_key(a) ==> degree_table(*degree_map)[a] == spec_degree(
                    link_table(*as_link_counts),
                    a,
                ),
        ensures
            ({
                let (m, ks) = res;
                let links = link_table(*as_link_counts);
                &&& ks@.no_duplicates()
                &&& forall|k: (u32, u32)| #[trigger] unpack_relations(m@).contains_key(k) <==> ks@.contains(k)
                &&& forall|k: (u32, u32)| #[trigger] links.contains_key(k) <==> ks@.contains(k)
                &&& forall|k: (u32, u32)| #[trigger]
                    unpack_relations(m@).contains_key(k) ==> unpack_relations(m@)[k] == infer_relation(
                        spec_degree(links, k.0),
                        spec_degree(links, k.1),
                    )
            }),
    {
        let ghost links = link_table(*as_link_counts);
        let entries = link_table_entries(as_link_counts);
        proof {
            lemma_entries_len(links, entries@);
        }
        let mut m: HashMap<u64, AsRelationship> = HashMap::new();
        let mut ks: Vec<(u32, u32)> = Vec::new();
        let mut i: usize = 0;
        while i < entries.len()
            invariant
                i <= entries@.len(),
                links == link_table(*as_link_counts),
                entries_match(links, entries@),
                degree_table(*degree_map).dom() == link_endpoints(links),
                forall|a: u32| #[trigger]
                    degree_table(*degree_map).contains_key(a) ==> degree_table(*degree_map)[a] == spec_degree(links, a),
                ks@.len() == i,
                forall|j: int| 0 <= j < i ==> #[trigger] ks@[j] == entries@[j].0,
                forall|k: (u32, u32)| #[trigger] unpack_relations(m@).contains_key(k) <==> ks@.contains(k),
                forall|k: (u32, u32)| #[trigger]
                    unpack_relations(m@).contains_key(k) ==> unpack_relations(m@)[k] == infer_relation(
                        spec_degree(links, k.0),
                        spec_degree(links, k.1),
                    ),
            decreases entries@.len() - i,
        {
            let (key, _count) = entries[i];
            let (as_a, as_b) = key;
            proof {
                assert(links.contains_key(key));
                assert(link_endpoints(links).contains(as_a));
                assert(link_endpoints(links).contains(as_b));
            }
            let deg_a: u64 = match degree_table_get(degree_map, as_a) {
                Some(d) => d,
                None => 0,
            };
            let deg_b: u64 = match degree_table_get(degree_map, as_b) {
                Some(d) => d,
                None => 0,
            };
            let rel = infer_relation_exec(deg_a, deg_b);
            let ghost before = m@;
            let ghost ks_before = ks@;
            m.insert(pack_exec(as_a, as_b), rel);
            ks.push(key);
            proof {
                assert forall|k: (u32, u32)| #[trigger] unpack_relations(m@).contains_key(k) <==> ks@.contains(k) by {
                    if pack(k.0, k.1) == pack(as_a, as_b) {
                        lemma_pack_injective(k.0, k.1, as_a, as_b);
                        assert(ks@[i as int] == key);
                    } else {
                        assert(unpack_relations(m@).contains_key(k) == unpack_relations(before).contains_key(k));
                        if ks@.contains(k) && k != key {
                            let j = choose|j: int| 0 <= j < ks@.len() && ks@[j] == k;
                            assert(ks_before[j] == k);
                        }
                        if ks_before.contains(k) {
                            let j = choose|j: int| 0 <= j < ks_before.len() && ks_before[j] == k;
                            assert(ks@[j] == k);
                        }
                    }
                }
                assert forall|k: (u32, u32)| #[trigger]
                    unpack_relations(m@).contains_key(k) implies unpack_relations(m@)[k] == infer_relation(
                        spec_degree(links, k.0),
                        spec_degree(links, k.1),
                    ) by {
                    if pack(k.0, k.1) == pack(as_a, as_b) {
                        lemma_pack_injective(k.0, k.1, as_a, as_b);
                    } else {
                        assert(unpack_relations(before).contains_key(k));
                    }
                }
            }
            i = i + 1;
        }
        proof {
            assert(ks@.no_duplicates()) by {
                assert forall|x: int, y: int| 0 <= x < ks@.len() && 0 <= y < ks@.len() && x != y implies ks@[x]
                    != ks@[y] by {
                    if x < y {
                        assert(entries@[x].0 != entries@[y].0);
                    } else {
                        assert(entries@[y].0 != entries@[x].0);
                    }
                }
            }
            assert forall|k: (u32, u32)| #[trigger] links.contains_key(k) <==> ks@.contains(k) by {
                if links.contains_key(k) {
                    let j = choose|j: int| 0 <= j < entries@.len() && entries@[j].0 == k;
                    assert(ks@[j] == k);
                }
                if ks@.contains(k) {
                    let j = choose|j: int| 0 <= j < ks@.len() && ks@[j] == k;
                    assert(links.contains_key(entries@[j].0));
                }
            }
        }
        (m, ks)
    }

    /// The relationship between two ASes: that of the link `from → to`, or
    /// the mirror of that of `to → from`, or `None` if neither is known.
    pub fn get_relationship(&self, from: u32, to: u32) -> (r: Option<AsRelationship>)
        ensures
            r == relation_between(self.relation_map(), from, to),
    {
        let k = pack_exec(from, to);
        match self.relationships.get(&k) {
            Some(rel) => Some(*rel),
            None => {
                let k2 = pack_exec(to, from);
                match self.relationships.get(&k2) {
                    Some(rel) => Some(rel.mirror()),
                    None => None,
                }
            },
        }
    }

    /// The relationships of the consecutive links of `as_path`.
    fn path_relationships(&self, as_path: &[u32]) -> (r: Vec<Option<AsRelationship>>)
        requires
            as_path@.len() >= 1,
        ensures
            r@ == path_relations(self.relation_map(), as_path@),
    {
        let mut rels: Vec<Option<AsRelationship>> = Vec::new();
        let mut i: usize = 0;
        while i < as_path.len() - 1
            invariant
                i + 1 <= as_path@.len(),
                rels@.len() == i,
                forall|k: int|
                    0 <= k < i ==> rels@[k] == relation_between(
                        self.relation_map(),
                        as_path@[k],
                        as_path@[k + 1],
                    ),
            decreases as_path@.len() - i,
        {
            rels.push(self.get_relationship(as_path[i], as_path[i + 1]));
            i = i + 1;
        }
        assert(rels@ =~= path_relations(self.relation_map(), as_path@));
        rels
    }

    /// The valleys of an AS path (see [`path_violations`]), with an empty
    /// prefix.
    pub fn check_as_path(&self, as_path: &[u32]) -> (r: Vec<RouteLeakViolation>)
        ensures
            violations_view(r@) == path_violations(self.relation_map(), as_path@, Seq::empty()),
    {
        let empty = String::new();
        self.path_violation_list(as_path, &empty)
    }

    /// The valleys of an AS path, each with `prefix`.
    fn path_violation_list(&self, as_path: &[u32], prefix: &String) -> (r: Vec<RouteLeakViolation>)
        ensures
            violations_view(r@) == path_violations(self.relation_map(), as_path@, prefix@),
            as_path@.len() < 3 ==> r@.len() == 0,
            as_path@.len() >= 3 ==> {
                let rels = path_relations(self.relation_map(), as_path@);
                let idx = violation_indices(rels, rels.len() as int);
                &&& r@.len() == idx.len()
                &&& forall|k: int|
                    0 <= k < r@.len() ==> {
                        let v = #[trigger] r@[k];
                        let i = idx[k];
                        &&& v.violation_index == i
                        &&& violation_at(rels, i) == Some(v.leak_type)
                        &&& v.prefix@ == prefix@
                        &&& v.as_path@ == as_path@
                        &&& v.relationships@ == rels
                        &&& v.violation_desc@ == violation_text(
                            rels[i].unwrap(),
                            v.leak_type,
                            as_path@[i],
                            as_path@[i + 1],
                        )
                    }
            },
    {
        if as_path.len() < 3 {
            let none: Vec<RouteLeakViolation> = Vec::new();
            assert(violations_view(none@) =~= path_violations(self.relation_map(), as_path@, prefix@));
            return none;
        }
        let relationships = self.path_relationships(as_path);
        let ghost rels = relationships@;
        let mut violations: Vec<RouteLeakViolation> = Vec::new();
        let mut seen_down_flag = false;
        let mut seen_peer_flag = false;
        let mut i: usize = 0;
        while i < relationships.len()
            invariant
                i <= relationships@.len(),
                relationships@.len() == as_path@.len() - 1,
                rels == relationships@,
                rels == path_relations(self.relation_map(), as_path@),
                seen_down_flag == seen_down(rels, i as int),
                seen_peer_flag == seen_peer(rels, i as int),
                violations@.len() == violation_indices(rels, i as int).len(),
                forall|k: int|
                    0 <= k < violations@.len() ==> {
                        let v = #[trigger] violations@[k];
                        let j = violation_indices(rels, i as int)[k];
                        &&& v.violation_index == j
                        &&& violation_at(rels, j) == Some(v.leak_type)
                        &&& v.prefix@ == prefix@
                        &&& v.as_path@ == as_path@
                        &&& v.relationships@ == rels
                        &&& v.violation_desc@ == violation_text(
                            rels[j].unwrap(),
                            v.leak_type,
                            as_path@[j],
                            as_path@[j + 1],
                        )
                    },
            decreases relationships@.len() - i,
        {
            let ghost old_v = violations@;
            let found: Option<LeakType> = match relationships[i] {
                None => None,
                Some(AsRelationship::CustomerToProvider) => {
                    if seen_down_flag {
                        Some(LeakType::ValleyDownUp)
                    } else if seen_peer_flag {
                        Some(LeakType::ValleyPeerUp)
                    } else {
                        None
                    }
                },
                Some(AsRelationship::ProviderToCustomer) => {
                    if seen_peer_flag {
                        Some(LeakType::ValleyDownPeer)
                    } else {
                        None
                    }
                },
                Some(AsRelationship::PeerToPeer) => {
                    if seen_peer_flag {
                        Some(LeakType::MultiPeer)
                    } else if seen_down_flag {
                        Some(LeakType::ValleyDownPeer)
                    } else {
                        None
                    }
                },
            };
            assert(found == violation_at(rels, i as int));
            if let Some(leak) = found {
                let rel = relationships[i].unwrap();
                let desc = Self::describe(rel, leak, as_path[i], as_path[i + 1]);
                violations.push(
                    RouteLeakViolation {
                        prefix: prefix.clone(),
                        as_path: copy_u32s(as_path),
                        relationships: copy_relations(&relationships),
                        violation_index: i,
                        violation_desc: desc,
                        leak_type: leak,
                    },
                );
            }
            match relationships[i] {
                Some(AsRelationship::ProviderToCustomer) => {
                    seen_down_flag = true;
                },
                Some(AsRelationship::PeerToPeer) => {
                    seen_peer_flag = true;
                },
                _ => {},
            }
            proof {
                let n = i as int + 1;
                assert(seen_down_flag == seen_down(rels, n)) by {
                    if seen_down(rels, n) && !seen_down(rels, i as int) {
                        assert(rels[i as int] == Some(AsRelationship::ProviderToCustomer));
                    }
                    if rels[i as int] == Some(AsRelationship::ProviderToCustomer) {
                        assert(seen_down(rels, n));
                    }
                }
                assert(seen_peer_flag == seen_peer(rels, n)) by {
                    if seen_peer(rels, n) && !seen_peer(rels, i as int) {
                        assert(rels[i as int] == Some(AsRelationship::PeerToPeer));
                    }
                    if rels[i as int] == Some(AsRelationship::PeerToPeer) {
                        assert(seen_peer(rels, n));
                    }
                }
                assert forall|k: int| 0 <= k < violations@.len() implies #[trigger] violation_indices(
                    rels,
                    n,
                )[k] == (if k < old_v.len() {
                    violation_indices(rels, i as int)[k]
                } else {
                    i as int
                }) by {}
            }
            i = i + 1;
        }
        proof {
            lemma_violation_indices_sound(rels, rels.len() as int);
            assert(violations_view(violations@) =~= path_violations(self.relation_map(), as_path@, prefix@));
        }
        violations
    }

    /// The number of links with relationship `rel`.
    fn count_links(&self, rel: AsRelationship) -> (r: usize)
        ensures
            r == relation_count(self.relation_map(), rel),
    {
        proof {
            use_type_invariant(self);
        }
        let ghost m = self.relation_map();
        let ghost mut matched: Seq<(u32, u32)> = Seq::empty();
        let mut count: usize = 0;
        let mut i: usize = 0;
        while i < self.links.len()
            invariant
                i <= self.links@.len(),
                m == self.relation_map(),
                self.links@.no_duplicates(),
                forall|k: (u32, u32)| #[trigger] m.contains_key(k) <==> self.links@.contains(k),
                count == matched.len(),
                count <= i,
                matched.no_duplicates(),
                forall|k: (u32, u32)|
                    #[trigger] matched.contains(k) <==> (self.links@.subrange(0, i as int).contains(k) && m[k]
                        == rel),
            decreases self.links@.len() - i,
        {
            let key = self.links[i];
            let ghost before = matched;
            let ghost s0 = self.links@.subrange(0, i as int);
            let ghost s1 = self.links@.subrange(0, i + 1);
            proof {
                assert(self.links@[i as int] == key);
                assert(self.links@.contains(key));
                assert(m.contains_key(key));
                assert(s1 =~= s0.push(key));
                assert(!s0.contains(key)) by {
                    if s0.contains(key) {
                        let j = choose|j: int| 0 <= j < s0.len() && s0[j] == key;
                        assert(self.links@[j] == key);
                    }
                }
                assert forall|k: (u32, u32)| #[trigger] s1.contains(k) <==> (s0.contains(k) || k == key) by {
                    if s1.contains(k) && k != key {
                        let j = choose|j: int| 0 <= j < s1.len() && s1[j] == k;
                        assert(s0[j] == k);
                    }
                    if s0.contains(k) {
                        let j = choose|j: int| 0 <= j < s0.len() && s0[j] == k;
                        assert(s1[j] == k);
                    }
                    if k == key {
                        assert(s1[i as int] == k);
                    }
                }
            }
            let k = pack_exec(key.0, key.1);
            let stored = self.relationships.get(&k);
            if let Some(found) = stored {
                if *found == rel {
                    count = count + 1;
                    proof {
                        matched = matched.push(key);
                        assert(!before.contains(key));
                        assert forall|x: (u32, u32)| #[trigger] matched.contains(x) <==> (before.contains(x) || x == key) by {
                            if matched.contains(x) && x != key {
                                let j = choose|j: int| 0 <= j < matched.len() && matched[j] == x;
                                assert(before[j] == x);
                            }
                            if before.contains(x) {
                                let j = choose|j: int| 0 <= j < before.len() && before[j] == x;
                                assert(matched[j] == x);
                            }
                            if x == key {
                                assert(matched[before.len() as int] == x);
                            }
                        }
                    }
                }
            }
            proof {
                assert(stored is Some);
                assert(m[key] == *stored.unwrap());
            }
            i = i + 1;
        }
        proof {
            assert(self.links@.subrange(0, i as int) =~= self.links@);
            assert(matched.to_set() =~= links_with(self.relation_map(), rel));
            matched.unique_seq_to_set();
        }
        count
    }

    /// The number of links of each relationship: provider to customer,
    /// customer to provider and peering, each under its label.
    pub fn relationship_stats(&self) -> (r: Vec<(String, usize)>)
        ensures
            r@.len() == 3,
            r@[0].0@ == "Provider→Customer"@,
            r@[0].1 == relation_count(self.relation_map(), AsRelationship::ProviderToCustomer),
            r@[1].0@ == "Customer→Provider"@,
            r@[1].1 == relation_count(self.relation_map(), AsRelationship::CustomerToProvider),
            r@[2].0@ == "Peer↔Peer"@,
            r@[2].1 == relation_count(self.relation_map(), AsRelationship::PeerToPeer),
            r@[0].1 + r@[1].1 + r@[2].1 == self.relation_map().dom().len(),
    {
        proof {
            use_type_invariant(self);
            assert(self.links@.to_set() =~= self.relation_map().dom());
            lemma_relation_counts_sum(self.relation_map());
        }
        let p2c = self.count_links(AsRelationship::ProviderToCustomer);
        let c2p = self.count_links(AsRelationship::CustomerToProvider);
        let p2p = self.count_links(AsRelationship::PeerToPeer);
        let mut stats: Vec<(String, usize)> = Vec::new();
        stats.push((AsRelationship::ProviderToCustomer.label().to_owned(), p2c));
        stats.push((AsRelationship::CustomerToProvider.label().to_owned(), c2p));
        stats.push((AsRelationship::PeerToPeer.label().to_owned(), p2p));
        stats
    }

    /// The number of links with a relationship.
    pub fn total_relationships(&self) -> (r: usize)
        ensures
            r == self.relation_map().dom().len(),
    {
        proof {
            use_type_invariant(self);
            assert(self.links@.to_set() =~= self.relation_map().dom());
            self.links@.unique_seq_to_set();
        }
        self.links.len()
    }

    /// The route leaks of a table listing of update lists: the valleys of
    /// every update's flattened AS path, each under the update's first
    /// announced prefix, ordered by kind (see [`leak_rank`]) and then by link
    /// index, both highest first and otherwise in listing order, keeping the
    /// first violation of each valley.
    pub fn route_leaks_in(&self, entries: &Vec<(u32, Vec<BgpUpdate>)>) -> (r: Vec<RouteLeakViolation>)
        ensures
            exists|order: Seq<usize>|
                #[trigger] is_ranking(
                    leak_keys(entries_violations(self.relation_map(), update_entries_view(entries@))),
                    order,
                ) && violations_view(r@) == first_of_each(
                    permuted(entries_violations(self.relation_map(), update_entries_view(entries@)), order),
                ),
            forall|j: int|
                0 <= j < r@.len() ==> exists|i: int, n: int|
                    0 <= i < entries@.len() && 0 <= n < entries@[i].1@.len() && is_update_violation(
                        self.relation_map(),
                        entries@[i].1@[n]@,
                        #[trigger] r@[j]@,
                    ),
            forall|i: int, n: int, v: ViolationView|
                0 <= i < entries@.len() && 0 <= n < entries@[i].1@.len() && #[trigger] path_violations(
                    self.relation_map(),
                    spec_flatten(entries@[i].1@[n]@.as_path),
                    Seq::empty(),
                ).contains(v) ==> exists|j: int|
                    0 <= j < r@.len() && {
                        let w = #[trigger] r@[j]@;
                        &&& w.as_path == v.as_path
                        &&& w.violation_index == v.violation_index
                        &&& w.leak_type == v.leak_type
                    },
    {
        let ghost m = self.relation_map();
        let ghost es = update_entries_view(entries@);
        let mut all: Vec<RouteLeakViolation> = Vec::new();
        let mut i: usize = 0;
        assert(es.take(0) =~= Seq::<(u32, Seq<UpdateView>)>::empty());
        assert(violations_view(all@) =~= Seq::<ViolationView>::empty());
        while i < entries.len()
            invariant
                i <= entries@.len(),
                m == self.relation_map(),
                es == update_entries_view(entries@),
                violations_view(all@) == entries_violations(m, es.take(i as int)),
            decreases entries@.len() - i,
        {
            let updates = &entries[i].1;
            let ghost uv = updates_view(updates@);
            assert(es[i as int].1 == uv);
            let mut j: usize = 0;
            assert(uv.take(0) =~= Seq::<UpdateView>::empty());
            assert(violations_view(all@) =~= entries_violations(m, es.take(i as int)) + updates_violations(
                m,
                uv.take(0),
            ));
            while j < updates.len()
                invariant
                    j <= updates@.len(),
                    uv == updates_view(updates@),
                    m == self.relation_map(),
                    violations_view(all@) == entries_violations(m, es.take(i as int)) + updates_violations(
                        m,
                        uv.take(j as int),
                    ),
                decreases updates@.len() - j,
            {
                let u = &updates[j];
                let flat = BgpExtractor::flatten_as_path(u.as_path.as_slice());
                let prefix = if u.announced_prefixes.len() > 0 {
                    u.announced_prefixes[0].cidr()
                } else {
                    String::new()
                };
                let ghost before = violations_view(all@);
                let mut found = self.path_violation_list(flat.as_slice(), &prefix);
                let ghost found_v = violations_view(found@);
                all.append(&mut found);
                proof {
                    assert(uv[j as int] == u@);
                    assert(prefix@ == leak_prefix(u@));
                    assert(found_v == update_violations(m, u@));
                    assert(uv.take(j + 1).drop_last() =~= uv.take(j as int));
                    assert(violations_view(all@) =~= before + found_v);
                    assert(violations_view(all@) =~= entries_violations(m, es.take(i as int)) + updates_violations(
                        m,
                        uv.take(j + 1),
                    ));
                }
                j = j + 1;
            }
            proof {
                assert(uv.take(j as int) =~= uv);
                assert(es.take(i + 1).drop_last() =~= es.take(i as int));
            }
            i = i + 1;
        }
        assert(es.take(i as int) =~= es);
        let ghost all_v = violations_view(all@);
        let mut keys: Vec<(u64, u64)> = Vec::new();
        let mut k: usize = 0;
        while k < all.len()
            invariant
                k <= all@.len(),
                all_v == violations_view(all@),
                keys@.len() == k,
                forall|t: int| 0 <= t < k ==> #[trigger] keys@[t] == leak_keys(all_v)[t],
            decreases all@.len() - k,
        {
            keys.push((leak_rank_exec(all[k].leak_type), all[k].violation_index as u64));
            k = k + 1;
        }
        assert(keys@ =~= leak_keys(all_v));
        let order = rank_desc(&keys);
        let ghost sorted = permuted(all_v, order@);
        let mut out: Vec<RouteLeakViolation> = Vec::new();
        let mut p: usize = 0;
        assert(sorted.take(0) =~= Seq::<ViolationView>::empty());
        assert(violations_view(out@) =~= Seq::<ViolationView>::empty());
        while p < order.len()
            invariant
                p <= order@.len(),
                all_v == violations_view(all@),
                keys@ == leak_keys(all_v),
                is_ranking(keys@, order@),
                sorted == permuted(all_v, order@),
                violations_view(out@) == first_of_each(sorted.take(p as int)),
            decreases order@.len() - p,
        {
            let idx = order[p];
            proof {
                assert(order@[p as int] < all_v.len());
                assert(sorted[p as int] == all_v[idx as int]);
            }
            let mut dup = false;
            let mut stop = false;
            let mut q: usize = p;
            while q > 0 && !dup && !stop
                invariant
                    q <= p,
                    p < order@.len(),
                    idx == order@[p as int],
                    all_v == violations_view(all@),
                    keys@ == leak_keys(all_v),
                    is_ranking(keys@, order@),
                    sorted == permuted(all_v, order@),
                    forall|t: int| q <= t < p ==> keys@[#[trigger] order@[t] as int] == keys@[idx as int],
                    !dup ==> forall|t: int| q <= t < p ==> !same_leak(#[trigger] sorted[t], sorted[p as int]),
                    dup ==> exists|t: int| 0 <= t < p && same_leak(#[trigger] sorted[t], sorted[p as int]),
                    stop ==> q > 0 && keys@[order@[q - 1] as int] != keys@[idx as int],
                decreases q + (if !dup && !stop {
                    1int
                } else {
                    0int
                }),
            {
                let prev = order[q - 1];
                proof {
                    assert(order@[q - 1] < all_v.len());
                    assert(sorted[q - 1] == all_v[prev as int]);
                }
                if keys[prev].0 == keys[idx].0 && keys[prev].1 == keys[idx].1 {
                    if same_u32s(all[prev].as_path.as_slice(), all[idx].as_path.as_slice()) {
                        proof {
                            lemma_same_key_same_leak(all_v[prev as int], all_v[idx as int]);
                            assert(same_leak(sorted[q - 1], sorted[p as int]));
                        }
                        dup = true;
                    } else {
                        q = q - 1;
                    }
                } else {
                    stop = true;
                }
            }
            proof {
                assert(sorted.take(p + 1).drop_last() =~= sorted.take(p as int));
                assert(sorted.take(p + 1).last() == sorted[p as int]);
                if !dup {
                    assert forall|t: int| 0 <= t < p implies !same_leak(#[trigger] sorted[t], sorted[p as int]) by {
                        if t < q && same_leak(sorted[t], sorted[p as int]) {
                            assert(order@[t] < all_v.len());
                            assert(sorted[t] == all_v[order@[t] as int]);
                            assert(keys@[order@[t] as int] == keys@[idx as int]);
                            lemma_ranking_contiguous(keys@, order@, t, q - 1, p as int);
                        }
                    }
                    assert(!exists|t: int|
                        0 <= t < sorted.take(p + 1).len() - 1 && same_leak(
                            #[trigger] sorted.take(p + 1)[t],
                            sorted.take(p + 1).last(),
                        )) by {
                        assert forall|t: int| 0 <= t < p implies !same_leak(
                            #[trigger] sorted.take(p + 1)[t],
                            sorted.take(p + 1).last(),
                        ) by {
                            assert(sorted.take(p + 1)[t] == sorted[t]);
                        }
                    }
                } else {
                    let t = choose|t: int| 0 <= t < p && same_leak(#[trigger] sorted[t], sorted[p as int]);
                    assert(sorted.take(p + 1)[t] == sorted[t]);
                }
            }
            if !dup {
                let copy = copy_violation(&all[idx]);
                let ghost before = violations_view(out@);
                out.push(copy);
                assert(violations_view(out@) =~= before.push(sorted[p as int]));
            }
            p = p + 1;
        }
        assert(sorted.take(p as int) =~= sorted);
        proof {
            let fo = violations_view(out@);
            lemma_route_leaks_are_update_valleys(m, es, order@);
            assert forall|i: int| 0 <= i < entries@.len() implies #[trigger] es[i].1 == updates_view(entries@[i].1@) by {}
            assert forall|j: int| 0 <= j < out@.len() implies exists|i: int, n: int|
                0 <= i < entries@.len() && 0 <= n < entries@[i].1@.len() && is_update_violation(
                    m,
                    entries@[i].1@[n]@,
                    #[trigger] out@[j]@,
                ) by {
                assert(fo[j] == out@[j]@);
                let (i, n) = choose|i: int, n: int|
                    0 <= i < es.len() && 0 <= n < es[i].1.len() && is_update_violation(m, es[i].1[n], #[trigger] fo[j]);
                assert(es[i].1 == updates_view(entries@[i].1@));
                assert(es[i].1[n] == entries@[i].1@[n]@);
            }
            assert forall|i: int, n: int, v: ViolationView|
                0 <= i < entries@.len() && 0 <= n < entries@[i].1@.len() && #[trigger] path_violations(
                    m,
                    spec_flatten(entries@[i].1@[n]@.as_path),
                    Seq::empty(),
                ).contains(v) implies exists|j: int|
                0 <= j < out@.len() && {
                    let w = #[trigger] out@[j]@;
                    &&& w.as_path == v.as_path
                    &&& w.violation_index == v.violation_index
                    &&& w.leak_type == v.leak_type
                } by {
                assert(es[i].1 == updates_view(entries@[i].1@));
                assert(es[i].1[n] == entries@[i].1@[n]@);
                assert(path_violations(m, spec_flatten(es[i].1[n].as_path), Seq::empty()).contains(v));
                let j = choose|j: int|
                    0 <= j < fo.len() && {
                        let w = #[trigger] fo[j];
                        &&& w.as_path == v.as_path
                        &&& w.violation_index == v.violation_index
                        &&& w.leak_type == v.leak_type
                    };
                assert(fo[j] == out@[j]@);
            }
        }
        out
    }

    /// The route leaks of the updates `processor` holds (see
    /// [`ValleyFreeChecker::route_leaks_in`]), its table walked in the map's
    /// own order.
    pub fn detect_route_leaks(&self, processor: &ParallelProcessor) -> (r: Vec<RouteLeakViolation>)
        ensures
            exists|es: Seq<(u32, Seq<UpdateView>)>, order: Seq<usize>|
                update_entries_match(processor.tables().updates, es) && #[trigger] is_ranking(
                    leak_keys(entries_violations(self.relation_map(), es)),
                    order,
                ) && violations_view(r@) == first_of_each(
                    permuted(entries_violations(self.relation_map(), es), order),
                ),
            exists|es: Seq<(u32, Seq<UpdateView>)>|
                #[trigger] update_entries_match(processor.tables().updates, es) && forall|i: int, n: int, v: ViolationView|
                    0 <= i < es.len() && 0 <= n < es[i].1.len() && #[trigger] path_violations(
                        self.relation_map(),
                        spec_flatten(es[i].1[n].as_path),
                        Seq::empty(),
                    ).contains(v) ==> exists|j: int|
                        0 <= j < r@.len() && {
                            let w = #[trigger] r@[j]@;
                            &&& w.as_path == v.as_path
                            &&& w.violation_index == v.violation_index
                            &&& w.leak_type == v.leak_type
                        },
    {
        let entries = update_table_entries(&processor.all_updates);
        let r = self.route_leaks_in(&entries);
        proof {
            let es = update_entries_view(entries@);
            assert forall|i: int| 0 <= i < entries@.len() implies #[trigger] es[i].1 == updates_view(entries@[i].1@) by {}
            assert forall|i: int, n: int, v: ViolationView|
                0 <= i < es.len() && 0 <= n < es[i].1.len() && #[trigger] path_violations(
                    self.relation_map(),
                    spec_flatten(es[i].1[n].as_path),
                    Seq::empty(),
                ).contains(v) implies exists|j: int|
                0 <= j < r@.len() && {
                    let w = #[trigger] r@[j]@;
                    &&& w.as_path == v.as_path
                    &&& w.violation_index == v.violation_index
                    &&& w.leak_type == v.leak_type
                } by {
                assert(es[i].1 == updates_view(entries@[i].1@));
                assert(es[i].1[n] == entries@[i].1@[n]@);
            }
            assert(update_entries_match(processor.tables().updates, es));
        }
        r
    }

    /// The description of a violation of kind `leak` on link `a → b`.
    fn describe(rel: AsRelationship, leak: LeakType, a: u32, b: u32) -> (r: String)
        ensures
            r@ == violation_text(rel, leak, a, b),
    {
        let mut s = String::from_str("AS");
        append_dec(&mut s, a as u64);
        s.append(" → AS");
        append_dec(&mut s, b as u64);
        let tail = match rel {
            AsRelationship::CustomerToProvider => if leak == LeakType::ValleyDownUp {
                " (c2p) after descending path — Valley detected"
            } else {
                " (c2p) after peer link — Valley detected"
            },
            AsRelationship::ProviderToCustomer => " (p2c) after peer link — Valley detected",
            AsRelationship::PeerToPeer => if leak == LeakType::MultiPeer {
                " (p2p) — Multiple peer links in path"
            } else {
                " (p2p) after descending path — Valley detected"
            },
        };
        s.append(tail);
        assert(s@ =~= violation_text(rel, leak, a, b));
        s
    }
}

/// Violations with equal reporting keys and paths report the same valley.
proof fn lemma_same_key_same_leak(a: ViolationView, b: ViolationView)
    requires
        leak_rank(a.leak_type) == leak_rank(b.leak_type),
        a.violation_index as u64 == b.violation_index as u64,
        a.as_path == b.as_path,
    ensures
        same_leak(a, b),
{
}

/// Whether two lists of AS numbers are equal.
fn same_u32s(a: &[u32], b: &[u32]) -> (r: bool)
    ensures
        r == (a@ == b@),
{
    if a.len() != b.len() {
        return false;
    }
    let mut i: usize = 0;
    while i < a.len()
        invariant
            i <= a@.len(),
            a@.len() == b@.len(),
            forall|t: int| 0 <= t < i ==> a@[t] == b@[t],
        decreases a@.len() - i,
    {
        if a[i] != b[i] {
            return false;
        }
        i = i + 1;
    }
    assert(a@ =~= b@);
    true
}

/// A copy of a violation.
fn copy_violation(v: &RouteLeakViolation) -> (r: RouteLeakViolation)
    ensures
        r@ == v@,
{
    RouteLeakViolation {
        prefix: v.prefix.clone(),
        as_path: copy_u32s(v.as_path.as_slice()),
        relationships: copy_relations(&v.relationships),
        violation_index: v.violation_index,
        violation_desc: v.violation_desc.clone(),
        leak_type: v.leak_type,
    }
}

/// A copy of a list of AS numbers.
pub fn copy_u32s(v: &[u32]) -> (r: Vec<u32>)
    ensures
        r@ == v@,
{
    let mut r: Vec<u32> = Vec::new();
    let mut i: usize = 0;
    while i < v.len()
        invariant
            i <= v@.len(),
            r@ == v@.subrange(0, i as int),
        decreases v@.len() - i,
    {
        r.push(v[i]);
        i = i + 1;
        assert(r@ =~= v@.subrange(0, i as int));
    }
    assert(v@.subrange(0, v@.len() as int) =~= v@);
    r
}

/// A copy of a list of relationships.
fn copy_relations(v: &Vec<Option<AsRelationship>>) -> (r: Vec<Option<AsRelationship>>)
    ensures
        r@ == v@,
{
    let mut r: Vec<Option<AsRelationship>> = Vec::new();
    let mut i: usize = 0;
    while i < v.len()
        invariant
            i <= v@.len(),
            r@ == v@.subrange(0, i as int),
        decreases v@.len() - i,
    {
        r.push(v[i]);
        i = i + 1;
        assert(r@ =~= v@.subrange(0, i as int));
    }
    assert(v@.subrange(0, v@.len() as int) =~= v@);
    r
}

} // verus!
