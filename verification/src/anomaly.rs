//! Detection of prefix hijacks, AS-path loops and zombie ASes.
use std::collections::HashMap;
use std::collections::HashSet;
use vstd::prelude::*;

use crate::bgp_extract::{cidr_text, spec_flatten, BgpExtractor, BgpUpdate, PrefixView, UpdateView};
use crate::parallel_processor::{
    prefix_entries_match, prefix_entries_view, prefix_table_entries, update_entries_match, update_entries_view,
    update_table_entries, updates_view, ParallelProcessor,
};
use crate::ranking::{is_ranking, rank_desc};
use crate::text::{append_dec, dec_text};
use crate::valley_free::copy_u32s;
use crate::topology::{in_neighbors, out_neighbors, top_hubs, AsTopology};

verus! {

broadcast use vstd::std_specs::hash::group_hash_axioms;

/// The kind of an alert.
#[derive(Debug, Clone, Copy, PartialEq, Eq, Structural)]
pub enum AlertType {
    PrefixHijack,
    PathManipulation,
    ZombieNode,
    AsPathLoop,
    UnknownOrigin,
}

/// What the confidence of a hijack alert is scored from.
#[derive(Debug, Clone, Copy)]
pub struct ConfidenceFactors {
    /// The suspicious AS is not among the top hubs.
    pub outside_hubs: bool,
    /// The degree of the suspicious AS, when the topology has it.
    pub degree: Option<u64>,
    /// The suspicious AS is not the legitimate one.
    pub origins_differ: bool,
}

/// The confidence of an alert: scored from factors, or the fixed confidence
/// (0.9) of an AS-path loop.
#[derive(Debug, Clone, Copy)]
pub enum AlertConfidence {
    Scored(ConfidenceFactors),
    PathLoop,
}

/// A suspicious origin of a prefix, or a loop in an AS path.
#[derive(Debug)]
pub struct HijackAlert {
    pub prefix: String,
    pub origin_as: u32,
    pub hijack_as: u32,
    pub alert_type: AlertType,
    pub confidence: AlertConfidence,
    pub evidence: String,
}

/// What a [`HijackAlert`] holds.
pub struct AlertView {
    pub prefix: Seq<char>,
    pub origin_as: u32,
    pub hijack_as: u32,
    pub alert_type: AlertType,
    pub confidence: AlertConfidence,
    pub evidence: Seq<char>,
}

impl View for HijackAlert {
    type V = AlertView;

    open spec fn view(&self) -> AlertView {
        AlertView {
            prefix: self.prefix@,
            origin_as: self.origin_as,
            hijack_as: self.hijack_as,
            alert_type: self.alert_type,
            confidence: self.confidence,
            evidence: self.evidence@,
        }
    }
}

pub open spec fn alerts_view(v: Seq<HijackAlert>) -> Seq<AlertView> {
    v.map_values(|a: HijackAlert| a@)
}

/// An AS that announces routes while nothing in the topology leads to it.
#[derive(Debug)]
pub struct ZombieNode {
    pub asn: u32,
    pub reason: String,
    pub affected_prefixes: Vec<String>,
    pub suspicious_paths: Vec<Vec<u32>>,
}

/// What a [`ZombieNode`] holds.
pub struct ZombieView {
    pub asn: u32,
    pub reason: Seq<char>,
    pub affected_prefixes: Seq<Seq<char>>,
    pub suspicious_paths: Seq<Seq<u32>>,
}

pub open spec fn strings_view(v: Seq<String>) -> Seq<Seq<char>> {
    v.map_values(|s: String| s@)
}

pub open spec fn paths_view(v: Seq<Vec<u32>>) -> Seq<Seq<u32>> {
    v.map_values(|p: Vec<u32>| p@)
}

impl View for ZombieNode {
    type V = ZombieView;

    open spec fn view(&self) -> ZombieView {
        ZombieView {
            asn: self.asn,
            reason: self.reason@,
            affected_prefixes: strings_view(self.affected_prefixes@),
            suspicious_paths: paths_view(self.suspicious_paths@),
        }
    }
}

pub open spec fn zombies_view(v: Seq<ZombieNode>) -> Seq<ZombieView> {
    v.map_values(|z: ZombieNode| z@)
}

/// Detector of routing anomalies.
pub struct AnomalyDetector;

/// How often `a` occurs in `s`.
pub open spec fn count_in(s: Seq<u32>, a: u32) -> nat
    decreases s.len(),
{
    if s.len() == 0 {
        0
    } else {
        count_in(s.drop_last(), a) + if s.last() == a {
            1nat
        } else {
            0nat
        }
    }
}

/// Position `i` holds the owner of a prefix whose AS list is `s`: its AS
/// occurs most often, and it is the first position with such an AS.
pub open spec fn is_owner_at(s: Seq<u32>, i: int) -> bool {
    &&& 0 <= i < s.len()
    &&& forall|j: int| 0 <= j < s.len() ==> count_in(s, #[trigger] s[j]) <= count_in(s, s[i])
    &&& forall|j: int| 0 <= j < i ==> count_in(s, #[trigger] s[j]) < count_in(s, s[i])
}

/// The owner of a prefix whose AS list is `s`: the AS that occurs most
/// often, the earliest of them on a tie; none for an empty list.
pub open spec fn spec_owner(s: Seq<u32>) -> Option<u32> {
    if exists|i: int| is_owner_at(s, i) {
        Some(s[choose|i: int| is_owner_at(s, i)])
    } else {
        None
    }
}

/// The ASes of `s`, each once, in order of first occurrence.
pub open spec fn distinct(s: Seq<u32>) -> Seq<u32>
    decreases s.len(),
{
    if s.len() == 0 {
        Seq::empty()
    } else if s.drop_last().contains(s.last()) {
        distinct(s.drop_last())
    } else {
        distinct(s.drop_last()).push(s.last())
    }
}

/// An AS of the topology that no edge enters.
pub open spec fn is_zombie(t: AsTopology, asn: u32) -> bool {
    t.index_of().contains_key(asn) && in_neighbors(t.edges(), t.index_of()[asn]).len() == 0
}

/// The AS numbers of the twenty nodes of highest degree.
pub open spec fn hub_asns(t: AsTopology) -> Seq<u32> {
    top_hubs(t.nodes(), 20).map_values(|h: (u32, u64)| h.0)
}

/// The factors of the confidence that `suspicious` hijacks a prefix of
/// `legitimate`.
pub open spec fn confidence_factors(t: AsTopology, hubs: Seq<u32>, suspicious: u32, legitimate: u32) -> ConfidenceFactors {
    ConfidenceFactors {
        outside_hubs: !hubs.contains(suspicious),
        degree: if t.index_of().contains_key(suspicious) {
            Some(t.nodes()[t.index_of()[suspicious] as int].1)
        } else {
            None
        },
        origins_differ: legitimate != suspicious,
    }
}

/// The evidence of a hijack alert.
pub open spec fn hijack_evidence(asn: u32, prefix: Seq<char>, owner: u32) -> Seq<char> {
    "AS"@ + dec_text(asn as nat) + " claims ownership of "@ + prefix + " (legitimate: AS"@ + dec_text(owner as nat)
        + ")"@
}

/// The alert that `asn` announces `prefix`, owned by `owner`.
pub open spec fn hijack_alert(t: AsTopology, hubs: Seq<u32>, prefix: Seq<char>, owner: u32, asn: u32) -> AlertView {
    AlertView {
        prefix: prefix,
        origin_as: owner,
        hijack_as: asn,
        alert_type: if is_zombie(t, asn) {
            AlertType::ZombieNode
        } else {
            AlertType::PrefixHijack
        },
        confidence: AlertConfidence::Scored(confidence_factors(t, hubs, asn, owner)),
        evidence: hijack_evidence(asn, prefix, owner),
    }
}

/// The alerts for the ASes of `u` other than `owner`, in order.
pub open spec fn owner_alerts(t: AsTopology, hubs: Seq<u32>, prefix: Seq<char>, owner: u32, u: Seq<u32>) -> Seq<
    AlertView,
>
    decreases u.len(),
{
    if u.len() == 0 {
        Seq::empty()
    } else {
        owner_alerts(t, hubs, prefix, owner, u.drop_last()) + if u.last() != owner {
            seq![hijack_alert(t, hubs, prefix, owner, u.last())]
        } else {
            Seq::empty()
        }
    }
}

/// The alerts for a prefix announced by the ASes `s`: when more than one AS
/// announces it, one for each AS other than its owner.
pub open spec fn prefix_alerts(t: AsTopology, hubs: Seq<u32>, prefix: Seq<char>, s: Seq<u32>) -> Seq<AlertView> {
    if distinct(s).len() > 1 && spec_owner(s) is Some {
        owner_alerts(t, hubs, prefix, spec_owner(s).unwrap(), distinct(s))
    } else {
        Seq::empty()
    }
}

/// The hijack alerts of a prefix table listing, prefix by prefix.
pub open spec fn hijack_alerts(t: AsTopology, hubs: Seq<u32>, es: Seq<(Seq<char>, Seq<u32>)>) -> Seq<AlertView>
    decreases es.len(),
{
    if es.len() == 0 {
        Seq::empty()
    } else {
        hijack_alerts(t, hubs, es.drop_last()) + prefix_alerts(t, hubs, es.last().0, es.last().1)
    }
}

/// The first AS of `s`, from position `i` on, that already occurred before
/// its position.
pub open spec fn first_repeat_from(s: Seq<u32>, i: int) -> Option<u32>
    decreases s.len() - i,
{
    if i < 0 || i >= s.len() {
        None
    } else if s.take(i).contains(s[i]) {
        Some(s[i])
    } else {
        first_repeat_from(s, i + 1)
    }
}

/// The first AS of a path that already occurred before: where the path
/// loops.
pub open spec fn first_repeat(s: Seq<u32>) -> Option<u32> {
    first_repeat_from(s, 0)
}

/// The evidence of an AS-path loop.
pub open spec fn loop_evidence(asn: u32, prefix: Seq<char>) -> Seq<char> {
    "AS-Path loop detected: AS"@ + dec_text(asn as nat) + " appears multiple times in path to "@ + prefix
}

/// One loop alert for each prefix of `ps`, blaming `asn`.
pub open spec fn loop_alerts_for(asn: u32, ps: Seq<PrefixView>) -> Seq<AlertView> {
    Seq::new(
        ps.len(),
        |k: int|
            AlertView {
                prefix: cidr_text(ps[k]),
                origin_as: asn,
                hijack_as: asn,
                alert_type: AlertType::AsPathLoop,
                confidence: AlertConfidence::PathLoop,
                evidence: loop_evidence(asn, cidr_text(ps[k])),
            },
    )
}

/// The loop alerts of an update: when its flattened AS path loops, one for
/// each announced prefix.
pub open spec fn update_loop_alerts(u: UpdateView) -> Seq<AlertView> {
    match first_repeat(spec_flatten(u.as_path)) {
        Some(asn) => loop_alerts_for(asn, u.announced_prefixes),
        None => Seq::empty(),
    }
}

/// The loop alerts of a list of updates, update by update.
pub open spec fn updates_loop_alerts(us: Seq<UpdateView>) -> Seq<AlertView>
    decreases us.len(),
{
    if us.len() == 0 {
        Seq::empty()
    } else {
        updates_loop_alerts(us.drop_last()) + update_loop_alerts(us.last())
    }
}

/// The loop alerts of an update table listing, entry by entry.
pub open spec fn loop_alerts(es: Seq<(u32, Seq<UpdateView>)>) -> Seq<AlertView>
    decreases es.len(),
{
    if es.len() == 0 {
        Seq::empty()
    } else {
        loop_alerts(es.drop_last()) + updates_loop_alerts(es.last().1)
    }
}

/// The prefixes announced by a list of updates, in `address/length`
/// notation, update by update.
pub open spec fn announced_cidrs(us: Seq<UpdateView>) -> Seq<Seq<char>>
    decreases us.len(),
{
    if us.len() == 0 {
        Seq::empty()
    } else {
        announced_cidrs(us.drop_last()) + us.last().announced_prefixes.map_values(|p: PrefixView| cidr_text(p))
    }
}

/// The flattened AS paths of more than one AS of a list of updates.
pub open spec fn long_paths(us: Seq<UpdateView>) -> Seq<Seq<u32>>
    decreases us.len(),
{
    if us.len() == 0 {
        Seq::empty()
    } else {
        long_paths(us.drop_last()) + if spec_flatten(us.last().as_path).len() > 1 {
            seq![spec_flatten(us.last().as_path)]
        } else {
            Seq::empty()
        }
    }
}

/// The first five items of a list (all of them when there are fewer).
pub open spec fn first_five(s: Seq<Seq<u32>>) -> Seq<Seq<u32>> {
    if s.len() > 5 {
        s.take(5)
    } else {
        s
    }
}

/// Why an AS is reported as a zombie.
pub open spec fn zombie_reason() -> Seq<char> {
    "Low connectivity with active route announcements"@
}

/// The zombie report of origin `asn` with updates `us`: when it is a zombie
/// of the topology and announced some prefix, the prefixes it announced and
/// its first five paths of more than one AS.
pub open spec fn zombie_entry(t: AsTopology, asn: u32, us: Seq<UpdateView>) -> Seq<ZombieView> {
    if is_zombie(t, asn) && announced_cidrs(us).len() > 0 {
        seq![
            ZombieView {
                asn: asn,
                reason: zombie_reason(),
                affected_prefixes: announced_cidrs(us),
                suspicious_paths: first_five(long_paths(us)),
            },
        ]
    } else {
        Seq::empty()
    }
}

/// The zombie reports of an update table listing, entry by entry.
pub open spec fn zombie_entries(t: AsTopology, es: Seq<(u32, Seq<UpdateView>)>) -> Seq<ZombieView>
    decreases es.len(),
{
    if es.len() == 0 {
        Seq::empty()
    } else {
        zombie_entries(t, es.drop_last()) + zombie_entry(t, es.last().0, es.last().1)
    }
}

/// The keys by which zombie reports are ordered: the number of affected
/// prefixes.
pub open spec fn zombie_keys(zs: Seq<ZombieView>) -> Seq<(u64, u64)> {
    zs.map_values(|z: ZombieView| (z.affected_prefixes.len() as u64, 0u64))
}

/// The items of `zs` at the positions `order`.
pub open spec fn zombies_permuted(zs: Seq<ZombieView>, order: Seq<usize>) -> Seq<ZombieView> {
    order.map_values(|i: usize| zs[i as int])
}

/// The owner of a prefix is one of its announcers, and no announcer occurs
/// more often.
pub proof fn lemma_owner_most_frequent(s: Seq<u32>, o: u32, a: u32)
    requires
        spec_owner(s) == Some(o),
    ensures
        s.contains(o),
        count_in(s, a) <= count_in(s, o),
{
    let i = choose|i: int| is_owner_at(s, i);
    assert(s[i] == o);
    lemma_count_bounds(s, a);
    if s.contains(a) {
        let j = choose|j: int| 0 <= j < s.len() && s[j] == a;
        assert(count_in(s, s[j]) <= count_in(s, s[i]));
    }
}

/// A hijack alert never accuses the owner of the prefix: the suspicious AS
/// differs from the legitimate one, and the alert is a prefix hijack or a
/// zombie.
pub proof fn lemma_hijack_alerts_accuse_others(t: AsTopology, hubs: Seq<u32>, es: Seq<(Seq<char>, Seq<u32>)>)
    ensures
        forall|k: int|
            0 <= k < hijack_alerts(t, hubs, es).len() ==> {
                let a = #[trigger] hijack_alerts(t, hubs, es)[k];
                &&& a.hijack_as != a.origin_as
                &&& a.alert_type == AlertType::PrefixHijack || a.alert_type == AlertType::ZombieNode
            },
    decreases es.len(),
{
    if es.len() > 0 {
        lemma_hijack_alerts_accuse_others(t, hubs, es.drop_last());
        let p = es.last();
        let tail = prefix_alerts(t, hubs, p.0, p.1);
        if distinct(p.1).len() > 1 && spec_owner(p.1) is Some {
            lemma_owner_alerts_accuse_others(t, hubs, p.0, spec_owner(p.1).unwrap(), distinct(p.1));
        }
        let all = hijack_alerts(t, hubs, es);
        let before = hijack_alerts(t, hubs, es.drop_last());
        assert(all == before + tail);
        assert forall|k: int| 0 <= k < all.len() implies {
            let a = #[trigger] all[k];
            &&& a.hijack_as != a.origin_as
            &&& a.alert_type == AlertType::PrefixHijack || a.alert_type == AlertType::ZombieNode
        } by {
            if k >= before.len() {
                assert(all[k] == tail[k - before.len()]);
            }
        }
    }
}

proof fn lemma_owner_alerts_accuse_others(t: AsTopology, hubs: Seq<u32>, prefix: Seq<char>, owner: u32, u: Seq<u32>)
    ensures
        forall|k: int|
            0 <= k < owner_alerts(t, hubs, prefix, owner, u).len() ==> {
                let a = #[trigger] owner_alerts(t, hubs, prefix, owner, u)[k];
                &&& a.hijack_as != a.origin_as
                &&& a.origin_as == owner
                &&& a.alert_type == AlertType::PrefixHijack || a.alert_type == AlertType::ZombieNode
            },
    decreases u.len(),
{
    if u.len() > 0 {
        lemma_owner_alerts_accuse_others(t, hubs, prefix, owner, u.drop_last());
        let before = owner_alerts(t, hubs, prefix, owner, u.drop_last());
        let all = owner_alerts(t, hubs, prefix, owner, u);
        assert forall|k: int| 0 <= k < all.len() implies {
            let a = #[trigger] all[k];
            &&& a.hijack_as != a.origin_as
            &&& a.origin_as == owner
            &&& a.alert_type == AlertType::PrefixHijack || a.alert_type == AlertType::ZombieNode
        } by {
            if k < before.len() {
                assert(all[k] == before[k]);
            }
        }
    }
}

/// The ASes listed once each hold no AS twice and exactly the ASes of the
/// list.
pub proof fn lemma_distinct_lists_each_as_once(s: Seq<u32>)
    ensures
        distinct(s).no_duplicates(),
        forall|x: u32| #[trigger] distinct(s).contains(x) <==> s.contains(x),
    decreases s.len(),
{
    if s.len() > 0 {
        let d = s.drop_last();
        lemma_distinct_lists_each_as_once(d);
        assert forall|x: u32| #[trigger] s.contains(x) <==> (d.contains(x) || x == s.last()) by {
            if s.contains(x) && x != s.last() {
                let j = choose|j: int| 0 <= j < s.len() && s[j] == x;
                assert(d[j] == x);
            }
            if d.contains(x) {
                let j = choose|j: int| 0 <= j < d.len() && d[j] == x;
                assert(s[j] == x);
            }
            if x == s.last() {
                assert(s[s.len() - 1] == x);
            }
        }
        if !d.contains(s.last()) {
            let r = distinct(d).push(s.last());
            assert(r == distinct(s));
            assert forall|x: u32| #[trigger] r.contains(x) <==> (distinct(d).contains(x) || x == s.last()) by {
                if r.contains(x) && x != s.last() {
                    let j = choose|j: int| 0 <= j < r.len() && r[j] == x;
                    assert(distinct(d)[j] == x);
                }
                if distinct(d).contains(x) {
                    let j = choose|j: int| 0 <= j < distinct(d).len() && distinct(d)[j] == x;
                    assert(r[j] == x);
                }
                if x == s.last() {
                    assert(r[r.len() - 1] == x);
                }
            }
            assert forall|i: int, j: int| 0 <= i < j < r.len() implies #[trigger] r[i] != #[trigger] r[j] by {
                if j == r.len() - 1 {
                    assert(distinct(d)[i] == r[i]);
                    assert(distinct(d).contains(r[i]));
                } else {
                    assert(distinct(d)[i] == r[i] && distinct(d)[j] == r[j]);
                }
            }
        }
    }
}

/// The alerts for the ASes of a list without repeats, other than `owner`:
/// they name pairwise different ASes, each of the list and none the owner,
/// and every AS of the list but the owner is named.
proof fn lemma_owner_alerts_name_each_once(t: AsTopology, hubs: Seq<u32>, prefix: Seq<char>, owner: u32, u: Seq<u32>)
    requires
        u.no_duplicates(),
    ensures
        forall|i: int, j: int|
            0 <= i < j < owner_alerts(t, hubs, prefix, owner, u).len() ==> #[trigger] owner_alerts(
                t,
                hubs,
                prefix,
                owner,
                u,
            )[i].hijack_as != #[trigger] owner_alerts(t, hubs, prefix, owner, u)[j].hijack_as,
        forall|k: int|
            0 <= k < owner_alerts(t, hubs, prefix, owner, u).len() ==> {
                let a = #[trigger] owner_alerts(t, hubs, prefix, owner, u)[k];
                &&& a.prefix == prefix
                &&& a.origin_as == owner
                &&& a.hijack_as != owner
                &&& u.contains(a.hijack_as)
            },
        forall|x: u32|
            #[trigger] u.contains(x) && x != owner ==> exists|k: int|
                0 <= k < owner_alerts(t, hubs, prefix, owner, u).len() && #[trigger] owner_alerts(
                    t,
                    hubs,
                    prefix,
                    owner,
                    u,
                )[k].hijack_as == x,
    decreases u.len(),
{
    if u.len() > 0 {
        let d = u.drop_last();
        assert(d.no_duplicates()) by {
            assert forall|i: int, j: int| 0 <= i < j < d.len() implies #[trigger] d[i] != #[trigger] d[j] by {
                assert(u[i] == d[i] && u[j] == d[j]);
            }
        }
        lemma_owner_alerts_name_each_once(t, hubs, prefix, owner, d);
        let before = owner_alerts(t, hubs, prefix, owner, d);
        let all = owner_alerts(t, hubs, prefix, owner, u);
        let x0 = u.last();
        assert(!d.contains(x0)) by {
            if d.contains(x0) {
                let j = choose|j: int| 0 <= j < d.len() && d[j] == x0;
                assert(u[j] == u[u.len() - 1]);
            }
        }
        assert forall|k: int| 0 <= k < before.len() implies all[k] == before[k] by {}
        assert forall|x: u32| #[trigger] d.contains(x) implies u.contains(x) by {
            let j = choose|j: int| 0 <= j < d.len() && d[j] == x;
            assert(u[j] == x);
        }
        assert forall|i: int, j: int| 0 <= i < j < all.len() implies #[trigger] all[i].hijack_as != #[trigger] all[
            j
        ].hijack_as by {
            if j >= before.len() {
                assert(all[j].hijack_as == x0);
                assert(all[i] == before[i]);
                assert(d.contains(before[i].hijack_as));
            } else {
                assert(all[i] == before[i] && all[j] == before[j]);
            }
        }
        assert forall|k: int| 0 <= k < all.len() implies {
            let a = #[trigger] all[k];
            &&& a.prefix == prefix
            &&& a.origin_as == owner
            &&& a.hijack_as != owner
            &&& u.contains(a.hijack_as)
        } by {
            if k >= before.len() {
                assert(all[k].hijack_as == x0);
                assert(u[u.len() - 1] == x0);
            } else {
                assert(all[k] == before[k]);
            }
        }
        assert forall|x: u32| #[trigger] u.contains(x) && x != owner implies exists|k: int|
            0 <= k < all.len() && #[trigger] all[k].hijack_as == x by {
            if x == x0 {
                assert(all[before.len() as int].hijack_as == x);
            } else {
                let j = choose|j: int| 0 <= j < u.len() && u[j] == x;
                assert(d[j] == x);
                assert(d.contains(x));
                let k = choose|k: int| 0 <= k < before.len() && #[trigger] before[k].hijack_as == x;
                assert(all[k] == before[k]);
            }
        }
    }
}

/// The hijack alerts for one prefix: when an owner is known, each alert
/// names the prefix, gives the owner as the legitimate origin and accuses an
/// AS that announced the prefix and is not the owner; no AS is accused twice;
/// and every announcing AS but the owner is accused.
pub proof fn lemma_prefix_alerts_accuse_each_other_announcer_once(
    t: AsTopology,
    hubs: Seq<u32>,
    prefix: Seq<char>,
    s: Seq<u32>,
)
    ensures
        forall|i: int, j: int|
            0 <= i < j < prefix_alerts(t, hubs, prefix, s).len() ==> #[trigger] prefix_alerts(
                t,
                hubs,
                prefix,
                s,
            )[i].hijack_as != #[trigger] prefix_alerts(t, hubs, prefix, s)[j].hijack_as,
        spec_owner(s) matches Some(o) ==> forall|k: int|
            0 <= k < prefix_alerts(t, hubs, prefix, s).len() ==> {
                let a = #[trigger] prefix_alerts(t, hubs, prefix, s)[k];
                &&& a.prefix == prefix
                &&& a.origin_as == o
                &&& a.hijack_as != o
                &&& s.contains(a.hijack_as)
            },
        spec_owner(s) matches Some(o) ==> forall|x: u32|
            #[trigger] s.contains(x) && x != o ==> exists|k: int|
                0 <= k < prefix_alerts(t, hubs, prefix, s).len() && #[trigger] prefix_alerts(
                    t,
                    hubs,
                    prefix,
                    s,
                )[k].hijack_as == x,
        spec_owner(s) is None ==> prefix_alerts(t, hubs, prefix, s).len() == 0,
{
    let d = distinct(s);
    lemma_distinct_lists_each_as_once(s);
    if let Some(o) = spec_owner(s) {
        lemma_owner_most_frequent(s, o, o);
        lemma_owner_alerts_name_each_once(t, hubs, prefix, o, d);
        let a = prefix_alerts(t, hubs, prefix, s);
        assert forall|x: u32| #[trigger] s.contains(x) && x != o implies exists|k: int|
            0 <= k < a.len() && #[trigger] a[k].hijack_as == x by {
            assert(d.contains(x) && d.contains(o));
            let i = choose|i: int| 0 <= i < d.len() && d[i] == x;
            let j = choose|j: int| 0 <= j < d.len() && d[j] == o;
            assert(i != j);
            assert(d.len() > 1);
            assert(a == owner_alerts(t, hubs, prefix, o, d));
        }
    }
}

/// Among the first `n` positions, the earliest one whose AS occurs most
/// often in the whole list.
proof fn lemma_most_frequent_upto(s: Seq<u32>, n: int) -> (b: int)
    requires
        1 <= n <= s.len(),
    ensures
        0 <= b < n,
        forall|j: int| 0 <= j < n ==> count_in(s, #[trigger] s[j]) <= count_in(s, s[b]),
        forall|j: int| 0 <= j < b ==> count_in(s, #[trigger] s[j]) < count_in(s, s[b]),
    decreases n,
{
    if n == 1 {
        0
    } else {
        let b0 = lemma_most_frequent_upto(s, n - 1);
        if count_in(s, s[n - 1]) > count_in(s, s[b0]) {
            n - 1
        } else {
            b0
        }
    }
}

/// Every AS list with an AS in it has an owner.
proof fn lemma_owner_exists(s: Seq<u32>)
    requires
        s.len() > 0,
    ensures
        spec_owner(s) is Some,
{
    let b = lemma_most_frequent_upto(s, s.len() as int);
    assert(is_owner_at(s, b));
}

/// The hijack alerts of a listing whose prefixes are pairwise different:
/// each alert belongs to a listed prefix, names that prefix's owner as the
/// legitimate origin and accuses another AS that announced it; two alerts
/// for the same prefix accuse different ASes; and every AS that announced a
/// listed prefix, other than its owner, is accused for that prefix.
pub proof fn lemma_hijack_alerts_accuse_each_announcer_once(
    t: AsTopology,
    hubs: Seq<u32>,
    es: Seq<(Seq<char>, Seq<u32>)>,
)
    requires
        forall|i: int, j: int| 0 <= i < j < es.len() ==> #[trigger] es[i].0 != #[trigger] es[j].0,
    ensures
        forall|i: int, j: int|
            0 <= i < j < hijack_alerts(t, hubs, es).len() && #[trigger] hijack_alerts(t, hubs, es)[i].prefix
                == #[trigger] hijack_alerts(t, hubs, es)[j].prefix ==> hijack_alerts(t, hubs, es)[i].hijack_as
                != hijack_alerts(t, hubs, es)[j].hijack_as,
        forall|k: int|
            #![trigger hijack_alerts(t, hubs, es)[k]]
            0 <= k < hijack_alerts(t, hubs, es).len() ==> exists|e: int|
                #![trigger es[e]]
                0 <= e < es.len() && hijack_alerts(t, hubs, es)[k].prefix == es[e].0 && spec_owner(es[e].1) == Some(
                    hijack_alerts(t, hubs, es)[k].origin_as,
                ) && es[e].1.contains(hijack_alerts(t, hubs, es)[k].hijack_as) && hijack_alerts(t, hubs, es)[k].hijack_as
                    != hijack_alerts(t, hubs, es)[k].origin_as,
        forall|e: int, x: u32|
            #![trigger es[e].1.contains(x)]
            0 <= e < es.len() && es[e].1.contains(x) && spec_owner(es[e].1) != Some(x) ==> exists|k: int|
                0 <= k < hijack_alerts(t, hubs, es).len() && #[trigger] hijack_alerts(t, hubs, es)[k].prefix
                    == es[e].0 && hijack_alerts(t, hubs, es)[k].hijack_as == x,
    decreases es.len(),
{
    if es.len() > 0 {
        let d = es.drop_last();
        assert forall|i: int, j: int| 0 <= i < j < d.len() implies #[trigger] d[i].0 != #[trigger] d[j].0 by {
            assert(d[i] == es[i] && d[j] == es[j]);
        }
        lemma_hijack_alerts_accuse_each_announcer_once(t, hubs, d);
        let last = es.last();
        let before = hijack_alerts(t, hubs, d);
        let tail = prefix_alerts(t, hubs, last.0, last.1);
        let all = hijack_alerts(t, hubs, es);
        assert(all == before + tail);
        lemma_prefix_alerts_accuse_each_other_announcer_once(t, hubs, last.0, last.1);
        let n = es.len() - 1;
        assert(es[n] == last);
        assert forall|k: int| 0 <= k < tail.len() implies #[trigger] all[before.len() + k] == tail[k]
            && tail[k].prefix == last.0 by {}
        assert forall|k: int| 0 <= k < before.len() implies #[trigger] all[k] == before[k] by {}
        // Alerts of the earlier prefixes name some earlier entry, whose key
        // differs from the last one.
        assert forall|k: int| 0 <= k < before.len() implies #[trigger] before[k].prefix != last.0 by {
            let e = choose|e: int| #![trigger d[e]] 0 <= e < d.len() && before[k].prefix == d[e].0 && spec_owner(
                d[e].1,
            ) == Some(before[k].origin_as) && d[e].1.contains(before[k].hijack_as) && before[k].hijack_as
                != before[k].origin_as;
            assert(d[e] == es[e]);
            assert(es[e].0 != es[n].0);
        }
        assert forall|i: int, j: int|
            0 <= i < j < all.len() && #[trigger] all[i].prefix == #[trigger] all[j].prefix implies all[i].hijack_as
                != all[j].hijack_as by {
            if j < before.len() {
                assert(all[i] == before[i] && all[j] == before[j]);
            } else if i < before.len() {
                assert(all[i] == before[i]);
                assert(all[j] == tail[j - before.len()]);
            } else {
                assert(all[i] == tail[i - before.len()]);
                assert(all[j] == tail[j - before.len()]);
            }
        }
        assert forall|k: int|
            #![trigger all[k]]
            0 <= k < all.len() implies exists|e: int|
                #![trigger es[e]]
                0 <= e < es.len() && all[k].prefix == es[e].0 && spec_owner(es[e].1) == Some(all[k].origin_as)
                    && es[e].1.contains(all[k].hijack_as) && all[k].hijack_as != all[k].origin_as by {
            if k < before.len() {
                assert(all[k] == before[k]);
                let e = choose|e: int| #![trigger d[e]] 0 <= e < d.len() && before[k].prefix == d[e].0 && spec_owner(
                    d[e].1,
                ) == Some(before[k].origin_as) && d[e].1.contains(before[k].hijack_as) && before[k].hijack_as
                    != before[k].origin_as;
                assert(d[e] == es[e]);
            } else {
                let o = spec_owner(last.1).unwrap();
                assert(all[k] == tail[k - before.len()]);
                assert(tail[k - before.len()].prefix == last.0);
                assert(es[n] == last);
            }
        }
        assert forall|e: int, x: u32|
            #![trigger es[e].1.contains(x)]
            0 <= e < es.len() && es[e].1.contains(x) && spec_owner(es[e].1) != Some(x) implies exists|k: int|
                0 <= k < all.len() && #[trigger] all[k].prefix == es[e].0 && all[k].hijack_as == x by {
            if e < n {
                assert(d[e] == es[e]);
                assert(d[e].1.contains(x));
                let k = choose|k: int| 0 <= k < before.len() && #[trigger] before[k].prefix == d[e].0 && before[k].hijack_as == x;
                assert(all[k] == before[k]);
            } else {
                assert(es[e] == last);
                assert(last.1.contains(x));
                lemma_owner_exists(last.1);
                let k = choose|k: int| 0 <= k < tail.len() && #[trigger] tail[k].hijack_as == x;
                assert(all[before.len() + k] == tail[k]);
            }
        }
    }
}

/// The AS blamed for a loop occurs at least twice in the path.
pub proof fn lemma_loop_asn_repeats(s: Seq<u32>, a: u32)
    requires
        first_repeat(s) == Some(a),
    ensures
        count_in(s, a) >= 2,
{
    lemma_repeat_from_repeats(s, 0, a);
}

proof fn lemma_repeat_from_repeats(s: Seq<u32>, i: int, a: u32)
    requires
        first_repeat_from(s, i) == Some(a),
    ensures
        count_in(s, a) >= 2,
    decreases s.len() - i,
{
    if 0 <= i < s.len() {
        if s.take(i).contains(s[i]) {
            lemma_count_bounds(s.take(i), a);
            lemma_count_push(s, i, a);
            lemma_count_prefix_le(s, i + 1, a);
        } else {
            lemma_repeat_from_repeats(s, i + 1, a);
        }
    }
}

/// Counting in a prefix of a list counts no more than in the list.
proof fn lemma_count_prefix_le(s: Seq<u32>, n: int, a: u32)
    requires
        0 <= n <= s.len(),
    ensures
        count_in(s.take(n), a) <= count_in(s, a),
    decreases s.len() - n,
{
    if n < s.len() {
        lemma_count_push(s, n, a);
        lemma_count_prefix_le(s, n + 1, a);
    } else {
        assert(s.take(n) =~= s);
    }
}

/// The zombie reports come most affected prefixes first.
pub proof fn lemma_zombies_sorted(zs: Seq<ZombieView>, order: Seq<usize>)
    requires
        is_ranking(zombie_keys(zs), order),
    ensures
        forall|i: int, j: int|
            0 <= i < j < order.len() ==> #[trigger] zombies_permuted(zs, order)[i].affected_prefixes.len() as u64
                >= #[trigger] zombies_permuted(zs, order)[j].affected_prefixes.len() as u64,
{
    assert forall|i: int, j: int| 0 <= i < j < order.len() implies #[trigger] zombies_permuted(
        zs,
        order,
    )[i].affected_prefixes.len() as u64 >= #[trigger] zombies_permuted(zs, order)[j].affected_prefixes.len() as u64 by {
        assert(crate::ranking::ranks_before(zombie_keys(zs), order[i] as int, order[j] as int));
    }
}

/// The loop scan from position `i` on, when no AS repeats before `i`: it
/// finds nothing exactly when no AS of the path occurs twice, and otherwise
/// gives the AS at position `j`, the first position that repeats an earlier
/// one.
proof fn lemma_first_repeat_from_finds_first_loop(s: Seq<u32>, i: int) -> (j: int)
    requires
        0 <= i <= s.len(),
        s.take(i).no_duplicates(),
    ensures
        first_repeat_from(s, i) is None <==> s.no_duplicates(),
        first_repeat_from(s, i) is Some ==> {
            &&& i <= j < s.len()
            &&& s[j] == first_repeat_from(s, i).unwrap()
            &&& s.take(j).contains(s[j])
            &&& s.take(j).no_duplicates()
        },
    decreases s.len() - i,
{
    if i == s.len() {
        assert(s.take(i) =~= s);
        i
    } else if s.take(i).contains(s[i]) {
        let k = choose|k: int| 0 <= k < i && s.take(i)[k] == s[i];
        assert(s[k] == s[i]);
        assert(!s.no_duplicates());
        i
    } else {
        assert(s.take(i + 1).no_duplicates()) by {
            assert forall|x: int, y: int| 0 <= x < y < i + 1 implies #[trigger] s.take(i + 1)[x] != #[trigger] s.take(i + 1)[y] by {
                if y == i {
                    assert(s.take(i)[x] == s[x]);
                } else {
                    assert(s.take(i)[x] == s[x] && s.take(i)[y] == s[y]);
                }
            }
        }
        lemma_first_repeat_from_finds_first_loop(s, i + 1)
    }
}

/// Where an AS path loops: no loop is found exactly when no AS occurs twice
/// on the path; a loop found is blamed on the AS at the first position
/// that repeats an AS before it.
pub proof fn lemma_first_repeat_finds_first_loop(s: Seq<u32>)
    ensures
        first_repeat(s) is None <==> s.no_duplicates(),
        first_repeat(s) matches Some(a) ==> exists|j: int|
            0 <= j < s.len() && s[j] == a && #[trigger] s.take(j).contains(a) && s.take(j).no_duplicates(),
{
    assert(s.take(0) =~= Seq::<u32>::empty());
    let j = lemma_first_repeat_from_finds_first_loop(s, 0);
    if first_repeat(s) is Some {
        assert(s.take(j).contains(first_repeat(s).unwrap()));
    }
}

/// No edge of the graph ends at node `i` exactly when `i` has no
/// in-neighbors.
proof fn lemma_no_in_neighbors(edges: Seq<(usize, usize, u64)>, i: usize)
    ensures
        in_neighbors(edges, i).len() == 0 <==> forall|k: int| 0 <= k < edges.len() ==> #[trigger] edges[k].1 != i,
    decreases edges.len(),
{
    if edges.len() > 0 {
        let d = edges.drop_last();
        lemma_no_in_neighbors(d, i);
        assert forall|k: int| 0 <= k < d.len() implies d[k] == edges[k] by {}
        if in_neighbors(edges, i).len() == 0 {
            assert forall|k: int| 0 <= k < edges.len() implies #[trigger] edges[k].1 != i by {
                if k < d.len() {
                    assert(d[k] == edges[k]);
                }
            }
        }
        if forall|k: int| 0 <= k < edges.len() ==> #[trigger] edges[k].1 != i {
            assert(edges[edges.len() - 1].1 != i);
            assert forall|k: int| 0 <= k < d.len() implies #[trigger] d[k].1 != i by {
                assert(d[k] == edges[k]);
            }
        }
    }
}

/// An AS is a zombie exactly when the topology has a node for it and no
/// edge of the topology ends at that node.
pub proof fn lemma_zombie_has_no_incoming_edge(t: AsTopology, asn: u32)
    ensures
        is_zombie(t, asn) <==> (t.index_of().contains_key(asn) && forall|k: int|
            0 <= k < t.edges().len() ==> #[trigger] t.edges()[k].1 != t.index_of()[asn]),
{
    if t.index_of().contains_key(asn) {
        lemma_no_in_neighbors(t.edges(), t.index_of()[asn]);
    }
}

/// Every zombie report names an AS that the topology has a node for, that
/// no edge of the topology ends at, and that announced some prefix.
pub proof fn lemma_zombie_reports_have_no_incoming_edge(t: AsTopology, es: Seq<(u32, Seq<UpdateView>)>)
    ensures
        forall|k: int|
            0 <= k < zombie_entries(t, es).len() ==> {
                let z = #[trigger] zombie_entries(t, es)[k];
                &&& t.index_of().contains_key(z.asn)
                &&& forall|e: int| 0 <= e < t.edges().len() ==> #[trigger] t.edges()[e].1 != t.index_of()[z.asn]
                &&& z.affected_prefixes.len() > 0
            },
    decreases es.len(),
{
    if es.len() > 0 {
        lemma_zombie_reports_have_no_incoming_edge(t, es.drop_last());
        let pre = zombie_entries(t, es.drop_last());
        let last = zombie_entry(t, es.last().0, es.last().1);
        let all = zombie_entries(t, es);
        assert(all == pre + last);
        lemma_zombie_has_no_incoming_edge(t, es.last().0);
        assert forall|k: int| 0 <= k < all.len() implies {
            let z = #[trigger] all[k];
            &&& t.index_of().contains_key(z.asn)
            &&& forall|e: int| 0 <= e < t.edges().len() ==> #[trigger] t.edges()[e].1 != t.index_of()[z.asn]
            &&& z.affected_prefixes.len() > 0
        } by {
            if k < pre.len() {
                assert(all[k] == pre[k]);
            } else {
                assert(all[k] == last[k - pre.len()]);
            }
        }
    }
}

/// How often an AS occurs in a prefix of a list, counted one more.
proof fn lemma_count_push(s: Seq<u32>, i: int, a: u32)
    requires
        0 <= i < s.len(),
    ensures
        count_in(s.take(i + 1), a) == count_in(s.take(i), a) + if s[i] == a {
            1nat
        } else {
            0nat
        },
{
    assert(s.take(i + 1).drop_last() =~= s.take(i));
}

/// An AS that does not occur has count zero; every count is at most the
/// length.
proof fn lemma_count_bounds(s: Seq<u32>, a: u32)
    ensures
        count_in(s, a) <= s.len(),
        !s.contains(a) ==> count_in(s, a) == 0,
        s.contains(a) ==> count_in(s, a) > 0,
    decreases s.len(),
{
    if s.len() > 0 {
        lemma_count_bounds(s.drop_last(), a);
        if s.contains(a) && s.last() != a {
            let j = choose|j: int| 0 <= j < s.len() && s[j] == a;
            assert(s.drop_last()[j] == a);
        }
        if !s.contains(a) {
            assert(s.last() != a);
            if s.drop_last().contains(a) {
                let j = choose|j: int| 0 <= j < s.drop_last().len() && #[trigger] s.drop_last()[j] == a;
                assert(s[j] == a);
            }
        }
    }
}

/// Membership in a prefix of a list grown by one.
proof fn lemma_take_contains(s: Seq<u32>, i: int)
    requires
        0 <= i < s.len(),
    ensures
        forall|x: u32| #[trigger] s.take(i + 1).contains(x) <==> (s.take(i).contains(x) || x == s[i]),
{
    assert forall|x: u32| #[trigger] s.take(i + 1).contains(x) <==> (s.take(i).contains(x) || x == s[i]) by {
        if s.take(i + 1).contains(x) && x != s[i] {
            let j = choose|j: int| 0 <= j < i + 1 && #[trigger] s.take(i + 1)[j] == x;
            assert(s.take(i)[j] == x);
        }
        if s.take(i).contains(x) {
            let j = choose|j: int| 0 <= j < i && #[trigger] s.take(i)[j] == x;
            assert(s.take(i + 1)[j] == x);
        }
        if x == s[i] {
            assert(s.take(i + 1)[i] == x);
        }
    }
}

/// At most one position holds the owner.
proof fn lemma_owner_unique(s: Seq<u32>, i: int, k: int)
    requires
        is_owner_at(s, i),
        is_owner_at(s, k),
    ensures
        i == k,
{
    if i < k {
        assert(count_in(s, s[i]) < count_in(s, s[k]));
        assert(count_in(s, s[k]) <= count_in(s, s[i]));
    } else if k < i {
        assert(count_in(s, s[k]) < count_in(s, s[i]));
        assert(count_in(s, s[i]) <= count_in(s, s[k]));
    }
}

impl AnomalyDetector {
    /// The owner of a prefix whose AS list is `asns` (see [`spec_owner`]).
    pub fn prefix_owner(asns: &[u32]) -> (r: Option<u32>)
        ensures
            r == spec_owner(asns@),
            r is None <==> asns@.len() == 0,
    {
        let ghost s = asns@;
        if asns.len() == 0 {
            return None;
        }
        let mut counter: HashMap<u32, usize> = HashMap::new();
        let mut i: usize = 0;
        while i < asns.len()
            invariant
                i <= s.len(),
                s == asns@,
                forall|a: u32| #[trigger] counter@.contains_key(a) <==> s.take(i as int).contains(a),
                forall|a: u32| #[trigger] counter@.contains_key(a) ==> counter@[a] == count_in(s.take(i as int), a),
            decreases s.len() - i,
        {
            let a = asns[i];
            proof {
                lemma_count_bounds(s.take(i as int), a);
                lemma_count_push(s, i as int, a);
                lemma_take_contains(s, i as int);
            }
            let c: usize = match counter.get(&a) {
                Some(c) => *c,
                None => 0,
            };
            counter.insert(a, c + 1);
            proof {
                assert forall|b: u32| #[trigger] counter@.contains_key(b) implies counter@[b] == count_in(
                    s.take(i + 1),
                    b,
                ) by {
                    lemma_count_push(s, i as int, b);
                }
            }
            i = i + 1;
        }
        assert(s.take(i as int) =~= s);
        proof {
            assert(s.contains(s[0]));
        }
        let mut best_i: usize = 0;
        let mut best_c: usize = *counter.get(&asns[0]).unwrap();
        let mut k: usize = 1;
        while k < asns.len()
            invariant
                1 <= k <= s.len(),
                s == asns@,
                forall|a: u32| #[trigger] counter@.contains_key(a) <==> s.contains(a),
                forall|a: u32| #[trigger] counter@.contains_key(a) ==> counter@[a] == count_in(s, a),
                best_i < k,
                best_c == count_in(s, s[best_i as int]),
                forall|j: int| 0 <= j < k ==> count_in(s, #[trigger] s[j]) <= best_c,
                forall|j: int| 0 <= j < best_i ==> count_in(s, #[trigger] s[j]) < best_c,
            decreases s.len() - k,
        {
            proof {
                assert(s.contains(s[k as int]));
            }
            let c = *counter.get(&asns[k]).unwrap();
            if c > best_c {
                best_i = k;
                best_c = c;
            }
            k = k + 1;
        }
        proof {
            assert(is_owner_at(s, best_i as int));
            let i2 = choose|i2: int| is_owner_at(s, i2);
            lemma_owner_unique(s, best_i as int, i2);
        }
        Some(asns[best_i])
    }

    /// The ASes of `asns`, each once, in order of first occurrence.
    pub fn distinct_asns(asns: &[u32]) -> (r: Vec<u32>)
        ensures
            r@ == distinct(asns@),
            r@.no_duplicates(),
            forall|x: u32| #[trigger] r@.contains(x) <==> asns@.contains(x),
    {
        let ghost s = asns@;
        let mut seen: HashSet<u32> = HashSet::new();
        let mut r: Vec<u32> = Vec::new();
        let mut i: usize = 0;
        assert(s.take(0) =~= Seq::<u32>::empty());
        while i < asns.len()
            invariant
                i <= s.len(),
                s == asns@,
                forall|a: u32| #[trigger] seen@.contains(a) <==> s.take(i as int).contains(a),
                r@ == distinct(s.take(i as int)),
            decreases s.len() - i,
        {
            let a = asns[i];
            proof {
                lemma_take_contains(s, i as int);
                assert(s.take(i + 1).drop_last() =~= s.take(i as int));
                assert(s.take(i + 1).last() == a);
            }
            if !seen.contains(&a) {
                seen.insert(a);
                r.push(a);
            }
            i = i + 1;
        }
        assert(s.take(i as int) =~= s);
        proof {
            lemma_distinct_lists_each_as_once(s);
        }
        r
    }

    /// Whether `asn` is an AS of the topology that no edge enters (see
    /// [`is_zombie`]).
    pub fn is_zombie_asn(asn: u32, topology: &AsTopology) -> (r: bool)
        requires
            topology.wf(),
        ensures
            r == is_zombie(*topology, asn),
            r <==> (topology.index_of().contains_key(asn) && forall|k: int|
                0 <= k < topology.edges().len() ==> #[trigger] topology.edges()[k].1 != topology.index_of()[asn]),
    {
        proof {
            lemma_zombie_has_no_incoming_edge(*topology, asn);
        }
        match (topology.out_degree(asn), topology.in_degree(asn)) {
            (Some(out_degree), Some(in_degree)) => {
                if in_degree == 0 && out_degree > 0 {
                    return true;
                }
                if out_degree <= 1 && in_degree == 0 {
                    return true;
                }
                false
            },
            _ => false,
        }
    }

    /// The factors of the confidence that `suspicious_asn` hijacks a prefix of
    /// `legitimate_asn` (see [`confidence_factors`]).
    pub fn compute_confidence(
        suspicious_asn: u32,
        legitimate_asn: u32,
        hub_asns: &[u32],
        topology: &AsTopology,
    ) -> (r: ConfidenceFactors)
        requires
            topology.wf(),
        ensures
            r == confidence_factors(*topology, hub_asns@, suspicious_asn, legitimate_asn),
    {
        let mut in_hubs = false;
        let mut i: usize = 0;
        while i < hub_asns.len()
            invariant
                i <= hub_asns@.len(),
                in_hubs == hub_asns@.take(i as int).contains(suspicious_asn),
            decreases hub_asns@.len() - i,
        {
            proof {
                lemma_take_contains(hub_asns@, i as int);
            }
            if hub_asns[i] == suspicious_asn {
                in_hubs = true;
            }
            i = i + 1;
        }
        assert(hub_asns@.take(i as int) =~= hub_asns@);
        ConfidenceFactors {
            outside_hubs: !in_hubs,
            degree: topology.node_degree(suspicious_asn),
            origins_differ: legitimate_asn != suspicious_asn,
        }
    }

    /// The evidence of a hijack alert.
    fn hijack_evidence_text(asn: u32, prefix: &String, owner: u32) -> (r: String)
        ensures
            r@ == hijack_evidence(asn, prefix@, owner),
    {
        let mut s = String::from_str("AS");
        append_dec(&mut s, asn as u64);
        s.append(" claims ownership of ");
        s.append(prefix.as_str());
        s.append(" (legitimate: AS");
        append_dec(&mut s, owner as u64);
        s.append(")");
        assert(s@ =~= hijack_evidence(asn, prefix@, owner));
        s
    }

    /// The AS numbers of the twenty nodes of highest degree.
    fn top_hub_asns(topology: &AsTopology) -> (r: Vec<u32>)
        requires
            topology.wf(),
        ensures
            r@ == hub_asns(*topology),
    {
        let hubs = topology.get_top_hubs(20);
        let mut r: Vec<u32> = Vec::new();
        let mut i: usize = 0;
        while i < hubs.len()
            invariant
                i <= hubs@.len(),
                r@.len() == i,
                forall|j: int| 0 <= j < i ==> #[trigger] r@[j] == hubs@[j].0,
            decreases hubs@.len() - i,
        {
            r.push(hubs[i].0);
            i = i + 1;
        }
        assert(r@ =~= hub_asns(*topology));
        r
    }

    /// The hijack alerts of a prefix table listing (see [`hijack_alerts`]):
    /// for each prefix that more than one AS announces, in listing order, one
    /// alert for each announcing AS other than the prefix's owner, in order of
    /// first announcement.
    pub fn hijack_alerts_in(entries: &Vec<(String, Vec<u32>)>, topology: &AsTopology) -> (r: Vec<HijackAlert>)
        requires
            topology.wf(),
        ensures
            alerts_view(r@) == hijack_alerts(*topology, hub_asns(*topology), prefix_entries_view(entries@)),
            (forall|i: int, j: int|
                0 <= i < j < entries@.len() ==> #[trigger] prefix_entries_view(entries@)[i].0
                    != #[trigger] prefix_entries_view(entries@)[j].0) ==> forall|i: int, j: int|
                0 <= i < j < r@.len() && #[trigger] r@[i].prefix@ == #[trigger] r@[j].prefix@ ==> r@[i].hijack_as
                    != r@[j].hijack_as,
    {
        let ghost t = *topology;
        let ghost es = prefix_entries_view(entries@);
        let hubs = Self::top_hub_asns(topology);
        let mut alerts: Vec<HijackAlert> = Vec::new();
        let mut i: usize = 0;
        assert(es.take(0) =~= Seq::<(Seq<char>, Seq<u32>)>::empty());
        assert(alerts_view(alerts@) =~= Seq::<AlertView>::empty());
        while i < entries.len()
            invariant
                i <= entries@.len(),
                t == *topology,
                topology.wf(),
                hubs@ == hub_asns(t),
                es == prefix_entries_view(entries@),
                alerts_view(alerts@) == hijack_alerts(t, hubs@, es.take(i as int)),
            decreases entries@.len() - i,
        {
            let prefix = &entries[i].0;
            let asns = &entries[i].1;
            let ghost before = alerts_view(alerts@);
            proof {
                assert(es[i as int] == (prefix@, asns@));
                assert(es.take(i + 1).drop_last() =~= es.take(i as int));
                assert(es.take(i + 1).last() == es[i as int]);
            }
            let unique = Self::distinct_asns(asns.as_slice());
            let owner = Self::prefix_owner(asns.as_slice());
            if unique.len() > 1 {
                if let Some(owner_asn) = owner {
                    let mut k: usize = 0;
                    assert(unique@.take(0) =~= Seq::<u32>::empty());
                    assert(alerts_view(alerts@) =~= before + owner_alerts(t, hubs@, prefix@, owner_asn, unique@.take(0)));
                    while k < unique.len()
                        invariant
                            k <= unique@.len(),
                            t == *topology,
                            topology.wf(),
                            hubs@ == hub_asns(t),
                            alerts_view(alerts@) == before + owner_alerts(
                                t,
                                hubs@,
                                prefix@,
                                owner_asn,
                                unique@.take(k as int),
                            ),
                        decreases unique@.len() - k,
                    {
                        let asn = unique[k];
                        let ghost mid = alerts_view(alerts@);
                        proof {
                            assert(unique@.take(k + 1).drop_last() =~= unique@.take(k as int));
                            assert(unique@.take(k + 1).last() == asn);
                        }
                        if asn != owner_asn {
                            let confidence = Self::compute_confidence(asn, owner_asn, hubs.as_slice(), topology);
                            let alert_type = if Self::is_zombie_asn(asn, topology) {
                                AlertType::ZombieNode
                            } else {
                                AlertType::PrefixHijack
                            };
                            let evidence = Self::hijack_evidence_text(asn, prefix, owner_asn);
                            alerts.push(
                                HijackAlert {
                                    prefix: prefix.clone(),
                                    origin_as: owner_asn,
                                    hijack_as: asn,
                                    alert_type,
                                    confidence: AlertConfidence::Scored(confidence),
                                    evidence,
                                },
                            );
                            assert(alerts_view(alerts@) =~= mid.push(hijack_alert(t, hubs@, prefix@, owner_asn, asn)));
                        }
                        assert(alerts_view(alerts@) =~= before + owner_alerts(
                            t,
                            hubs@,
                            prefix@,
                            owner_asn,
                            unique@.take(k + 1),
                        ));
                        k = k + 1;
                    }
                    assert(unique@.take(k as int) =~= unique@);
                }
            }
            assert(alerts_view(alerts@) =~= hijack_alerts(t, hubs@, es.take(i + 1)));
            i = i + 1;
        }
        assert(es.take(i as int) =~= es);
        proof {
            if forall|i: int, j: int| 0 <= i < j < es.len() ==> #[trigger] es[i].0 != #[trigger] es[j].0 {
                lemma_hijack_alerts_accuse_each_announcer_once(t, hubs@, es);
                let a = alerts_view(alerts@);
                assert forall|i: int, j: int|
                    0 <= i < j < alerts@.len() && #[trigger] alerts@[i].prefix@ == #[trigger] alerts@[j].prefix@ implies alerts@[i].hijack_as
                        != alerts@[j].hijack_as by {
                    assert(a[i] == alerts@[i]@ && a[j] == alerts@[j]@);
                }
            }
        }
        alerts
    }

    /// Where an AS path loops (see [`first_repeat`]).
    fn first_repeated_asn(flat: &[u32]) -> (r: Option<u32>)
        ensures
            r == first_repeat(flat@),
            r is None <==> flat@.no_duplicates(),
    {
        proof {
            lemma_first_repeat_finds_first_loop(flat@);
        }
        let ghost s = flat@;
        let mut seen: HashSet<u32> = HashSet::new();
        let mut i: usize = 0;
        assert(s.take(0) =~= Seq::<u32>::empty());
        while i < flat.len()
            invariant
                i <= s.len(),
                s == flat@,
                forall|a: u32| #[trigger] seen@.contains(a) <==> s.take(i as int).contains(a),
                first_repeat(s) == first_repeat_from(s, i as int),
            decreases s.len() - i,
        {
            let a = flat[i];
            if seen.contains(&a) {
                return Some(a);
            }
            seen.insert(a);
            proof {
                lemma_take_contains(s, i as int);
            }
            i = i + 1;
        }
        None
    }

    /// The evidence of an AS-path loop.
    fn loop_evidence_text(asn: u32, prefix: &String) -> (r: String)
        ensures
            r@ == loop_evidence(asn, prefix@),
    {
        let mut s = String::from_str("AS-Path loop detected: AS");
        append_dec(&mut s, asn as u64);
        s.append(" appears multiple times in path to ");
        s.append(prefix.as_str());
        assert(s@ =~= loop_evidence(asn, prefix@));
        s
    }

    /// The AS-path loop alerts of an update table listing (see
    /// [`loop_alerts`]): for every update, in order, whose flattened path
    /// repeats an AS, one alert for each announced prefix.
    pub fn as_path_loop_alerts_in(entries: &Vec<(u32, Vec<BgpUpdate>)>) -> (r: Vec<HijackAlert>)
        ensures
            alerts_view(r@) == loop_alerts(update_entries_view(entries@)),
    {
        let ghost es = update_entries_view(entries@);
        let mut alerts: Vec<HijackAlert> = Vec::new();
        let mut i: usize = 0;
        assert(es.take(0) =~= Seq::<(u32, Seq<UpdateView>)>::empty());
        assert(alerts_view(alerts@) =~= Seq::<AlertView>::empty());
        while i < entries.len()
            invariant
                i <= entries@.len(),
                es == update_entries_view(entries@),
                alerts_view(alerts@) == loop_alerts(es.take(i as int)),
            decreases entries@.len() - i,
        {
            let updates = &entries[i].1;
            let ghost uv = updates_view(updates@);
            let ghost start = alerts_view(alerts@);
            assert(es[i as int].1 == uv);
            let mut j: usize = 0;
            assert(uv.take(0) =~= Seq::<UpdateView>::empty());
            assert(alerts_view(alerts@) =~= start + updates_loop_alerts(uv.take(0)));
            while j < updates.len()
                invariant
                    j <= updates@.len(),
                    uv == updates_view(updates@),
                    alerts_view(alerts@) == start + updates_loop_alerts(uv.take(j as int)),
                decreases updates@.len() - j,
            {
                let u = &updates[j];
                let ghost mid = alerts_view(alerts@);
                proof {
                    assert(uv[j as int] == u@);
                    assert(uv.take(j + 1).drop_last() =~= uv.take(j as int));
                }
                let flat = BgpExtractor::flatten_as_path(u.as_path.as_slice());
                match Self::first_repeated_asn(flat.as_slice()) {
                    Some(path_asn) => {
                        let ghost ps = u@.announced_prefixes;
                        let mut k: usize = 0;
                        while k < u.announced_prefixes.len()
                            invariant
                                k <= ps.len(),
                                ps == u@.announced_prefixes,
                                alerts_view(alerts@) == mid + loop_alerts_for(path_asn, ps).take(k as int),
                            decreases ps.len() - k,
                        {
                            let cidr = u.announced_prefixes[k].cidr();
                            let evidence = Self::loop_evidence_text(path_asn, &cidr);
                            let ghost before = alerts_view(alerts@);
                            let ghost all_k = loop_alerts_for(path_asn, ps);
                            proof {
                                assert(u.announced_prefixes@[k as int]@ == ps[k as int]);
                                assert(all_k.take(k + 1) =~= all_k.take(k as int).push(all_k[k as int]));
                            }
                            alerts.push(
                                HijackAlert {
                                    prefix: cidr,
                                    origin_as: path_asn,
                                    hijack_as: path_asn,
                                    alert_type: AlertType::AsPathLoop,
                                    confidence: AlertConfidence::PathLoop,
                                    evidence,
                                },
                            );
                            assert(alerts_view(alerts@) =~= before.push(all_k[k as int]));
                            k = k + 1;
                        }
                        assert(loop_alerts_for(path_asn, ps).take(k as int) =~= loop_alerts_for(path_asn, ps));
                    },
                    None => {},
                }
                assert(alerts_view(alerts@) =~= start + updates_loop_alerts(uv.take(j + 1)));
                j = j + 1;
            }
            proof {
                assert(uv.take(j as int) =~= uv);
                assert(es.take(i + 1).drop_last() =~= es.take(i as int));
            }
            i = i + 1;
        }
        assert(es.take(i as int) =~= es);
        alerts
    }

    /// The AS-path loop alerts of the updates `processor` holds, its table
    /// walked in the map's own order.
    pub fn detect_as_path_loops(processor: &ParallelProcessor) -> (r: Vec<HijackAlert>)
        ensures
            exists|es: Seq<(u32, Seq<UpdateView>)>|
                #[trigger] update_entries_match(processor.tables().updates, es) && alerts_view(r@)
                    == loop_alerts(es),
    {
        let entries = update_table_entries(&processor.all_updates);
        assert(update_entries_match(processor.tables().updates, update_entries_view(entries@)));
        Self::as_path_loop_alerts_in(&entries)
    }

    /// The hijack alerts of the prefixes `processor` holds (see
    /// [`hijack_alerts`]) followed by its AS-path loop alerts (see
    /// [`loop_alerts`]), each table walked in the map's own order. Ordering by
    /// confidence is left to the caller, which gives the confidence its value.
    pub fn detect_hijacks(processor: &ParallelProcessor, topology: &AsTopology) -> (r: Vec<HijackAlert>)
        requires
            topology.wf(),
        ensures
            exists|ps: Seq<(Seq<char>, Seq<u32>)>, es: Seq<(u32, Seq<UpdateView>)>|
                #[trigger] prefix_entries_match(processor.tables().prefixes, ps) && #[trigger] update_entries_match(
                    processor.tables().updates,
                    es,
                ) && alerts_view(r@) == hijack_alerts(*topology, hub_asns(*topology), ps) + loop_alerts(es),
    {
        let prefixes = prefix_table_entries(&processor.prefix_as_map);
        let mut alerts = Self::hijack_alerts_in(&prefixes, topology);
        let ghost first = alerts_view(alerts@);
        let updates = update_table_entries(&processor.all_updates);
        let mut loop_found = Self::as_path_loop_alerts_in(&updates);
        let ghost second = alerts_view(loop_found@);
        alerts.append(&mut loop_found);
        assert(alerts_view(alerts@) =~= first + second);
        assert(prefix_entries_match(processor.tables().prefixes, prefix_entries_view(prefixes@)));
        assert(update_entries_match(processor.tables().updates, update_entries_view(updates@)));
        alerts
    }

    /// The prefixes announced by `updates`, in `address/length` notation.
    fn affected_prefixes(updates: &Vec<BgpUpdate>) -> (r: Vec<String>)
        ensures
            strings_view(r@) == announced_cidrs(updates_view(updates@)),
    {
        let ghost uv = updates_view(updates@);
        let mut r: Vec<String> = Vec::new();
        let mut j: usize = 0;
        assert(uv.take(0) =~= Seq::<UpdateView>::empty());
        assert(strings_view(r@) =~= Seq::<Seq<char>>::empty());
        while j < updates.len()
            invariant
                j <= updates@.len(),
                uv == updates_view(updates@),
                strings_view(r@) == announced_cidrs(uv.take(j as int)),
            decreases updates@.len() - j,
        {
            let u = &updates[j];
            let ghost ps = u@.announced_prefixes;
            let ghost cidrs = ps.map_values(|p: PrefixView| cidr_text(p));
            let ghost start = strings_view(r@);
            let mut k: usize = 0;
            while k < u.announced_prefixes.len()
                invariant
                    k <= ps.len(),
                    ps == u@.announced_prefixes,
                    cidrs == ps.map_values(|p: PrefixView| cidr_text(p)),
                    strings_view(r@) == start + cidrs.take(k as int),
                decreases ps.len() - k,
            {
                let c = u.announced_prefixes[k].cidr();
                let ghost before = strings_view(r@);
                proof {
                    assert(u.announced_prefixes@[k as int]@ == ps[k as int]);
                    assert(cidrs.take(k + 1) =~= cidrs.take(k as int).push(cidrs[k as int]));
                }
                r.push(c);
                assert(strings_view(r@) =~= before.push(cidrs[k as int]));
                k = k + 1;
            }
            proof {
                assert(cidrs.take(k as int) =~= cidrs);
                assert(uv[j as int] == u@);
                assert(uv.take(j + 1).drop_last() =~= uv.take(j as int));
            }
            j = j + 1;
        }
        assert(uv.take(j as int) =~= uv);
        r
    }

    /// The first five flattened AS paths of more than one AS of `updates`.
    fn suspicious_paths(updates: &Vec<BgpUpdate>) -> (r: Vec<Vec<u32>>)
        ensures
            paths_view(r@) == first_five(long_paths(updates_view(updates@))),
    {
        let ghost uv = updates_view(updates@);
        let mut r: Vec<Vec<u32>> = Vec::new();
        let mut j: usize = 0;
        assert(uv.take(0) =~= Seq::<UpdateView>::empty());
        assert(paths_view(r@) =~= Seq::<Seq<u32>>::empty());
        while j < updates.len()
            invariant
                j <= updates@.len(),
                uv == updates_view(updates@),
                paths_view(r@) == first_five(long_paths(uv.take(j as int))),
            decreases updates@.len() - j,
        {
            let u = &updates[j];
            let ghost l0 = long_paths(uv.take(j as int));
            let ghost before = paths_view(r@);
            proof {
                assert(uv[j as int] == u@);
                assert(uv.take(j + 1).drop_last() =~= uv.take(j as int));
            }
            let flat = BgpExtractor::flatten_as_path(u.as_path.as_slice());
            let ghost l1 = long_paths(uv.take(j + 1));
            if flat.len() > 1 && r.len() < 5 {
                let ghost f = flat@;
                r.push(flat);
                assert(l1 =~= l0.push(f));
                assert(paths_view(r@) =~= before.push(f));
                assert(paths_view(r@) =~= first_five(l1));
            } else {
                if flat.len() > 1 {
                    assert(l1 =~= l0.push(flat@));
                    assert(l1.take(5) =~= l0.take(5));
                } else {
                    assert(l1 =~= l0);
                }
            }
            j = j + 1;
        }
        assert(uv.take(j as int) =~= uv);
        r
    }

    /// A copy of a list of strings.
    fn copy_strings(v: &Vec<String>) -> (r: Vec<String>)
        ensures
            strings_view(r@) == strings_view(v@),
    {
        let mut r: Vec<String> = Vec::new();
        let mut i: usize = 0;
        while i < v.len()
            invariant
                i <= v@.len(),
                strings_view(r@) == strings_view(v@).take(i as int),
            decreases v@.len() - i,
        {
            let ghost before = strings_view(r@);
            r.push(v[i].clone());
            assert(strings_view(r@) =~= before.push(strings_view(v@)[i as int]));
            assert(strings_view(v@).take(i + 1) =~= strings_view(v@).take(i as int).push(strings_view(v@)[i as int]));
            i = i + 1;
        }
        assert(strings_view(v@).take(i as int) =~= strings_view(v@));
        r
    }

    /// A copy of a list of AS paths.
    fn copy_paths(v: &Vec<Vec<u32>>) -> (r: Vec<Vec<u32>>)
        ensures
            paths_view(r@) == paths_view(v@),
    {
        let mut r: Vec<Vec<u32>> = Vec::new();
        let mut i: usize = 0;
        while i < v.len()
            invariant
                i <= v@.len(),
                paths_view(r@) == paths_view(v@).take(i as int),
            decreases v@.len() - i,
        {
            let ghost before = paths_view(r@);
            r.push(copy_u32s(v[i].as_slice()));
            assert(paths_view(r@) =~= before.push(paths_view(v@)[i as int]));
            assert(paths_view(v@).take(i + 1) =~= paths_view(v@).take(i as int).push(paths_view(v@)[i as int]));
            i = i + 1;
        }
        assert(paths_view(v@).take(i as int) =~= paths_view(v@));
        r
    }

    /// A copy of a zombie report.
    fn copy_zombie(z: &ZombieNode) -> (r: ZombieNode)
        ensures
            r@ == z@,
    {
        ZombieNode {
            asn: z.asn,
            reason: z.reason.clone(),
            affected_prefixes: Self::copy_strings(&z.affected_prefixes),
            suspicious_paths: Self::copy_paths(&z.suspicious_paths),
        }
    }

    /// The zombie reports of an update table listing (see
    /// [`zombie_entries`]), the reports with most affected prefixes first,
    /// otherwise in listing order.
    pub fn zombie_nodes_in(entries: &Vec<(u32, Vec<BgpUpdate>)>, topology: &AsTopology) -> (r: Vec<ZombieNode>)
        requires
            topology.wf(),
        ensures
            exists|order: Seq<usize>|
                #[trigger] is_ranking(
                    zombie_keys(zombie_entries(*topology, update_entries_view(entries@))),
                    order,
                ) && zombies_view(r@) == zombies_permuted(
                    zombie_entries(*topology, update_entries_view(entries@)),
                    order,
                ),
    {
        let ghost t = *topology;
        let ghost es = update_entries_view(entries@);
        let mut found: Vec<ZombieNode> = Vec::new();
        let mut i: usize = 0;
        assert(es.take(0) =~= Seq::<(u32, Seq<UpdateView>)>::empty());
        assert(zombies_view(found@) =~= Seq::<ZombieView>::empty());
        while i < entries.len()
            invariant
                i <= entries@.len(),
                t == *topology,
                topology.wf(),
                es == update_entries_view(entries@),
                zombies_view(found@) == zombie_entries(t, es.take(i as int)),
            decreases entries@.len() - i,
        {
            let asn = entries[i].0;
            let updates = &entries[i].1;
            let ghost before = zombies_view(found@);
            proof {
                assert(es[i as int] == (asn, updates_view(updates@)));
                assert(es.take(i + 1).drop_last() =~= es.take(i as int));
                assert(es.take(i + 1).last() == es[i as int]);
            }
            if Self::is_zombie_asn(asn, topology) {
                let affected = Self::affected_prefixes(updates);
                let suspicious = Self::suspicious_paths(updates);
                if affected.len() > 0 {
                    let reason = String::from_str("Low connectivity with active route announcements");
                    found.push(ZombieNode { asn, reason, affected_prefixes: affected, suspicious_paths: suspicious });
                    assert(zombies_view(found@) =~= before + zombie_entry(t, asn, updates_view(updates@)));
                } else {
                    assert(zombies_view(found@) =~= before + zombie_entry(t, asn, updates_view(updates@)));
                }
            } else {
                assert(zombies_view(found@) =~= before + zombie_entry(t, asn, updates_view(updates@)));
            }
            i = i + 1;
        }
        assert(es.take(i as int) =~= es);
        let ghost zs = zombies_view(found@);
        let mut keys: Vec<(u64, u64)> = Vec::new();
        let mut k: usize = 0;
        while k < found.len()
            invariant
                k <= found@.len(),
                zs == zombies_view(found@),
                keys@.len() == k,
                forall|x: int| 0 <= x < k ==> #[trigger] keys@[x] == zombie_keys(zs)[x],
            decreases found@.len() - k,
        {
            keys.push((found[k].affected_prefixes.len() as u64, 0));
            k = k + 1;
        }
        assert(keys@ =~= zombie_keys(zs));
        let order = rank_desc(&keys);
        let mut out: Vec<ZombieNode> = Vec::new();
        let mut p: usize = 0;
        while p < order.len()
            invariant
                p <= order@.len(),
                zs == zombies_view(found@),
                is_ranking(zombie_keys(zs), order@),
                zombies_view(out@) == zombies_permuted(zs, order@).take(p as int),
            decreases order@.len() - p,
        {
            let idx = order[p];
            proof {
                assert(order@[p as int] < zs.len());
            }
            let ghost before = zombies_view(out@);
            out.push(Self::copy_zombie(&found[idx]));
            proof {
                let perm = zombies_permuted(zs, order@);
                assert(zs[idx as int] == found@[idx as int]@);
                assert(perm[p as int] == zs[idx as int]);
                assert(zombies_view(out@) =~= before.push(perm[p as int]));
                assert(perm.take(p + 1) =~= perm.take(p as int).push(perm[p as int]));
            }
            p = p + 1;
        }
        assert(zombies_permuted(zs, order@).take(p as int) =~= zombies_permuted(zs, order@));
        out
    }

    /// The zombie reports of the updates `processor` holds (see
    /// [`AnomalyDetector::zombie_nodes_in`]), its table walked in the map's
    /// own order.
    pub fn detect_zombie_nodes(processor: &ParallelProcessor, topology: &AsTopology) -> (r: Vec<ZombieNode>)
        requires
            topology.wf(),
        ensures
            exists|es: Seq<(u32, Seq<UpdateView>)>, order: Seq<usize>|
                #[trigger] update_entries_match(processor.tables().updates, es) && #[trigger] is_ranking(
                    zombie_keys(zombie_entries(*topology, es)),
                    order,
                ) && zombies_view(r@) == zombies_permuted(zombie_entries(*topology, es), order),
    {
        let entries = update_table_entries(&processor.all_updates);
        assert(update_entries_match(processor.tables().updates, update_entries_view(entries@)));
        Self::zombie_nodes_in(&entries, topology)
    }
}

} // verus!
