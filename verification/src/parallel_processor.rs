//! Aggregation of decoded updates into the shared tables the analyses read:
//! AS numbers seen on the paths to each prefix, link counts between
//! adjacent ASes, and the updates by origin AS.
use dashmap::DashMap;
use std::io::Read;
use std::collections::hash_map::RandomState;
use vstd::prelude::*;

use crate::bgp_extract::{
    cidr_text, spec_extract, spec_flatten, BgpExtractor, BgpUpdate, UpdateView,
};
use crate::error::DecodeError;
use crate::mrt_parser::{spec_frames, MrtHeader, MrtParser};

verus! {

#[verifier::external_type_specification]
#[verifier::external_body]
#[verifier::reject_recursive_types(K)]
#[verifier::reject_recursive_types(V)]
#[verifier::reject_recursive_types(S)]
pub struct ExDashMap<K, V, S>(DashMap<K, V, S>);

/// What a prefix table holds: for each prefix text, the AS numbers seen.
pub uninterp spec fn prefix_table(m: DashMap<String, Vec<u32>>) -> Map<Seq<char>, Seq<u32>>;

/// What a link table holds: for each directed AS link, its count.
pub uninterp spec fn link_table(m: DashMap<(u32, u32), u64>) -> Map<(u32, u32), u64>;

/// What an update table holds: for each origin AS, its updates in order.
pub uninterp spec fn update_table(m: DashMap<u32, Vec<BgpUpdate>>) -> Map<u32, Seq<UpdateView>>;

/// What a degree table holds: for each AS, its degree.
pub uninterp spec fn degree_table(m: DashMap<u32, u64>) -> Map<u32, u64>;

pub open spec fn no_prefixes() -> Map<Seq<char>, Seq<u32>> {
    Map::empty()
}

pub open spec fn no_links() -> Map<(u32, u32), u64> {
    Map::empty()
}

pub open spec fn no_updates() -> Map<u32, Seq<UpdateView>> {
    Map::empty()
}

pub open spec fn no_degrees() -> Map<u32, u64> {
    Map::empty()
}

/// dashmap's `DashMap::new` for the prefix table: an empty map.
#[verifier::external_body]
fn new_prefix_table() -> (r: DashMap<String, Vec<u32>>)
    ensures
        prefix_table(r) == no_prefixes(),
{
    DashMap::new()
}

/// dashmap's `DashMap::new` for the link table: an empty map.
#[verifier::external_body]
fn new_link_table() -> (r: DashMap<(u32, u32), u64>)
    ensures
        link_table(r) == no_links(),
{
    DashMap::new()
}

/// dashmap's `DashMap::new` for the update table: an empty map.
#[verifier::external_body]
fn new_update_table() -> (r: DashMap<u32, Vec<BgpUpdate>>)
    ensures
        update_table(r) == no_updates(),
{
    DashMap::new()
}

/// dashmap's `DashMap::new` for a degree table: an empty map.
#[verifier::external_body]
fn new_degree_table() -> (r: DashMap<u32, u64>)
    ensures
        degree_table(r) == no_degrees(),
{
    DashMap::new()
}

/// The AS numbers stored for `k`, or none.
pub open spec fn asns_or_empty(m: Map<Seq<char>, Seq<u32>>, k: Seq<char>) -> Seq<u32> {
    if m.contains_key(k) {
        m[k]
    } else {
        Seq::empty()
    }
}

/// The count stored for link `k`, or zero.
pub open spec fn count_of(m: Map<(u32, u32), u64>, k: (u32, u32)) -> int {
    if m.contains_key(k) {
        m[k] as int
    } else {
        0
    }
}

/// The updates stored for origin `k`, or none.
pub open spec fn updates_or_empty(m: Map<u32, Seq<UpdateView>>, k: u32) -> Seq<UpdateView> {
    if m.contains_key(k) {
        m[k]
    } else {
        Seq::empty()
    }
}

/// The AS numbers stored for `k`, if any.
pub open spec fn opt_asns_view(r: Option<Vec<u32>>) -> Option<Seq<u32>> {
    match r {
        Some(v) => Some(v@),
        None => None,
    }
}

/// dashmap's `remove`: the AS numbers stored under `key` are taken out of
/// the table and returned, if there are any.
#[verifier::external_body]
fn prefix_table_remove(m: &mut DashMap<String, Vec<u32>>, key: &String) -> (r: Option<Vec<u32>>)
    ensures
        opt_asns_view(r) == (if prefix_table(*old(m)).contains_key(key@) {
            Some(prefix_table(*old(m))[key@])
        } else {
            None
        }),
        prefix_table(*final(m)) == prefix_table(*old(m)).remove(key@),
{
    m.remove(key).map(|(_, v)| v)
}

/// dashmap's `insert`: `key` now holds `asns`.
#[verifier::external_body]
fn prefix_table_insert(m: &mut DashMap<String, Vec<u32>>, key: String, asns: Vec<u32>)
    ensures
        prefix_table(*final(m)) == prefix_table(*old(m)).insert(key@, asns@),
{
    m.insert(key, asns);
}

/// Appends `asns` to the AS numbers stored under `key` (to an empty list
/// when there were none).
fn prefix_table_append(m: &mut DashMap<String, Vec<u32>>, key: String, asns: &[u32])
    ensures
        prefix_table(*final(m)) == prefix_table(*old(m)).insert(
            key@,
            asns_or_empty(prefix_table(*old(m)), key@) + asns@,
        ),
{
    let ghost before = prefix_table(*m);
    let mut list: Vec<u32> = match prefix_table_remove(m, &key) {
        Some(v) => v,
        None => Vec::new(),
    };
    let ghost start = list@;
    assert(start == asns_or_empty(before, key@));
    let mut i: usize = 0;
    while i < asns.len()
        invariant
            i <= asns@.len(),
            list@ == start + asns@.subrange(0, i as int),
        decreases asns@.len() - i,
    {
        list.push(asns[i]);
        i = i + 1;
        assert(list@ =~= start + asns@.subrange(0, i as int));
    }
    assert(asns@.subrange(0, i as int) =~= asns@);
    prefix_table_insert(m, key, list);
    assert(prefix_table(*m) =~= before.insert(key@, asns_or_empty(before, key@) + asns@));
}

/// dashmap's `get`: the count stored for `key`, if any.
#[verifier::external_body]
fn link_table_get(m: &DashMap<(u32, u32), u64>, key: (u32, u32)) -> (r: Option<u64>)
    ensures
        r == (if link_table(*m).contains_key(key) {
            Some(link_table(*m)[key])
        } else {
            None
        }),
{
    match m.get(&key) {
        Some(r) => Some(*r.value()),
        None => None,
    }
}

/// dashmap's `insert`: link `key` now has count `count`.
#[verifier::external_body]
fn link_table_insert(m: &mut DashMap<(u32, u32), u64>, key: (u32, u32), count: u64)
    ensures
        link_table(*final(m)) == link_table(*old(m)).insert(key, count),
{
    m.insert(key, count);
}

/// Counts link `key` once more (from zero when it had no count).
fn link_table_increment(m: &mut DashMap<(u32, u32), u64>, key: (u32, u32))
    requires
        count_of(link_table(*old(m)), key) < u64::MAX,
    ensures
        link_table(*final(m)) == link_table(*old(m)).insert(
            key,
            (count_of(link_table(*old(m)), key) + 1) as u64,
        ),
{
    let c: u64 = match link_table_get(m, key) {
        Some(c) => c,
        None => 0,
    };
    link_table_insert(m, key, c + 1);
}

/// dashmap's `remove`: the updates stored under `key` are taken out of the
/// table and returned, if there are any.
#[verifier::external_body]
fn update_table_remove(m: &mut DashMap<u32, Vec<BgpUpdate>>, key: u32) -> (r: Option<Vec<BgpUpdate>>)
    ensures
        match r {
            Some(v) => update_table(*old(m)).contains_key(key) && updates_view(v@) == update_table(*old(m))[key],
            None => !update_table(*old(m)).contains_key(key),
        },
        update_table(*final(m)) == update_table(*old(m)).remove(key),
{
    m.remove(&key).map(|(_, v)| v)
}

/// dashmap's `insert`: origin `key` now holds `updates`.
#[verifier::external_body]
fn update_table_insert(m: &mut DashMap<u32, Vec<BgpUpdate>>, key: u32, updates: Vec<BgpUpdate>)
    ensures
        update_table(*final(m)) == update_table(*old(m)).insert(key, updates_view(updates@)),
{
    m.insert(key, updates);
}

/// Appends `u` to the updates stored under `key`.
fn update_table_push(m: &mut DashMap<u32, Vec<BgpUpdate>>, key: u32, u: BgpUpdate)
    ensures
        update_table(*final(m)) == update_table(*old(m)).insert(
            key,
            updates_or_empty(update_table(*old(m)), key).push(u@),
        ),
{
    let ghost before = update_table(*m);
    let ghost uv = u@;
    let mut list: Vec<BgpUpdate> = match update_table_remove(m, key) {
        Some(v) => v,
        None => Vec::new(),
    };
    let ghost start = updates_view(list@);
    assert(start == updates_or_empty(before, key)) by {
        if !before.contains_key(key) {
            assert(updates_view(list@) =~= Seq::<UpdateView>::empty());
        }
    }
    list.push(u);
    assert(updates_view(list@) =~= start.push(uv));
    update_table_insert(m, key, list);
    assert(update_table(*m) =~= before.insert(key, updates_or_empty(before, key).push(uv)));
}

/// dashmap's `len`: the number of keys.
#[verifier::external_body]
fn prefix_table_len(m: &DashMap<String, Vec<u32>>) -> (r: usize)
    ensures
        r == prefix_table(*m).dom().len(),
{
    m.len()
}

/// dashmap's `len`: the number of keys.
#[verifier::external_body]
fn update_table_len(m: &DashMap<u32, Vec<BgpUpdate>>) -> (r: usize)
    ensures
        r == update_table(*m).dom().len(),
{
    m.len()
}

/// dashmap's `iter`, each entry copied out: every key once, with its count,
/// in the map's own order.
#[verifier::external_body]
pub(crate) fn link_table_entries(m: &DashMap<(u32, u32), u64>) -> (r: Vec<((u32, u32), u64)>)
    ensures
        entries_match(link_table(*m), r@),
{
    m.iter().map(|e| (*e.key(), *e.value())).collect()
}

/// dashmap's `iter`, each entry copied out: every prefix once, with its AS
/// numbers, in the map's own order.
#[verifier::external_body]
pub(crate) fn prefix_table_entries(m: &DashMap<String, Vec<u32>>) -> (r: Vec<(String, Vec<u32>)>)
    ensures
        prefix_entries_match(prefix_table(*m), prefix_entries_view(r@)),
{
    m.iter().map(|e| (e.key().clone(), e.value().clone())).collect()
}

/// A prefix table listing by views.
pub open spec fn prefix_entries_view(r: Seq<(String, Vec<u32>)>) -> Seq<(Seq<char>, Seq<u32>)> {
    r.map_values(|e: (String, Vec<u32>)| (e.0@, e.1@))
}

/// `r` lists the entries of `m`, each prefix once.
pub open spec fn prefix_entries_match(m: Map<Seq<char>, Seq<u32>>, r: Seq<(Seq<char>, Seq<u32>)>) -> bool {
    &&& m.dom() == r.map_values(|e: (Seq<char>, Seq<u32>)| e.0).to_set()
    &&& forall|i: int| 0 <= i < r.len() ==> m.contains_key(#[trigger] r[i].0) && m[r[i].0] == r[i].1
    &&& forall|i: int, j: int| 0 <= i < j < r.len() ==> r[i].0 != r[j].0
}

/// dashmap's `iter`, each entry copied out (a derived `clone` of the update
/// list): every origin AS once, with its updates, in the map's own order.
#[verifier::external_body]
pub(crate) fn update_table_entries(m: &DashMap<u32, Vec<BgpUpdate>>) -> (r: Vec<(u32, Vec<BgpUpdate>)>)
    ensures
        update_entries_match(update_table(*m), update_entries_view(r@)),
{
    m.iter().map(|e| (*e.key(), e.value().clone())).collect()
}

/// The update lists of a table listing, by their views.
pub open spec fn update_entries_view(r: Seq<(u32, Vec<BgpUpdate>)>) -> Seq<(u32, Seq<UpdateView>)> {
    r.map_values(|e: (u32, Vec<BgpUpdate>)| (e.0, updates_view(e.1@)))
}

/// `r` lists the entries of `m`, each key once.
pub open spec fn update_entries_match(m: Map<u32, Seq<UpdateView>>, r: Seq<(u32, Seq<UpdateView>)>) -> bool {
    &&& m.dom() == r.map_values(|e: (u32, Seq<UpdateView>)| e.0).to_set()
    &&& forall|i: int| 0 <= i < r.len() ==> m.contains_key(#[trigger] r[i].0) && m[r[i].0] == r[i].1
    &&& forall|i: int, j: int| 0 <= i < j < r.len() ==> r[i].0 != r[j].0
}

/// `r` lists the entries of `m`, each key once.
pub open spec fn entries_match(m: Map<(u32, u32), u64>, r: Seq<((u32, u32), u64)>) -> bool {
    &&& m.dom() == r.map_values(|e: ((u32, u32), u64)| e.0).to_set()
    &&& forall|i: int| 0 <= i < r.len() ==> m.contains_key(#[trigger] r[i].0) && m[r[i].0] == r[i].1
    &&& forall|i: int, j: int| 0 <= i < j < r.len() ==> r[i].0 != r[j].0
}

/// A listing of the entries has one item per key, and the ASes that end a
/// link are finitely many.
pub proof fn lemma_entries_len(m: Map<(u32, u32), u64>, r: Seq<((u32, u32), u64)>)
    requires
        entries_match(m, r),
    ensures
        m.dom().finite(),
        m.dom().len() == r.len(),
        link_endpoints(m).finite(),
        forall|k: (u32, u32)| #[trigger] m.contains_key(k) ==> exists|j: int| 0 <= j < r.len() && r[j].0 == k,
{
    let keys = r.map_values(|e: ((u32, u32), u64)| e.0);
    vstd::seq_lib::seq_to_set_is_finite(keys);
    assert(keys.no_duplicates()) by {
        assert forall|i: int, j: int| 0 <= i < keys.len() && 0 <= j < keys.len() && i != j implies keys[i]
            != keys[j] by {
            if i < j {
                assert(r[i].0 != r[j].0);
            } else {
                assert(r[j].0 != r[i].0);
            }
        }
    }
    keys.unique_seq_to_set();
    let srcs = r.map_values(|e: ((u32, u32), u64)| e.0.0);
    let dsts = r.map_values(|e: ((u32, u32), u64)| e.0.1);
    vstd::seq_lib::seq_to_set_is_finite(srcs);
    vstd::seq_lib::seq_to_set_is_finite(dsts);
    assert forall|k: (u32, u32)| #[trigger] m.contains_key(k) implies exists|j: int| 0 <= j < r.len() && r[j].0 == k by {
        assert(keys.to_set().contains(k));
        let j = choose|j: int| 0 <= j < keys.len() && keys[j] == k;
        assert(r[j].0 == k);
    }
    assert(link_endpoints(m) =~= srcs.to_set().union(dsts.to_set())) by {
        assert forall|a: u32| link_endpoints(m).contains(a) implies srcs.to_set().union(dsts.to_set()).contains(a) by {
            let k = choose|k: (u32, u32)| m.contains_key(k) && (k.0 == a || k.1 == a);
            let j = choose|j: int| 0 <= j < r.len() && r[j].0 == k;
            if k.0 == a {
                assert(srcs[j] == a);
            } else {
                assert(dsts[j] == a);
            }
        }
        assert forall|a: u32| srcs.to_set().union(dsts.to_set()).contains(a) implies link_endpoints(m).contains(a) by {
            if srcs.to_set().contains(a) {
                let j = choose|j: int| 0 <= j < srcs.len() && srcs[j] == a;
                assert(m.contains_key(r[j].0));
            } else {
                let j = choose|j: int| 0 <= j < dsts.len() && dsts[j] == a;
                assert(m.contains_key(r[j].0));
            }
        }
    }
}

/// dashmap's `get`: the degree stored for `asn`, if any.
#[verifier::external_body]
pub(crate) fn degree_table_get(m: &DashMap<u32, u64>, asn: u32) -> (r: Option<u64>)
    ensures
        r == (if degree_table(*m).contains_key(asn) {
            Some(degree_table(*m)[asn])
        } else {
            None
        }),
{
    match m.get(&asn) {
        Some(r) => Some(*r.value()),
        None => None,
    }
}

/// dashmap's `insert`: `asn` now has degree `degree`.
#[verifier::external_body]
fn degree_table_insert(m: &mut DashMap<u32, u64>, asn: u32, degree: u64)
    ensures
        degree_table(*final(m)) == degree_table(*old(m)).insert(asn, degree),
{
    m.insert(asn, degree);
}

/// Adds `amount` to the degree of `asn` (from zero when it had none).
fn degree_table_add(m: &mut DashMap<u32, u64>, asn: u32, amount: u64)
    requires
        degree_or_zero(degree_table(*old(m)), asn) + amount <= u64::MAX,
    ensures
        degree_table(*final(m)) == degree_table(*old(m)).insert(
            asn,
            (degree_or_zero(degree_table(*old(m)), asn) + amount) as u64,
        ),
{
    let d: u64 = match degree_table_get(m, asn) {
        Some(d) => d,
        None => 0,
    };
    degree_table_insert(m, asn, d + amount);
}

/// The degree stored for `asn`, or zero.
pub open spec fn degree_or_zero(m: Map<u32, u64>, asn: u32) -> int {
    if m.contains_key(asn) {
        m[asn] as int
    } else {
        0
    }
}

/// One link's part in the degree of `asn`: its count once for each of its
/// ends that is `asn`.
pub open spec fn degree_step(links: Map<(u32, u32), u64>, asn: u32) -> spec_fn(int, (u32, u32)) -> int {
    |acc: int, k: (u32, u32)| acc + (if k.0 == asn {
        links[k] as int
    } else {
        0int
    }) + (if k.1 == asn {
        links[k] as int
    } else {
        0int
    })
}

/// The degree of `asn`: the total count of the links it is an end of, a
/// link from `asn` to itself counting twice.
pub open spec fn spec_degree(links: Map<(u32, u32), u64>, asn: u32) -> int {
    links.dom().fold(0int, degree_step(links, asn))
}

/// The ASes that are an end of some link.
pub open spec fn link_endpoints(links: Map<(u32, u32), u64>) -> Set<u32> {
    Set::new(|a: u32| exists|k: (u32, u32)| links.contains_key(k) && (k.0 == a || k.1 == a))
}

/// Every degree fits in `u64`.
pub open spec fn degrees_fit(links: Map<(u32, u32), u64>) -> bool {
    forall|a: u32| spec_degree(links, a) <= u64::MAX
}

proof fn lemma_degree_step_commutative(links: Map<(u32, u32), u64>, asn: u32)
    ensures
        vstd::set::fold::is_fun_commutative(degree_step(links, asn)),
{
    let f = degree_step(links, asn);
    assert forall|a1: (u32, u32), a2: (u32, u32), b: int| #[trigger] f(f(b, a2), a1) == f(f(b, a1), a2) by {}
}

/// Folding over a larger set of links gives a larger degree.
proof fn lemma_degree_fold_monotone(links: Map<(u32, u32), u64>, asn: u32, s: Set<(u32, u32)>, t: Set<(u32, u32)>)
    requires
        s.subset_of(t),
        t.finite(),
    ensures
        s.fold(0int, degree_step(links, asn)) <= t.fold(0int, degree_step(links, asn)),
    decreases t.len() - s.len(),
{
    vstd::set_lib::lemma_len_subset(s, t);
    lemma_degree_step_commutative(links, asn);
    if !(s =~= t) {
        let x = choose|x: (u32, u32)| t.contains(x) && !s.contains(x);
        let s2 = s.insert(x);
        vstd::set::fold::lemma_fold_insert(s, 0int, degree_step(links, asn), x);
        vstd::set_lib::lemma_len_subset(s2, t);
        lemma_degree_fold_monotone(links, asn, s2, t);
    }
}

/// A degree is never negative.
pub proof fn lemma_degree_nonneg(links: Map<(u32, u32), u64>, asn: u32)
    requires
        links.dom().finite(),
    ensures
        spec_degree(links, asn) >= 0,
{
    vstd::set::fold::lemma_fold_empty(0int, degree_step(links, asn));
    lemma_degree_fold_monotone(links, asn, Set::empty(), links.dom());
}

/// What [`BgpExtractor::extract_from_record`] gives for each record of a
/// file, kept where it is an update; a fatal decoding error stops the file,
/// other errors drop their record.
pub open spec fn collect_updates(s: Seq<u8>, frames: Seq<(MrtHeader, int)>) -> Result<
    Seq<UpdateView>,
    DecodeError,
>
    decreases frames.len(),
{
    if frames.len() == 0 {
        Ok(Seq::empty())
    } else {
        match collect_updates(s, frames.drop_last()) {
            Err(e) => Err(e),
            Ok(acc) => {
                let (h, off) = frames.last();
                match spec_extract(h, s.subrange(off, off + h.length)) {
                    Ok(Some(u)) => Ok(acc.push(u)),
                    Ok(None) => Ok(acc),
                    Err(e) => if e.spec_is_fatal() {
                        Err(e)
                    } else {
                        Ok(acc)
                    },
                }
            },
        }
    }
}

/// The links between consecutive ASes of a flat path.
pub open spec fn path_windows(flat: Seq<u32>) -> Seq<(u32, u32)> {
    if flat.len() < 2 {
        Seq::empty()
    } else {
        Seq::new((flat.len() - 1) as nat, |i: int| (flat[i], flat[i + 1]))
    }
}

/// How often `k` occurs in `ws`.
pub open spec fn occurrences(ws: Seq<(u32, u32)>, k: (u32, u32)) -> nat
    decreases ws.len(),
{
    if ws.len() == 0 {
        0
    } else {
        occurrences(ws.drop_last(), k) + (if ws.last() == k {
            1nat
        } else {
            0nat
        })
    }
}

/// The link table after counting each link of `ws` once more.
pub open spec fn add_windows(m: Map<(u32, u32), u64>, ws: Seq<(u32, u32)>) -> Map<(u32, u32), u64>
    decreases ws.len(),
{
    if ws.len() == 0 {
        m
    } else {
        let m2 = add_windows(m, ws.drop_last());
        m2.insert(ws.last(), (count_of(m2, ws.last()) + 1) as u64)
    }
}

/// Counting the links of `ws` keeps every count within `u64`.
pub open spec fn links_fit(m: Map<(u32, u32), u64>, ws: Seq<(u32, u32)>) -> bool {
    forall|i: int| 0 <= i < ws.len() ==> count_of(m, ws[i]) + occurrences(ws, ws[i]) <= u64::MAX
}

/// The prefix table after appending `flat` under each key of `keys`, in order.
pub open spec fn append_prefixes(m: Map<Seq<char>, Seq<u32>>, keys: Seq<Seq<char>>, flat: Seq<u32>) -> Map<
    Seq<char>,
    Seq<u32>,
>
    decreases keys.len(),
{
    if keys.len() == 0 {
        m
    } else {
        let m2 = append_prefixes(m, keys.drop_last(), flat);
        m2.insert(keys.last(), asns_or_empty(m2, keys.last()) + flat)
    }
}

/// The keys under which an update's prefixes are filed: their CIDR text.
pub open spec fn prefix_keys(ps: Seq<crate::bgp_extract::PrefixView>) -> Seq<Seq<char>> {
    ps.map_values(|p| cidr_text(p))
}

/// What the three tables of a processor hold.
pub struct TablesView {
    pub prefixes: Map<Seq<char>, Seq<u32>>,
    pub links: Map<(u32, u32), u64>,
    pub updates: Map<u32, Seq<UpdateView>>,
}

/// The tables after recording one update, or `None` when a link count would
/// pass `u64::MAX`: its flat path is appended under each announced prefix,
/// each link of the flat path is counted, and the update is filed under its
/// origin AS when it has one.
pub open spec fn spec_record(t: TablesView, u: UpdateView) -> Option<TablesView> {
    let flat = spec_flatten(u.as_path);
    let ws = path_windows(flat);
    if !links_fit(t.links, ws) {
        None
    } else {
        Some(
            TablesView {
                prefixes: append_prefixes(
                    t.prefixes,
                    prefix_keys(u.announced_prefixes),
                    flat,
                ),
                links: add_windows(t.links, ws),
                updates: match u.origin_as {
                    Some(o) => t.updates.insert(o, updates_or_empty(t.updates, o).push(u)),
                    None => t.updates,
                },
            },
        )
    }
}

/// Recording updates one after the other: the tables after the longest run
/// that fits, and how many updates that run holds.
pub open spec fn spec_record_all(t: TablesView, us: Seq<UpdateView>) -> (TablesView, nat)
    decreases us.len(),
{
    if us.len() == 0 {
        (t, 0)
    } else {
        let (t2, n) = spec_record_all(t, us.drop_last());
        if n < us.len() - 1 {
            (t2, n)
        } else {
            match spec_record(t2, us.last()) {
                Some(t3) => (t3, us.len()),
                None => (t2, n),
            }
        }
    }
}

/// What flate2's `GzDecoder` yields when `data` is read to its end, or
/// `None` when it reports an error.
pub uninterp spec fn gzip_decoded(data: Seq<u8>) -> Option<Seq<u8>>;

/// What bzip2's `BzDecoder` yields when `data` is read to its end, or
/// `None` when it reports an error.
pub uninterp spec fn bzip2_decoded(data: Seq<u8>) -> Option<Seq<u8>>;

pub open spec fn opt_bytes_view(r: Option<Vec<u8>>) -> Option<Seq<u8>> {
    match r {
        Some(v) => Some(v@),
        None => None,
    }
}

/// flate2's `read::GzDecoder` over `data`, read to the end.
#[verifier::external_body]
fn decompress_gzip(data: &[u8]) -> (r: Option<Vec<u8>>)
    ensures
        opt_bytes_view(r) == gzip_decoded(data@),
{
    let mut decoder = flate2::read::GzDecoder::new(data);
    let mut decompressed = Vec::new();
    match decoder.read_to_end(&mut decompressed) {
        Ok(_) => Some(decompressed),
        Err(_) => None,
    }
}

/// bzip2's `read::BzDecoder` over `data`, read to the end.
#[verifier::external_body]
fn decompress_bz2(data: &[u8]) -> (r: Option<Vec<u8>>)
    ensures
        opt_bytes_view(r) == bzip2_decoded(data@),
{
    let mut decoder = bzip2::read::BzDecoder::new(data);
    let mut decompressed = Vec::new();
    match decoder.read_to_end(&mut decompressed) {
        Ok(_) => Some(decompressed),
        Err(_) => None,
    }
}

/// The MRT data a file holds: gzip or bzip2 data (told by their magic
/// bytes) decompressed, anything else as it is; `None` when decompression
/// fails.
pub open spec fn spec_file_image(raw: Seq<u8>) -> Option<Seq<u8>> {
    if raw.len() >= 2 && raw[0] == 0x1F && raw[1] == 0x8B {
        gzip_decoded(raw)
    } else if raw.len() >= 2 && raw[0] == 0x42 && raw[1] == 0x5A {
        bzip2_decoded(raw)
    } else {
        Some(raw)
    }
}

/// Why aggregating counts failed.
#[derive(Debug, Clone, Copy, PartialEq, Eq, Structural)]
pub enum CountError {
    /// A count would pass `u64::MAX`.
    CounterOverflow,
    /// More ASes than a topology graph can index.
    TooManyNodes,
    /// More links than a topology graph can index.
    TooManyEdges,
}

/// The records of one MRT file image and the updates decoded from them.
pub struct FileUpdates {
    pub total_records: u64,
    pub updates: Vec<BgpUpdate>,
}

/// Totals of a processing run.
#[derive(Debug, Clone, Copy)]
pub struct ProcessingStats {
    pub total_records: u64,
    pub bgp_updates: u64,
    pub as_path_entries: u64,
    pub unique_prefixes: u64,
    pub unique_asns: u64,
    pub elapsed_ms: u64,
}

impl ProcessingStats {
    /// Adds the counts of one file: its records, its updates, and how many
    /// of those have a non-empty AS path. The totals wrap past `u64::MAX`,
    /// as the shared counters of a parallel run do.
    pub fn add_file(&mut self, records: u64, updates: u64, with_path: u64)
        ensures
            final(self).total_records == old(self).total_records.wrapping_add(records),
            final(self).bgp_updates == old(self).bgp_updates.wrapping_add(updates),
            final(self).as_path_entries == old(self).as_path_entries.wrapping_add(with_path),
            final(self).unique_prefixes == old(self).unique_prefixes,
            final(self).unique_asns == old(self).unique_asns,
            final(self).elapsed_ms == old(self).elapsed_ms,
    {
        self.total_records = self.total_records.wrapping_add(records);
        self.bgp_updates = self.bgp_updates.wrapping_add(updates);
        self.as_path_entries = self.as_path_entries.wrapping_add(with_path);
    }
}

/// The tables the analyses work on.
pub struct ParallelProcessor {
    pub prefix_as_map: DashMap<String, Vec<u32>>,
    pub as_link_counts: DashMap<(u32, u32), u64>,
    pub all_updates: DashMap<u32, Vec<BgpUpdate>>,
}

pub open spec fn updates_view(v: Seq<BgpUpdate>) -> Seq<UpdateView> {
    v.map_values(|u: BgpUpdate| u@)
}

impl ParallelProcessor {
    /// The MRT data of a file's contents (see [`spec_file_image`]).
    pub fn decode_file_image(raw: &[u8]) -> (r: Option<Vec<u8>>)
        ensures
            opt_bytes_view(r) == spec_file_image(raw@),
    {
        if raw.len() >= 2 {
            if raw[0] == 0x1F && raw[1] == 0x8B {
                return decompress_gzip(raw);
            }
            if raw[0] == 0x42 && raw[1] == 0x5A {
                return decompress_bz2(raw);
            }
        }
        Some(vstd::slice::slice_to_vec(raw))
    }

    /// What the tables hold.
    pub open spec fn tables(&self) -> TablesView {
        TablesView {
            prefixes: prefix_table(self.prefix_as_map),
            links: link_table(self.as_link_counts),
            updates: update_table(self.all_updates),
        }
    }

    /// Empty tables.
    pub fn new() -> (r: Self)
        ensures
            r.tables() == (TablesView {
                prefixes: Map::empty(),
                links: Map::empty(),
                updates: Map::empty(),
            }),
    {
        Self {
            prefix_as_map: new_prefix_table(),
            as_link_counts: new_link_table(),
            all_updates: new_update_table(),
        }
    }

    /// Decodes the records of one MRT file image: the number of records and
    /// the updates they carry, in file order. Records that carry no update
    /// or whose body is truncated are skipped; a fatal malformation
    /// ([`DecodeError::is_fatal`]) is returned.
    pub fn extract_updates(data: &[u8]) -> (res: Result<FileUpdates, DecodeError>)
        ensures
            match res {
                Ok(f) => {
                    &&& f.total_records == spec_frames(data@).len()
                    &&& collect_updates(data@, spec_frames(data@)) == Ok::<
                        Seq<UpdateView>,
                        DecodeError,
                    >(updates_view(f.updates@))
                },
                Err(e) => collect_updates(data@, spec_frames(data@)) == Err::<
                    Seq<UpdateView>,
                    DecodeError,
                >(e),
            },
    {
        let spans = match MrtParser::stream_records(data) {
            Ok(s) => s,
            Err(e) => return Err(e),
        };
        proof {
            crate::mrt_parser::lemma_frames_in_bounds(data@, 0);
        }
        let ghost frames = spec_frames(data@);
        let mut updates: Vec<BgpUpdate> = Vec::new();
        let mut i: usize = 0;
        assert(updates_view(updates@) =~= Seq::empty());
        while i < spans.len()
            invariant
                i <= spans@.len(),
                frames == spec_frames(data@),
                spans@.len() == frames.len(),
                forall|j: int|
                    0 <= j < spans@.len() ==> (#[trigger] spans@[j]).header == frames[j].0
                        && spans@[j].offset == frames[j].1,
                forall|j: int|
                    0 <= j < frames.len() ==> {
                        let (h, off) = #[trigger] frames[j];
                        &&& 12 <= off
                        &&& off + h.length <= data@.len()
                    },
                collect_updates(data@, frames.subrange(0, i as int)) == Ok::<
                    Seq<UpdateView>,
                    DecodeError,
                >(updates_view(updates@)),
            decreases spans@.len() - i,
        {
            let span = &spans[i];
            assert(frames[i as int].1 == span.offset);
            let body = span.body(data);
            let ghost prefix = frames.subrange(0, i + 1);
            assert(prefix.drop_last() =~= frames.subrange(0, i as int));
            assert(prefix.last() == frames[i as int]);
            match BgpExtractor::extract_from_record(&span.header, body) {
                Ok(Some(u)) => {
                    let ghost before = updates_view(updates@);
                    let ghost uv = u@;
                    updates.push(u);
                    assert(updates_view(updates@) =~= before.push(uv));
                },
                Ok(None) => {},
                Err(e) => {
                    if e.is_fatal() {
                        proof {
                            lemma_collect_error_sticks(data@, frames, i as int + 1);
                        }
                        return Err(e);
                    }
                },
            }
            i = i + 1;
        }
        assert(frames.subrange(0, spans@.len() as int) =~= frames);
        Ok(FileUpdates { total_records: spans.len() as u64, updates })
    }

    /// Records one decoded update (see [`spec_record`]); `Ok` tells whether
    /// its flat AS path is non-empty. When a link count would pass
    /// `u64::MAX` nothing changes and `Err` is returned.
    pub fn record_update(&mut self, update: BgpUpdate) -> (res: Result<bool, CountError>)
        ensures
            match spec_record(old(self).tables(), update@) {
                Some(t) => res == Ok::<bool, CountError>(
                    spec_flatten(update@.as_path).len() > 0,
                ) && final(self).tables() == t,
                None => res == Err::<bool, CountError>(CountError::CounterOverflow)
                    && final(self).tables() == old(self).tables(),
            },
    {
        let ghost u = update@;
        let flat = BgpExtractor::flatten_as_path(update.as_path.as_slice());
        let ghost ws = path_windows(flat@);
        let windows = windows_of(&flat);
        if !Self::links_fit_exec(&self.as_link_counts, &windows) {
            return Err(CountError::CounterOverflow);
        }
        let ghost t0 = self.tables();
        // Append the flat path under each announced prefix.
        let ghost keys = prefix_keys(u.announced_prefixes);
        let mut j: usize = 0;
        while j < update.announced_prefixes.len()
            invariant
                j <= update.announced_prefixes@.len(),
                u == update@,
                keys == prefix_keys(u.announced_prefixes),
                link_table(self.as_link_counts) == t0.links,
                update_table(self.all_updates) == t0.updates,
                prefix_table(self.prefix_as_map) == append_prefixes(
                    t0.prefixes,
                    keys.subrange(0, j as int),
                    flat@,
                ),
            decreases update.announced_prefixes@.len() - j,
        {
            let key = update.announced_prefixes[j].cidr();
            assert(keys[j as int] == key@);
            assert(keys.subrange(0, j + 1).drop_last() =~= keys.subrange(0, j as int));
            prefix_table_append(&mut self.prefix_as_map, key, flat.as_slice());
            j = j + 1;
        }
        assert(keys.len() == update.announced_prefixes@.len());
        assert(keys.subrange(0, keys.len() as int) =~= keys);
        // Count each link of the flat path.
        let mut k: usize = 0;
        while k < windows.len()
            invariant
                k <= windows@.len(),
                windows@ == ws,
                links_fit(t0.links, ws),
                link_table(self.as_link_counts) == add_windows(t0.links, ws.subrange(0, k as int)),
                prefix_table(self.prefix_as_map) == append_prefixes(t0.prefixes, keys, flat@),
                update_table(self.all_updates) == t0.updates,
            decreases windows@.len() - k,
        {
            let w = windows[k];
            proof {
                lemma_fit_prefix(t0.links, ws, k as int);
                lemma_add_windows_counts(t0.links, ws.subrange(0, k as int));
                lemma_occurrences_prefix(ws, k as int, w);
                assert(ws.subrange(0, k + 1).drop_last() =~= ws.subrange(0, k as int));
            }
            link_table_increment(&mut self.as_link_counts, w);
            k = k + 1;
        }
        assert(ws.subrange(0, ws.len() as int) =~= ws);
        // File the update under its origin.
        let has_path = flat.len() > 0;
        assert(flat@ == spec_flatten(u.as_path));
        assert(prefix_table(self.prefix_as_map) == append_prefixes(t0.prefixes, keys, flat@));
        assert(link_table(self.as_link_counts) == add_windows(t0.links, ws));
        match update.origin_as {
            Some(origin) => {
                update_table_push(&mut self.all_updates, origin, update);
            },
            None => {},
        }
        Ok(has_path)
    }

    /// Whether counting the links `ws` keeps every count within `u64`.
    fn links_fit_exec(m: &DashMap<(u32, u32), u64>, ws: &Vec<(u32, u32)>) -> (r: bool)
        ensures
            r == links_fit(link_table(*m), ws@),
    {
        let mut i: usize = 0;
        while i < ws.len()
            invariant
                i <= ws@.len(),
                forall|j: int|
                    0 <= j < i ==> count_of(link_table(*m), ws@[j]) + occurrences(ws@, ws@[j])
                        <= u64::MAX,
            decreases ws@.len() - i,
        {
            let w = ws[i];
            let c: u64 = match link_table_get(m, w) {
                Some(c) => c,
                None => 0,
            };
            let occ = occurrences_exec(ws, w);
            if occ as u128 + c as u128 > u64::MAX as u128 {
                return false;
            }
            i = i + 1;
        }
        true
    }

    /// Records updates one after the other (see [`spec_record_all`]):
    /// `Ok` with how many have a non-empty flat path when all fit, else
    /// `Err` after recording the run that fits.
    pub fn ingest_updates(&mut self, updates: Vec<BgpUpdate>) -> (res: Result<u64, CountError>)
        ensures
            final(self).tables() == spec_record_all(old(self).tables(), updates_view(updates@)).0,
            res is Ok <==> spec_record_all(old(self).tables(), updates_view(updates@)).1
                == updates@.len(),
            res matches Ok(n) ==> n == count_with_path(updates_view(updates@)),
    {
        let ghost t0 = self.tables();
        let ghost us = updates_view(updates@);
        let mut with_path: u64 = 0;
        let mut i: usize = 0;
        let total = updates.len();
        let mut rest = reversed(updates);
        let ghost all = us;
        proof {
            assert(updates_view(rest@) =~= all.reverse());
        }
        while rest.len() > 0
            invariant
                i + rest@.len() == all.len(),
                all.len() == total,
                t0 == old(self).tables(),
                all == updates_view(updates@),
                updates_view(rest@) == all.subrange(i as int, all.len() as int).reverse(),
                self.tables() == spec_record_all(t0, all.subrange(0, i as int)).0,
                spec_record_all(t0, all.subrange(0, i as int)).1 == i,
                with_path == count_with_path(all.subrange(0, i as int)),
                with_path <= i,
            decreases rest@.len(),
        {
            let ghost before = updates_view(rest@);
            let u = rest.pop().unwrap();
            proof {
                assert(before.last() == u@);
                assert(updates_view(rest@) =~= before.drop_last());
                assert(all[i as int] == before.last()) by {
                    assert(before == all.subrange(i as int, all.len() as int).reverse());
                }
                let pre = all.subrange(0, i + 1);
                assert(pre.drop_last() =~= all.subrange(0, i as int));
                assert(pre.last() == u@);
                assert(updates_view(rest@) =~= all.subrange(i + 1, all.len() as int).reverse());
            }
            let ghost tb = self.tables();
            let ghost uv = u@;
            proof {
                let pre = all.subrange(0, i + 1);
                assert(spec_record_all(t0, pre) == (match spec_record(tb, uv) {
                    Some(t3) => (t3, pre.len()),
                    None => (tb, i as nat),
                }));
            }
            match self.record_update(u) {
                Ok(has_path) => {
                    proof {
                        let pre = all.subrange(0, i + 1);
                        assert(count_with_path(pre) == count_with_path(all.subrange(0, i as int))
                            + (if spec_flatten(uv.as_path).len() > 0 { 1nat } else { 0nat }));
                    }
                    if has_path {
                        with_path = with_path + 1;
                    }
                    i = i + 1;
                },
                Err(e) => {
                    proof {
                        let pre = all.subrange(0, i + 1);
                        assert(spec_record(tb, uv) is None);
                        assert(self.tables() == tb);
                        assert(spec_record_all(t0, pre) == (tb, i as nat));
                        lemma_record_all_stops(t0, all, i as int + 1);
                        assert(spec_record_all(t0, all) == (tb, i as nat));
                    }
                    return Err(e);
                },
            }
        }
        assert(all.subrange(0, i as int) =~= all);
        Ok(with_path)
    }


    /// The degree of every AS that ends a link (see [`spec_degree`]), or
    /// `Err` when some degree passes `u64::MAX`.
    pub fn get_asn_degree_map(&self) -> (res: Result<DashMap<u32, u64>, CountError>)
        ensures
            match res {
                Ok(d) => {
                    &&& degrees_fit(self.tables().links)
                    &&& degree_table(d).dom() == link_endpoints(self.tables().links)
                    &&& forall|a: u32| #[trigger] degree_table(d).contains_key(a) ==> degree_table(d)[a]
                        == spec_degree(self.tables().links, a)
                },
                Err(e) => e == CountError::CounterOverflow && !degrees_fit(self.tables().links),
            },
    {
        let ghost links = self.tables().links;
        let entries = link_table_entries(&self.as_link_counts);
        let mut degree_map = new_degree_table();
        let ghost mut processed: Set<(u32, u32)> = Set::empty();
        let mut i: usize = 0;
        proof {
            vstd::seq_lib::seq_to_set_is_finite(entries@.map_values(|e: ((u32, u32), u64)| e.0));
            assert(degree_table(degree_map).dom() =~= link_endpoints(links.restrict(processed)));
            assert forall|a: u32| #[trigger] degree_or_zero(degree_table(degree_map), a) == processed.fold(
                0int,
                degree_step(links, a),
            ) by {
                vstd::set::fold::lemma_fold_empty(0int, degree_step(links, a));
            }
        }
        while i < entries.len()
            invariant
                i <= entries@.len(),
                links == link_table(self.as_link_counts),
                links.dom() == entries@.map_values(|e: ((u32, u32), u64)| e.0).to_set(),
                links.dom().finite(),
                forall|j: int|
                    0 <= j < entries@.len() ==> links.contains_key(#[trigger] entries@[j].0) && links[entries@[j].0]
                        == entries@[j].1,
                forall|j: int, l: int| 0 <= j < l < entries@.len() ==> entries@[j].0 != entries@[l].0,
                processed.finite(),
                processed.subset_of(links.dom()),
                forall|j: int| 0 <= j < i ==> processed.contains(#[trigger] entries@[j].0),
                forall|k: (u32, u32)| processed.contains(k) ==> exists|j: int| 0 <= j < i && #[trigger] entries@[j].0 == k,
                forall|a: u32| #[trigger] degree_or_zero(degree_table(degree_map), a) == processed.fold(
                    0int,
                    degree_step(links, a),
                ),
                degree_table(degree_map).dom() == link_endpoints(links.restrict(processed)),
            decreases entries@.len() - i,
        {
            let (key, count) = entries[i];
            let (src, dst) = key;
            let ghost before = processed;
            proof {
                assert(entries@.map_values(|e: ((u32, u32), u64)| e.0)[i as int] == key);
                assert(links.contains_key(key));
                if before.contains(key) {
                    let j = choose|j: int| 0 <= j < i && #[trigger] entries@[j].0 == key;
                    assert(false);
                }
                processed = processed.insert(key);
                assert forall|a: u32| processed.fold(0int, degree_step(links, a)) == before.fold(
                    0int,
                    degree_step(links, a),
                ) + (if src == a { count as int } else { 0int }) + (if dst == a { count as int } else { 0int }) by {
                    lemma_degree_step_commutative(links, a);
                    vstd::set::fold::lemma_fold_insert(before, 0int, degree_step(links, a), key);
                }
            }
            let ghost d0 = degree_table(degree_map);
            let ghost f_src = processed.fold(0int, degree_step(links, src));
            let ghost f_dst = processed.fold(0int, degree_step(links, dst));
            proof {
                assert(degree_or_zero(d0, src) == before.fold(0int, degree_step(links, src)));
                assert(degree_or_zero(d0, dst) == before.fold(0int, degree_step(links, dst)));
            }
            let cur_src: u64 = match degree_table_get(&degree_map, src) {
                Some(v) => v,
                None => 0,
            };
            if count > u64::MAX - cur_src {
                proof {
                    assert(f_src > u64::MAX);
                    self.lemma_overflow_breaks_fit(processed, src);
                }
                return Err(CountError::CounterOverflow);
            }
            degree_table_add(&mut degree_map, src, count);
            let ghost d1 = degree_table(degree_map);
            let cur_dst: u64 = match degree_table_get(&degree_map, dst) {
                Some(v) => v,
                None => 0,
            };
            if count > u64::MAX - cur_dst {
                proof {
                    assert(f_dst > u64::MAX);
                    self.lemma_overflow_breaks_fit(processed, dst);
                }
                return Err(CountError::CounterOverflow);
            }
            degree_table_add(&mut degree_map, dst, count);
            proof {
                assert forall|a: u32| #[trigger] degree_or_zero(degree_table(degree_map), a) == processed.fold(
                    0int,
                    degree_step(links, a),
                ) by {
                    assert(degree_or_zero(d0, a) == before.fold(0int, degree_step(links, a)));
                    assert(processed.fold(0int, degree_step(links, a)) == before.fold(
                        0int,
                        degree_step(links, a),
                    ) + (if src == a { count as int } else { 0int }) + (if dst == a { count as int } else { 0int }));
                }
            }
            proof {
                assert(degree_table(degree_map).dom() =~= link_endpoints(links.restrict(processed))) by {
                    assert forall|a: u32| link_endpoints(links.restrict(processed)).contains(a) implies degree_table(
                        degree_map,
                    ).dom().contains(a) by {
                        let k = choose|k: (u32, u32)| links.restrict(processed).contains_key(k) && (k.0 == a || k.1 == a);
                        if k != key {
                            assert(links.restrict(before).contains_key(k));
                        }
                    }
                    assert forall|a: u32| degree_table(degree_map).dom().contains(a) implies link_endpoints(
                        links.restrict(processed),
                    ).contains(a) by {
                        if a != src && a != dst {
                            assert(link_endpoints(links.restrict(before)).contains(a));
                            let k = choose|k: (u32, u32)| links.restrict(before).contains_key(k) && (k.0 == a || k.1 == a);
                            assert(links.restrict(processed).contains_key(k));
                        } else {
                            assert(links.restrict(processed).contains_key(key));
                        }
                    }
                }
            }
            i = i + 1;
        }
        proof {
            assert(processed =~= links.dom()) by {
                assert forall|k: (u32, u32)| links.dom().contains(k) implies processed.contains(k) by {
                    let seq_keys = entries@.map_values(|e: ((u32, u32), u64)| e.0);
                    assert(seq_keys.to_set().contains(k));
                    let j = choose|j: int| 0 <= j < seq_keys.len() && seq_keys[j] == k;
                    assert(entries@[j].0 == k);
                }
            }
            assert(links.restrict(processed) =~= links);
            assert forall|a: u32| spec_degree(links, a) <= u64::MAX by {
                assert(degree_or_zero(degree_table(degree_map), a) == spec_degree(links, a));
            }
            assert(degrees_fit(self.tables().links));
            assert(degree_table(degree_map).dom() == link_endpoints(self.tables().links));
            assert forall|a: u32| #[trigger] degree_table(degree_map).contains_key(a) implies degree_table(degree_map)[a]
                == spec_degree(self.tables().links, a) by {
                assert(degree_or_zero(degree_table(degree_map), a) == spec_degree(links, a));
            }
        }
        Ok(degree_map)
    }

    /// A partial degree that passes `u64::MAX` means some degree does.
    proof fn lemma_overflow_breaks_fit(&self, processed: Set<(u32, u32)>, a: u32)
        requires
            self.tables().links.dom().finite(),
            processed.subset_of(self.tables().links.dom()),
            processed.fold(0int, degree_step(self.tables().links, a)) > u64::MAX,
        ensures
            !degrees_fit(self.tables().links),
    {
        let links = self.tables().links;
        lemma_degree_fold_monotone(links, a, processed, links.dom());
        assert(spec_degree(links, a) > u64::MAX);
    }

    /// Number of distinct prefixes seen.
    pub fn unique_prefix_count(&self) -> (r: u64)
        ensures
            r == self.tables().prefixes.dom().len(),
    {
        prefix_table_len(&self.prefix_as_map) as u64
    }

    /// Number of distinct origin ASes seen.
    pub fn unique_asn_count(&self) -> (r: u64)
        ensures
            r == self.tables().updates.dom().len(),
    {
        update_table_len(&self.all_updates) as u64
    }
}

/// The elements of `v` in reverse order.
fn reversed<T>(v: Vec<T>) -> (r: Vec<T>)
    ensures
        r@ == v@.reverse(),
{
    let ghost orig = v@;
    let mut v = v;
    let mut r: Vec<T> = Vec::new();
    while v.len() > 0
        invariant
            v@.len() <= orig.len(),
            v@ == orig.subrange(0, v@.len() as int),
            r@ == orig.subrange(v@.len() as int, orig.len() as int).reverse(),
        decreases v@.len(),
    {
        let ghost n = v@.len();
        let ghost before = v@;
        let ghost r0 = r@;
        let x = v.pop().unwrap();
        assert(before == orig.subrange(0, n as int));
        assert(orig.subrange(0, n as int)[n - 1] == orig[n - 1]);
        assert(x == orig[n - 1]);
        assert(v@ =~= orig.subrange(0, v@.len() as int));
        r.push(x);
        assert(r0 == orig.subrange(n as int, orig.len() as int).reverse());
        assert(r@ =~= orig.subrange(n - 1, orig.len() as int).reverse());
    }
    assert(orig.subrange(0, orig.len() as int) =~= orig);
    r
}

/// How many updates have a non-empty flat path.
pub open spec fn count_with_path(us: Seq<UpdateView>) -> nat
    decreases us.len(),
{
    if us.len() == 0 {
        0
    } else {
        count_with_path(us.drop_last()) + (if spec_flatten(us.last().as_path).len() > 0 {
            1nat
        } else {
            0nat
        })
    }
}

/// The links between consecutive ASes of a flat path.
fn windows_of(flat: &Vec<u32>) -> (r: Vec<(u32, u32)>)
    ensures
        r@ == path_windows(flat@),
{
    let mut r: Vec<(u32, u32)> = Vec::new();
    if flat.len() < 2 {
        assert(r@ =~= path_windows(flat@));
        return r;
    }
    let mut i: usize = 0;
    while i < flat.len() - 1
        invariant
            flat@.len() >= 2,
            i <= flat@.len() - 1,
            r@.len() == i,
            forall|j: int| 0 <= j < i ==> r@[j] == (flat@[j], flat@[j + 1]),
        decreases flat@.len() - 1 - i,
    {
        r.push((flat[i], flat[i + 1]));
        i = i + 1;
    }
    assert(r@ =~= path_windows(flat@));
    r
}

/// How often `k` occurs in `ws`.
fn occurrences_exec(ws: &Vec<(u32, u32)>, k: (u32, u32)) -> (r: u64)
    ensures
        r == occurrences(ws@, k),
{
    let mut n: u64 = 0;
    let mut i: usize = 0;
    while i < ws.len()
        invariant
            i <= ws@.len(),
            n == occurrences(ws@.subrange(0, i as int), k),
            n <= i,
        decreases ws@.len() - i,
    {
        assert(ws@.subrange(0, i + 1).drop_last() =~= ws@.subrange(0, i as int));
        if ws[i].0 == k.0 && ws[i].1 == k.1 {
            n = n + 1;
        }
        i = i + 1;
    }
    assert(ws@.subrange(0, ws@.len() as int) =~= ws@);
    n
}

/// Occurrences in a prefix do not pass those in the whole, and a prefix that
/// ends before an occurrence has one fewer than the prefix that takes it in.
pub proof fn lemma_occurrences_prefix(ws: Seq<(u32, u32)>, k: int, w: (u32, u32))
    requires
        0 <= k < ws.len(),
        ws[k] == w,
    ensures
        occurrences(ws.subrange(0, k), w) + 1 <= occurrences(ws, w),
    decreases ws.len(),
{
    if k == ws.len() - 1 {
        assert(ws.drop_last() =~= ws.subrange(0, k));
        lemma_occurrences_prefix_le(ws.drop_last(), k, w);
    } else {
        lemma_occurrences_prefix(ws.drop_last(), k, w);
        assert(ws.drop_last().subrange(0, k) =~= ws.subrange(0, k));
    }
}

/// A prefix has no more occurrences than the whole.
pub proof fn lemma_occurrences_prefix_le(ws: Seq<(u32, u32)>, k: int, w: (u32, u32))
    requires
        0 <= k <= ws.len(),
    ensures
        occurrences(ws.subrange(0, k), w) <= occurrences(ws, w),
    decreases ws.len(),
{
    if k == ws.len() {
        assert(ws.subrange(0, k) =~= ws);
    } else {
        lemma_occurrences_prefix_le(ws.drop_last(), k, w);
        assert(ws.drop_last().subrange(0, k) =~= ws.subrange(0, k));
    }
}

/// Counting the links of `ws` adds their occurrences to the stored counts,
/// as long as every count stays within `u64`.
pub proof fn lemma_add_windows_counts(m: Map<(u32, u32), u64>, ws: Seq<(u32, u32)>)
    requires
        forall|i: int| 0 <= i < ws.len() ==> count_of(m, ws[i]) + occurrences(ws, ws[i]) <= u64::MAX,
    ensures
        forall|k: (u32, u32)| #[trigger] count_of(add_windows(m, ws), k) == count_of(m, k) + occurrences(ws, k),
    decreases ws.len(),
{
    if ws.len() > 0 {
        let d = ws.drop_last();
        assert forall|i: int| 0 <= i < d.len() implies count_of(m, d[i]) + occurrences(d, d[i])
            <= u64::MAX by {
            assert(d[i] == ws[i]);
            assert(occurrences(d, d[i]) <= occurrences(ws, ws[i]));
        }
        lemma_add_windows_counts(m, d);
        let last = ws.last();
        let m2 = add_windows(m, d);
        assert(count_of(m, ws[ws.len() - 1]) + occurrences(ws, ws[ws.len() - 1]) <= u64::MAX);
        assert(count_of(m2, last) == count_of(m, last) + occurrences(d, last));
        assert(occurrences(ws, last) == occurrences(d, last) + 1);
        assert forall|k: (u32, u32)| #[trigger] count_of(add_windows(m, ws), k) == count_of(m, k)
            + occurrences(ws, k) by {
            assert(count_of(m2, k) == count_of(m, k) + occurrences(d, k));
            if k == last {
                assert(count_of(add_windows(m, ws), k) == count_of(m2, last) + 1);
            } else {
                assert(count_of(add_windows(m, ws), k) == count_of(m2, k));
            }
        }
    }
}

/// Counting a prefix of the links fits when counting all of them does.
pub proof fn lemma_fit_prefix(m: Map<(u32, u32), u64>, ws: Seq<(u32, u32)>, k: int)
    requires
        0 <= k <= ws.len(),
        links_fit(m, ws),
    ensures
        links_fit(m, ws.subrange(0, k)),
{
    let p = ws.subrange(0, k);
    assert forall|i: int| 0 <= i < p.len() implies count_of(m, p[i]) + occurrences(p, p[i])
        <= u64::MAX by {
        assert(p[i] == ws[i]);
        lemma_occurrences_prefix_le(ws, k, p[i]);
    }
}

/// Once recording stops short, it stays stopped.
pub proof fn lemma_record_all_stops(t: TablesView, us: Seq<UpdateView>, n: int)
    requires
        0 < n <= us.len(),
        spec_record_all(t, us.subrange(0, n)).1 < n,
    ensures
        spec_record_all(t, us).1 < us.len(),
        spec_record_all(t, us) == spec_record_all(t, us.subrange(0, n)),
    decreases us.len(),
{
    if n == us.len() {
        assert(us.subrange(0, n) =~= us);
    } else {
        assert(us.drop_last().subrange(0, n) =~= us.subrange(0, n));
        lemma_record_all_stops(t, us.drop_last(), n);
    }
}

/// Once a fatal error stops collecting, it stays stopped.
pub proof fn lemma_collect_error_sticks(s: Seq<u8>, frames: Seq<(MrtHeader, int)>, n: int)
    requires
        0 < n <= frames.len(),
        collect_updates(s, frames.subrange(0, n)) is Err,
    ensures
        collect_updates(s, frames) == collect_updates(s, frames.subrange(0, n)),
    decreases frames.len(),
{
    if n == frames.len() {
        assert(frames.subrange(0, n) =~= frames);
    } else {
        assert(frames.drop_last().subrange(0, n) =~= frames.subrange(0, n));
        lemma_collect_error_sticks(s, frames.drop_last(), n);
    }
}

} // verus!
