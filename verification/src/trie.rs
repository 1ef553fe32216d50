//! The temporal prefix index: a prefix-keyed store of temporal entries, the
//! ingest engine that folds snapshot records into it, and its global
//! `latest_date` watermark.
//!
//! Prefixes are kept canonical and unique; at each prefix the entries are
//! keyed uniquely by (max_len, origin). `latest_date` is an upper bound on
//! every recorded day and, when the store is non-empty, is itself a recorded
//! day.

use vstd::prelude::*;
use vstd::arithmetic::power2::pow2;

verus! {

use crate::days::{MAX_DAY_TS, is_day_ts};
use crate::prefix::IpPrefix;
use crate::entry::{
    EntryModel, RoasTrieEntry, new_entry_spec, push_date_spec, covers_seq,
    lemma_new_entry_cover, lemma_push_date_cover, straddles,
};
use crate::roa::{RoaEntry, RoaModel};
use crate::codec::{
    enc_trie, enc_nodes, enc_node, enc_le, bytes_at, write_le, write_node, read_le, read_node,
    lemma_enc_nodes_push, lemma_enc_nodes_split, lemma_bytes_at_concat, lemma_enc_le_len,
    lemma_le_forced, lemma_trie_head,
};

/// Model of one stored prefix: the prefix and its keyed temporal entries.
#[verifier::ext_equal]
pub struct NodeModel {
    pub prefix: IpPrefix,
    pub entries: Seq<EntryModel>,
}

/// Model of the whole index.
#[verifier::ext_equal]
pub struct TrieModel {
    pub nodes: Seq<NodeModel>,
    pub latest: i64,
}

/// The (max_len, origin) key of an entry.
pub open spec fn entry_key(e: EntryModel) -> (u8, u32) {
    (e.max_len, e.origin)
}

/// Some node stores this prefix.
pub open spec fn has_node(nodes: Seq<NodeModel>, p: IpPrefix) -> bool {
    exists|i: int| 0 <= i < nodes.len() && (#[trigger] nodes[i]).prefix == p
}

/// The index of the node storing this prefix (meaningful when unique).
pub open spec fn node_index(nodes: Seq<NodeModel>, p: IpPrefix) -> int {
    choose|i: int| 0 <= i < nodes.len() && (#[trigger] nodes[i]).prefix == p
}

/// Some entry carries this key.
pub open spec fn has_key(entries: Seq<EntryModel>, key: (u8, u32)) -> bool {
    exists|k: int| 0 <= k < entries.len() && entry_key(#[trigger] entries[k]) == key
}

/// The index of the entry carrying this key (meaningful when unique).
pub open spec fn key_index(entries: Seq<EntryModel>, key: (u8, u32)) -> int {
    choose|k: int| 0 <= k < entries.len() && entry_key(#[trigger] entries[k]) == key
}

/// Well-formed node: canonical prefix, at least one entry, entries
/// well-formed with pairwise distinct keys.
pub open spec fn node_wf(n: NodeModel) -> bool {
    &&& n.prefix.wf()
    &&& n.entries.len() > 0
    &&& forall|k: int| 0 <= k < n.entries.len() ==> (#[trigger] n.entries[k]).wf()
    &&& forall|k: int, l: int|
        0 <= k < l < n.entries.len() ==> entry_key(#[trigger] n.entries[k]) != entry_key(
            #[trigger] n.entries[l],
        )
}

/// Every recorded day in the node is at most `latest`.
pub open spec fn node_days_le(n: NodeModel, latest: i64) -> bool {
    forall|k: int, x: i64|
        0 <= k < n.entries.len() && x % 86400 == 0 && #[trigger] n.entries[k].contains_day(x)
            ==> x <= latest
}

/// Some entry of the node records this day.
pub open spec fn node_has_day(n: NodeModel, x: i64) -> bool {
    exists|k: int| 0 <= k < n.entries.len() && (#[trigger] n.entries[k]).contains_day(x)
}

impl TrieModel {
    /// Well-formed index: nodes well-formed with pairwise distinct prefixes,
    /// and `latest` a day timestamp (or zero) that bounds every recorded day
    /// and is recorded itself whenever it is non-zero.
    pub open spec fn wf(self) -> bool {
        &&& forall|i: int| 0 <= i < self.nodes.len() ==> node_wf(#[trigger] self.nodes[i])
        &&& forall|i: int, j: int|
            0 <= i < j < self.nodes.len() ==> (#[trigger] self.nodes[i]).prefix != (
            #[trigger] self.nodes[j]).prefix
        &&& self.latest % 86400 == 0
        &&& 0 <= self.latest <= MAX_DAY_TS
        &&& forall|i: int|
            0 <= i < self.nodes.len() ==> node_days_le(#[trigger] self.nodes[i], self.latest)
        &&& (self.latest == 0 || exists|i: int|
            0 <= i < self.nodes.len() && node_has_day(#[trigger] self.nodes[i], self.latest))
    }
}

/// What one record does to the index: find or create the node at its prefix,
/// find or create the entry at its (max_len, origin) key, record the day,
/// and raise the watermark.
pub open spec fn ingest_one(
    m: TrieModel,
    prefix: IpPrefix,
    max_len: u8,
    origin: u32,
    d: i64,
    bootstrap: bool,
) -> TrieModel {
    let latest2 = if d > m.latest {
        d
    } else {
        m.latest
    };
    if !has_node(m.nodes, prefix) {
        TrieModel {
            nodes: m.nodes.push(
                NodeModel { prefix, entries: seq![new_entry_spec(d, max_len, origin, bootstrap)] },
            ),
            latest: latest2,
        }
    } else {
        let i = node_index(m.nodes, prefix);
        let n = m.nodes[i];
        let entries2 = if !has_key(n.entries, (max_len, origin)) {
            n.entries.push(new_entry_spec(d, max_len, origin, bootstrap))
        } else {
            let k = key_index(n.entries, (max_len, origin));
            n.entries.update(k, push_date_spec(n.entries[k], d, bootstrap))
        };
        TrieModel {
            nodes: m.nodes.update(i, NodeModel { prefix, entries: entries2 }),
            latest: latest2,
        }
    }
}

/// Folding a whole batch of records into the index, in order.
pub open spec fn ingest_seq(m: TrieModel, rs: Seq<RoaModel>, bootstrap: bool) -> TrieModel
    decreases rs.len(),
{
    if rs.len() == 0 {
        m
    } else {
        ingest_seq(
            ingest_one(m, rs[0].prefix, rs[0].max_len as u8, rs[0].asn, rs[0].date_ts, bootstrap),
            rs.drop_first(),
            bootstrap,
        )
    }
}

/// Folding a batch record by record from the front equals peeling the last
/// record off the back.
pub proof fn lemma_ingest_seq_push(m: TrieModel, rs: Seq<RoaModel>, r: RoaModel, bootstrap: bool)
    ensures
        ingest_seq(m, rs.push(r), bootstrap) == ingest_seq(
            ingest_seq(m, rs, bootstrap),
            seq![r],
            bootstrap,
        ),
    decreases rs.len(),
{
    assert(seq![r][0] == r);
    assert(seq![r].drop_first() =~= Seq::<RoaModel>::empty());
    if rs.len() == 0 {
        let s1 = ingest_one(m, r.prefix, r.max_len as u8, r.asn, r.date_ts, bootstrap);
        assert(rs.push(r)[0] == r);
        assert(rs.push(r).drop_first() =~= rs);
        assert(ingest_seq(m, rs.push(r), bootstrap) == ingest_seq(s1, rs, bootstrap));
        assert(ingest_seq(s1, rs, bootstrap) == s1);
        assert(ingest_seq(m, rs, bootstrap) == m);
        assert(ingest_seq(m, seq![r], bootstrap) == ingest_seq(
            s1,
            seq![r].drop_first(),
            bootstrap,
        ));
        assert(ingest_seq(s1, seq![r].drop_first(), bootstrap) == s1);
    } else {
        let s1 = ingest_one(m, rs[0].prefix, rs[0].max_len as u8, rs[0].asn, rs[0].date_ts,
            bootstrap);
        assert(rs.push(r)[0] == rs[0]);
        assert(rs.push(r).drop_first() =~= rs.drop_first().push(r));
        assert(ingest_seq(m, rs.push(r), bootstrap) == ingest_seq(
            s1,
            rs.drop_first().push(r),
            bootstrap,
        ));
        lemma_ingest_seq_push(s1, rs.drop_first(), r, bootstrap);
        assert(ingest_seq(m, rs, bootstrap) == ingest_seq(s1, rs.drop_first(), bootstrap));
    }
}

/// The entries of a node, as models.
pub open spec fn entries_view(v: Seq<RoasTrieEntry>) -> Seq<EntryModel> {
    v.map_values(|e: RoasTrieEntry| e@)
}

/// One stored prefix with its keyed temporal entries.
#[derive(Debug, Clone)]
struct PrefixNode {
    prefix: IpPrefix,
    entries: Vec<RoasTrieEntry>,
}

impl View for PrefixNode {
    type V = NodeModel;

    closed spec fn view(&self) -> NodeModel {
        NodeModel { prefix: self.prefix, entries: entries_view(self.entries@) }
    }
}

/// The temporal prefix index.
#[derive(Debug, Clone)]
pub struct RoasTrie {
    nodes: Vec<PrefixNode>,
    latest_date: i64,
}

impl View for RoasTrie {
    type V = TrieModel;

    closed spec fn view(&self) -> TrieModel {
        TrieModel {
            nodes: self.nodes@.map_values(|n: PrefixNode| n@),
            latest: self.latest_date,
        }
    }
}

impl Default for RoasTrie {
    /// An empty index.
    fn default() -> (r: RoasTrie)
        ensures
            r@.wf(),
            r@.nodes.len() == 0,
            r@.latest == 0,
    {
        RoasTrie::new()
    }
}

impl RoasTrie {
    /// An empty index.
    pub fn new() -> (r: RoasTrie)
        ensures
            r@.wf(),
            r@.nodes.len() == 0,
            r@.latest == 0,
    {
        let r = RoasTrie { nodes: Vec::new(), latest_date: 0 };
        proof {
            assert(r@.nodes =~= Seq::<NodeModel>::empty());
        }
        r
    }

    /// How many prefixes are stored, per family: (IPv4 count, IPv6 count).
    pub fn len(&self) -> (r: (usize, usize))
        ensures
            r.0 + r.1 == self@.nodes.len(),
            r.0 == count_v4(self@.nodes),
    {
        let mut c4: usize = 0;
        let mut i: usize = 0;
        while i < self.nodes.len()
            invariant
                i <= self.nodes@.len(),
                self@.nodes.len() == self.nodes@.len(),
                c4 == count_v4(self@.nodes.subrange(0, i as int)),
                c4 <= i,
            decreases self.nodes@.len() - i,
        {
            proof {
                assert(self@.nodes.subrange(0, i + 1).drop_last() =~= self@.nodes.subrange(
                    0,
                    i as int,
                ));
                assert(self@.nodes.subrange(0, i + 1).last() == self@.nodes[i as int]);
            }
            if self.nodes[i].prefix.v4 {
                c4 = c4 + 1;
            }
            i = i + 1;
        }
        proof {
            assert(self@.nodes.subrange(0, self@.nodes.len() as int) =~= self@.nodes);
        }
        (c4, self.nodes.len() - c4)
    }

    /// The watermark: the latest recorded day timestamp, zero when nothing
    /// has been recorded.
    pub fn get_latest_date(&self) -> (r: i64)
        ensures
            r == self@.latest,
    {
        self.latest_date
    }

    /// Fold one record into the index.
    fn process_one(
        &mut self,
        prefix: IpPrefix,
        max_len: u8,
        origin: u32,
        date_ts: i64,
        bootstrap: bool,
    )
        requires
            old(self)@.wf(),
            prefix.wf(),
            is_day_ts(date_ts),
        ensures
            final(self)@ == ingest_one(old(self)@, prefix, max_len, origin, date_ts, bootstrap),
            final(self)@.wf(),
    {
        let ghost m0 = self@;
        let n = self.nodes.len();
        let mut idx: usize = 0;
        while idx < n && !(self.nodes[idx].prefix == prefix)
            invariant
                idx <= n == self.nodes@.len(),
                forall|j: int| 0 <= j < idx ==> (#[trigger] self.nodes@[j])@.prefix != prefix,
                *self == *old(self),
            decreases n - idx,
        {
            idx = idx + 1;
        }
        if idx == n {
            // new prefix: append a node with one fresh entry
            proof {
                assert(!has_node(m0.nodes, prefix)) by {
                    if has_node(m0.nodes, prefix) {
                        let i = choose|i: int|
                            0 <= i < m0.nodes.len() && (#[trigger] m0.nodes[i]).prefix == prefix;
                        assert(m0.nodes[i] == self.nodes@[i]@);
                    }
                }
            }
            let entry = RoasTrieEntry::new(date_ts, max_len, origin, bootstrap);
            let mut entries: Vec<RoasTrieEntry> = Vec::new();
            entries.push(entry);
            self.nodes.push(PrefixNode { prefix, entries });
            if date_ts > self.latest_date {
                self.latest_date = date_ts;
            }
            proof {
                let m2 = ingest_one(m0, prefix, max_len, origin, date_ts, bootstrap);
                assert(self@.nodes =~~= m2.nodes);
                assert(self@ == m2);
                lemma_new_entry_cover(date_ts, max_len, origin, bootstrap);
                lemma_wf_after_append(m0, prefix, max_len, origin, date_ts, bootstrap);
            }
        } else {
            proof {
                assert(self.nodes@[idx as int]@.prefix == prefix);
                assert(has_node(m0.nodes, prefix)) by {
                    assert((#[trigger] m0.nodes[idx as int]).prefix == prefix);
                }
                assert(node_index(m0.nodes, prefix) == idx as int) by {
                    let ci = node_index(m0.nodes, prefix);
                    assert(0 <= ci < m0.nodes.len() && m0.nodes[ci].prefix == prefix);
                    if ci < idx as int {
                        assert(m0.nodes[ci] == self.nodes@[ci]@);
                    } else if ci > idx as int {
                        assert(m0.nodes[idx as int].prefix != m0.nodes[ci].prefix);
                    }
                }
            }
            let ecount = self.nodes[idx].entries.len();
            let mut k: usize = 0;
            while k < ecount && !(self.nodes[idx].entries[k].get_max_len() == max_len
                && self.nodes[idx].entries[k].get_origin() == origin)
                invariant
                    0 <= idx < self.nodes@.len(),
                    ecount == self.nodes@[idx as int]@.entries.len(),
                    k <= ecount,
                    forall|j: int|
                        0 <= j < k ==> entry_key(
                            #[trigger] self.nodes@[idx as int]@.entries[j],
                        ) != (max_len, origin),
                    *self == *old(self),
                decreases ecount - k,
            {
                k = k + 1;
            }
            let ghost nm0 = m0.nodes[idx as int];
            if k == ecount {
                // known prefix, fresh key: append a fresh entry
                proof {
                    assert(!has_key(nm0.entries, (max_len, origin))) by {
                        if has_key(nm0.entries, (max_len, origin)) {
                            let t = choose|t: int|
                                0 <= t < nm0.entries.len() && entry_key(
                                    #[trigger] nm0.entries[t],
                                ) == (max_len, origin);
                        }
                    }
                }
                let entry = RoasTrieEntry::new(date_ts, max_len, origin, bootstrap);
                self.nodes[idx].entries.push(entry);
                if date_ts > self.latest_date {
                    self.latest_date = date_ts;
                }
                proof {
                    let m2 = ingest_one(m0, prefix, max_len, origin, date_ts, bootstrap);
                    assert(self@.nodes =~~= m2.nodes);
                    assert(self@ == m2);
                    lemma_new_entry_cover(date_ts, max_len, origin, bootstrap);
                    lemma_wf_after_entry_append(m0, idx as int, max_len, origin, date_ts, bootstrap);
                }
            } else {
                // known prefix and key: record the day on the existing entry
                proof {
                    assert(entry_key(nm0.entries[k as int]) == (max_len, origin));
                    assert(has_key(nm0.entries, (max_len, origin))) by {
                        assert(entry_key(#[trigger] nm0.entries[k as int]) == (max_len, origin));
                    }
                    assert(key_index(nm0.entries, (max_len, origin)) == k as int) by {
                        let ck = key_index(nm0.entries, (max_len, origin));
                        assert(0 <= ck < nm0.entries.len() && entry_key(nm0.entries[ck]) == (
                        max_len,
                        origin,
                        ));
                        if ck < k as int {
                        } else if ck > k as int {
                            assert(entry_key(nm0.entries[k as int]) != entry_key(nm0.entries[ck]));
                        }
                    }
                }
                self.nodes[idx].entries[k].push_date(date_ts, bootstrap);
                if date_ts > self.latest_date {
                    self.latest_date = date_ts;
                }
                proof {
                    let m2 = ingest_one(m0, prefix, max_len, origin, date_ts, bootstrap);
                    assert(self@.nodes =~~= m2.nodes);
                    assert(self@ == m2);
                    lemma_push_date_cover(nm0.entries[k as int], date_ts, bootstrap);
                    lemma_wf_after_push(m0, idx as int, k as int, max_len, origin, date_ts,
                        bootstrap);
                    assert(self@.nodes[idx as int].entries[k as int].wf());
                }
            }
        }
    }

    /// Fold a batch of records into the index, in order. In bootstrap mode
    /// each day lands in the entry's loose set; in incremental mode it
    /// extends the entry's tail run, assuming day-ascending input batches.
    pub fn process_entries(&mut self, entries: &Vec<RoaEntry>, bootstrap: bool)
        requires
            old(self)@.wf(),
            forall|i: int| 0 <= i < entries@.len() ==> (#[trigger] entries@[i])@.wf(),
        ensures
            final(self)@ == ingest_seq(
                old(self)@,
                entries@.map_values(|r: RoaEntry| r@),
                bootstrap,
            ),
            final(self)@.wf(),
    {
        let ghost rs = entries@.map_values(|r: RoaEntry| r@);
        let mut i: usize = 0;
        while i < entries.len()
            invariant
                i <= entries@.len(),
                rs == entries@.map_values(|r: RoaEntry| r@),
                forall|t: int| 0 <= t < entries@.len() ==> (#[trigger] entries@[t])@.wf(),
                self@ == ingest_seq(old(self)@, rs.subrange(0, i as int), bootstrap),
                self@.wf(),
            decreases entries@.len() - i,
        {
            let r = &entries[i];
            proof {
                assert(entries@[i as int]@.wf());
                assert(rs[i as int] == entries@[i as int]@);
            }
            let ghost prev = self@;
            #[verifier::truncate]
            let ml = r.max_len as u8;
            self.process_one(r.prefix, ml, r.asn, r.date_ts, bootstrap);
            proof {
                let rm = rs[i as int];
                assert(ml == rm.max_len as u8);
                assert(self@ == ingest_one(prev, rm.prefix, rm.max_len as u8, rm.asn, rm.date_ts,
                bootstrap));
                lemma_ingest_seq_push(old(self)@, rs.subrange(0, i as int), rm, bootstrap);
                assert(rs.subrange(0, i + 1) =~= rs.subrange(0, i as int).push(rm));
                assert(seq![rm][0] == rm);
                assert(seq![rm].drop_first() =~= Seq::<RoaModel>::empty());
                assert(ingest_seq(prev, seq![rm], bootstrap) == ingest_seq(
                    ingest_one(prev, rm.prefix, rm.max_len as u8, rm.asn, rm.date_ts, bootstrap),
                    seq![rm].drop_first(),
                    bootstrap,
                ));
            }
            i = i + 1;
        }
        proof {
            assert(rs.subrange(0, rs.len() as int) =~= rs);
        }
    }
}

/// The standard RPKI route-origin-validation verdict, extended with a
/// historical date parameter.
#[derive(Debug, Clone, PartialEq, Eq, Structural)]
pub enum RpkiValidation {
    Valid,
    Invalid,
    Unknown,
}

/// Some stored prefix is a supernet of (or equal to) the queried one.
pub open spec fn spec_known(m: TrieModel, p: IpPrefix) -> bool {
    exists|i: int| 0 <= i < m.nodes.len() && (#[trigger] m.nodes[i]).prefix.spec_covers(p)
}

/// Some stored entry authorizes the queried announcement on the queried
/// day: its prefix covers the query, its origin matches, its max length
/// admits the query's length, and its date set contains the day.
pub open spec fn spec_valid(m: TrieModel, p: IpPrefix, origin: u32, date_ts: i64) -> bool {
    exists|i: int, k: int|
        0 <= i < m.nodes.len() && 0 <= k < (#[trigger] m.nodes[i]).entries.len()
            && m.nodes[i].prefix.spec_covers(p) && (#[trigger] m.nodes[i].entries[k]).origin
            == origin && m.nodes[i].entries[k].max_len >= p.len
            && m.nodes[i].entries[k].contains_day(date_ts)
}

/// Model of one query result row.
#[verifier::ext_equal]
pub struct LookupModel {
    pub prefix: IpPrefix,
    pub origin: u32,
    pub max_len: u8,
    pub ranges: Seq<(i64, i64)>,
}

/// One query result row: a stored (prefix, max_len, origin) with its
/// compressed day ranges.
#[derive(Debug, Clone, PartialEq, Eq)]
pub struct RoasLookupEntry {
    /// The stored network.
    pub prefix: IpPrefix,
    /// Origin ASN.
    pub origin: u32,
    /// ROA max length.
    pub max_len: u8,
    /// Compressed day ranges, as (start, end) day timestamps.
    pub dates_ranges: Vec<(i64, i64)>,
}

impl View for RoasLookupEntry {
    type V = LookupModel;

    open spec fn view(&self) -> LookupModel {
        LookupModel {
            prefix: self.prefix,
            origin: self.origin,
            max_len: self.max_len,
            ranges: self.dates_ranges@,
        }
    }
}

/// The result row for one stored entry.
pub open spec fn to_lookup(prefix: IpPrefix, e: EntryModel) -> LookupModel {
    LookupModel { prefix, origin: e.origin, max_len: e.max_len, ranges: e.runs }
}

/// The date filter that `search` really applies: `current = true` queries
/// the watermark day, `current = false` drops the date filter and asks for
/// expired entries instead, otherwise the explicit date (if any) is used.
pub open spec fn resolve_date(date: Option<i64>, current: Option<bool>, latest: i64) -> Option<
    i64,
> {
    match current {
        Some(c) => if c {
            Some(latest)
        } else {
            None
        },
        None => date,
    }
}

/// Whether `search` keeps only entries whose runs all end before the
/// watermark.
pub open spec fn resolve_expired(current: Option<bool>) -> bool {
    current == Some(false)
}

/// Whether an entry passes all present filters.
pub open spec fn entry_matches(
    e: EntryModel,
    origin: Option<u32>,
    max_len: Option<u8>,
    date: Option<i64>,
    only_expired: bool,
    latest: i64,
) -> bool {
    &&& (origin matches Some(o) ==> e.origin == o)
    &&& (max_len matches Some(l) ==> e.max_len == l)
    &&& (date matches Some(dt) ==> covers_seq(e.runs, dt))
    &&& (only_expired ==> !(exists|t: int|
        0 <= t < e.runs.len() && (#[trigger] e.runs[t]).1 >= latest))
}

/// Whether a node is selected by the prefix filter: no filter selects every
/// node, a prefix selects its stored supernets (and itself).
pub open spec fn node_selected(n: NodeModel, pfilter: Option<IpPrefix>) -> bool {
    match pfilter {
        Some(p) => n.prefix.spec_covers(p),
        None => true,
    }
}

/// The result rows contributed by one node's entries, in order.
pub open spec fn entries_lookup(
    prefix: IpPrefix,
    entries: Seq<EntryModel>,
    origin: Option<u32>,
    max_len: Option<u8>,
    date: Option<i64>,
    only_expired: bool,
    latest: i64,
) -> Seq<LookupModel>
    decreases entries.len(),
{
    if entries.len() == 0 {
        Seq::empty()
    } else {
        entries_lookup(prefix, entries.drop_last(), origin, max_len, date, only_expired, latest)
            + if entry_matches(entries.last(), origin, max_len, date, only_expired, latest) {
            seq![to_lookup(prefix, entries.last())]
        } else {
            Seq::empty()
        }
    }
}

/// The full search result: the selected nodes' matching entries, node by
/// node in store order.
pub open spec fn search_spec(
    nodes: Seq<NodeModel>,
    pfilter: Option<IpPrefix>,
    origin: Option<u32>,
    max_len: Option<u8>,
    date: Option<i64>,
    only_expired: bool,
    latest: i64,
) -> Seq<LookupModel>
    decreases nodes.len(),
{
    if nodes.len() == 0 {
        Seq::empty()
    } else {
        search_spec(nodes.drop_last(), pfilter, origin, max_len, date, only_expired, latest)
            + if node_selected(nodes.last(), pfilter) {
            entries_lookup(
                nodes.last().prefix,
                nodes.last().entries,
                origin,
                max_len,
                date,
                only_expired,
                latest,
            )
        } else {
            Seq::empty()
        }
    }
}

impl RoasTrie {
    /// Historical route-origin validation: `Valid` when some stored
    /// supernet-or-equal entry matches origin and length and contains the
    /// day; `Unknown` when no stored prefix covers the query; `Invalid`
    /// otherwise.
    pub fn validate(&self, prefix: &IpPrefix, origin: u32, date_ts: i64) -> (r: RpkiValidation)
        requires
            self@.wf(),
            prefix.wf(),
        ensures
            r == RpkiValidation::Valid <==> spec_valid(self@, *prefix, origin, date_ts),
            r == RpkiValidation::Unknown <==> !spec_known(self@, *prefix),
            r == RpkiValidation::Invalid <==> (spec_known(self@, *prefix) && !spec_valid(
                self@,
                *prefix,
                origin,
                date_ts,
            )),
    {
        let mut any_match = false;
        let mut i: usize = 0;
        let n = self.nodes.len();
        while i < n
            invariant
                i <= n == self.nodes@.len(),
                self@.wf(),
                prefix.wf(),
                any_match <==> exists|t: int|
                    0 <= t < i && (#[trigger] self@.nodes[t]).prefix.spec_covers(*prefix),
                forall|t: int, k: int|
                    0 <= t < i && 0 <= k < (#[trigger] self@.nodes[t]).entries.len() ==> !(
                    self@.nodes[t].prefix.spec_covers(*prefix)
                        && (#[trigger] self@.nodes[t].entries[k]).origin == origin
                        && self@.nodes[t].entries[k].max_len >= prefix.len
                        && self@.nodes[t].entries[k].contains_day(date_ts)),
            decreases n - i,
        {
            proof {
                assert(node_wf(self@.nodes[i as int]));
            }
            if self.nodes[i].prefix.covers(prefix) {
                any_match = true;
                proof {
                    assert((#[trigger] self@.nodes[i as int]).prefix.spec_covers(*prefix));
                }
                let ecount = self.nodes[i].entries.len();
                let mut k: usize = 0;
                while k < ecount
                    invariant
                        0 <= i < self.nodes@.len(),
                        self@.wf(),
                        self@.nodes[i as int].prefix.spec_covers(*prefix),
                        ecount == self@.nodes[i as int].entries.len(),
                        k <= ecount,
                        forall|l: int|
                            0 <= l < k ==> !((#[trigger] self@.nodes[i as int].entries[l]).origin
                                == origin && self@.nodes[i as int].entries[l].max_len >= prefix.len
                                && self@.nodes[i as int].entries[l].contains_day(date_ts)),
                    decreases ecount - k,
                {
                    let e = &self.nodes[i].entries[k];
                    if e.get_origin() == origin && e.get_max_len() >= prefix.len
                        && e.contains_date(date_ts) {
                        proof {
                            assert(0 <= i < self@.nodes.len() && 0 <= k
                                < (#[trigger] self@.nodes[i as int]).entries.len()
                                && self@.nodes[i as int].prefix.spec_covers(*prefix) && (
                            #[trigger] self@.nodes[i as int].entries[k as int]).origin == origin
                                && self@.nodes[i as int].entries[k as int].max_len >= prefix.len
                                && self@.nodes[i as int].entries[k as int].contains_day(date_ts));
                        }
                        return RpkiValidation::Valid;
                    }
                    k = k + 1;
                }
            }
            i = i + 1;
        }
        proof {
            if spec_valid(self@, *prefix, origin, date_ts) {
                let (t, k) = choose|t: int, k: int|
                    0 <= t < self@.nodes.len() && 0 <= k
                        < (#[trigger] self@.nodes[t]).entries.len()
                        && self@.nodes[t].prefix.spec_covers(*prefix)
                        && (#[trigger] self@.nodes[t].entries[k]).origin == origin
                        && self@.nodes[t].entries[k].max_len >= prefix.len
                        && self@.nodes[t].entries[k].contains_day(date_ts);
                assert(false);
            }
        }
        if any_match {
            RpkiValidation::Invalid
        } else {
            RpkiValidation::Unknown
        }
    }

    /// Multi-predicate search over the store: select nodes by the optional
    /// prefix (supernet-or-equal), filter entries by origin, max length,
    /// date and currency, and return one row per surviving entry.
    pub fn search(
        &self,
        prefix: Option<IpPrefix>,
        origin: Option<u32>,
        max_len: Option<u8>,
        date: Option<i64>,
        current: Option<bool>,
    ) -> (r: Vec<RoasLookupEntry>)
        requires
            self@.wf(),
            prefix matches Some(p) ==> p.wf(),
        ensures
            r@.map_values(|e: RoasLookupEntry| e@) == search_spec(
                self@.nodes,
                prefix,
                origin,
                max_len,
                resolve_date(date, current, self@.latest),
                resolve_expired(current),
                self@.latest,
            ),
    {
        let latest = self.latest_date;
        let mut only_expired = false;
        let date2: Option<i64> = match current {
            Some(c) => {
                if c {
                    Some(latest)
                } else {
                    only_expired = true;
                    None
                }
            },
            None => date,
        };
        proof {
            assert(date2 == resolve_date(date, current, self@.latest));
            assert(only_expired == resolve_expired(current));
        }
        let mut out: Vec<RoasLookupEntry> = Vec::new();
        let mut i: usize = 0;
        let n = self.nodes.len();
        while i < n
            invariant
                i <= n == self.nodes@.len(),
                self@.wf(),
                prefix matches Some(p) ==> p.wf(),
                out@.map_values(|e: RoasLookupEntry| e@) == search_spec(
                    self@.nodes.subrange(0, i as int),
                    prefix,
                    origin,
                    max_len,
                    date2,
                    only_expired,
                    latest,
                ),
                latest == self@.latest,
            decreases n - i,
        {
            proof {
                assert(node_wf(self@.nodes[i as int]));
            }
            let selected = match &prefix {
                Some(p) => self.nodes[i].prefix.covers(p),
                None => true,
            };
            let ghost nm = self@.nodes[i as int];
            if selected {
                proof {
                    assert(out@.map_values(|e: RoasLookupEntry| e@) + entries_lookup(
                        nm.prefix,
                        nm.entries.subrange(0, 0),
                        origin,
                        max_len,
                        date2,
                        only_expired,
                        latest,
                    ) =~= out@.map_values(|e: RoasLookupEntry| e@));
                }
                let ecount = self.nodes[i].entries.len();
                let mut k: usize = 0;
                while k < ecount
                    invariant
                        0 <= i < self.nodes@.len(),
                        self@.wf(),
                        nm == self@.nodes[i as int],
                        ecount == nm.entries.len(),
                        k <= ecount,
                        out@.map_values(|e: RoasLookupEntry| e@) == search_spec(
                            self@.nodes.subrange(0, i as int),
                            prefix,
                            origin,
                            max_len,
                            date2,
                            only_expired,
                            latest,
                        ) + entries_lookup(
                            nm.prefix,
                            nm.entries.subrange(0, k as int),
                            origin,
                            max_len,
                            date2,
                            only_expired,
                            latest,
                        ),
                        latest == self@.latest,
                    decreases ecount - k,
                {
                    let e = &self.nodes[i].entries[k];
                    let mut keep = true;
                    if let Some(o) = origin {
                        if e.get_origin() != o {
                            keep = false;
                        }
                    }
                    if let Some(l) = max_len {
                        if e.get_max_len() != l {
                            keep = false;
                        }
                    }
                    if keep {
                        if let Some(dt) = date2 {
                            if !e.covers_ts(dt) {
                                keep = false;
                            }
                        }
                    }
                    if keep && only_expired {
                        if e.any_run_reaches(latest) {
                            keep = false;
                        }
                    }
                    let ghost em = nm.entries[k as int];
                    let ghost spec_prefix_part = search_spec(
                        self@.nodes.subrange(0, i as int),
                        prefix,
                        origin,
                        max_len,
                        date2,
                        only_expired,
                        latest,
                    );
                    let ghost part0 = entries_lookup(
                        nm.prefix,
                        nm.entries.subrange(0, k as int),
                        origin,
                        max_len,
                        date2,
                        only_expired,
                        latest,
                    );
                    let ghost part1 = entries_lookup(
                        nm.prefix,
                        nm.entries.subrange(0, k + 1),
                        origin,
                        max_len,
                        date2,
                        only_expired,
                        latest,
                    );
                    proof {
                        assert(keep == entry_matches(em, origin, max_len, date2, only_expired,
                        latest));
                        assert(nm.entries.subrange(0, k + 1).drop_last() =~= nm.entries.subrange(
                            0,
                            k as int,
                        ));
                        assert(nm.entries.subrange(0, k + 1).last() == em);
                    }
                    if keep {
                        let ghost out0 = out@;
                        let row = RoasLookupEntry {
                            prefix: self.nodes[i].prefix,
                            origin: e.get_origin(),
                            max_len: e.get_max_len(),
                            dates_ranges: e.get_date_ranges(),
                        };
                        proof {
                            assert(row@ == to_lookup(nm.prefix, em));
                        }
                        out.push(row);
                        proof {
                            assert(part1 =~= part0 + seq![to_lookup(nm.prefix, em)]);
                            assert(out@.map_values(|e: RoasLookupEntry| e@) =~= out0.map_values(
                                |e: RoasLookupEntry| e@,
                            ).push(row@));
                            assert(out@.map_values(|e: RoasLookupEntry| e@) =~= spec_prefix_part
                                + part1);
                        }
                    } else {
                        proof {
                            assert(part1 =~= part0);
                        }
                    }
                    k = k + 1;
                }
                proof {
                    assert(nm.entries.subrange(0, ecount as int) =~= nm.entries);
                    assert(self@.nodes.subrange(0, i + 1).drop_last() =~= self@.nodes.subrange(
                        0,
                        i as int,
                    ));
                    assert(self@.nodes.subrange(0, i + 1).last() == nm);
                    assert(node_selected(nm, prefix));
                }
            } else {
                proof {
                    assert(self@.nodes.subrange(0, i + 1).drop_last() =~= self@.nodes.subrange(
                        0,
                        i as int,
                    ));
                    assert(self@.nodes.subrange(0, i + 1).last() == nm);
                    assert(!node_selected(nm, prefix));
                    assert(out@.map_values(|e: RoasLookupEntry| e@) + Seq::<LookupModel>::empty()
                        =~= out@.map_values(|e: RoasLookupEntry| e@));
                }
            }
            i = i + 1;
        }
        proof {
            assert(self@.nodes.subrange(0, n as int) =~= self@.nodes);
        }
        out
    }

    /// Compress every entry in the store: all loose days move into the
    /// canonical run-length form; prefixes, keys, the logical date sets and
    /// the watermark are untouched.
    pub fn compress_dates(&mut self)
        requires
            old(self)@.wf(),
        ensures
            final(self)@.wf(),
            final(self)@.latest == old(self)@.latest,
            final(self)@.nodes.len() == old(self)@.nodes.len(),
            forall|t: int|
                0 <= t < final(self)@.nodes.len() ==> (#[trigger] final(self)@.nodes[t]).prefix
                    == old(self)@.nodes[t].prefix && final(self)@.nodes[t].entries.len() == old(
                    self,
                )@.nodes[t].entries.len(),
            forall|t: int, k: int|
                0 <= t < final(self)@.nodes.len() && 0 <= k
                    < (#[trigger] final(self)@.nodes[t]).entries.len() ==> (
                #[trigger] final(self)@.nodes[t].entries[k]).max_len == old(
                    self,
                )@.nodes[t].entries[k].max_len && final(self)@.nodes[t].entries[k].origin == old(
                    self,
                )@.nodes[t].entries[k].origin && final(self)@.nodes[t].entries[k].loose.len() == 0,
            forall|t: int, k: int, d: i64|
                0 <= t < final(self)@.nodes.len() && 0 <= k
                    < (#[trigger] final(self)@.nodes[t]).entries.len() && d % 86400 == 0 ==> (
                #[trigger] final(self)@.nodes[t].entries[k].contains_day(d) <==> old(
                    self,
                )@.nodes[t].entries[k].contains_day(d)),
    {
        let ghost m0 = self@;
        let n = self.nodes.len();
        let mut i: usize = 0;
        while i < n
            invariant
                i <= n == self.nodes@.len(),
                m0 == old(self)@,
                m0.wf(),
                self@.wf(),
                self@.latest == m0.latest,
                self@.nodes.len() == m0.nodes.len(),
                forall|t: int|
                    0 <= t < self@.nodes.len() ==> (#[trigger] self@.nodes[t]).prefix
                        == m0.nodes[t].prefix && self@.nodes[t].entries.len()
                        == m0.nodes[t].entries.len(),
                forall|t: int, k: int|
                    0 <= t < self@.nodes.len() && 0 <= k
                        < (#[trigger] self@.nodes[t]).entries.len() ==> (
                    #[trigger] self@.nodes[t].entries[k]).max_len == m0.nodes[t].entries[k].max_len
                        && self@.nodes[t].entries[k].origin == m0.nodes[t].entries[k].origin,
                forall|t: int, k: int|
                    0 <= t < i && 0 <= k < (#[trigger] self@.nodes[t]).entries.len() ==> (
                    #[trigger] self@.nodes[t].entries[k]).loose.len() == 0,
                forall|t: int, k: int|
                    i <= t < self@.nodes.len() && 0 <= k
                        < (#[trigger] self@.nodes[t]).entries.len()
                        ==> #[trigger] self@.nodes[t].entries[k] == m0.nodes[t].entries[k],
                forall|t: int, k: int, d: i64|
                    0 <= t < self@.nodes.len() && 0 <= k
                        < (#[trigger] self@.nodes[t]).entries.len() && d % 86400 == 0 ==> (
                    #[trigger] self@.nodes[t].entries[k].contains_day(d)
                        <==> m0.nodes[t].entries[k].contains_day(d)),
            decreases n - i,
        {
            let ecount = self.nodes[i].entries.len();
            let mut k: usize = 0;
            while k < ecount
                invariant
                    0 <= i < self.nodes@.len(),
                    m0 == old(self)@,
                    m0.wf(),
                    self@.wf(),
                    self@.latest == m0.latest,
                    self@.nodes.len() == m0.nodes.len(),
                    ecount == self@.nodes[i as int].entries.len(),
                    k <= ecount,
                    forall|t: int|
                        0 <= t < self@.nodes.len() ==> (#[trigger] self@.nodes[t]).prefix
                            == m0.nodes[t].prefix && self@.nodes[t].entries.len()
                            == m0.nodes[t].entries.len(),
                    forall|t: int, l: int|
                        0 <= t < self@.nodes.len() && 0 <= l
                            < (#[trigger] self@.nodes[t]).entries.len() ==> (
                        #[trigger] self@.nodes[t].entries[l]).max_len
                            == m0.nodes[t].entries[l].max_len && self@.nodes[t].entries[l].origin
                            == m0.nodes[t].entries[l].origin,
                    forall|t: int, l: int|
                        0 <= t < i && 0 <= l < (#[trigger] self@.nodes[t]).entries.len() ==> (
                        #[trigger] self@.nodes[t].entries[l]).loose.len() == 0,
                    forall|l: int|
                        0 <= l < k ==> (
                        #[trigger] self@.nodes[i as int].entries[l]).loose.len() == 0,
                    forall|t: int, l: int|
                        i < t < self@.nodes.len() && 0 <= l
                            < (#[trigger] self@.nodes[t]).entries.len()
                            ==> #[trigger] self@.nodes[t].entries[l] == m0.nodes[t].entries[l],
                    forall|l: int|
                        k <= l < ecount ==> #[trigger] self@.nodes[i as int].entries[l]
                            == m0.nodes[i as int].entries[l],
                    forall|t: int, l: int, d: i64|
                        0 <= t < self@.nodes.len() && 0 <= l
                            < (#[trigger] self@.nodes[t]).entries.len() && d % 86400 == 0 ==> (
                        #[trigger] self@.nodes[t].entries[l].contains_day(d)
                            <==> m0.nodes[t].entries[l].contains_day(d)),
                decreases ecount - k,
            {
                let ghost mprev = self@;
                proof {
                    assert(node_wf(self@.nodes[i as int]));
                    assert(self@.nodes[i as int].entries[k as int].wf());
                }
                self.nodes[i].entries[k].full_compress();
                proof {
                    lemma_compress_step(mprev, self@, m0, i as int, k as int);
                    assert forall|l: int| 0 <= l < k + 1 implies (
                    #[trigger] self@.nodes[i as int].entries[l]).loose.len() == 0 by {
                        if l < k {
                            assert(self@.nodes[i as int].entries[l]
                                == mprev.nodes[i as int].entries[l]);
                        }
                    }
                    assert forall|t: int, l: int|
                        0 <= t < i && 0 <= l
                            < (#[trigger] self@.nodes[t]).entries.len() implies (
                    #[trigger] self@.nodes[t].entries[l]).loose.len() == 0 by {
                        assert(self@.nodes[t] == mprev.nodes[t]);
                    }
                    assert forall|t: int, l: int|
                        i < t < self@.nodes.len() && 0 <= l
                            < (#[trigger] self@.nodes[t]).entries.len()
                        implies #[trigger] self@.nodes[t].entries[l] == m0.nodes[t].entries[l] by {
                        assert(self@.nodes[t] == mprev.nodes[t]);
                    }
                    assert forall|l: int|
                        k + 1 <= l < ecount implies #[trigger] self@.nodes[i as int].entries[l]
                        == m0.nodes[i as int].entries[l] by {
                        assert(self@.nodes[i as int].entries[l]
                            == mprev.nodes[i as int].entries[l]);
                    }
                }
                k = k + 1;
            }
            i = i + 1;
        }
    }

    /// Patch one known publisher outage across the whole store: every entry
    /// whose runs exactly straddle the gap gets the gap's days injected and
    /// is re-compressed; every other entry is untouched. Prefixes, keys and
    /// the watermark never change.
    pub fn fill_gap_interval(&mut self, gap_start: i64, gap_end: i64)
        requires
            old(self)@.wf(),
            is_day_ts(gap_start),
            is_day_ts(gap_end),
            gap_start <= gap_end,
        ensures
            gap_step(old(self)@, final(self)@, gap_start, gap_end),
            final(self)@.wf(),
            final(self)@.latest == old(self)@.latest,
            final(self)@.nodes.len() == old(self)@.nodes.len(),
            forall|t: int|
                0 <= t < final(self)@.nodes.len() ==> (#[trigger] final(self)@.nodes[t]).prefix
                    == old(self)@.nodes[t].prefix && final(self)@.nodes[t].entries.len() == old(
                    self,
                )@.nodes[t].entries.len(),
            forall|t: int, k: int|
                0 <= t < final(self)@.nodes.len() && 0 <= k
                    < (#[trigger] final(self)@.nodes[t]).entries.len() ==> (
                #[trigger] final(self)@.nodes[t].entries[k]).max_len == old(
                    self,
                )@.nodes[t].entries[k].max_len && final(self)@.nodes[t].entries[k].origin == old(
                    self,
                )@.nodes[t].entries[k].origin,
            forall|t: int, k: int|
                0 <= t < final(self)@.nodes.len() && 0 <= k
                    < (#[trigger] final(self)@.nodes[t]).entries.len() && !straddles(
                    old(self)@.nodes[t].entries[k].runs,
                    gap_start,
                    gap_end,
                ) ==> #[trigger] final(self)@.nodes[t].entries[k] == old(
                    self,
                )@.nodes[t].entries[k],
            forall|t: int, k: int|
                0 <= t < final(self)@.nodes.len() && 0 <= k
                    < (#[trigger] final(self)@.nodes[t]).entries.len() && straddles(
                    old(self)@.nodes[t].entries[k].runs,
                    gap_start,
                    gap_end,
                ) ==> (#[trigger] final(self)@.nodes[t].entries[k]).loose.len() == 0,
            forall|t: int, k: int, d: i64|
                0 <= t < final(self)@.nodes.len() && 0 <= k
                    < (#[trigger] final(self)@.nodes[t]).entries.len() && straddles(
                    old(self)@.nodes[t].entries[k].runs,
                    gap_start,
                    gap_end,
                ) && d % 86400 == 0 ==> (#[trigger] final(self)@.nodes[t].entries[k].contains_day(
                    d,
                ) <==> (old(self)@.nodes[t].entries[k].contains_day(d) || gap_start <= d
                    <= gap_end)),
    {
        let ghost m0 = self@;
        let n = self.nodes.len();
        let mut i: usize = 0;
        while i < n
            invariant
                i <= n == self.nodes@.len(),
                m0 == old(self)@,
                m0.wf(),
                self@.wf(),
                is_day_ts(gap_start),
                is_day_ts(gap_end),
                gap_start <= gap_end,
                self@.latest == m0.latest,
                self@.nodes.len() == m0.nodes.len(),
                forall|t: int|
                    0 <= t < self@.nodes.len() ==> (#[trigger] self@.nodes[t]).prefix
                        == m0.nodes[t].prefix && self@.nodes[t].entries.len()
                        == m0.nodes[t].entries.len(),
                forall|t: int, l: int|
                    0 <= t < self@.nodes.len() && 0 <= l
                        < (#[trigger] self@.nodes[t]).entries.len() ==> (
                    #[trigger] self@.nodes[t].entries[l]).max_len == m0.nodes[t].entries[l].max_len
                        && self@.nodes[t].entries[l].origin == m0.nodes[t].entries[l].origin,
                forall|t: int, l: int|
                    0 <= t < i && 0 <= l < (#[trigger] self@.nodes[t]).entries.len() && !straddles(
                        m0.nodes[t].entries[l].runs,
                        gap_start,
                        gap_end,
                    ) ==> #[trigger] self@.nodes[t].entries[l] == m0.nodes[t].entries[l],
                forall|t: int, l: int|
                    0 <= t < i && 0 <= l < (#[trigger] self@.nodes[t]).entries.len() && straddles(
                        m0.nodes[t].entries[l].runs,
                        gap_start,
                        gap_end,
                    ) ==> (#[trigger] self@.nodes[t].entries[l]).loose.len() == 0,
                forall|t: int, l: int, d: i64|
                    0 <= t < i && 0 <= l < (#[trigger] self@.nodes[t]).entries.len() && straddles(
                        m0.nodes[t].entries[l].runs,
                        gap_start,
                        gap_end,
                    ) && d % 86400 == 0 ==> (#[trigger] self@.nodes[t].entries[l].contains_day(d)
                        <==> (m0.nodes[t].entries[l].contains_day(d) || gap_start <= d
                        <= gap_end)),
                forall|t: int, l: int|
                    i <= t < self@.nodes.len() && 0 <= l
                        < (#[trigger] self@.nodes[t]).entries.len()
                        ==> #[trigger] self@.nodes[t].entries[l] == m0.nodes[t].entries[l],
            decreases n - i,
        {
            let ecount = self.nodes[i].entries.len();
            let mut k: usize = 0;
            while k < ecount
                invariant
                    0 <= i < self.nodes@.len(),
                    m0 == old(self)@,
                    m0.wf(),
                    self@.wf(),
                    is_day_ts(gap_start),
                    is_day_ts(gap_end),
                    gap_start <= gap_end,
                    self@.latest == m0.latest,
                    self@.nodes.len() == m0.nodes.len(),
                    ecount == self@.nodes[i as int].entries.len(),
                    k <= ecount,
                    forall|t: int|
                        0 <= t < self@.nodes.len() ==> (#[trigger] self@.nodes[t]).prefix
                            == m0.nodes[t].prefix && self@.nodes[t].entries.len()
                            == m0.nodes[t].entries.len(),
                    forall|t: int, l: int|
                        0 <= t < self@.nodes.len() && 0 <= l
                            < (#[trigger] self@.nodes[t]).entries.len() ==> (
                        #[trigger] self@.nodes[t].entries[l]).max_len
                            == m0.nodes[t].entries[l].max_len && self@.nodes[t].entries[l].origin
                            == m0.nodes[t].entries[l].origin,
                    forall|t: int, l: int|
                        0 <= t < i && 0 <= l < (#[trigger] self@.nodes[t]).entries.len()
                            && !straddles(m0.nodes[t].entries[l].runs, gap_start, gap_end)
                            ==> #[trigger] self@.nodes[t].entries[l] == m0.nodes[t].entries[l],
                    forall|t: int, l: int, d: i64|
                        0 <= t < i && 0 <= l < (#[trigger] self@.nodes[t]).entries.len()
                            && straddles(m0.nodes[t].entries[l].runs, gap_start, gap_end) && d
                            % 86400 == 0 ==> (#[trigger] self@.nodes[t].entries[l].contains_day(d)
                            <==> (m0.nodes[t].entries[l].contains_day(d) || gap_start <= d
                            <= gap_end)),
                    forall|t: int, l: int|
                        0 <= t < i && 0 <= l < (#[trigger] self@.nodes[t]).entries.len()
                            && straddles(m0.nodes[t].entries[l].runs, gap_start, gap_end) ==> (
                        #[trigger] self@.nodes[t].entries[l]).loose.len() == 0,
                    forall|l: int|
                        0 <= l < k && !straddles(
                            m0.nodes[i as int].entries[l].runs,
                            gap_start,
                            gap_end,
                        ) ==> #[trigger] self@.nodes[i as int].entries[l]
                            == m0.nodes[i as int].entries[l],
                    forall|l: int|
                        0 <= l < k && straddles(
                            m0.nodes[i as int].entries[l].runs,
                            gap_start,
                            gap_end,
                        ) ==> (#[trigger] self@.nodes[i as int].entries[l]).loose.len() == 0,
                    forall|l: int, d: i64|
                        0 <= l < k && straddles(
                            m0.nodes[i as int].entries[l].runs,
                            gap_start,
                            gap_end,
                        ) && d % 86400 == 0 ==> (
                        #[trigger] self@.nodes[i as int].entries[l].contains_day(d) <==> (
                        m0.nodes[i as int].entries[l].contains_day(d) || gap_start <= d
                            <= gap_end)),
                    forall|t: int, l: int|
                        i < t < self@.nodes.len() && 0 <= l
                            < (#[trigger] self@.nodes[t]).entries.len()
                            ==> #[trigger] self@.nodes[t].entries[l] == m0.nodes[t].entries[l],
                    forall|l: int|
                        k <= l < ecount ==> #[trigger] self@.nodes[i as int].entries[l]
                            == m0.nodes[i as int].entries[l],
                decreases ecount - k,
            {
                let ghost mprev = self@;
                let ghost e0 = self@.nodes[i as int].entries[k as int];
                proof {
                    assert(node_wf(self@.nodes[i as int]));
                    assert(e0.wf());
                    assert(e0 == m0.nodes[i as int].entries[k as int]);
                }
                self.nodes[i].entries[k].fill_gap(gap_start, gap_end);
                proof {
                    let e2 = self@.nodes[i as int].entries[k as int];
                    if straddles(e0.runs, gap_start, gap_end) {
                        // the run after the gap shows the gap lies below the watermark
                        let w = choose|w: int|
                            0 <= w < e0.runs.len() - 1 && (#[trigger] e0.runs[w]).1 == gap_start
                                - 86400 && e0.runs[w + 1].0 == gap_end + 86400;
                        assert(e0.contains_day((gap_end + 86400) as i64)) by {
                            assert((#[trigger] e0.runs[w + 1]).0 <= gap_end + 86400 <= e0.runs[w
                                + 1].1);
                        }
                        assert(node_days_le(mprev.nodes[i as int], mprev.latest));
                        assert(gap_end + 86400 <= mprev.latest) by {
                            assert((gap_end + 86400) as i64 % 86400 == 0);
                            assert(mprev.nodes[i as int].entries[k as int].contains_day(
                                (gap_end + 86400) as i64,
                            ));
                        }
                        assert forall|d: i64|
                            d % 86400 == 0 && #[trigger] e2.contains_day(d) implies (
                        e0.contains_day(d) || d <= mprev.latest) by {}
                    }
                    lemma_entry_replace_wf(mprev, self@, i as int, k as int);
                    assert forall|t: int|
                        0 <= t < self@.nodes.len() implies (#[trigger] self@.nodes[t]).prefix
                        == m0.nodes[t].prefix && self@.nodes[t].entries.len()
                        == m0.nodes[t].entries.len() by {
                        if t != i as int {
                            assert(self@.nodes[t] == mprev.nodes[t]);
                        }
                        assert(mprev.nodes[t].prefix == m0.nodes[t].prefix
                            && mprev.nodes[t].entries.len() == m0.nodes[t].entries.len());
                    }
                    assert forall|t: int, l: int|
                        0 <= t < self@.nodes.len() && 0 <= l
                            < (#[trigger] self@.nodes[t]).entries.len() implies (
                    #[trigger] self@.nodes[t].entries[l]).max_len == m0.nodes[t].entries[l].max_len
                        && self@.nodes[t].entries[l].origin == m0.nodes[t].entries[l].origin by {
                        if t != i as int || l != k as int {
                            assert(self@.nodes[t].entries[l] == mprev.nodes[t].entries[l]) by {
                                if t != i as int {
                                    assert(self@.nodes[t] == mprev.nodes[t]);
                                }
                            }
                        }
                        assert(mprev.nodes[t].entries[l].max_len == m0.nodes[t].entries[l].max_len
                            && mprev.nodes[t].entries[l].origin == m0.nodes[t].entries[l].origin);
                    }
                    assert forall|t: int, l: int|
                        0 <= t < i && 0 <= l < (#[trigger] self@.nodes[t]).entries.len()
                        implies #[trigger] self@.nodes[t].entries[l] == mprev.nodes[t].entries[l]
                        by {
                        assert(self@.nodes[t] == mprev.nodes[t]);
                    }
                    assert forall|t: int, l: int|
                        i < t < self@.nodes.len() && 0 <= l
                            < (#[trigger] self@.nodes[t]).entries.len()
                        implies #[trigger] self@.nodes[t].entries[l] == m0.nodes[t].entries[l] by {
                        assert(self@.nodes[t] == mprev.nodes[t]);
                    }
                    assert forall|l: int|
                        k + 1 <= l < ecount implies #[trigger] self@.nodes[i as int].entries[l]
                        == m0.nodes[i as int].entries[l] by {
                        assert(self@.nodes[i as int].entries[l]
                            == mprev.nodes[i as int].entries[l]);
                    }
                    assert forall|l: int|
                        0 <= l < k + 1 && !straddles(
                            m0.nodes[i as int].entries[l].runs,
                            gap_start,
                            gap_end,
                        ) implies #[trigger] self@.nodes[i as int].entries[l]
                        == m0.nodes[i as int].entries[l] by {
                        if l < k {
                            assert(self@.nodes[i as int].entries[l]
                                == mprev.nodes[i as int].entries[l]);
                        }
                    }
                    assert forall|l: int, d: i64|
                        0 <= l < k + 1 && straddles(
                            m0.nodes[i as int].entries[l].runs,
                            gap_start,
                            gap_end,
                        ) && d % 86400 == 0 implies (
                    #[trigger] self@.nodes[i as int].entries[l].contains_day(d) <==> (
                    m0.nodes[i as int].entries[l].contains_day(d) || gap_start <= d <= gap_end))
                        by {
                        if l < k {
                            assert(self@.nodes[i as int].entries[l]
                                == mprev.nodes[i as int].entries[l]);
                        }
                    }
                    assert forall|l: int|
                        0 <= l < k + 1 && straddles(
                            m0.nodes[i as int].entries[l].runs,
                            gap_start,
                            gap_end,
                        ) implies (#[trigger] self@.nodes[i as int].entries[l]).loose.len() == 0
                        by {
                        if l < k {
                            assert(self@.nodes[i as int].entries[l]
                                == mprev.nodes[i as int].entries[l]);
                        }
                    }
                    assert forall|t: int, l: int|
                        0 <= t < i && 0 <= l < (#[trigger] self@.nodes[t]).entries.len()
                            && straddles(m0.nodes[t].entries[l].runs, gap_start, gap_end) implies (
                    #[trigger] self@.nodes[t].entries[l]).loose.len() == 0 by {
                        assert(self@.nodes[t] == mprev.nodes[t]);
                    }
                }
                k = k + 1;
            }
            i = i + 1;
        }
    }

    /// All stored entries at prefixes equal to or covering the queried one,
    /// with their day ranges.
    pub fn lookup_prefix(&self, prefix: &IpPrefix) -> (r: Vec<RoasLookupEntry>)
        requires
            self@.wf(),
            prefix.wf(),
        ensures
            r@.map_values(|e: RoasLookupEntry| e@) == search_spec(
                self@.nodes,
                Some(*prefix),
                None,
                None,
                None,
                false,
                self@.latest,
            ),
    {
        self.search(Some(*prefix), None, None, None, None)
    }
}

/// Count of IPv4 nodes.
pub open spec fn count_v4(nodes: Seq<NodeModel>) -> int
    decreases nodes.len(),
{
    if nodes.len() == 0 {
        0
    } else {
        count_v4(nodes.drop_last()) + if nodes.last().prefix.v4 {
            1int
        } else {
            0int
        }
    }
}

/// Replacing one entry by a well-formed entry with the same key and the
/// same aligned-day set keeps the index well-formed and its relation to the
/// original store.
proof fn lemma_compress_step(mprev: TrieModel, mnew: TrieModel, m0: TrieModel, i: int, k: int)
    requires
        m0.wf(),
        mprev.wf(),
        mprev.latest == m0.latest,
        mprev.nodes.len() == m0.nodes.len(),
        forall|t: int|
            0 <= t < mprev.nodes.len() ==> (#[trigger] mprev.nodes[t]).prefix
                == m0.nodes[t].prefix && mprev.nodes[t].entries.len()
                == m0.nodes[t].entries.len(),
        forall|t: int, l: int|
            0 <= t < mprev.nodes.len() && 0 <= l < (#[trigger] mprev.nodes[t]).entries.len() ==> (
            #[trigger] mprev.nodes[t].entries[l]).max_len == m0.nodes[t].entries[l].max_len
                && mprev.nodes[t].entries[l].origin == m0.nodes[t].entries[l].origin,
        forall|t: int, l: int, d: i64|
            0 <= t < mprev.nodes.len() && 0 <= l < (#[trigger] mprev.nodes[t]).entries.len() && d
                % 86400 == 0 ==> (#[trigger] mprev.nodes[t].entries[l].contains_day(d)
                <==> m0.nodes[t].entries[l].contains_day(d)),
        0 <= i < mprev.nodes.len(),
        0 <= k < mprev.nodes[i].entries.len(),
        mnew.latest == mprev.latest,
        mnew.nodes.len() == mprev.nodes.len(),
        forall|t: int|
            0 <= t < mnew.nodes.len() && t != i ==> #[trigger] mnew.nodes[t] == mprev.nodes[t],
        mnew.nodes[i].prefix == mprev.nodes[i].prefix,
        mnew.nodes[i].entries.len() == mprev.nodes[i].entries.len(),
        forall|l: int|
            0 <= l < mnew.nodes[i].entries.len() && l != k ==> #[trigger] mnew.nodes[i].entries[l]
                == mprev.nodes[i].entries[l],
        mnew.nodes[i].entries[k].wf(),
        mnew.nodes[i].entries[k].max_len == mprev.nodes[i].entries[k].max_len,
        mnew.nodes[i].entries[k].origin == mprev.nodes[i].entries[k].origin,
        forall|d: i64|
            d % 86400 == 0 ==> (#[trigger] mnew.nodes[i].entries[k].contains_day(d)
                <==> mprev.nodes[i].entries[k].contains_day(d)),
    ensures
        mnew.wf(),
        mnew.nodes.len() == m0.nodes.len(),
        forall|t: int|
            0 <= t < mnew.nodes.len() ==> (#[trigger] mnew.nodes[t]).prefix == m0.nodes[t].prefix
                && mnew.nodes[t].entries.len() == m0.nodes[t].entries.len(),
        forall|t: int, l: int|
            0 <= t < mnew.nodes.len() && 0 <= l < (#[trigger] mnew.nodes[t]).entries.len() ==> (
            #[trigger] mnew.nodes[t].entries[l]).max_len == m0.nodes[t].entries[l].max_len
                && mnew.nodes[t].entries[l].origin == m0.nodes[t].entries[l].origin,
        forall|t: int, l: int, d: i64|
            0 <= t < mnew.nodes.len() && 0 <= l < (#[trigger] mnew.nodes[t]).entries.len() && d
                % 86400 == 0 ==> (#[trigger] mnew.nodes[t].entries[l].contains_day(d)
                <==> m0.nodes[t].entries[l].contains_day(d)),
{
    assert forall|t: int, l: int|
        0 <= t < mnew.nodes.len() && 0 <= l
            < (#[trigger] mnew.nodes[t]).entries.len() implies (
    #[trigger] mnew.nodes[t].entries[l]).max_len == m0.nodes[t].entries[l].max_len
        && mnew.nodes[t].entries[l].origin == m0.nodes[t].entries[l].origin by {
        if t != i || l != k {
            assert(mnew.nodes[t].entries[l] == mprev.nodes[t].entries[l]);
        }
        assert(mprev.nodes[t].entries[l].max_len == m0.nodes[t].entries[l].max_len);
    }
    assert forall|t: int, l: int, d: i64|
        0 <= t < mnew.nodes.len() && 0 <= l < (#[trigger] mnew.nodes[t]).entries.len() && d % 86400
            == 0 implies (#[trigger] mnew.nodes[t].entries[l].contains_day(d)
        <==> m0.nodes[t].entries[l].contains_day(d)) by {
        if t != i || l != k {
            assert(mnew.nodes[t].entries[l] == mprev.nodes[t].entries[l]);
        }
        assert(mprev.nodes[t].entries[l].contains_day(d) <==> m0.nodes[t].entries[l].contains_day(
            d,
        ));
    }
    assert forall|t: int| 0 <= t < mnew.nodes.len() implies node_wf(#[trigger] mnew.nodes[t]) by {
        assert(node_wf(mprev.nodes[t]));
        if t == i {
            assert forall|l: int|
                0 <= l < mnew.nodes[t].entries.len() implies (
            #[trigger] mnew.nodes[t].entries[l]).wf() by {
                if l != k {
                    assert(mnew.nodes[t].entries[l] == mprev.nodes[t].entries[l]);
                }
            }
            assert forall|l: int, l2: int|
                0 <= l < l2 < mnew.nodes[t].entries.len() implies entry_key(
                #[trigger] mnew.nodes[t].entries[l],
            ) != entry_key(#[trigger] mnew.nodes[t].entries[l2]) by {
                assert(entry_key(mnew.nodes[t].entries[l]) == entry_key(mprev.nodes[t].entries[l]))
                    by {
                    if l != k {
                        assert(mnew.nodes[t].entries[l] == mprev.nodes[t].entries[l]);
                    }
                }
                assert(entry_key(mnew.nodes[t].entries[l2]) == entry_key(
                    mprev.nodes[t].entries[l2],
                )) by {
                    if l2 != k {
                        assert(mnew.nodes[t].entries[l2] == mprev.nodes[t].entries[l2]);
                    }
                }
            }
        }
    }
    assert forall|t: int, j: int| 0 <= t < j < mnew.nodes.len() implies (
    #[trigger] mnew.nodes[t]).prefix != (#[trigger] mnew.nodes[j]).prefix by {
        assert(mnew.nodes[t].prefix == mprev.nodes[t].prefix) by {
            if t != i {
                assert(mnew.nodes[t] == mprev.nodes[t]);
            }
        }
        assert(mnew.nodes[j].prefix == mprev.nodes[j].prefix) by {
            if j != i {
                assert(mnew.nodes[j] == mprev.nodes[j]);
            }
        }
    }
    assert forall|t: int| 0 <= t < mnew.nodes.len() implies node_days_le(
        #[trigger] mnew.nodes[t],
        mnew.latest,
    ) by {
        assert(node_days_le(mprev.nodes[t], mprev.latest));
        assert forall|l: int, x: i64|
            0 <= l < mnew.nodes[t].entries.len() && x % 86400 == 0
                && #[trigger] mnew.nodes[t].entries[l].contains_day(x) implies x <= mnew.latest by {
            if t != i || l != k {
                assert(mnew.nodes[t].entries[l] == mprev.nodes[t].entries[l]);
            }
            assert(mprev.nodes[t].entries[l].contains_day(x));
        }
    }
    assert(mnew.latest == 0 || exists|t: int|
        0 <= t < mnew.nodes.len() && node_has_day(#[trigger] mnew.nodes[t], mnew.latest)) by {
        if mprev.latest != 0 {
            let t = choose|t: int|
                0 <= t < mprev.nodes.len() && node_has_day(#[trigger] mprev.nodes[t], mprev.latest);
            let l = choose|l: int|
                0 <= l < mprev.nodes[t].entries.len() && (
                #[trigger] mprev.nodes[t].entries[l]).contains_day(mprev.latest);
            assert(mprev.latest % 86400 == 0);
            assert(mnew.nodes[t].entries[l].contains_day(mnew.latest)) by {
                if t != i || l != k {
                    assert(mnew.nodes[t].entries[l] == mprev.nodes[t].entries[l]);
                }
            }
            assert(node_has_day(#[trigger] mnew.nodes[t], mnew.latest)) by {
                assert((#[trigger] mnew.nodes[t].entries[l]).contains_day(mnew.latest));
            }
        }
    }
}

/// What one pass of the gap filler over one outage interval does: the store
/// stays well-formed; the watermark, the prefixes and the keys are
/// unchanged; an entry whose runs do not exactly straddle the interval is
/// untouched; an entry whose runs do straddle it ends fully compressed with
/// exactly the interval's days added to its date set.
pub open spec fn gap_step(a: TrieModel, b: TrieModel, gap_start: i64, gap_end: i64) -> bool {
    &&& b.wf()
    &&& b.latest == a.latest
    &&& b.nodes.len() == a.nodes.len()
    &&& forall|t: int|
        0 <= t < b.nodes.len() ==> (#[trigger] b.nodes[t]).prefix == a.nodes[t].prefix
            && b.nodes[t].entries.len() == a.nodes[t].entries.len()
    &&& forall|t: int, k: int|
        0 <= t < b.nodes.len() && 0 <= k < (#[trigger] b.nodes[t]).entries.len() ==> (
        #[trigger] b.nodes[t].entries[k]).max_len == a.nodes[t].entries[k].max_len
            && b.nodes[t].entries[k].origin == a.nodes[t].entries[k].origin
    &&& forall|t: int, k: int|
        0 <= t < b.nodes.len() && 0 <= k < (#[trigger] b.nodes[t]).entries.len() && !straddles(
            a.nodes[t].entries[k].runs,
            gap_start,
            gap_end,
        ) ==> #[trigger] b.nodes[t].entries[k] == a.nodes[t].entries[k]
    &&& forall|t: int, k: int|
        0 <= t < b.nodes.len() && 0 <= k < (#[trigger] b.nodes[t]).entries.len() && straddles(
            a.nodes[t].entries[k].runs,
            gap_start,
            gap_end,
        ) ==> (#[trigger] b.nodes[t].entries[k]).loose.len() == 0
    &&& forall|t: int, k: int, d: i64|
        0 <= t < b.nodes.len() && 0 <= k < (#[trigger] b.nodes[t]).entries.len() && straddles(
            a.nodes[t].entries[k].runs,
            gap_start,
            gap_end,
        ) && d % 86400 == 0 ==> (#[trigger] b.nodes[t].entries[k].contains_day(d) <==> (
        a.nodes[t].entries[k].contains_day(d) || gap_start <= d <= gap_end))
}

/// Law: every recorded day is at most the watermark, and a non-zero
/// watermark is itself a recorded day. This holds of every well-formed
/// index, so it holds after any ingest.
pub proof fn lemma_latest_date_bound(m: TrieModel)
    requires
        m.wf(),
    ensures
        forall|i: int, k: int, d: i64|
            0 <= i < m.nodes.len() && 0 <= k < (#[trigger] m.nodes[i]).entries.len() && d % 86400
                == 0 && #[trigger] m.nodes[i].entries[k].contains_day(d) ==> d <= m.latest,
        m.latest == 0 || exists|i: int|
            0 <= i < m.nodes.len() && node_has_day(#[trigger] m.nodes[i], m.latest),
{
    assert forall|i: int, k: int, d: i64|
        0 <= i < m.nodes.len() && 0 <= k < (#[trigger] m.nodes[i]).entries.len() && d % 86400 == 0
            && #[trigger] m.nodes[i].entries[k].contains_day(d) implies d <= m.latest by {
        assert(node_days_le(m.nodes[i], m.latest));
    }
}

/// Law: ingest is idempotent. Folding the same record in twice, in either
/// mode, leaves the index exactly as folding it in once: in bootstrap mode
/// the loose day set absorbs the duplicate, in incremental mode the second
/// day is at the tail run's end and is dropped.
pub proof fn lemma_ingest_idempotent(
    m: TrieModel,
    prefix: IpPrefix,
    max_len: u8,
    origin: u32,
    d: i64,
    bootstrap: bool,
)
    requires
        m.wf(),
        is_day_ts(d),
    ensures
        ingest_one(
            ingest_one(m, prefix, max_len, origin, d, bootstrap),
            prefix,
            max_len,
            origin,
            d,
            bootstrap,
        ) == ingest_one(m, prefix, max_len, origin, d, bootstrap),
{
    let m1 = ingest_one(m, prefix, max_len, origin, d, bootstrap);
    let m2 = ingest_one(m1, prefix, max_len, origin, d, bootstrap);
    let key = (max_len, origin);
    let e_new = new_entry_spec(d, max_len, origin, bootstrap);
    assert(push_date_spec(e_new, d, bootstrap) == e_new) by {
        if bootstrap {
            assert(e_new.loose[0] == d);
            assert(e_new.loose.contains(d));
        } else {
            assert(e_new.runs.last().1 == d);
        }
    }
    assert(m1.latest >= d && m1.latest >= m.latest);
    if !has_node(m.nodes, prefix) {
        let nn = NodeModel { prefix, entries: seq![e_new] };
        assert(m1.nodes == m.nodes.push(nn));
        assert(has_node(m1.nodes, prefix)) by {
            assert((#[trigger] m1.nodes[m.nodes.len() as int]).prefix == prefix);
        }
        let i1 = node_index(m1.nodes, prefix);
        assert(0 <= i1 < m1.nodes.len() && m1.nodes[i1].prefix == prefix);
        assert(i1 == m.nodes.len()) by {
            if i1 < m.nodes.len() {
                assert((#[trigger] m.nodes[i1]).prefix == prefix);
                assert(has_node(m.nodes, prefix));
            }
        }
        let n1 = m1.nodes[i1];
        assert(n1 == nn);
        assert(has_key(n1.entries, key)) by {
            assert(entry_key(#[trigger] n1.entries[0]) == key);
        }
        let k1 = key_index(n1.entries, key);
        assert(0 <= k1 < n1.entries.len() && entry_key(n1.entries[k1]) == key);
        assert(k1 == 0);
        assert(n1.entries.update(k1, push_date_spec(n1.entries[k1], d, bootstrap))
            =~= n1.entries);
        assert(m2.nodes =~~= m1.nodes);
        assert(m2.latest == m1.latest);
        assert(m2 =~~= m1);
    } else {
        let i0 = node_index(m.nodes, prefix);
        assert(0 <= i0 < m.nodes.len() && m.nodes[i0].prefix == prefix);
        let n0 = m.nodes[i0];
        assert(node_wf(n0));
        let entries2 = if !has_key(n0.entries, key) {
            n0.entries.push(e_new)
        } else {
            let k0 = key_index(n0.entries, key);
            n0.entries.update(k0, push_date_spec(n0.entries[k0], d, bootstrap))
        };
        let nn = NodeModel { prefix, entries: entries2 };
        assert(m1.nodes == m.nodes.update(i0, nn));
        assert(has_node(m1.nodes, prefix)) by {
            assert((#[trigger] m1.nodes[i0]).prefix == prefix);
        }
        let i1 = node_index(m1.nodes, prefix);
        assert(0 <= i1 < m1.nodes.len() && m1.nodes[i1].prefix == prefix);
        assert(i1 == i0) by {
            if i1 != i0 {
                assert(m1.nodes[i1] == m.nodes[i1]);
                assert(m.nodes[i1].prefix == m.nodes[i0].prefix);
            }
        }
        if !has_key(n0.entries, key) {
            assert(has_key(nn.entries, key)) by {
                assert(entry_key(#[trigger] nn.entries[n0.entries.len() as int]) == key);
            }
            let k1 = key_index(nn.entries, key);
            assert(0 <= k1 < nn.entries.len() && entry_key(nn.entries[k1]) == key);
            assert(k1 == n0.entries.len()) by {
                if k1 < n0.entries.len() {
                    assert(entry_key(#[trigger] n0.entries[k1]) == key);
                    assert(has_key(n0.entries, key));
                }
            }
            assert(nn.entries[k1] == e_new);
            assert(nn.entries.update(k1, push_date_spec(nn.entries[k1], d, bootstrap))
                =~= nn.entries);
            assert(m2.nodes =~~= m1.nodes);
            assert(m2 =~~= m1);
        } else {
            let k0 = key_index(n0.entries, key);
            assert(0 <= k0 < n0.entries.len() && entry_key(n0.entries[k0]) == key);
            let e0 = n0.entries[k0];
            let e2 = push_date_spec(e0, d, bootstrap);
            assert(entry_key(e2) == key);
            assert(nn.entries == n0.entries.update(k0, e2));
            assert(has_key(nn.entries, key)) by {
                assert(entry_key(#[trigger] nn.entries[k0]) == key);
            }
            let k1 = key_index(nn.entries, key);
            assert(0 <= k1 < nn.entries.len() && entry_key(nn.entries[k1]) == key);
            assert(k1 == k0) by {
                if k1 != k0 {
                    assert(nn.entries[k1] == n0.entries[k1]);
                    assert(entry_key(n0.entries[k1]) == entry_key(n0.entries[k0]));
                }
            }
            assert(push_date_spec(e2, d, bootstrap) == e2) by {
                if bootstrap {
                    if e0.loose.contains(d) {
                        assert(e2 == e0);
                    } else {
                        assert(e2.loose == e0.loose.push(d));
                        assert(e2.loose[e0.loose.len() as int] == d);
                        assert(e2.loose.contains(d));
                    }
                } else {
                    if e0.runs.len() == 0 {
                        assert(e2.runs.last().1 == d);
                    } else {
                        let last0 = e0.runs.last();
                        if d == last0.1 + 86400 {
                            assert(e2.runs.last().1 == d);
                        } else if d > last0.1 + 86400 {
                            assert(e2.runs.last().1 == d);
                        } else {
                            assert(e2 == e0);
                        }
                    }
                }
            }
            assert(nn.entries.update(k1, push_date_spec(nn.entries[k1], d, bootstrap))
                =~= nn.entries);
            assert(m2.nodes =~~= m1.nodes);
            assert(m2 =~~= m1);
        }
    }
}

/// Replacing one entry by a well-formed entry with the same key that keeps
/// every recorded day and gains only days below the watermark keeps the
/// index well-formed.
proof fn lemma_entry_replace_wf(mprev: TrieModel, mnew: TrieModel, i: int, k: int)
    requires
        mprev.wf(),
        0 <= i < mprev.nodes.len(),
        0 <= k < mprev.nodes[i].entries.len(),
        mnew.latest == mprev.latest,
        mnew.nodes.len() == mprev.nodes.len(),
        forall|t: int|
            0 <= t < mnew.nodes.len() && t != i ==> #[trigger] mnew.nodes[t] == mprev.nodes[t],
        mnew.nodes[i].prefix == mprev.nodes[i].prefix,
        mnew.nodes[i].entries.len() == mprev.nodes[i].entries.len(),
        forall|l: int|
            0 <= l < mnew.nodes[i].entries.len() && l != k ==> #[trigger] mnew.nodes[i].entries[l]
                == mprev.nodes[i].entries[l],
        mnew.nodes[i].entries[k].wf(),
        mnew.nodes[i].entries[k].max_len == mprev.nodes[i].entries[k].max_len,
        mnew.nodes[i].entries[k].origin == mprev.nodes[i].entries[k].origin,
        forall|d: i64|
            d % 86400 == 0 && #[trigger] mprev.nodes[i].entries[k].contains_day(d)
                ==> mnew.nodes[i].entries[k].contains_day(d),
        forall|d: i64|
            d % 86400 == 0 && #[trigger] mnew.nodes[i].entries[k].contains_day(d) ==> (
            mprev.nodes[i].entries[k].contains_day(d) || d <= mprev.latest),
    ensures
        mnew.wf(),
{
    assert forall|t: int| 0 <= t < mnew.nodes.len() implies node_wf(#[trigger] mnew.nodes[t]) by {
        assert(node_wf(mprev.nodes[t]));
        if t == i {
            assert forall|l: int|
                0 <= l < mnew.nodes[t].entries.len() implies (
            #[trigger] mnew.nodes[t].entries[l]).wf() by {
                if l != k {
                    assert(mnew.nodes[t].entries[l] == mprev.nodes[t].entries[l]);
                }
            }
            assert forall|l: int, l2: int|
                0 <= l < l2 < mnew.nodes[t].entries.len() implies entry_key(
                #[trigger] mnew.nodes[t].entries[l],
            ) != entry_key(#[trigger] mnew.nodes[t].entries[l2]) by {
                assert(entry_key(mnew.nodes[t].entries[l]) == entry_key(mprev.nodes[t].entries[l]))
                    by {
                    if l != k {
                        assert(mnew.nodes[t].entries[l] == mprev.nodes[t].entries[l]);
                    }
                }
                assert(entry_key(mnew.nodes[t].entries[l2]) == entry_key(
                    mprev.nodes[t].entries[l2],
                )) by {
                    if l2 != k {
                        assert(mnew.nodes[t].entries[l2] == mprev.nodes[t].entries[l2]);
                    }
                }
            }
        }
    }
    assert forall|t: int, j: int| 0 <= t < j < mnew.nodes.len() implies (
    #[trigger] mnew.nodes[t]).prefix != (#[trigger] mnew.nodes[j]).prefix by {
        assert(mnew.nodes[t].prefix == mprev.nodes[t].prefix) by {
            if t != i {
                assert(mnew.nodes[t] == mprev.nodes[t]);
            }
        }
        assert(mnew.nodes[j].prefix == mprev.nodes[j].prefix) by {
            if j != i {
                assert(mnew.nodes[j] == mprev.nodes[j]);
            }
        }
    }
    assert forall|t: int| 0 <= t < mnew.nodes.len() implies node_days_le(
        #[trigger] mnew.nodes[t],
        mnew.latest,
    ) by {
        assert(node_days_le(mprev.nodes[t], mprev.latest));
        assert forall|l: int, x: i64|
            0 <= l < mnew.nodes[t].entries.len() && x % 86400 == 0
                && #[trigger] mnew.nodes[t].entries[l].contains_day(x) implies x <= mnew.latest by {
            if t == i && l == k {
                if mprev.nodes[t].entries[l].contains_day(x) {
                }
            } else {
                assert(mnew.nodes[t].entries[l] == mprev.nodes[t].entries[l]) by {
                    if t != i {
                        assert(mnew.nodes[t] == mprev.nodes[t]);
                    }
                }
                assert(mprev.nodes[t].entries[l].contains_day(x));
            }
        }
    }
    assert(mnew.latest == 0 || exists|t: int|
        0 <= t < mnew.nodes.len() && node_has_day(#[trigger] mnew.nodes[t], mnew.latest)) by {
        if mprev.latest != 0 {
            let t = choose|t: int|
                0 <= t < mprev.nodes.len() && node_has_day(#[trigger] mprev.nodes[t], mprev.latest);
            let l = choose|l: int|
                0 <= l < mprev.nodes[t].entries.len() && (
                #[trigger] mprev.nodes[t].entries[l]).contains_day(mprev.latest);
            assert(mprev.latest % 86400 == 0);
            assert(mnew.nodes[t].entries[l].contains_day(mnew.latest)) by {
                if t != i || l != k {
                    assert(mnew.nodes[t].entries[l] == mprev.nodes[t].entries[l]) by {
                        if t != i {
                            assert(mnew.nodes[t] == mprev.nodes[t]);
                        }
                    }
                }
            }
            assert(node_has_day(#[trigger] mnew.nodes[t], mnew.latest)) by {
                assert((#[trigger] mnew.nodes[t].entries[l]).contains_day(mnew.latest));
            }
        }
    }
}

/// Appending a node for a fresh prefix keeps the index well-formed.
proof fn lemma_wf_after_append(
    m: TrieModel,
    prefix: IpPrefix,
    max_len: u8,
    origin: u32,
    d: i64,
    bootstrap: bool,
)
    requires
        m.wf(),
        prefix.wf(),
        is_day_ts(d),
        !has_node(m.nodes, prefix),
    ensures
        ingest_one(m, prefix, max_len, origin, d, bootstrap).wf(),
{
    let m2 = ingest_one(m, prefix, max_len, origin, d, bootstrap);
    let e = new_entry_spec(d, max_len, origin, bootstrap);
    let nn = NodeModel { prefix, entries: seq![e] };
    lemma_new_entry_cover(d, max_len, origin, bootstrap);
    assert(e.wf()) by {
        if bootstrap {
        } else {
        }
    }
    assert(node_wf(nn));
    assert forall|i: int| 0 <= i < m2.nodes.len() implies node_wf(#[trigger] m2.nodes[i]) by {
        if i < m.nodes.len() {
            assert(m2.nodes[i] == m.nodes[i]);
        }
    }
    assert forall|i: int, j: int| 0 <= i < j < m2.nodes.len() implies (
    #[trigger] m2.nodes[i]).prefix != (#[trigger] m2.nodes[j]).prefix by {
        if j < m.nodes.len() {
            assert(m2.nodes[i] == m.nodes[i] && m2.nodes[j] == m.nodes[j]);
        } else {
            assert(m2.nodes[i] == m.nodes[i]);
            assert(m2.nodes[j].prefix == prefix);
            if m.nodes[i].prefix == prefix {
                assert(has_node(m.nodes, prefix)) by {
                    assert((#[trigger] m.nodes[i]).prefix == prefix);
                }
            }
        }
    }
    assert forall|i: int| 0 <= i < m2.nodes.len() implies node_days_le(
        #[trigger] m2.nodes[i],
        m2.latest,
    ) by {
        if i < m.nodes.len() {
            assert(m2.nodes[i] == m.nodes[i]);
            assert(node_days_le(m.nodes[i], m.latest));
            assert forall|k: int, x: i64|
                0 <= k < m2.nodes[i].entries.len() && x % 86400 == 0
                    && #[trigger] m2.nodes[i].entries[k].contains_day(x) implies x <= m2.latest by {
                assert(m.nodes[i].entries[k].contains_day(x));
            }
        } else {
            assert forall|k: int, x: i64|
                0 <= k < m2.nodes[i].entries.len() && x % 86400 == 0
                    && #[trigger] m2.nodes[i].entries[k].contains_day(x) implies x <= m2.latest by {
                assert(m2.nodes[i].entries[k] == e);
                assert(x == d);
            }
        }
    }
    assert(m2.latest == 0 || exists|i: int|
        0 <= i < m2.nodes.len() && node_has_day(#[trigger] m2.nodes[i], m2.latest)) by {
        if d > m.latest {
            assert(e.contains_day(d));
            assert(node_has_day(nn, d)) by {
                assert((#[trigger] nn.entries[0]).contains_day(d));
            }
            assert(node_has_day(#[trigger] m2.nodes[m.nodes.len() as int], m2.latest));
        } else if m.latest != 0 {
            let i = choose|i: int|
                0 <= i < m.nodes.len() && node_has_day(#[trigger] m.nodes[i], m.latest);
            assert(node_has_day(#[trigger] m2.nodes[i], m2.latest));
        }
    }
}

/// Appending a fresh-keyed entry to an existing node keeps the index
/// well-formed.
proof fn lemma_wf_after_entry_append(
    m: TrieModel,
    i: int,
    max_len: u8,
    origin: u32,
    d: i64,
    bootstrap: bool,
)
    requires
        m.wf(),
        0 <= i < m.nodes.len(),
        is_day_ts(d),
        has_node(m.nodes, m.nodes[i].prefix),
        node_index(m.nodes, m.nodes[i].prefix) == i,
        !has_key(m.nodes[i].entries, (max_len, origin)),
    ensures
        ingest_one(m, m.nodes[i].prefix, max_len, origin, d, bootstrap).wf(),
{
    let prefix = m.nodes[i].prefix;
    let m2 = ingest_one(m, prefix, max_len, origin, d, bootstrap);
    let e = new_entry_spec(d, max_len, origin, bootstrap);
    let n0 = m.nodes[i];
    let nn = NodeModel { prefix, entries: n0.entries.push(e) };
    lemma_new_entry_cover(d, max_len, origin, bootstrap);
    assert(e.wf());
    assert(m2.nodes == m.nodes.update(i, nn));
    assert(node_wf(n0));
    assert(node_wf(nn)) by {
        assert forall|k: int| 0 <= k < nn.entries.len() implies (#[trigger] nn.entries[k]).wf() by {
            if k < n0.entries.len() {
                assert(nn.entries[k] == n0.entries[k]);
            }
        }
        assert forall|k: int, l: int| 0 <= k < l < nn.entries.len() implies entry_key(
            #[trigger] nn.entries[k],
        ) != entry_key(#[trigger] nn.entries[l]) by {
            if l < n0.entries.len() {
                assert(nn.entries[k] == n0.entries[k] && nn.entries[l] == n0.entries[l]);
            } else {
                assert(nn.entries[k] == n0.entries[k]);
                assert(nn.entries[l] == e);
                if entry_key(n0.entries[k]) == (max_len, origin) {
                    assert(has_key(n0.entries, (max_len, origin))) by {
                        assert(entry_key(#[trigger] n0.entries[k]) == (max_len, origin));
                    }
                }
            }
        }
    }
    assert forall|t: int| 0 <= t < m2.nodes.len() implies node_wf(#[trigger] m2.nodes[t]) by {
        if t != i {
            assert(m2.nodes[t] == m.nodes[t]);
        }
    }
    assert forall|t: int, j: int| 0 <= t < j < m2.nodes.len() implies (
    #[trigger] m2.nodes[t]).prefix != (#[trigger] m2.nodes[j]).prefix by {
        assert(m2.nodes[t].prefix == m.nodes[t].prefix);
        assert(m2.nodes[j].prefix == m.nodes[j].prefix);
    }
    assert forall|t: int| 0 <= t < m2.nodes.len() implies node_days_le(
        #[trigger] m2.nodes[t],
        m2.latest,
    ) by {
        assert(node_days_le(m.nodes[t], m.latest));
        assert forall|k: int, x: i64|
            0 <= k < m2.nodes[t].entries.len() && x % 86400 == 0
                && #[trigger] m2.nodes[t].entries[k].contains_day(x) implies x <= m2.latest by {
            if t == i {
                if k < n0.entries.len() {
                    assert(m.nodes[t].entries[k].contains_day(x));
                } else {
                    assert(m2.nodes[t].entries[k] == e);
                    assert(x == d);
                }
            } else {
                assert(m2.nodes[t] == m.nodes[t]);
                assert(m.nodes[t].entries[k].contains_day(x));
            }
        }
    }
    assert(m2.latest == 0 || exists|t: int|
        0 <= t < m2.nodes.len() && node_has_day(#[trigger] m2.nodes[t], m2.latest)) by {
        if d > m.latest {
            assert(e.contains_day(d));
            assert(node_has_day(nn, d)) by {
                assert((#[trigger] nn.entries[n0.entries.len() as int]).contains_day(d));
            }
            assert(node_has_day(#[trigger] m2.nodes[i], m2.latest));
        } else if m.latest != 0 {
            let t = choose|t: int|
                0 <= t < m.nodes.len() && node_has_day(#[trigger] m.nodes[t], m.latest);
            if t == i {
                let k = choose|k: int|
                    0 <= k < n0.entries.len() && (#[trigger] n0.entries[k]).contains_day(m.latest);
                assert(nn.entries[k].contains_day(m.latest));
                assert(node_has_day(#[trigger] m2.nodes[i], m2.latest)) by {
                    assert((#[trigger] nn.entries[k]).contains_day(m.latest));
                }
            } else {
                assert(node_has_day(#[trigger] m2.nodes[t], m2.latest));
            }
        }
    }
}

/// Recording a day on an existing entry keeps the index well-formed.
proof fn lemma_wf_after_push(
    m: TrieModel,
    i: int,
    k: int,
    max_len: u8,
    origin: u32,
    d: i64,
    bootstrap: bool,
)
    requires
        m.wf(),
        0 <= i < m.nodes.len(),
        0 <= k < m.nodes[i].entries.len(),
        is_day_ts(d),
        has_node(m.nodes, m.nodes[i].prefix),
        node_index(m.nodes, m.nodes[i].prefix) == i,
        entry_key(m.nodes[i].entries[k]) == (max_len, origin),
        has_key(m.nodes[i].entries, (max_len, origin)),
        key_index(m.nodes[i].entries, (max_len, origin)) == k,
        push_date_spec(m.nodes[i].entries[k], d, bootstrap).wf(),
    ensures
        ingest_one(m, m.nodes[i].prefix, max_len, origin, d, bootstrap).wf(),
{
    let prefix = m.nodes[i].prefix;
    let m2 = ingest_one(m, prefix, max_len, origin, d, bootstrap);
    let n0 = m.nodes[i];
    let e0 = n0.entries[k];
    let e2 = push_date_spec(e0, d, bootstrap);
    let nn = NodeModel { prefix, entries: n0.entries.update(k, e2) };
    assert(node_wf(n0));
    assert(e0.wf());
    lemma_push_date_cover(e0, d, bootstrap);
    assert(m2.nodes == m.nodes.update(i, nn));
    assert(node_wf(nn)) by {
        assert forall|t: int| 0 <= t < nn.entries.len() implies (#[trigger] nn.entries[t]).wf() by {
            if t != k {
                assert(nn.entries[t] == n0.entries[t]);
            }
        }
        assert forall|t: int, l: int| 0 <= t < l < nn.entries.len() implies entry_key(
            #[trigger] nn.entries[t],
        ) != entry_key(#[trigger] nn.entries[l]) by {
            assert(entry_key(nn.entries[t]) == entry_key(n0.entries[t]));
            assert(entry_key(nn.entries[l]) == entry_key(n0.entries[l]));
        }
    }
    assert forall|t: int| 0 <= t < m2.nodes.len() implies node_wf(#[trigger] m2.nodes[t]) by {
        if t != i {
            assert(m2.nodes[t] == m.nodes[t]);
        }
    }
    assert forall|t: int, j: int| 0 <= t < j < m2.nodes.len() implies (
    #[trigger] m2.nodes[t]).prefix != (#[trigger] m2.nodes[j]).prefix by {
        assert(m2.nodes[t].prefix == m.nodes[t].prefix);
        assert(m2.nodes[j].prefix == m.nodes[j].prefix);
    }
    assert forall|t: int| 0 <= t < m2.nodes.len() implies node_days_le(
        #[trigger] m2.nodes[t],
        m2.latest,
    ) by {
        assert(node_days_le(m.nodes[t], m.latest));
        assert forall|l: int, x: i64|
            0 <= l < m2.nodes[t].entries.len() && x % 86400 == 0
                && #[trigger] m2.nodes[t].entries[l].contains_day(x) implies x <= m2.latest by {
            if t == i && l == k {
                assert(m2.nodes[t].entries[l] == e2);
                if e0.contains_day(x) {
                    assert(m.nodes[t].entries[l].contains_day(x));
                } else {
                    assert(x == d);
                }
            } else {
                assert(m2.nodes[t].entries[l] == m.nodes[t].entries[l]);
                assert(m.nodes[t].entries[l].contains_day(x));
            }
        }
    }
    assert(m2.latest == 0 || exists|t: int|
        0 <= t < m2.nodes.len() && node_has_day(#[trigger] m2.nodes[t], m2.latest)) by {
        if d > m.latest {
            // the pushed day became the watermark, so it must be recorded
            assert(e2.contains_day(d)) by {
                if !e2.contains_day(d) {
                    let y = choose|y: i64|
                        y % 86400 == 0 && #[trigger] e0.contains_day(y) && d <= y;
                    assert(node_days_le(m.nodes[i], m.latest));
                    assert(y <= m.latest);
                }
            }
            assert(node_has_day(nn, d)) by {
                assert((#[trigger] nn.entries[k]).contains_day(d));
            }
            assert(node_has_day(#[trigger] m2.nodes[i], m2.latest));
        } else if m.latest != 0 {
            let t = choose|t: int|
                0 <= t < m.nodes.len() && node_has_day(#[trigger] m.nodes[t], m.latest);
            if t == i {
                let l = choose|l: int|
                    0 <= l < n0.entries.len() && (#[trigger] n0.entries[l]).contains_day(m.latest);
                if l == k {
                    assert(e2.contains_day(m.latest));
                    assert(node_has_day(nn, m.latest)) by {
                        assert((#[trigger] nn.entries[k]).contains_day(m.latest));
                    }
                } else {
                    assert(node_has_day(nn, m.latest)) by {
                        assert((#[trigger] nn.entries[l]).contains_day(m.latest));
                    }
                }
                assert(node_has_day(#[trigger] m2.nodes[i], m2.latest));
            } else {
                assert(node_has_day(#[trigger] m2.nodes[t], m2.latest));
            }
        }
    }
}

/// Why a dump could not be restored.
#[derive(Debug, Clone, Copy, PartialEq, Eq, Structural)]
pub enum LoadError {
    /// The bytes are not the dump of any well-formed store.
    Malformed,
}

/// Two well-formed stores over the same nodes have the same watermark.
pub proof fn lemma_latest_unique(a: TrieModel, b: TrieModel)
    requires
        a.wf(),
        b.wf(),
        a.nodes == b.nodes,
    ensures
        a.latest == b.latest,
{
    if a.latest != 0 {
        let i = choose|i: int|
            0 <= i < a.nodes.len() && node_has_day(#[trigger] a.nodes[i], a.latest);
        let k = choose|k: int|
            0 <= k < a.nodes[i].entries.len() && (#[trigger] a.nodes[i].entries[k]).contains_day(
                a.latest,
            );
        assert(node_days_le(b.nodes[i], b.latest));
        assert(a.latest <= b.latest) by {
            assert(b.nodes[i].entries[k].contains_day(a.latest));
        }
    }
    if b.latest != 0 {
        let i = choose|i: int|
            0 <= i < b.nodes.len() && node_has_day(#[trigger] b.nodes[i], b.latest);
        let k = choose|k: int|
            0 <= k < b.nodes[i].entries.len() && (#[trigger] b.nodes[i].entries[k]).contains_day(
                b.latest,
            );
        assert(node_days_le(a.nodes[i], a.latest));
        assert(b.latest <= a.latest) by {
            assert(a.nodes[i].entries[k].contains_day(b.latest));
        }
    }
}

impl RoasTrie {
    /// Recompute the watermark from the stored days alone.
    fn compute_latest(nodes: &Vec<PrefixNode>) -> (r: i64)
        requires
            forall|i: int| 0 <= i < nodes@.len() ==> node_wf(#[trigger] nodes@[i]@),
        ensures
            r % 86400 == 0,
            0 <= r <= MAX_DAY_TS,
            forall|i: int|
                0 <= i < nodes@.len() ==> node_days_le(#[trigger] nodes@[i]@, r),
            r == 0 || exists|i: int|
                0 <= i < nodes@.len() && node_has_day(#[trigger] nodes@[i]@, r),
    {
        let mut latest: i64 = 0;
        let n = nodes.len();
        let mut i: usize = 0;
        while i < n
            invariant
                i <= n == nodes@.len(),
                forall|t: int| 0 <= t < nodes@.len() ==> node_wf(#[trigger] nodes@[t]@),
                latest % 86400 == 0,
                0 <= latest <= MAX_DAY_TS,
                forall|t: int| 0 <= t < i ==> node_days_le(#[trigger] nodes@[t]@, latest),
                latest == 0 || exists|t: int|
                    0 <= t < i && node_has_day(#[trigger] nodes@[t]@, latest),
            decreases n - i,
        {
            let ecount = nodes[i].entries.len();
            let mut k: usize = 0;
            while k < ecount
                invariant
                    0 <= i < nodes@.len(),
                    forall|t: int| 0 <= t < nodes@.len() ==> node_wf(#[trigger] nodes@[t]@),
                    ecount == nodes@[i as int]@.entries.len(),
                    k <= ecount,
                    latest % 86400 == 0,
                    0 <= latest <= MAX_DAY_TS,
                    forall|t: int| 0 <= t < i ==> node_days_le(#[trigger] nodes@[t]@, latest),
                    forall|l: int, x: i64|
                        0 <= l < k && x % 86400 == 0
                            && #[trigger] nodes@[i as int]@.entries[l].contains_day(x) ==> x
                            <= latest,
                    latest == 0 || (exists|t: int|
                        0 <= t < i && node_has_day(#[trigger] nodes@[t]@, latest)) || (exists|
                        l: int,
                    |
                        0 <= l < k && (#[trigger] nodes@[i as int]@.entries[l]).contains_day(
                            latest,
                        )),
                decreases ecount - k,
            {
                proof {
                    assert(node_wf(nodes@[i as int]@));
                    assert(nodes@[i as int]@.entries[k as int].wf());
                }
                let m = nodes[i].entries[k].max_recorded_day();
                if m > latest {
                    latest = m;
                    proof {
                        assert((#[trigger] nodes@[i as int]@.entries[k as int]).contains_day(
                            latest,
                        ));
                        assert forall|t: int| 0 <= t < i implies node_days_le(
                            #[trigger] nodes@[t]@,
                            latest,
                        ) by {
                            assert forall|l: int, x: i64|
                                0 <= l < nodes@[t]@.entries.len() && x % 86400 == 0
                                    && #[trigger] nodes@[t]@.entries[l].contains_day(x) implies x
                                <= latest by {};
                        }
                    }
                } else {
                    proof {
                        assert forall|x: i64|
                            x % 86400 == 0
                                && #[trigger] nodes@[i as int]@.entries[k as int].contains_day(x)
                            implies x <= latest by {};
                    }
                }
                k = k + 1;
            }
            proof {
                assert(node_days_le(nodes@[i as int]@, latest));
            }
            i = i + 1;
        }
        latest
    }

    /// Parse one snapshot and fold its records into the index: the whole
    /// file is rejected (and the index untouched) exactly where the parser
    /// rejects it.
    pub fn process_csv(&mut self, url: &[u8], lines: &Vec<Vec<u8>>, bootstrap: bool) -> (r:
        Result<(), crate::csv::ParseError>)
        requires
            old(self)@.wf(),
        ensures
            final(self)@.wf(),
            r matches Err(e) ==> final(self)@ == old(self)@ && crate::csv::parse_roas_csv_spec_err(
                url@,
                lines@.map_values(|l: Vec<u8>| l@),
                e,
            ),
            r is Ok <==> (crate::csv::url_ok(url@) && crate::csv::url_date(url@) is Some
                && crate::csv::header_ok(lines@.map_values(|l: Vec<u8>| l@))),
            r is Ok ==> (crate::csv::url_date(url@) matches Some(ts) && final(self)@ == ingest_seq(
                old(self)@,
                crate::csv::lines_records(
                    crate::csv::url_tal(url@),
                    ts,
                    lines@.map_values(|l: Vec<u8>| l@),
                ),
                bootstrap,
            )),
    {
        match crate::csv::parse_roas_csv(url, lines) {
            Ok(entries) => {
                let ghost rs = entries@.map_values(|r: RoaEntry| r@);
                self.process_entries(&entries, bootstrap);
                Ok(())
            },
            Err(e) => Err(e),
        }
    }

    /// Serialize the whole store to its binary dump form. The watermark is
    /// not stored; `load` recomputes it.
    pub fn dump(&self) -> (r: Vec<u8>)
        requires
            self@.wf(),
        ensures
            r@ == enc_trie(self@),
    {
        proof {
            vstd::arithmetic::power2::lemma2_to64();
        }
        let mut out: Vec<u8> = Vec::new();
        let n = self.nodes.len();
        write_le(&mut out, n as u128, 8);
        let ghost head = enc_le(n as int, 8);
        let mut i: usize = 0;
        proof {
            assert(self@.nodes.take(0) =~= Seq::<NodeModel>::empty());
            assert(out@ =~= head + enc_nodes(self@.nodes.take(0)));
        }
        while i < n
            invariant
                i <= n == self.nodes@.len(),
                self@.wf(),
                head == enc_le(n as int, 8),
                out@ == head + enc_nodes(self@.nodes.take(i as int)),
            decreases n - i,
        {
            proof {
                assert(node_wf(self@.nodes[i as int]));
                assert forall|t: int|
                    0 <= t < self.nodes@[i as int].entries@.len() implies (
                #[trigger] self.nodes@[i as int].entries@[t])@.wf() by {
                    assert(self@.nodes[i as int].entries[t]
                        == self.nodes@[i as int].entries@[t]@);
                }
                assert(self.nodes@[i as int].prefix.wf()) by {
                    assert(self@.nodes[i as int].prefix == self.nodes@[i as int].prefix);
                }
            }
            write_node(&mut out, &self.nodes[i].prefix, &self.nodes[i].entries);
            proof {
                lemma_enc_nodes_push(self@.nodes.take(i as int), self@.nodes[i as int]);
                assert(self@.nodes.take(i as int).push(self@.nodes[i as int])
                    =~= self@.nodes.take(i + 1));
                assert(out@ =~= head + enc_nodes(self@.nodes.take(i + 1)));
            }
            i = i + 1;
        }
        proof {
            assert(self@.nodes.take(self@.nodes.len() as int) =~= self@.nodes);
            assert(out@ =~= enc_trie(self@));
        }
        out
    }

    /// Restore a store from its binary dump form: exactly the dumps of
    /// well-formed stores are accepted, and the restored store re-encodes to
    /// the very same bytes. The watermark is recomputed from the restored
    /// days.
    pub fn load(bytes: &[u8]) -> (r: Result<RoasTrie, LoadError>)
        ensures
            r matches Ok(t) ==> t@.wf() && bytes@ == enc_trie(t@),
            r is Ok <==> exists|m: TrieModel| m.wf() && bytes@ == #[trigger] enc_trie(m),
            forall|m: TrieModel|
                m.wf() && bytes@ == #[trigger] enc_trie(m) ==> (r matches Ok(t) && t@ == m),
    {
        proof {
            vstd::arithmetic::power2::lemma2_to64();
        }
        let blen = bytes.len();
        let r = Self::load_inner(bytes);
        proof {
            if r is Ok {
                let t = r.unwrap();
                assert(t@.wf() && bytes@ == enc_trie(t@));
                assert(exists|m: TrieModel| m.wf() && bytes@ == #[trigger] enc_trie(m));
            }
        }
        r
    }

    /// The body of `load`.
    fn load_inner(bytes: &[u8]) -> (r: Result<RoasTrie, LoadError>)
        ensures
            r matches Ok(t) ==> t@.wf() && bytes@ == enc_trie(t@),
            forall|m: TrieModel|
                m.wf() && bytes@ == #[trigger] enc_trie(m) ==> (r matches Ok(t) && t@ == m),
    {
        proof {
            vstd::arithmetic::power2::lemma2_to64();
        }
        let blen = bytes.len();
        let got_cnt = read_le(bytes, 0, 8);
        let (cnt_v, mut cur) = match got_cnt {
            Some(x) => x,
            None => {
                proof {
                    assert forall|m: TrieModel|
                        m.wf() && bytes@ == #[trigger] enc_trie(m) implies false by {
                        lemma_trie_head(bytes@, m);
                        assert(bytes@.len() >= 8);
                    }
                }
                return Err(LoadError::Malformed);
            },
        };
        if cnt_v > usize::MAX as u128 {
            proof {
                assert forall|m: TrieModel|
                    m.wf() && bytes@ == #[trigger] enc_trie(m) implies false by {
                    lemma_trie_head(bytes@, m);
                    assert(m.nodes.len() <= blen);
                    assert((m.nodes.len() as int) < pow2(64)) by {
                        vstd::arithmetic::power2::lemma2_to64();
                    }
                    lemma_le_forced(bytes@, 0, m.nodes.len() as int, 8);
                }
            }
            return Err(LoadError::Malformed);
        }
        let cnt = cnt_v as usize;
        let mut built: Vec<PrefixNode> = Vec::new();
        let mut i: usize = 0;
        proof {
            assert(built@.map_values(|p: PrefixNode| p@) =~= Seq::<NodeModel>::empty());
            assert(enc_nodes(built@.map_values(|p: PrefixNode| p@)) =~= Seq::<u8>::empty());
            assert(bytes@.subrange(8, 8) =~= Seq::<u8>::empty());
            assert(bytes_at(bytes@, 8, enc_nodes(built@.map_values(|p: PrefixNode| p@))));
        }
        while i < cnt
            invariant
                i <= cnt,
                blen == bytes@.len(),
                built@.len() == i,
                cnt_v == cnt,
                cnt_v <= usize::MAX as u128,
                bytes_at(bytes@, 0, enc_le(cnt_v as int, 8)),
                forall|t: int| 0 <= t < i ==> node_wf((#[trigger] built@[t])@),
                forall|t: int, u: int|
                    0 <= t < u < i ==> (#[trigger] built@[t])@.prefix != (
                    #[trigger] built@[u])@.prefix,
                bytes_at(bytes@, 8, enc_nodes(built@.map_values(|p: PrefixNode| p@))),
                cur as int == 8 + enc_nodes(built@.map_values(|p: PrefixNode| p@)).len(),
                cur <= blen,
                forall|ms: Seq<NodeModel>|
                    ms.len() == cnt && (forall|t: int|
                        0 <= t < ms.len() ==> node_wf(#[trigger] ms[t])) && bytes_at(
                        bytes@,
                        8,
                        #[trigger] enc_nodes(ms),
                    ) ==> built@.map_values(|p: PrefixNode| p@) == ms.take(i as int),
            decreases cnt - i,
        {
            let got = read_node(bytes, cur);
            proof {
                assert forall|ms: Seq<NodeModel>|
                    ms.len() == cnt && (forall|t: int|
                        0 <= t < ms.len() ==> node_wf(#[trigger] ms[t])) && bytes_at(
                        bytes@,
                        8,
                        #[trigger] enc_nodes(ms),
                    ) implies (got matches Some(g) && g.0 == ms[i as int].prefix && g.1@.map_values(
                    |e: RoasTrieEntry| e@,
                ) == ms[i as int].entries && g.2 as int == cur + enc_node(ms[i as int]).len())
                    by {
                    assert(built@.map_values(|p: PrefixNode| p@) == ms.take(i as int));
                    lemma_enc_nodes_split(ms, i as int);
                    lemma_bytes_at_concat(
                        bytes@,
                        8,
                        enc_nodes(ms.take(i as int)),
                        enc_nodes(ms.skip(i as int)),
                    );
                    let sk = ms.skip(i as int);
                    assert(sk[0] == ms[i as int]);
                    assert(sk.drop_first() =~= ms.skip(i + 1));
                    assert(enc_nodes(sk) == enc_node(ms[i as int]) + enc_nodes(ms.skip(i + 1)));
                    lemma_bytes_at_concat(bytes@, cur as int, enc_node(ms[i as int]), enc_nodes(
                        ms.skip(i + 1),
                    ));
                    assert(bytes_at(bytes@, cur as int, enc_node(ms[i as int])));
                    assert(node_wf(ms[i as int]));
                }
            }
            let (pfx, ents, p2) = match got {
                Some(x) => x,
                None => {
                    proof {
                        assert forall|m: TrieModel|
                            m.wf() && bytes@ == #[trigger] enc_trie(m) implies false by {
                            lemma_trie_head(bytes@, m);
                            assert(m.nodes.len() <= blen);
                            assert((m.nodes.len() as int) < pow2(64)) by {
                                vstd::arithmetic::power2::lemma2_to64();
                            }
                            lemma_le_forced(bytes@, 0, m.nodes.len() as int, 8);
                            assert((cnt_v as int) < pow2(64)) by {
                                vstd::arithmetic::power2::lemma2_to64();
                            }
                            lemma_le_forced(bytes@, 0, cnt_v as int, 8);
                            assert(m.nodes.len() == cnt);
                            assert(forall|u: int| 0 <= u < m.nodes.len() ==> node_wf(
                                #[trigger] m.nodes[u],
                            ));
                            assert(bytes_at(bytes@, 8, enc_nodes(m.nodes)));
                        }
                    }
                    return Err(LoadError::Malformed);
                },
            };
            // reject a duplicated prefix
            let mut dup = false;
            let mut t: usize = 0;
            while t < built.len()
                invariant
                    t <= built@.len(),
                    dup <==> exists|u: int| 0 <= u < t && (#[trigger] built@[u])@.prefix == pfx,
                decreases built@.len() - t,
            {
                if built[t].prefix == pfx {
                    dup = true;
                    proof {
                        assert((#[trigger] built@[t as int])@.prefix == pfx);
                    }
                }
                t = t + 1;
            }
            if dup {
                proof {
                    assert forall|m: TrieModel|
                        m.wf() && bytes@ == #[trigger] enc_trie(m) implies false by {
                        lemma_trie_head(bytes@, m);
                        assert(m.nodes.len() <= blen);
                        assert((m.nodes.len() as int) < pow2(64)) by {
                            vstd::arithmetic::power2::lemma2_to64();
                        }
                        lemma_le_forced(bytes@, 0, m.nodes.len() as int, 8);
                        assert((cnt_v as int) < pow2(64)) by {
                            vstd::arithmetic::power2::lemma2_to64();
                        }
                        lemma_le_forced(bytes@, 0, cnt_v as int, 8);
                        assert(m.nodes.len() == cnt);
                        assert(forall|u: int| 0 <= u < m.nodes.len() ==> node_wf(
                            #[trigger] m.nodes[u],
                        ));
                        assert(bytes_at(bytes@, 8, enc_nodes(m.nodes)));
                        let ms = m.nodes;
                        assert(built@.map_values(|p: PrefixNode| p@) == ms.take(i as int));
                        let u = choose|u: int|
                            0 <= u < built@.len() && (#[trigger] built@[u])@.prefix == pfx;
                        assert(0 <= u < i);
                        assert(built@.map_values(|p: PrefixNode| p@)[u] == built@[u]@);
                        assert(ms.take(i as int)[u] == ms[u]);
                        assert((#[trigger] ms[u]).prefix == pfx);
                        assert((#[trigger] ms[i as int]).prefix == pfx);
                    }
                }
                return Err(LoadError::Malformed);
            }
            let ghost built0m = built@.map_values(|p: PrefixNode| p@);
            let ghost nm_new = NodeModel {
                prefix: pfx,
                entries: ents@.map_values(|e: RoasTrieEntry| e@),
            };
            built.push(PrefixNode { prefix: pfx, entries: ents });
            cur = p2;
            proof {
                assert(built@.map_values(|p: PrefixNode| p@) =~= built0m.push(nm_new));
                lemma_enc_nodes_push(built0m, nm_new);
                lemma_bytes_at_concat(bytes@, 8, enc_nodes(built0m), enc_node(nm_new));
                assert(bytes_at(bytes@, 8, enc_nodes(built@.map_values(|p: PrefixNode| p@))));
                assert forall|ms: Seq<NodeModel>|
                    ms.len() == cnt && (forall|u: int|
                        0 <= u < ms.len() ==> node_wf(#[trigger] ms[u])) && bytes_at(
                        bytes@,
                        8,
                        #[trigger] enc_nodes(ms),
                    ) implies built@.map_values(|p: PrefixNode| p@) == ms.take(i + 1) by {
                    assert(ms[i as int].prefix == nm_new.prefix && ms[i as int].entries
                        == nm_new.entries);
                    assert(built0m.push(nm_new) =~= ms.take(i as int).push(ms[i as int]));
                    assert(ms.take(i as int).push(ms[i as int]) =~= ms.take(i + 1));
                }
            }
            i = i + 1;
        }
        if cur != blen {
            proof {
                assert forall|m: TrieModel|
                    m.wf() && bytes@ == #[trigger] enc_trie(m) implies false by {
                    lemma_trie_head(bytes@, m);
                    assert(m.nodes.len() <= blen);
                    assert((m.nodes.len() as int) < pow2(64)) by {
                        vstd::arithmetic::power2::lemma2_to64();
                    }
                    lemma_le_forced(bytes@, 0, m.nodes.len() as int, 8);
                    assert(m.nodes.len() == cnt);
                    assert(forall|u: int| 0 <= u < m.nodes.len() ==> node_wf(
                        #[trigger] m.nodes[u],
                    ));
                    assert(bytes_at(bytes@, 8, enc_nodes(m.nodes)));
                    assert(built@.map_values(|p: PrefixNode| p@) == m.nodes.take(cnt as int));
                    assert(m.nodes.take(cnt as int) =~= m.nodes);
                    assert(enc_nodes(built@.map_values(|p: PrefixNode| p@)) == enc_nodes(
                        m.nodes,
                    ));
                }
            }
            return Err(LoadError::Malformed);
        }
        let latest = Self::compute_latest(&built);
        let ghost builtv = built@;
        let t = RoasTrie { nodes: built, latest_date: latest };
        proof {
            assert(t@.nodes =~= builtv.map_values(|p: PrefixNode| p@));
            assert forall|u: int| 0 <= u < t@.nodes.len() implies node_wf(
                #[trigger] t@.nodes[u],
            ) by {
                assert(t@.nodes[u] == builtv[u]@);
            }
            assert forall|u: int| 0 <= u < t@.nodes.len() implies node_days_le(
                #[trigger] t@.nodes[u],
                t@.latest,
            ) by {
                assert(t@.nodes[u] == builtv[u]@);
            }
            assert(t@.latest == 0 || exists|u: int|
                0 <= u < t@.nodes.len() && node_has_day(#[trigger] t@.nodes[u], t@.latest)) by {
                if latest != 0 {
                    let u = choose|u: int|
                        0 <= u < builtv.len() && node_has_day(#[trigger] builtv[u]@, latest);
                    assert(node_has_day(#[trigger] t@.nodes[u], t@.latest));
                }
            }
            assert(t@.wf());
            // the bytes are exactly the head plus the nodes
            lemma_enc_le_len(t@.nodes.len() as int, 8);
            assert(t@.nodes.len() == cnt);
            assert(bytes_at(bytes@, 0, enc_le(cnt as int, 8)));
            lemma_bytes_at_concat(bytes@, 0, enc_le(cnt as int, 8), enc_nodes(t@.nodes));
            assert(bytes_at(bytes@, 0, enc_trie(t@)));
            assert(bytes@ =~= enc_trie(t@)) by {
                assert(enc_trie(t@).len() == blen);
                assert(bytes@.subrange(0, blen as int) =~= bytes@);
            }
            assert forall|m: TrieModel|
                m.wf() && bytes@ == #[trigger] enc_trie(m) implies t@ == m by {
                lemma_trie_head(bytes@, m);
                lemma_le_forced(bytes@, 0, m.nodes.len() as int, 8);
                assert(m.nodes.len() == cnt);
                assert(forall|u: int| 0 <= u < m.nodes.len() ==> node_wf(#[trigger] m.nodes[u]));
                assert(bytes_at(bytes@, 8, enc_nodes(m.nodes)));
                assert(built@.map_values(|p: PrefixNode| p@) == m.nodes.take(cnt as int));
                assert(m.nodes.take(cnt as int) =~= m.nodes);
                assert(t@.nodes == m.nodes);
                lemma_latest_unique(t@, m);
                assert(t@ =~~= m);
            }
        }
        Ok(t)
    }
}


} // verus!
