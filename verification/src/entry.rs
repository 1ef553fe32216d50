//! Temporal entries: per-(prefix, max_len, origin) records of the set of UTC
//! days on which the ROA was present.
//!
//! The day set has two representations. `dates` is a duplicate-free bag of
//! loose day timestamps, filled during bulk (bootstrap) ingest, where
//! snapshots arrive out of order. `dates_compressed` is a run-length form: a
//! sequence of closed day intervals, sorted by start, non-overlapping and
//! non-adjacent (every gap is at least one day), extended at its tail during
//! incremental ingest. `full_compress` folds everything into the canonical
//! run-length form.

use vstd::prelude::*;

verus! {

use crate::days::{ONE_DAY, is_day_ts};

/// Mathematical model of a temporal entry.
#[verifier::ext_equal]
pub struct EntryModel {
    pub max_len: u8,
    pub origin: u32,
    pub loose: Seq<i64>,
    pub runs: Seq<(i64, i64)>,
}

/// Some run in `runs` covers the timestamp `d`.
pub open spec fn covers_seq(runs: Seq<(i64, i64)>, d: i64) -> bool {
    exists|i: int| 0 <= i < runs.len() && (#[trigger] runs[i]).0 <= d <= runs[i].1
}

/// Canonical run list: day-timestamp endpoints, each run non-empty, starts
/// strictly ascending, consecutive runs separated by at least one absent day.
pub open spec fn runs_wf(runs: Seq<(i64, i64)>) -> bool {
    &&& forall|i: int|
        0 <= i < runs.len() ==> is_day_ts(#[trigger] runs[i].0) && is_day_ts(runs[i].1)
            && runs[i].0 <= runs[i].1
    &&& forall|i: int, j: int|
        0 <= i < j < runs.len() ==> #[trigger] runs[i].1 + 2 * 86400 <= #[trigger] runs[j].0
}

/// Duplicate-free bag of day timestamps.
pub open spec fn loose_wf(loose: Seq<i64>) -> bool {
    &&& forall|i: int| 0 <= i < loose.len() ==> is_day_ts(#[trigger] loose[i])
    &&& forall|i: int, j: int| 0 <= i < j < loose.len() ==> loose[i] != loose[j]
}

impl EntryModel {
    /// Well-formed entry: both representations valid and at least one day
    /// recorded.
    pub open spec fn wf(self) -> bool {
        &&& loose_wf(self.loose)
        &&& runs_wf(self.runs)
        &&& self.loose.len() + self.runs.len() > 0
    }

    /// The logical date set: membership in either representation.
    pub open spec fn contains_day(self, d: i64) -> bool {
        self.loose.contains(d) || covers_seq(self.runs, d)
    }
}

/// What `new` builds: a single loose day under bootstrap, a single one-day
/// run otherwise.
pub open spec fn new_entry_spec(date_ts: i64, max_len: u8, origin: u32, bootstrap: bool)
    -> EntryModel {
    if bootstrap {
        EntryModel { max_len, origin, loose: seq![date_ts], runs: seq![] }
    } else {
        EntryModel { max_len, origin, loose: seq![], runs: seq![(date_ts, date_ts)] }
    }
}

/// What `push_date` does to the model: bootstrap inserts into the loose bag
/// (idempotently); incremental mode extends or appends the tail run, and
/// ignores any day not beyond the tail.
pub open spec fn push_date_spec(e: EntryModel, d: i64, bootstrap: bool) -> EntryModel {
    if bootstrap {
        if e.loose.contains(d) {
            e
        } else {
            EntryModel { loose: e.loose.push(d), ..e }
        }
    } else {
        if e.runs.len() == 0 {
            EntryModel { runs: seq![(d, d)], ..e }
        } else {
            let last = e.runs.last();
            if d == last.1 + 86400 {
                EntryModel { runs: e.runs.update(e.runs.len() - 1, (last.0, d)), ..e }
            } else if d > last.1 + 86400 {
                EntryModel { runs: e.runs.push((d, d)), ..e }
            } else {
                e
            }
        }
    }
}

/// Two distinct day timestamps differ by at least one whole day.
pub proof fn lemma_aligned_gap(a: i64, b: i64)
    requires
        a % 86400 == 0,
        b % 86400 == 0,
        a < b,
    ensures
        b - a >= 86400,
{
    assert(b - a >= 86400) by (nonlinear_arith)
        requires
            a % 86400 == 0,
            b % 86400 == 0,
            a < b,
    ;
}

/// Pushing one run onto a run list extends its cover by exactly that run's
/// interval.
pub proof fn lemma_covers_push(runs: Seq<(i64, i64)>, x: (i64, i64))
    ensures
        forall|d: i64|
            #[trigger] covers_seq(runs.push(x), d) <==> (covers_seq(runs, d) || (x.0 <= d <= x.1)),
{
    assert forall|d: i64| #[trigger]
        covers_seq(runs.push(x), d) <==> (covers_seq(runs, d) || (x.0 <= d <= x.1)) by {
        if covers_seq(runs.push(x), d) {
            let i = choose|i: int|
                0 <= i < runs.push(x).len() && (#[trigger] runs.push(x)[i]).0 <= d <= runs.push(
                    x,
                )[i].1;
            if i < runs.len() {
                assert(runs[i] == runs.push(x)[i]);
                assert(covers_seq(runs, d));
            }
        }
        if covers_seq(runs, d) {
            let i = choose|i: int|
                0 <= i < runs.len() && (#[trigger] runs[i]).0 <= d <= runs[i].1;
            assert(runs.push(x)[i].0 <= d <= runs.push(x)[i].1);
        }
        if x.0 <= d <= x.1 {
            assert(runs.push(x)[runs.len() as int].0 <= d <= runs.push(x)[runs.len() as int].1);
        }
    }
}

/// A temporal entry: the days a (prefix, max_len, origin) ROA was present.
#[derive(Debug, Clone, PartialEq, Eq)]
pub struct RoasTrieEntry {
    /// ROA max length.
    max_len: u8,
    /// Prefix origin.
    origin: u32,
    /// Uncompressed days, duplicate-free, in insertion order.
    dates: Vec<i64>,
    /// Compressed days: closed day ranges, canonical.
    dates_compressed: Vec<(i64, i64)>,
}

impl View for RoasTrieEntry {
    type V = EntryModel;

    closed spec fn view(&self) -> EntryModel {
        EntryModel {
            max_len: self.max_len,
            origin: self.origin,
            loose: self.dates@,
            runs: self.dates_compressed@,
        }
    }
}

impl RoasTrieEntry {
    /// Create an entry recording one day: loose under bootstrap, a one-day
    /// run otherwise.
    pub fn new(date_ts: i64, max_len: u8, origin: u32, bootstrap: bool) -> (r: RoasTrieEntry)
        requires
            is_day_ts(date_ts),
        ensures
            r@ =~= new_entry_spec(date_ts, max_len, origin, bootstrap),
            r@.wf(),
    {
        if bootstrap {
            let mut dates: Vec<i64> = Vec::new();
            dates.push(date_ts);
            RoasTrieEntry { max_len, origin, dates, dates_compressed: Vec::new() }
        } else {
            let mut dates_compressed: Vec<(i64, i64)> = Vec::new();
            dates_compressed.push((date_ts, date_ts));
            RoasTrieEntry { max_len, origin, dates: Vec::new(), dates_compressed }
        }
    }

    /// Reassemble an entry from its raw parts, as when restoring a dump.
    pub fn from_parts(
        max_len: u8,
        origin: u32,
        dates: Vec<i64>,
        dates_compressed: Vec<(i64, i64)>,
    ) -> (r: RoasTrieEntry)
        requires
            loose_wf(dates@),
            runs_wf(dates_compressed@),
            dates@.len() + dates_compressed@.len() > 0,
        ensures
            r@ == (EntryModel { max_len, origin, loose: dates@, runs: dates_compressed@ }),
            r@.wf(),
    {
        RoasTrieEntry { max_len, origin, dates, dates_compressed }
    }

    /// The entry's max length.
    pub fn get_max_len(&self) -> (r: u8)
        ensures
            r == self@.max_len,
    {
        self.max_len
    }

    /// The entry's origin ASN.
    pub fn get_origin(&self) -> (r: u32)
        ensures
            r == self@.origin,
    {
        self.origin
    }

    /// The compressed day ranges, in order.
    pub fn get_date_ranges(&self) -> (r: Vec<(i64, i64)>)
        ensures
            r@ == self@.runs,
    {
        let mut r: Vec<(i64, i64)> = Vec::new();
        let mut i: usize = 0;
        while i < self.dates_compressed.len()
            invariant
                i <= self.dates_compressed.len(),
                r@ == self.dates_compressed@.subrange(0, i as int),
            decreases self.dates_compressed.len() - i,
        {
            r.push(self.dates_compressed[i]);
            i = i + 1;
            proof {
                assert(r@ =~= self.dates_compressed@.subrange(0, i as int));
            }
        }
        proof {
            assert(r@ =~= self.dates_compressed@);
        }
        r
    }

    /// The loose (uncompressed) days, in insertion order.
    pub fn get_loose_dates(&self) -> (r: Vec<i64>)
        ensures
            r@ == self@.loose,
    {
        let mut r: Vec<i64> = Vec::new();
        let mut i: usize = 0;
        while i < self.dates.len()
            invariant
                i <= self.dates.len(),
                r@ == self.dates@.subrange(0, i as int),
            decreases self.dates.len() - i,
        {
            r.push(self.dates[i]);
            i = i + 1;
            proof {
                assert(r@ =~= self.dates@.subrange(0, i as int));
            }
        }
        proof {
            assert(r@ =~= self.dates@);
        }
        r
    }

    /// Record one more day. Bootstrap mode inserts into the loose bag and is
    /// idempotent; incremental mode extends the tail run by one day, starts a
    /// new run beyond it, and ignores days at or before the tail run's end.
    pub fn push_date(&mut self, date_ts: i64, bootstrap: bool)
        requires
            old(self)@.wf(),
            is_day_ts(date_ts),
        ensures
            final(self)@ =~= push_date_spec(old(self)@, date_ts, bootstrap),
            final(self)@.wf(),
    {
        if bootstrap {
            let mut found = false;
            let mut i: usize = 0;
            while i < self.dates.len()
                invariant
                    i <= self.dates.len(),
                    found <==> exists|j: int| 0 <= j < i && self.dates@[j] == date_ts,
                    *self == *old(self),
                decreases self.dates.len() - i,
            {
                if self.dates[i] == date_ts {
                    found = true;
                    proof {
                        assert(self.dates@[i as int] == date_ts);
                    }
                }
                i = i + 1;
            }
            proof {
                assert(found <==> self.dates@.contains(date_ts));
            }
            if !found {
                self.dates.push(date_ts);
            }
        } else {
            let n = self.dates_compressed.len();
            if n == 0 {
                self.dates_compressed.push((date_ts, date_ts));
                proof {
                    assert(final(self)@.runs =~= seq![(date_ts, date_ts)]);
                }
            } else {
                let (last_start, last_end) = self.dates_compressed[n - 1];
                let next_day = last_end + ONE_DAY;
                if date_ts == next_day {
                    self.dates_compressed.set(n - 1, (last_start, date_ts));
                } else if date_ts > next_day {
                    proof {
                        lemma_aligned_gap(next_day, date_ts);
                    }
                    self.dates_compressed.push((date_ts, date_ts));
                }
            }
        }
    }

    /// The latest recorded day of the entry.
    pub fn max_recorded_day(&self) -> (r: i64)
        requires
            self@.wf(),
        ensures
            is_day_ts(r),
            self@.contains_day(r),
            forall|x: i64| x % 86400 == 0 && #[trigger] self@.contains_day(x) ==> x <= r,
    {
        let mut best: Option<i64> = None;
        let mut i: usize = 0;
        while i < self.dates.len()
            invariant
                self@.wf(),
                i <= self.dates@.len(),
                best matches Some(b) ==> is_day_ts(b) && self@.contains_day(b),
                best matches Some(b) ==> forall|t: int| 0 <= t < i ==> #[trigger] self.dates@[t]
                    <= b,
                best is None ==> i == 0,
                i > 0 ==> best is Some,
            decreases self.dates@.len() - i,
        {
            let d = self.dates[i];
            proof {
                assert(self@.loose.contains(d));
            }
            match best {
                None => {
                    best = Some(d);
                },
                Some(b) => {
                    if d > b {
                        best = Some(d);
                    }
                },
            }
            i = i + 1;
        }
        let mut j: usize = 0;
        while j < self.dates_compressed.len()
            invariant
                self@.wf(),
                j <= self.dates_compressed@.len(),
                best matches Some(b) ==> is_day_ts(b) && self@.contains_day(b),
                best matches Some(b) ==> forall|t: int|
                    0 <= t < self.dates@.len() ==> #[trigger] self.dates@[t] <= b,
                best matches Some(b) ==> forall|t: int|
                    0 <= t < j ==> (#[trigger] self.dates_compressed@[t]).1 <= b,
                best is None ==> self.dates@.len() == 0 && j == 0,
                j > 0 || self.dates@.len() > 0 ==> best is Some,
            decreases self.dates_compressed@.len() - j,
        {
            let (_s, e) = self.dates_compressed[j];
            proof {
                assert(covers_seq(self@.runs, e)) by {
                    assert((#[trigger] self@.runs[j as int]).0 <= e <= self@.runs[j as int].1);
                }
            }
            match best {
                None => {
                    best = Some(e);
                },
                Some(b) => {
                    if e > b {
                        best = Some(e);
                    }
                },
            }
            j = j + 1;
        }
        proof {
            assert(self@.loose.len() + self@.runs.len() > 0);
        }
        let r = best.unwrap();
        proof {
            assert forall|x: i64|
                x % 86400 == 0 && #[trigger] self@.contains_day(x) implies x <= r by {
                if self@.loose.contains(x) {
                    let t = choose|t: int| 0 <= t < self@.loose.len() && self@.loose[t] == x;
                    assert(self.dates@[t] <= r);
                } else {
                    let t = choose|t: int|
                        0 <= t < self@.runs.len() && (#[trigger] self@.runs[t]).0 <= x
                            <= self@.runs[t].1;
                    assert(self.dates_compressed@[t].1 <= r);
                }
            }
        }
        r
    }

    /// Whether some compressed range covers the timestamp.
    pub fn covers_ts(&self, date_ts: i64) -> (r: bool)
        ensures
            r == covers_seq(self@.runs, date_ts),
    {
        let mut j: usize = 0;
        while j < self.dates_compressed.len()
            invariant
                j <= self.dates_compressed.len(),
                forall|t: int|
                    0 <= t < j ==> !((#[trigger] self.dates_compressed@[t]).0 <= date_ts
                        <= self.dates_compressed@[t].1),
            decreases self.dates_compressed.len() - j,
        {
            let (s, e) = self.dates_compressed[j];
            if s <= date_ts && date_ts <= e {
                proof {
                    assert(covers_seq(self.dates_compressed@, date_ts));
                }
                return true;
            }
            j = j + 1;
        }
        false
    }

    /// Whether some compressed range ends at or after the timestamp.
    pub fn any_run_reaches(&self, ts: i64) -> (r: bool)
        ensures
            r == exists|t: int|
                0 <= t < self@.runs.len() && (#[trigger] self@.runs[t]).1 >= ts,
    {
        let mut j: usize = 0;
        while j < self.dates_compressed.len()
            invariant
                j <= self.dates_compressed.len(),
                forall|t: int| 0 <= t < j ==> (#[trigger] self.dates_compressed@[t]).1 < ts,
            decreases self.dates_compressed.len() - j,
        {
            let (_s, e) = self.dates_compressed[j];
            if e >= ts {
                proof {
                    assert((#[trigger] self@.runs[j as int]).1 >= ts);
                }
                return true;
            }
            j = j + 1;
        }
        false
    }

    /// Membership of a timestamp in the logical date set: among the loose
    /// days, or inside one of the compressed ranges.
    pub fn contains_date(&self, date_ts: i64) -> (r: bool)
        ensures
            r == self@.contains_day(date_ts),
    {
        let mut i: usize = 0;
        while i < self.dates.len()
            invariant
                i <= self.dates.len(),
                forall|j: int| 0 <= j < i ==> self.dates@[j] != date_ts,
            decreases self.dates.len() - i,
        {
            if self.dates[i] == date_ts {
                proof {
                    assert(self.dates@.contains(date_ts));
                }
                return true;
            }
            i = i + 1;
        }
        let mut j: usize = 0;
        while j < self.dates_compressed.len()
            invariant
                j <= self.dates_compressed.len(),
                forall|t: int|
                    0 <= t < j ==> !((#[trigger] self.dates_compressed@[t]).0 <= date_ts
                        <= self.dates_compressed@[t].1),
                forall|t: int| 0 <= t < self.dates@.len() ==> self.dates@[t] != date_ts,
            decreases self.dates_compressed.len() - j,
        {
            let (s, e) = self.dates_compressed[j];
            if s <= date_ts && date_ts <= e {
                proof {
                    assert(covers_seq(self.dates_compressed@, date_ts));
                }
                return true;
            }
            j = j + 1;
        }
        proof {
            assert(!self.dates@.contains(date_ts));
        }
        false
    }
}

/// Strictly increasing sequence of timestamps.
pub open spec fn strictly_inc(s: Seq<i64>) -> bool {
    forall|i: int, j: int| 0 <= i < j < s.len() ==> s[i] < s[j]
}

/// Every element is a day timestamp.
pub open spec fn all_day_ts(s: Seq<i64>) -> bool {
    forall|i: int| 0 <= i < s.len() ==> is_day_ts(#[trigger] s[i])
}

/// Closed intervals with day-timestamp endpoints, each non-empty.
pub open spec fn ivs_valid(s: Seq<(i64, i64)>) -> bool {
    forall|i: int|
        0 <= i < s.len() ==> is_day_ts((#[trigger] s[i]).0) && is_day_ts(s[i].1) && s[i].0
            <= s[i].1
}

/// Interval starts in non-decreasing order.
pub open spec fn starts_sorted(s: Seq<(i64, i64)>) -> bool {
    forall|a: int, b: int| 0 <= a < b < s.len() ==> (#[trigger] s[a]).0 <= (#[trigger] s[b]).0
}

/// Insert a fresh day into a strictly increasing list, keeping it sorted.
fn insert_day_sorted(v: &mut Vec<i64>, d: i64)
    requires
        strictly_inc(old(v)@),
        all_day_ts(old(v)@),
        !old(v)@.contains(d),
        is_day_ts(d),
    ensures
        strictly_inc(final(v)@),
        all_day_ts(final(v)@),
        final(v)@.len() == old(v)@.len() + 1,
        forall|x: i64| final(v)@.contains(x) <==> (old(v)@.contains(x) || x == d),
{
    let mut pos: usize = 0;
    while pos < v.len() && v[pos] < d
        invariant
            pos <= v@.len(),
            forall|j: int| 0 <= j < pos ==> v@[j] < d,
            v@ == old(v)@,
        decreases v@.len() - pos,
    {
        pos = pos + 1;
    }
    proof {
        if pos < v@.len() {
            assert(v@[pos as int] != d) by {
                if v@[pos as int] == d {
                    assert(v@.contains(d));
                }
            }
        }
    }
    let ghost oldv = v@;
    v.insert(pos, d);
    proof {
        oldv.insert_ensures(pos as int, d);
        let newv = v@;
        assert forall|i: int, j: int| 0 <= i < j < newv.len() implies newv[i] < newv[j] by {
            if j < pos {
            } else if i < pos && j == pos {
            } else if i < pos && j > pos {
                assert(newv[j] == oldv[j - 1]);
                if j - 1 > pos as int - 1 && j - 1 < pos as int {
                } else {
                }
                if j - 1 == pos as int - 1 {
                } else {
                    assert(oldv[pos as int] > d);
                }
            } else if i == pos {
                assert(newv[j] == oldv[j - 1]);
                assert(oldv[j - 1] >= oldv[pos as int]);
                assert(oldv[pos as int] > d);
            } else {
                assert(newv[i] == oldv[i - 1]);
                assert(newv[j] == oldv[j - 1]);
            }
        }
        assert forall|x: i64| newv.contains(x) <==> (oldv.contains(x) || x == d) by {
            if newv.contains(x) {
                let k = choose|k: int| 0 <= k < newv.len() && newv[k] == x;
                if k < pos {
                    assert(oldv[k] == x);
                    assert(oldv.contains(x));
                } else if k == pos {
                } else {
                    assert(newv[(k - 1) + 1] == oldv[k - 1]);
                    assert(oldv.contains(x));
                }
            }
            if oldv.contains(x) {
                let k = choose|k: int| 0 <= k < oldv.len() && oldv[k] == x;
                if k < pos {
                    assert(newv[k] == x);
                } else {
                    assert(newv[k + 1] == x);
                }
                assert(newv.contains(x));
            }
            if x == d {
                assert(newv[pos as int] == x);
                assert(newv.contains(x));
            }
        }
        assert forall|i: int| 0 <= i < newv.len() implies is_day_ts(#[trigger] newv[i]) by {
            if i < pos {
            } else if i == pos {
            } else {
                assert(newv[(i - 1) + 1] == oldv[i - 1]);
            }
        }
    }
}

/// Sort a duplicate-free bag of days into a strictly increasing list.
fn sort_days(v: &Vec<i64>) -> (r: Vec<i64>)
    requires
        loose_wf(v@),
    ensures
        strictly_inc(r@),
        all_day_ts(r@),
        r@.len() == v@.len(),
        forall|x: i64| r@.contains(x) <==> v@.contains(x),
{
    let mut r: Vec<i64> = Vec::new();
    let mut i: usize = 0;
    while i < v.len()
        invariant
            i <= v@.len(),
            loose_wf(v@),
            strictly_inc(r@),
            all_day_ts(r@),
            r@.len() == i,
            forall|x: i64| r@.contains(x) <==> (exists|t: int| 0 <= t < i && v@[t] == x),
        decreases v@.len() - i,
    {
        let d = v[i];
        proof {
            assert(!r@.contains(d)) by {
                if r@.contains(d) {
                    let t = choose|t: int| 0 <= t < i && v@[t] == d;
                    assert(v@[t] == v@[i as int]);
                }
            }
        }
        insert_day_sorted(&mut r, d);
        proof {
            assert forall|x: i64|
                r@.contains(x) <==> (exists|t: int| 0 <= t < i + 1 && v@[t] == x) by {
                if r@.contains(x) {
                    if x == d {
                        assert(v@[i as int] == x);
                    }
                }
                if exists|t: int| 0 <= t < i + 1 && v@[t] == x {
                    let t = choose|t: int| 0 <= t < i + 1 && v@[t] == x;
                    if t < i {
                        assert(r@.contains(x));
                    }
                }
            }
        }
        i = i + 1;
    }
    proof {
        assert forall|x: i64| r@.contains(x) <==> v@.contains(x) by {
            if v@.contains(x) {
                let t = choose|t: int| 0 <= t < v@.len() && v@[t] == x;
            }
        }
    }
    r
}

/// Merge a sorted day list and a canonical run list into one interval list
/// sorted by start, covering exactly the union.
fn merge_intervals(sorted: &Vec<i64>, runs: &Vec<(i64, i64)>) -> (r: Vec<(i64, i64)>)
    requires
        strictly_inc(sorted@),
        all_day_ts(sorted@),
        runs_wf(runs@),
    ensures
        ivs_valid(r@),
        starts_sorted(r@),
        r@.len() == sorted@.len() + runs@.len(),
        forall|x: i64|
            #[trigger] covers_seq(r@, x) <==> (sorted@.contains(x) || covers_seq(runs@, x)),
{
    let mut r: Vec<(i64, i64)> = Vec::new();
    let mut i: usize = 0;
    let mut j: usize = 0;
    while i < sorted.len() || j < runs.len()
        invariant
            i <= sorted@.len(),
            j <= runs@.len(),
            strictly_inc(sorted@),
            all_day_ts(sorted@),
            runs_wf(runs@),
            ivs_valid(r@),
            starts_sorted(r@),
            r@.len() == i + j,
            i < sorted@.len() && r@.len() > 0 ==> r@.last().0 <= sorted@[i as int],
            j < runs@.len() && r@.len() > 0 ==> r@.last().0 <= runs@[j as int].0,
            forall|x: i64|
                #[trigger] covers_seq(r@, x) <==> ((exists|t: int|
                    0 <= t < i && sorted@[t] == x) || (exists|t: int|
                    0 <= t < j && (#[trigger] runs@[t]).0 <= x <= runs@[t].1)),
        decreases sorted@.len() - i + runs@.len() - j,
    {
        let take_sorted: bool = if j >= runs.len() {
            true
        } else if i >= sorted.len() {
            false
        } else {
            sorted[i] <= runs[j].0
        };
        let ghost r0 = r@;
        if take_sorted {
            let d = sorted[i];
            r.push((d, d));
            proof {
                lemma_covers_push(r0, (d, d));
                assert forall|x: i64|
                    #[trigger] covers_seq(r@, x) <==> ((exists|t: int|
                        0 <= t < i + 1 && sorted@[t] == x) || (exists|t: int|
                        0 <= t < j && (#[trigger] runs@[t]).0 <= x <= runs@[t].1)) by {
                    if covers_seq(r@, x) {
                        if !covers_seq(r0, x) {
                            assert(x == d);
                            assert(sorted@[i as int] == x);
                        }
                    }
                    if exists|t: int| 0 <= t < i + 1 && sorted@[t] == x {
                        let t = choose|t: int| 0 <= t < i + 1 && sorted@[t] == x;
                        if t < i {
                            assert(covers_seq(r0, x));
                        }
                    }
                }
                assert forall|a: int, b: int|
                    0 <= a < b < r@.len() implies (#[trigger] r@[a]).0 <= (#[trigger] r@[b]).0 by {
                    if b < r@.len() - 1 {
                        assert(r@[a] == r0[a] && r@[b] == r0[b]);
                    } else if r0.len() > 0 && a < r0.len() {
                        assert(r@[a] == r0[a]);
                        assert(r0[a].0 <= r0[r0.len() - 1].0);
                    }
                }
            }
            i = i + 1;
        } else {
            let iv = runs[j];
            r.push(iv);
            proof {
                lemma_covers_push(r0, iv);
                assert forall|x: i64|
                    #[trigger] covers_seq(r@, x) <==> ((exists|t: int|
                        0 <= t < i && sorted@[t] == x) || (exists|t: int|
                        0 <= t < j + 1 && (#[trigger] runs@[t]).0 <= x <= runs@[t].1)) by {
                    if covers_seq(r@, x) {
                        if !covers_seq(r0, x) {
                            assert(runs@[j as int].0 <= x <= runs@[j as int].1);
                        }
                    }
                    if exists|t: int| 0 <= t < j + 1 && (#[trigger] runs@[t]).0 <= x <= runs@[t].1 {
                        let t = choose|t: int|
                            0 <= t < j + 1 && (#[trigger] runs@[t]).0 <= x <= runs@[t].1;
                        if t < j {
                            assert(covers_seq(r0, x));
                        }
                    }
                }
                assert forall|a: int, b: int|
                    0 <= a < b < r@.len() implies (#[trigger] r@[a]).0 <= (#[trigger] r@[b]).0 by {
                    if b < r@.len() - 1 {
                        assert(r@[a] == r0[a] && r@[b] == r0[b]);
                    } else if r0.len() > 0 && a < r0.len() {
                        assert(r@[a] == r0[a]);
                        assert(r0[a].0 <= r0[r0.len() - 1].0);
                    }
                }
                if j + 1 < runs@.len() {
                    assert(runs@[j as int].1 + 2 * 86400 <= runs@[j + 1].0);
                }
            }
            j = j + 1;
        }
    }
    r
}

/// Some interval among the first `k` of `ivs` covers `x`.
pub open spec fn covered_upto(ivs: Seq<(i64, i64)>, k: int, x: i64) -> bool {
    exists|t: int| 0 <= t < k && (#[trigger] ivs[t]).0 <= x <= ivs[t].1
}

/// Coalesce a start-sorted interval list into canonical runs covering the
/// same day timestamps.
fn coalesce_intervals(merged: &Vec<(i64, i64)>) -> (r: Vec<(i64, i64)>)
    requires
        ivs_valid(merged@),
        starts_sorted(merged@),
        merged@.len() > 0,
    ensures
        runs_wf(r@),
        r@.len() > 0,
        forall|x: i64|
            x % 86400 == 0 ==> (#[trigger] covers_seq(r@, x) <==> covers_seq(merged@, x)),
{
    let mut out: Vec<(i64, i64)> = Vec::new();
    let (first_s, first_e) = merged[0];
    let mut cs = first_s;
    let mut ce = first_e;
    let mut k: usize = 1;
    proof {
        assert forall|x: i64| cs <= x <= ce implies covered_upto(merged@, 1, x) by {
            assert(merged@[0].0 <= x <= merged@[0].1);
        }
    }
    while k < merged.len()
        invariant
            1 <= k <= merged@.len(),
            ivs_valid(merged@),
            starts_sorted(merged@),
            runs_wf(out@),
            is_day_ts(cs),
            is_day_ts(ce),
            cs <= ce,
            out@.len() > 0 ==> out@.last().1 + 2 * 86400 <= cs,
            forall|t: int| k <= t < merged@.len() ==> cs <= (#[trigger] merged@[t]).0,
            forall|x: i64|
                x % 86400 == 0 ==> ((covers_seq(out@, x) || cs <= x <= ce)
                    <==> #[trigger] covered_upto(merged@, k as int, x)),
        decreases merged@.len() - k,
    {
        let (s, e) = merged[k];
        let ghost out0 = out@;
        let ghost cs0 = cs;
        let ghost ce0 = ce;
        if s <= ce + ONE_DAY {
            if e > ce {
                ce = e;
            }
            proof {
                assert forall|x: i64|
                    x % 86400 == 0 implies ((covers_seq(out@, x) || cs <= x <= ce)
                    <==> #[trigger] covered_upto(merged@, k + 1, x)) by {
                    assert((covers_seq(out@, x) || cs0 <= x <= ce0) <==> covered_upto(
                        merged@,
                        k as int,
                        x,
                    ));
                    if cs <= x <= ce {
                        if x > ce0 {
                            lemma_aligned_gap(ce0, x);
                            assert(merged@[k as int].0 <= x <= merged@[k as int].1);
                            assert(covered_upto(merged@, k + 1, x));
                        } else {
                            assert(covered_upto(merged@, k as int, x));
                            let t = choose|t: int|
                                0 <= t < k && (#[trigger] merged@[t]).0 <= x <= merged@[t].1;
                            assert(covered_upto(merged@, k + 1, x));
                        }
                    }
                    if covers_seq(out@, x) {
                        let t = choose|t: int|
                            0 <= t < k && (#[trigger] merged@[t]).0 <= x <= merged@[t].1;
                        assert(covered_upto(merged@, k + 1, x));
                    }
                    if covered_upto(merged@, k + 1, x) {
                        let t = choose|t: int|
                            0 <= t < k + 1 && (#[trigger] merged@[t]).0 <= x <= merged@[t].1;
                        if t == k {
                            assert(cs <= merged@[t].0);
                            assert(cs <= x <= ce);
                        } else {
                            assert(covered_upto(merged@, k as int, x));
                        }
                    }
                }
            }
        } else {
            proof {
                lemma_aligned_gap((ce + 86400) as i64, s);
            }
            out.push((cs, ce));
            cs = s;
            ce = e;
            proof {
                lemma_covers_push(out0, (cs0, ce0));
                assert forall|a: int, b: int|
                    0 <= a < b < out@.len() implies #[trigger] out@[a].1 + 2 * 86400
                    <= #[trigger] out@[b].0 by {
                    if b < out@.len() - 1 {
                        assert(out@[a] == out0[a] && out@[b] == out0[b]);
                    } else if a < out0.len() {
                        assert(out@[a] == out0[a]);
                        if a < out0.len() - 1 {
                            assert(out0[a].1 + 2 * 86400 <= out0[out0.len() - 1].0);
                            assert(out0[out0.len() - 1].0 <= out0[out0.len() - 1].1);
                        }
                    }
                }
                assert forall|x: i64|
                    x % 86400 == 0 implies ((covers_seq(out@, x) || cs <= x <= ce)
                    <==> #[trigger] covered_upto(merged@, k + 1, x)) by {
                    assert((covers_seq(out0, x) || cs0 <= x <= ce0) <==> covered_upto(
                        merged@,
                        k as int,
                        x,
                    ));
                    if cs <= x <= ce {
                        assert(merged@[k as int].0 <= x <= merged@[k as int].1);
                        assert(covered_upto(merged@, k + 1, x));
                    }
                    if covers_seq(out@, x) && !(cs <= x <= ce) {
                        assert(covers_seq(out0, x) || cs0 <= x <= ce0);
                        assert(covered_upto(merged@, k as int, x));
                        let t = choose|t: int|
                            0 <= t < k && (#[trigger] merged@[t]).0 <= x <= merged@[t].1;
                        assert(covered_upto(merged@, k + 1, x));
                    }
                    if covered_upto(merged@, k + 1, x) {
                        let t = choose|t: int|
                            0 <= t < k + 1 && (#[trigger] merged@[t]).0 <= x <= merged@[t].1;
                        if t == k {
                            assert(cs <= x <= ce);
                        } else {
                            assert(covered_upto(merged@, k as int, x));
                            assert(covers_seq(out@, x));
                        }
                    }
                }
            }
        }
        k = k + 1;
    }
    let ghost out0 = out@;
    out.push((cs, ce));
    proof {
        lemma_covers_push(out0, (cs, ce));
        assert forall|a: int, b: int|
            0 <= a < b < out@.len() implies #[trigger] out@[a].1 + 2 * 86400 <= #[trigger] out@[b].0
        by {
            if b < out@.len() - 1 {
                assert(out@[a] == out0[a] && out@[b] == out0[b]);
            } else if a < out0.len() {
                assert(out@[a] == out0[a]);
                if a < out0.len() - 1 {
                    assert(out0[a].1 + 2 * 86400 <= out0[out0.len() - 1].0);
                    assert(out0[out0.len() - 1].0 <= out0[out0.len() - 1].1);
                }
            }
        }
        assert forall|x: i64|
            x % 86400 == 0 implies (#[trigger] covers_seq(out@, x) <==> covers_seq(merged@, x)) by {
            assert((covers_seq(out0, x) || cs <= x <= ce) <==> covered_upto(
                merged@,
                merged@.len() as int,
                x,
            ));
            if covers_seq(merged@, x) {
                let t = choose|t: int|
                    0 <= t < merged@.len() && (#[trigger] merged@[t]).0 <= x <= merged@[t].1;
                assert(covered_upto(merged@, merged@.len() as int, x));
            }
            if covered_upto(merged@, merged@.len() as int, x) {
                let t = choose|t: int|
                    0 <= t < merged@.len() && (#[trigger] merged@[t]).0 <= x <= merged@[t].1;
                assert(covers_seq(merged@, x));
            }
        }
    }
    out
}


/// Pushing an element onto a day list extends membership by exactly it.
pub proof fn lemma_seq_push_contains(s: Seq<i64>, d: i64)
    ensures
        forall|x: i64| #[trigger] s.push(d).contains(x) <==> (s.contains(x) || x == d),
{
    assert forall|x: i64| #[trigger] s.push(d).contains(x) <==> (s.contains(x) || x == d) by {
        if s.push(d).contains(x) {
            let i = choose|i: int| 0 <= i < s.push(d).len() && s.push(d)[i] == x;
            if i < s.len() {
                assert(s[i] == x);
            }
        }
        if s.contains(x) {
            let i = choose|i: int| 0 <= i < s.len() && s[i] == x;
            assert(s.push(d)[i] == x);
        }
        if x == d {
            assert(s.push(d)[s.len() as int] == x);
        }
    }
}

/// A fresh entry records exactly its one day.
pub proof fn lemma_new_entry_cover(date_ts: i64, max_len: u8, origin: u32, bootstrap: bool)
    ensures
        forall|x: i64|
            #[trigger] new_entry_spec(date_ts, max_len, origin, bootstrap).contains_day(x) <==> x
                == date_ts,
{
    let e = new_entry_spec(date_ts, max_len, origin, bootstrap);
    assert forall|x: i64| #[trigger] e.contains_day(x) <==> x == date_ts by {
        if bootstrap {
            if e.loose.contains(x) {
                let i = choose|i: int| 0 <= i < e.loose.len() && e.loose[i] == x;
                assert(x == date_ts);
            }
            if x == date_ts {
                assert(e.loose[0] == x);
                assert(e.loose.contains(x));
            }
            assert(!covers_seq(e.runs, x));
        } else {
            if covers_seq(e.runs, x) {
                let i = choose|i: int|
                    0 <= i < e.runs.len() && (#[trigger] e.runs[i]).0 <= x <= e.runs[i].1;
                assert(x == date_ts);
            }
            if x == date_ts {
                assert(e.runs[0].0 <= x <= e.runs[0].1);
                assert(covers_seq(e.runs, x));
            }
        }
    }
}

/// How `push_date` changes the recorded days: never loses one; gains at most
/// the pushed day; in bootstrap mode gains it exactly; and when the pushed
/// day is dropped (incremental, at or before the tail run's end) some
/// recorded day is at least as large.
pub proof fn lemma_push_date_cover(e: EntryModel, d: i64, bootstrap: bool)
    requires
        e.wf(),
        is_day_ts(d),
    ensures
        forall|x: i64|
            #[trigger] e.contains_day(x) ==> push_date_spec(e, d, bootstrap).contains_day(x),
        forall|x: i64|
            x % 86400 == 0 && #[trigger] push_date_spec(e, d, bootstrap).contains_day(x) ==> (
            e.contains_day(x) || x == d),
        push_date_spec(e, d, bootstrap).contains_day(d) || (exists|y: i64|
            y % 86400 == 0 && #[trigger] e.contains_day(y) && d <= y),
        bootstrap ==> forall|x: i64|
            #[trigger] push_date_spec(e, d, bootstrap).contains_day(x) <==> (e.contains_day(x) || x
                == d),
        push_date_spec(e, d, bootstrap).max_len == e.max_len,
        push_date_spec(e, d, bootstrap).origin == e.origin,
{
    let e2 = push_date_spec(e, d, bootstrap);
    if bootstrap {
        if e.loose.contains(d) {
            assert(e2 == e);
            assert(e.contains_day(d));
        } else {
            lemma_seq_push_contains(e.loose, d);
            assert(e2.contains_day(d)) by {
                assert(e2.loose.contains(d));
            }
        }
    } else {
        if e.runs.len() == 0 {
            assert forall|x: i64| #[trigger] e2.contains_day(x) implies (e.contains_day(x) || x
                == d) by {
                if covers_seq(e2.runs, x) {
                    let i = choose|i: int|
                        0 <= i < e2.runs.len() && (#[trigger] e2.runs[i]).0 <= x <= e2.runs[i].1;
                    assert(x == d);
                }
            }
            assert(e2.contains_day(d)) by {
                assert(e2.runs[0].0 <= d <= e2.runs[0].1);
            }
        } else {
            let last = e.runs.last();
            let li = e.runs.len() - 1;
            assert(is_day_ts(last.0) && is_day_ts(last.1) && last.0 <= last.1);
            if d == last.1 + 86400 {
                // tail run extended by one day
                assert forall|x: i64| #[trigger] e.contains_day(x) implies e2.contains_day(x) by {
                    if covers_seq(e.runs, x) {
                        let i = choose|i: int|
                            0 <= i < e.runs.len() && (#[trigger] e.runs[i]).0 <= x <= e.runs[i].1;
                        assert(e2.runs[i].0 <= x <= e2.runs[i].1);
                        assert(covers_seq(e2.runs, x));
                    }
                }
                assert forall|x: i64|
                    x % 86400 == 0 && #[trigger] e2.contains_day(x) implies (e.contains_day(x) || x
                    == d) by {
                    if covers_seq(e2.runs, x) {
                        let i = choose|i: int|
                            0 <= i < e2.runs.len() && (#[trigger] e2.runs[i]).0 <= x
                                <= e2.runs[i].1;
                        if i < li {
                            assert(e.runs[i].0 <= x <= e.runs[i].1);
                            assert(covers_seq(e.runs, x));
                        } else {
                            if x <= last.1 {
                                assert(e.runs[li].0 <= x <= e.runs[li].1);
                                assert(covers_seq(e.runs, x));
                            } else {
                                lemma_aligned_gap(last.1, x);
                            }
                        }
                    }
                }
                assert(e2.contains_day(d)) by {
                    assert(e2.runs[li].0 <= d <= e2.runs[li].1);
                }
            } else if d > last.1 + 86400 {
                // a fresh one-day tail run
                lemma_covers_push(e.runs, (d, d));
                assert(e2.contains_day(d)) by {
                    assert(covers_seq(e2.runs, d));
                }
            } else {
                // dropped: the tail run already reaches at least d
                assert(e2 == e);
                assert(d <= last.1) by {
                    if d > last.1 {
                        lemma_aligned_gap(last.1, d);
                    }
                }
                assert(e.contains_day(last.1)) by {
                    assert(e.runs[li].0 <= last.1 <= e.runs[li].1);
                    assert(covers_seq(e.runs, last.1));
                }
            }
        }
    }
}

/// Two adjacent runs end exactly one day before the gap and start exactly
/// one day after it: the entry was present right up to the outage and again
/// right after it.
pub open spec fn straddles(runs: Seq<(i64, i64)>, gap_start: i64, gap_end: i64) -> bool {
    exists|i: int|
        0 <= i < runs.len() - 1 && (#[trigger] runs[i]).1 == gap_start - 86400 && runs[i + 1].0
            == gap_end + 86400
}

/// Law: the canonical run-length form is unique. Two canonical run lists
/// covering the same day timestamps are equal, so `full_compress` is
/// idempotent: a second pass reproduces the first's runs exactly.
pub proof fn lemma_canonical_runs_unique(r1: Seq<(i64, i64)>, r2: Seq<(i64, i64)>)
    requires
        runs_wf(r1),
        runs_wf(r2),
        forall|d: i64| d % 86400 == 0 ==> (covers_seq(r1, d) <==> covers_seq(r2, d)),
    ensures
        r1 == r2,
    decreases r1.len(),
{
    if r1.len() == 0 && r2.len() == 0 {
        assert(r1 =~= r2);
    } else if r1.len() == 0 {
        assert(is_day_ts((#[trigger] r2[0]).0));
        assert(covers_seq(r2, r2[0].0)) by {
            assert((#[trigger] r2[0]).0 <= r2[0].0 <= r2[0].1);
        }
        assert(covers_seq(r1, r2[0].0));
        let i = choose|i: int| 0 <= i < r1.len() && (#[trigger] r1[i]).0 <= r2[0].0 <= r1[i].1;
        assert(false);
    } else if r2.len() == 0 {
        assert(is_day_ts((#[trigger] r1[0]).0));
        assert(covers_seq(r1, r1[0].0)) by {
            assert((#[trigger] r1[0]).0 <= r1[0].0 <= r1[0].1);
        }
        assert(covers_seq(r2, r1[0].0));
        let i = choose|i: int| 0 <= i < r2.len() && (#[trigger] r2[i]).0 <= r1[0].0 <= r2[i].1;
        assert(false);
    } else {
        // the first runs start together: each start is the least covered day
        lemma_first_run_least(r1, r2);
        lemma_first_run_least(r2, r1);
        assert(r1[0].0 == r2[0].0);
        // and end together: the day after either end is uncovered
        lemma_first_run_end(r1, r2);
        lemma_first_run_end(r2, r1);
        assert(r1[0].1 == r2[0].1);
        // the tails cover the same later days
        lemma_runs_wf_tail(r1);
        lemma_runs_wf_tail(r2);
        assert forall|d: i64|
            d % 86400 == 0 implies (covers_seq(r1.drop_first(), d) <==> covers_seq(
            r2.drop_first(),
            d,
        )) by {
            lemma_tail_cover(r1, d);
            lemma_tail_cover(r2, d);
            assert(is_day_ts((#[trigger] r1[0]).1));
            if covers_seq(r1.drop_first(), d) {
                assert(d > r1[0].1);
                assert(covers_seq(r1, d));
                assert(covers_seq(r2, d));
                assert(covers_seq(r2.drop_first(), d));
            }
            if covers_seq(r2.drop_first(), d) {
                assert(d > r2[0].1);
                assert(covers_seq(r2, d));
                assert(covers_seq(r1, d));
                assert(covers_seq(r1.drop_first(), d));
            }
        }
        lemma_canonical_runs_unique(r1.drop_first(), r2.drop_first());
        assert(r1 =~= r2) by {
            assert(r1[0] == r2[0]);
            assert forall|i: int| 0 <= i < r1.len() implies r1[i] == r2[i] by {
                if i > 0 {
                    assert(r1.drop_first()[i - 1] == r2.drop_first()[i - 1]);
                }
            }
        }
    }
}

/// Dropping the first run of a canonical list leaves a canonical list.
proof fn lemma_runs_wf_tail(r: Seq<(i64, i64)>)
    requires
        runs_wf(r),
        r.len() > 0,
    ensures
        runs_wf(r.drop_first()),
{
    let t = r.drop_first();
    assert forall|i: int|
        0 <= i < t.len() implies is_day_ts((#[trigger] t[i]).0) && is_day_ts(t[i].1) && t[i].0
        <= t[i].1 by {
        assert(t[i] == r[i + 1]);
        assert(is_day_ts((#[trigger] r[i + 1]).0) && is_day_ts(r[i + 1].1) && r[i + 1].0 <= r[i
            + 1].1);
    }
    assert forall|i: int, j: int| 0 <= i < j < t.len() implies #[trigger] t[i].1 + 2 * 86400
        <= #[trigger] t[j].0 by {
        assert(t[i] == r[i + 1] && t[j] == r[j + 1]);
        assert(r[i + 1].1 + 2 * 86400 <= r[j + 1].0);
    }
}

/// In two canonical lists covering the same days, the first run of one
/// starts no later than the first run of the other.
proof fn lemma_first_run_least(r1: Seq<(i64, i64)>, r2: Seq<(i64, i64)>)
    requires
        runs_wf(r1),
        runs_wf(r2),
        r1.len() > 0,
        r2.len() > 0,
        forall|d: i64| d % 86400 == 0 ==> (covers_seq(r1, d) <==> covers_seq(r2, d)),
    ensures
        r2[0].0 <= r1[0].0,
{
    let s = r1[0].0;
    assert(is_day_ts((#[trigger] r1[0]).0));
    assert(covers_seq(r1, s)) by {
        assert((#[trigger] r1[0]).0 <= s <= r1[0].1);
    }
    assert(covers_seq(r2, s));
    let i = choose|i: int| 0 <= i < r2.len() && (#[trigger] r2[i]).0 <= s <= r2[i].1;
    if i > 0 {
        assert(r2[0].1 + 2 * 86400 <= r2[i].0);
        assert(r2[0].0 <= r2[0].1);
    }
}

/// In two canonical lists covering the same days whose first runs start
/// together, the first run of one ends no earlier than the first run of the
/// other.
proof fn lemma_first_run_end(r1: Seq<(i64, i64)>, r2: Seq<(i64, i64)>)
    requires
        runs_wf(r1),
        runs_wf(r2),
        r1.len() > 0,
        r2.len() > 0,
        r1[0].0 == r2[0].0,
        forall|d: i64| d % 86400 == 0 ==> (covers_seq(r1, d) <==> covers_seq(r2, d)),
    ensures
        r2[0].1 >= r1[0].1,
{
    assert(is_day_ts((#[trigger] r1[0]).0) && is_day_ts(r1[0].1));
    assert(is_day_ts((#[trigger] r2[0]).0) && is_day_ts(r2[0].1));
    if r2[0].1 < r1[0].1 {
        // the day after r2's first run is covered by r1 but by no run of r2
        let d = (r2[0].1 + 86400) as i64;
        assert(d % 86400 == 0);
        assert(covers_seq(r1, d)) by {
            lemma_aligned_gap(r2[0].1, r1[0].1);
            assert((#[trigger] r1[0]).0 <= d <= r1[0].1);
        }
        assert(covers_seq(r2, d));
        let i = choose|i: int| 0 <= i < r2.len() && (#[trigger] r2[i]).0 <= d <= r2[i].1;
        if i == 0 {
            assert(d > r2[0].1);
        } else {
            assert(r2[0].1 + 2 * 86400 <= r2[i].0);
        }
        assert(false);
    }
}

/// A day beyond the first run is covered exactly when the tail covers it,
/// and a day at or before its end is never covered by the tail.
proof fn lemma_tail_cover(r: Seq<(i64, i64)>, d: i64)
    requires
        runs_wf(r),
        r.len() > 0,
    ensures
        covers_seq(r.drop_first(), d) ==> (covers_seq(r, d) && d > r[0].1),
        d > r[0].1 && covers_seq(r, d) ==> covers_seq(r.drop_first(), d),
{
    let t = r.drop_first();
    if covers_seq(t, d) {
        let i = choose|i: int| 0 <= i < t.len() && (#[trigger] t[i]).0 <= d <= t[i].1;
        assert(t[i] == r[i + 1]);
        assert((#[trigger] r[i + 1]).0 <= d <= r[i + 1].1);
        assert(covers_seq(r, d));
        assert(r[0].1 + 2 * 86400 <= r[i + 1].0);
    }
    if d > r[0].1 && covers_seq(r, d) {
        let i = choose|i: int| 0 <= i < r.len() && (#[trigger] r[i]).0 <= d <= r[i].1;
        assert(i > 0);
        assert((#[trigger] t[i - 1]).0 <= d <= t[i - 1].1);
        assert(covers_seq(t, d));
    }
}

impl RoasTrieEntry {
    /// Patch one known publisher outage: when two adjacent runs exactly
    /// straddle the gap, record every day of the gap and re-compress;
    /// otherwise leave the entry untouched.
    pub fn fill_gap(&mut self, gap_start: i64, gap_end: i64)
        requires
            old(self)@.wf(),
            is_day_ts(gap_start),
            is_day_ts(gap_end),
            gap_start <= gap_end,
        ensures
            final(self)@.wf(),
            final(self)@.max_len == old(self)@.max_len,
            final(self)@.origin == old(self)@.origin,
            !straddles(old(self)@.runs, gap_start, gap_end) ==> final(self)@ == old(self)@,
            straddles(old(self)@.runs, gap_start, gap_end) ==> final(self)@.loose.len() == 0,
            straddles(old(self)@.runs, gap_start, gap_end) ==> forall|d: i64|
                d % 86400 == 0 ==> (#[trigger] final(self)@.contains_day(d) <==> (old(
                    self,
                )@.contains_day(d) || gap_start <= d <= gap_end)),
    {
        let n = self.dates_compressed.len();
        let mut found = false;
        if n > 0 {
            let mut i: usize = 0;
            while i < n - 1
                invariant
                    n == self@.runs.len(),
                    n > 0,
                    i <= n - 1,
                    *self == *old(self),
                    is_day_ts(gap_start),
                    is_day_ts(gap_end),
                    found <==> exists|t: int|
                        0 <= t < i && (#[trigger] self@.runs[t]).1 == gap_start - 86400
                            && self@.runs[t + 1].0 == gap_end + 86400,
                decreases n - i,
            {
                let (_s1, e1) = self.dates_compressed[i];
                let (s2, _e2) = self.dates_compressed[i + 1];
                if e1 == gap_start - ONE_DAY && s2 == gap_end + ONE_DAY {
                    found = true;
                    proof {
                        assert((#[trigger] self@.runs[i as int]).1 == gap_start - 86400
                            && self@.runs[i as int + 1].0 == gap_end + 86400);
                    }
                }
                i = i + 1;
            }
        }
        proof {
            assert(found == straddles(self@.runs, gap_start, gap_end)) by {
                if straddles(self@.runs, gap_start, gap_end) && !found {
                    let t = choose|t: int|
                        0 <= t < self@.runs.len() - 1 && (#[trigger] self@.runs[t]).1 == gap_start
                            - 86400 && self@.runs[t + 1].0 == gap_end + 86400;
                }
            }
        }
        if found {
            let ghost m0 = self@;
            let mut d = gap_start;
            while d <= gap_end
                invariant
                    self@.wf(),
                    self@.max_len == m0.max_len,
                    self@.origin == m0.origin,
                    is_day_ts(gap_start),
                    is_day_ts(gap_end),
                    gap_start <= gap_end,
                    d % 86400 == 0,
                    gap_start <= d <= gap_end + 86400,
                    forall|x: i64|
                        #[trigger] self@.contains_day(x) <==> (m0.contains_day(x) || (x % 86400
                            == 0 && gap_start <= x < d)),
                decreases gap_end + 86400 - d,
            {
                let ghost mprev = self@;
                self.push_date(d, true);
                proof {
                    lemma_push_date_cover(mprev, d, true);
                    assert forall|x: i64|
                        #[trigger] self@.contains_day(x) <==> (m0.contains_day(x) || (x % 86400
                            == 0 && gap_start <= x < d + 86400)) by {
                        assert(self@.contains_day(x) <==> (mprev.contains_day(x) || x == d));
                        if x % 86400 == 0 && d < x < d + 86400 {
                            lemma_aligned_gap(d, x);
                        }
                    }
                }
                d = d + ONE_DAY;
            }
            let ghost m1 = self@;
            self.full_compress();
            proof {
                assert forall|x: i64|
                    x % 86400 == 0 implies (#[trigger] self@.contains_day(x) <==> (
                m0.contains_day(x) || gap_start <= x <= gap_end)) by {
                    assert(self@.contains_day(x) <==> m1.contains_day(x));
                    if gap_start <= x <= gap_end {
                        assert(x < d);
                    }
                    if m1.contains_day(x) && !m0.contains_day(x) {
                        assert(gap_start <= x < d);
                        if x > gap_end {
                            lemma_aligned_gap(gap_end, x);
                        }
                    }
                }
            }
        }
    }

    /// Fold both representations into the canonical run-length form: the
    /// loose days are emptied, the runs become sorted, non-overlapping and
    /// non-adjacent, and the logical date set is unchanged.
    pub fn full_compress(&mut self)
        requires
            old(self)@.wf(),
        ensures
            final(self)@.wf(),
            final(self)@.max_len == old(self)@.max_len,
            final(self)@.origin == old(self)@.origin,
            final(self)@.loose.len() == 0,
            runs_wf(final(self)@.runs),
            forall|d: i64|
                d % 86400 == 0 ==> (#[trigger] final(self)@.contains_day(d) <==> old(
                    self,
                )@.contains_day(d)),
    {
        let sorted = sort_days(&self.dates);
        let merged = merge_intervals(&sorted, &self.dates_compressed);
        let out = coalesce_intervals(&merged);
        self.dates = Vec::new();
        self.dates_compressed = out;
        proof {
            assert forall|d: i64|
                d % 86400 == 0 implies (#[trigger] final(self)@.contains_day(d) <==> old(
                self,
            )@.contains_day(d)) by {
                assert(final(self)@.contains_day(d) == covers_seq(final(self)@.runs, d));
            }
        }
    }
}

} // verus!

