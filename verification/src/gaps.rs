//! Known publisher outages, and the maintenance pass that patches them.
//!
//! The table lists closed UTC date intervals during which the snapshot
//! publisher was down. The Fix pass treats a ROA whose runs end exactly one
//! day before such an interval and resume exactly one day after it as
//! continuously present through it.

use vstd::prelude::*;

verus! {

use crate::days::{DateYmd, day_ts, day_ts_of, is_day_ts};
use crate::trie::{RoasTrie, TrieModel, gap_step};
use crate::entry::straddles;

/// The known outage intervals, as calendar dates, in chronological order.
pub open spec fn known_gap_dates() -> Seq<(DateYmd, DateYmd)> {
    seq![
        (DateYmd { year: 2018, month: 12, day: 28 }, DateYmd { year: 2019, month: 1, day: 2 }),
        (DateYmd { year: 2019, month: 10, day: 22 }, DateYmd { year: 2019, month: 10, day: 22 }),
        (DateYmd { year: 2019, month: 11, day: 24 }, DateYmd { year: 2019, month: 11, day: 24 }),
        (DateYmd { year: 2020, month: 8, day: 3 }, DateYmd { year: 2020, month: 8, day: 3 }),
        (DateYmd { year: 2021, month: 1, day: 4 }, DateYmd { year: 2021, month: 1, day: 4 }),
        (DateYmd { year: 2021, month: 7, day: 15 }, DateYmd { year: 2021, month: 7, day: 15 }),
        (DateYmd { year: 2021, month: 7, day: 19 }, DateYmd { year: 2021, month: 7, day: 19 }),
        (DateYmd { year: 2021, month: 7, day: 23 }, DateYmd { year: 2021, month: 7, day: 23 }),
        (DateYmd { year: 2021, month: 7, day: 31 }, DateYmd { year: 2021, month: 7, day: 31 }),
        (DateYmd { year: 2021, month: 8, day: 10 }, DateYmd { year: 2021, month: 8, day: 10 }),
        (DateYmd { year: 2021, month: 9, day: 3 }, DateYmd { year: 2021, month: 9, day: 3 }),
        (DateYmd { year: 2021, month: 9, day: 6 }, DateYmd { year: 2021, month: 9, day: 7 }),
        (DateYmd { year: 2021, month: 9, day: 10 }, DateYmd { year: 2021, month: 9, day: 25 }),
        (DateYmd { year: 2021, month: 9, day: 27 }, DateYmd { year: 2021, month: 9, day: 28 }),
        (DateYmd { year: 2022, month: 1, day: 3 }, DateYmd { year: 2022, month: 1, day: 3 }),
        (DateYmd { year: 2022, month: 1, day: 15 }, DateYmd { year: 2022, month: 1, day: 15 }),
        (DateYmd { year: 2022, month: 1, day: 19 }, DateYmd { year: 2022, month: 1, day: 19 }),
        (DateYmd { year: 2022, month: 1, day: 24 }, DateYmd { year: 2022, month: 1, day: 24 }),
        (DateYmd { year: 2022, month: 2, day: 2 }, DateYmd { year: 2022, month: 2, day: 2 }),
        (DateYmd { year: 2022, month: 2, day: 4 }, DateYmd { year: 2022, month: 2, day: 4 }),
        (DateYmd { year: 2022, month: 2, day: 13 }, DateYmd { year: 2022, month: 2, day: 13 }),
        (DateYmd { year: 2022, month: 2, day: 16 }, DateYmd { year: 2022, month: 2, day: 16 }),
        (DateYmd { year: 2023, month: 6, day: 24 }, DateYmd { year: 2023, month: 6, day: 24 }),
        (DateYmd { year: 2023, month: 7, day: 14 }, DateYmd { year: 2023, month: 7, day: 17 }),
    ]
}

/// The outage intervals as day-timestamp pairs: one pair per table row whose
/// two dates convert and are ordered.
pub open spec fn gaps_ts_spec(dates: Seq<(DateYmd, DateYmd)>) -> Seq<(i64, i64)>
    decreases dates.len(),
{
    if dates.len() == 0 {
        Seq::empty()
    } else {
        gaps_ts_spec(dates.drop_last()) + {
            let p = dates.last();
            match (
                day_ts_of(p.0.year, p.0.month, p.0.day),
                day_ts_of(p.1.year, p.1.month, p.1.day),
            ) {
                (Some(a), Some(b)) => if a <= b {
                    seq![(a, b)]
                } else {
                    Seq::empty()
                },
                _ => Seq::empty(),
            }
        }
    }
}

/// A timestamp inside one of the known outage intervals.
pub open spec fn in_known_gap(d: i64) -> bool {
    exists|g: int|
        0 <= g < gaps_ts_spec(known_gap_dates()).len() && (#[trigger] gaps_ts_spec(
            known_gap_dates(),
        )[g]).0 <= d <= gaps_ts_spec(known_gap_dates())[g].1
}

/// The known outage intervals as day-timestamp pairs.
pub fn known_gaps() -> (r: Vec<(i64, i64)>)
    ensures
        r@ == gaps_ts_spec(known_gap_dates()),
        forall|g: int|
            0 <= g < r@.len() ==> is_day_ts((#[trigger] r@[g]).0) && is_day_ts(r@[g].1) && r@[g].0
                <= r@[g].1,
{
    let mut table: Vec<(DateYmd, DateYmd)> = Vec::new();
    table.push((DateYmd { year: 2018, month: 12, day: 28 }, DateYmd { year: 2019, month: 1, day: 2 }));
    table.push((DateYmd { year: 2019, month: 10, day: 22 }, DateYmd { year: 2019, month: 10, day: 22 }));
    table.push((DateYmd { year: 2019, month: 11, day: 24 }, DateYmd { year: 2019, month: 11, day: 24 }));
    table.push((DateYmd { year: 2020, month: 8, day: 3 }, DateYmd { year: 2020, month: 8, day: 3 }));
    table.push((DateYmd { year: 2021, month: 1, day: 4 }, DateYmd { year: 2021, month: 1, day: 4 }));
    table.push((DateYmd { year: 2021, month: 7, day: 15 }, DateYmd { year: 2021, month: 7, day: 15 }));
    table.push((DateYmd { year: 2021, month: 7, day: 19 }, DateYmd { year: 2021, month: 7, day: 19 }));
    table.push((DateYmd { year: 2021, month: 7, day: 23 }, DateYmd { year: 2021, month: 7, day: 23 }));
    table.push((DateYmd { year: 2021, month: 7, day: 31 }, DateYmd { year: 2021, month: 7, day: 31 }));
    table.push((DateYmd { year: 2021, month: 8, day: 10 }, DateYmd { year: 2021, month: 8, day: 10 }));
    table.push((DateYmd { year: 2021, month: 9, day: 3 }, DateYmd { year: 2021, month: 9, day: 3 }));
    table.push((DateYmd { year: 2021, month: 9, day: 6 }, DateYmd { year: 2021, month: 9, day: 7 }));
    table.push((DateYmd { year: 2021, month: 9, day: 10 }, DateYmd { year: 2021, month: 9, day: 25 }));
    table.push((DateYmd { year: 2021, month: 9, day: 27 }, DateYmd { year: 2021, month: 9, day: 28 }));
    table.push((DateYmd { year: 2022, month: 1, day: 3 }, DateYmd { year: 2022, month: 1, day: 3 }));
    table.push((DateYmd { year: 2022, month: 1, day: 15 }, DateYmd { year: 2022, month: 1, day: 15 }));
    table.push((DateYmd { year: 2022, month: 1, day: 19 }, DateYmd { year: 2022, month: 1, day: 19 }));
    table.push((DateYmd { year: 2022, month: 1, day: 24 }, DateYmd { year: 2022, month: 1, day: 24 }));
    table.push((DateYmd { year: 2022, month: 2, day: 2 }, DateYmd { year: 2022, month: 2, day: 2 }));
    table.push((DateYmd { year: 2022, month: 2, day: 4 }, DateYmd { year: 2022, month: 2, day: 4 }));
    table.push((DateYmd { year: 2022, month: 2, day: 13 }, DateYmd { year: 2022, month: 2, day: 13 }));
    table.push((DateYmd { year: 2022, month: 2, day: 16 }, DateYmd { year: 2022, month: 2, day: 16 }));
    table.push((DateYmd { year: 2023, month: 6, day: 24 }, DateYmd { year: 2023, month: 6, day: 24 }));
    table.push((DateYmd { year: 2023, month: 7, day: 14 }, DateYmd { year: 2023, month: 7, day: 17 }));
    proof {
        assert(table@ =~= known_gap_dates());
    }
    let mut r: Vec<(i64, i64)> = Vec::new();
    let mut i: usize = 0;
    while i < table.len()
        invariant
            i <= table@.len(),
            table@ == known_gap_dates(),
            r@ == gaps_ts_spec(table@.subrange(0, i as int)),
            forall|g: int|
                0 <= g < r@.len() ==> is_day_ts((#[trigger] r@[g]).0) && is_day_ts(r@[g].1)
                    && r@[g].0 <= r@[g].1,
        decreases table@.len() - i,
    {
        let (from, until) = table[i];
        proof {
            assert(table@.subrange(0, i + 1).drop_last() =~= table@.subrange(0, i as int));
            assert(table@.subrange(0, i + 1).last() == table@[i as int]);
        }
        let a = day_ts(from.year, from.month, from.day);
        let b = day_ts(until.year, until.month, until.day);
        if let (Some(gs), Some(ge)) = (a, b) {
            if gs <= ge {
                r.push((gs, ge));
                proof {
                    assert(r@ =~= gaps_ts_spec(table@.subrange(0, i + 1)));
                }
            }
        }
        i = i + 1;
    }
    proof {
        assert(table@.subrange(0, table@.len() as int) =~= table@);
    }
    r
}

/// The runs exactly straddle one of the first `n` outage intervals.
pub open spec fn straddles_some_gap(
    runs: Seq<(i64, i64)>,
    gaps: Seq<(i64, i64)>,
    n: int,
) -> bool {
    exists|g: int| 0 <= g < n && straddles(runs, (#[trigger] gaps[g]).0, gaps[g].1)
}

/// The whole Fix pass, as a relation: the stores reachable from `a` by
/// patching each interval of `gaps` in order, one `gap_step` per interval.
pub open spec fn gap_chain(a: TrieModel, b: TrieModel, gaps: Seq<(i64, i64)>) -> bool
    decreases gaps.len(),
{
    if gaps.len() == 0 {
        b == a
    } else {
        exists|mid: TrieModel|
            #[trigger] gap_step(mid, b, gaps.last().0, gaps.last().1) && gap_chain(
                a,
                mid,
                gaps.drop_last(),
            )
    }
}

impl RoasTrie {
    /// The Fix pass: patch every known publisher outage, interval by
    /// interval, in table order. Each interval is patched across the whole
    /// store before the next is examined, so an entry straddling one outage
    /// only after an earlier one was patched is healed too, within one pass.
    /// Recorded days are never lost, every gained day lies inside a known
    /// outage interval, and prefixes, keys and the watermark are unchanged.
    pub fn fill_gaps(&mut self)
        requires
            old(self)@.wf(),
        ensures
            gap_chain(old(self)@, final(self)@, gaps_ts_spec(known_gap_dates())),
            forall|t: int, k: int|
                0 <= t < final(self)@.nodes.len() && 0 <= k
                    < (#[trigger] final(self)@.nodes[t]).entries.len() && !straddles_some_gap(
                    old(self)@.nodes[t].entries[k].runs,
                    gaps_ts_spec(known_gap_dates()),
                    gaps_ts_spec(known_gap_dates()).len() as int,
                ) ==> #[trigger] final(self)@.nodes[t].entries[k] == old(
                    self,
                )@.nodes[t].entries[k],
            final(self)@.wf(),
            final(self)@.latest == old(self)@.latest,
            final(self)@.nodes.len() == old(self)@.nodes.len(),
            forall|t: int|
                0 <= t < final(self)@.nodes.len() ==> (#[trigger] final(self)@.nodes[t]).prefix
                    == old(self)@.nodes[t].prefix && final(self)@.nodes[t].entries.len() == old(
                    self,
                )@.nodes[t].entries.len(),
            forall|t: int, k: int|
                0 <= t < final(self)@.nodes.len() && 0 <= k
                    < (#[trigger] final(self)@.nodes[t]).entries.len() ==> (
                #[trigger] final(self)@.nodes[t].entries[k]).max_len == old(
                    self,
                )@.nodes[t].entries[k].max_len && final(self)@.nodes[t].entries[k].origin == old(
                    self,
                )@.nodes[t].entries[k].origin,
            forall|t: int, k: int, d: i64|
                0 <= t < final(self)@.nodes.len() && 0 <= k
                    < (#[trigger] final(self)@.nodes[t]).entries.len() && d % 86400 == 0 && old(
                    self,
                )@.nodes[t].entries[k].contains_day(d)
                    ==> #[trigger] final(self)@.nodes[t].entries[k].contains_day(d),
            forall|t: int, k: int, d: i64|
                0 <= t < final(self)@.nodes.len() && 0 <= k
                    < (#[trigger] final(self)@.nodes[t]).entries.len() && d % 86400 == 0
                    && #[trigger] final(self)@.nodes[t].entries[k].contains_day(d) ==> (old(
                    self,
                )@.nodes[t].entries[k].contains_day(d) || in_known_gap(d)),
    {
        let ghost m0 = self@;
        let gaps = known_gaps();
        let ghost gseq = gaps_ts_spec(known_gap_dates());
        let mut g: usize = 0;
        proof {
            assert(gseq.take(0) =~= Seq::<(i64, i64)>::empty());
            assert(gap_chain(m0, self@, gseq.take(0)));
        }
        while g < gaps.len()
            invariant
                g <= gaps@.len(),
                m0 == old(self)@,
                gaps@ == gseq,
                gseq == gaps_ts_spec(known_gap_dates()),
                gap_chain(m0, self@, gseq.take(g as int)),
                forall|t: int, k: int|
                    0 <= t < self@.nodes.len() && 0 <= k
                        < (#[trigger] self@.nodes[t]).entries.len() && !straddles_some_gap(
                        m0.nodes[t].entries[k].runs,
                        gseq,
                        g as int,
                    ) ==> #[trigger] self@.nodes[t].entries[k] == m0.nodes[t].entries[k],
                forall|t: int|
                    0 <= t < gaps@.len() ==> is_day_ts((#[trigger] gaps@[t]).0) && is_day_ts(
                        gaps@[t].1,
                    ) && gaps@[t].0 <= gaps@[t].1,
                self@.wf(),
                self@.latest == m0.latest,
                self@.nodes.len() == m0.nodes.len(),
                forall|t: int|
                    0 <= t < self@.nodes.len() ==> (#[trigger] self@.nodes[t]).prefix
                        == m0.nodes[t].prefix && self@.nodes[t].entries.len()
                        == m0.nodes[t].entries.len(),
                forall|t: int, k: int|
                    0 <= t < self@.nodes.len() && 0 <= k
                        < (#[trigger] self@.nodes[t]).entries.len() ==> (
                    #[trigger] self@.nodes[t].entries[k]).max_len == m0.nodes[t].entries[k].max_len
                        && self@.nodes[t].entries[k].origin == m0.nodes[t].entries[k].origin,
                forall|t: int, k: int, d: i64|
                    0 <= t < self@.nodes.len() && 0 <= k
                        < (#[trigger] self@.nodes[t]).entries.len() && d % 86400 == 0
                        && m0.nodes[t].entries[k].contains_day(d)
                        ==> #[trigger] self@.nodes[t].entries[k].contains_day(d),
                forall|t: int, k: int, d: i64|
                    0 <= t < self@.nodes.len() && 0 <= k
                        < (#[trigger] self@.nodes[t]).entries.len() && d % 86400 == 0
                        && #[trigger] self@.nodes[t].entries[k].contains_day(d) ==> (
                    m0.nodes[t].entries[k].contains_day(d) || in_known_gap(d)),
            decreases gaps@.len() - g,
        {
            let (gs, ge) = gaps[g];
            let ghost mprev = self@;
            self.fill_gap_interval(gs, ge);
            proof {
                assert(gap_chain(m0, self@, gseq.take(g + 1))) by {
                    assert(gseq.take(g + 1).drop_last() =~= gseq.take(g as int));
                    assert(gseq.take(g + 1).last() == gseq[g as int]);
                    assert(gap_step(mprev, self@, gseq[g as int].0, gseq[g as int].1));
                }
                assert forall|t: int, k: int|
                    0 <= t < self@.nodes.len() && 0 <= k
                        < (#[trigger] self@.nodes[t]).entries.len() && !straddles_some_gap(
                        m0.nodes[t].entries[k].runs,
                        gseq,
                        g + 1,
                    ) implies #[trigger] self@.nodes[t].entries[k] == m0.nodes[t].entries[k] by {
                    assert(!straddles_some_gap(m0.nodes[t].entries[k].runs, gseq, g as int)) by {
                        if straddles_some_gap(m0.nodes[t].entries[k].runs, gseq, g as int) {
                            let g2 = choose|g2: int|
                                0 <= g2 < g && straddles(
                                    m0.nodes[t].entries[k].runs,
                                    (#[trigger] gseq[g2]).0,
                                    gseq[g2].1,
                                );
                            assert(straddles(
                                m0.nodes[t].entries[k].runs,
                                (#[trigger] gseq[g2]).0,
                                gseq[g2].1,
                            ));
                        }
                    }
                    assert(mprev.nodes[t].entries[k] == m0.nodes[t].entries[k]);
                    assert(!straddles(m0.nodes[t].entries[k].runs, gs, ge)) by {
                        if straddles(m0.nodes[t].entries[k].runs, gs, ge) {
                            assert(straddles(
                                m0.nodes[t].entries[k].runs,
                                (#[trigger] gseq[g as int]).0,
                                gseq[g as int].1,
                            ));
                            assert(straddles_some_gap(m0.nodes[t].entries[k].runs, gseq, g + 1));
                        }
                    }
                    assert(!straddles(mprev.nodes[t].entries[k].runs, gs, ge));
                }
                assert forall|t: int, k: int, d: i64|
                    0 <= t < self@.nodes.len() && 0 <= k
                        < (#[trigger] self@.nodes[t]).entries.len() && d % 86400 == 0
                        && m0.nodes[t].entries[k].contains_day(d)
                    implies #[trigger] self@.nodes[t].entries[k].contains_day(d) by {
                    assert(mprev.nodes[t].entries[k].contains_day(d));
                    if straddles(mprev.nodes[t].entries[k].runs, gs, ge) {
                    } else {
                        assert(self@.nodes[t].entries[k] == mprev.nodes[t].entries[k]);
                    }
                }
                assert forall|t: int, k: int, d: i64|
                    0 <= t < self@.nodes.len() && 0 <= k
                        < (#[trigger] self@.nodes[t]).entries.len() && d % 86400 == 0
                        && #[trigger] self@.nodes[t].entries[k].contains_day(d) implies (
                m0.nodes[t].entries[k].contains_day(d) || in_known_gap(d)) by {
                    if straddles(mprev.nodes[t].entries[k].runs, gs, ge) {
                        if !mprev.nodes[t].entries[k].contains_day(d) {
                            assert(gs <= d <= ge);
                            assert((#[trigger] gseq[g as int]).0 <= d <= gseq[g as int].1);
                            assert(in_known_gap(d));
                        }
                    } else {
                        assert(self@.nodes[t].entries[k] == mprev.nodes[t].entries[k]);
                    }
                    if mprev.nodes[t].entries[k].contains_day(d) {
                        assert(m0.nodes[t].entries[k].contains_day(d) || in_known_gap(d));
                    }
                }
            }
            g = g + 1;
        }
        proof {
            assert(gseq.take(gseq.len() as int) =~= gseq);
        }
    }
}

} // verus!
