//! The binary dump format.
//!
//! The store serializes to a flat little-endian byte stream: a node count,
//! then per node its prefix, an entry count, and per entry the key, the
//! loose days and the day ranges. Day timestamps are shifted into the
//! non-negative range before encoding. Decoding accepts exactly the
//! encodings of well-formed stores: every count, day and range is checked,
//! so a successful decode re-encodes to the very same bytes.

use vstd::prelude::*;
use vstd::arithmetic::power2::{pow2, lemma_pow2_adds, lemma2_to64, lemma_pow2_pos};

verus! {

use crate::days::{MAX_DAY_TS, ONE_DAY, is_day_ts};
use crate::entry::{EntryModel, RoasTrieEntry, runs_wf};
use crate::prefix::{IpPrefix, spec_width, spec_trunc};
use crate::trie::{NodeModel, TrieModel, node_wf, entry_key};

/// The little-endian encoding of `v` in `n` bytes.
pub open spec fn enc_le(v: int, n: nat) -> Seq<u8>
    decreases n,
{
    if n == 0 {
        Seq::empty()
    } else {
        seq![(v % 256) as u8] + enc_le(v / 256, (n - 1) as nat)
    }
}

/// The value of a little-endian byte string.
pub open spec fn le_val(s: Seq<u8>) -> int
    decreases s.len(),
{
    if s.len() == 0 {
        0
    } else {
        s[0] + 256 * le_val(s.drop_first())
    }
}

/// An encoding has the asked-for width.
pub proof fn lemma_enc_le_len(v: int, n: nat)
    ensures
        enc_le(v, n).len() == n,
    decreases n,
{
    if n > 0 {
        lemma_enc_le_len(v / 256, (n - 1) as nat);
    }
}

/// Encoding then decoding gives the value back (within range).
pub proof fn lemma_le_roundtrip(v: int, n: nat)
    requires
        0 <= v < pow2(8 * n),
    ensures
        le_val(enc_le(v, n)) == v,
    decreases n,
{
    if n == 0 {
        assert(pow2(0) == 1) by {
            lemma2_to64();
        }
    } else {
        assert(pow2(8 * n) == 256 * pow2(8 * (n - 1) as nat)) by {
            lemma_pow2_adds(8, 8 * (n - 1) as nat);
            lemma2_to64();
        }
        assert(0 <= v / 256 < pow2(8 * (n - 1) as nat)) by {
            lemma_pow2_pos(8 * (n - 1) as nat);
            assert(v / 256 < pow2(8 * (n - 1) as nat)) by (nonlinear_arith)
                requires
                    0 <= v,
                    v < 256 * pow2(8 * (n - 1) as nat),
            ;
        }
        lemma_le_roundtrip(v / 256, (n - 1) as nat);
        let e = enc_le(v, n);
        assert(e.drop_first() =~= enc_le(v / 256, (n - 1) as nat));
        assert(e[0] == (v % 256) as u8);
        assert(le_val(e) == (v % 256) + 256 * (v / 256));
    }
}

/// Decoding then re-encoding gives the bytes back, and the value is within
/// range.
pub proof fn lemma_le_exact(s: Seq<u8>)
    ensures
        0 <= le_val(s) < pow2(8 * s.len()),
        enc_le(le_val(s), s.len()) == s,
    decreases s.len(),
{
    if s.len() == 0 {
        assert(pow2(0) == 1) by {
            lemma2_to64();
        }
        assert(enc_le(le_val(s), s.len()) =~= s);
    } else {
        lemma_le_exact(s.drop_first());
        let v = le_val(s);
        assert(v == s[0] + 256 * le_val(s.drop_first()));
        assert(pow2(8 * s.len()) == 256 * pow2(8 * (s.len() - 1) as nat)) by {
            lemma_pow2_adds(8, 8 * (s.len() - 1) as nat);
            lemma2_to64();
        }
        assert(v < pow2(8 * s.len())) by (nonlinear_arith)
            requires
                v == s[0] + 256 * le_val(s.drop_first()),
                s[0] < 256,
                0 <= le_val(s.drop_first()) < pow2(8 * (s.len() - 1) as nat),
                pow2(8 * s.len()) == 256 * pow2(8 * (s.len() - 1) as nat),
        ;
        assert(v % 256 == s[0] && v / 256 == le_val(s.drop_first())) by (nonlinear_arith)
            requires
                v == s[0] + 256 * le_val(s.drop_first()),
                0 <= s[0] < 256,
                0 <= le_val(s.drop_first()),
        ;
        assert(enc_le(v, s.len()) =~= s) by {
            assert(enc_le(v, s.len()) == seq![(v % 256) as u8] + enc_le(
                v / 256,
                (s.len() - 1) as nat,
            ));
            assert(enc_le(v / 256, (s.len() - 1) as nat) == s.drop_first());
        }
    }
}

/// `s` appears in `bytes` at offset `pos`.
pub open spec fn bytes_at(bytes: Seq<u8>, pos: int, s: Seq<u8>) -> bool {
    &&& 0 <= pos
    &&& pos + s.len() <= bytes.len()
    &&& bytes.subrange(pos, pos + s.len()) == s
}

/// A concatenation appears at an offset exactly when its parts appear back
/// to back.
pub proof fn lemma_bytes_at_concat(bytes: Seq<u8>, pos: int, s1: Seq<u8>, s2: Seq<u8>)
    ensures
        bytes_at(bytes, pos, s1 + s2) <==> (bytes_at(bytes, pos, s1) && bytes_at(
            bytes,
            pos + s1.len(),
            s2,
        )),
{
    if bytes_at(bytes, pos, s1 + s2) {
        assert(bytes.subrange(pos, pos + s1.len()) =~= s1) by {
            assert forall|j: int| 0 <= j < s1.len() implies bytes.subrange(
                pos,
                pos + s1.len(),
            )[j] == s1[j] by {
                assert(bytes.subrange(pos, pos + (s1 + s2).len())[j] == (s1 + s2)[j]);
            }
        }
        assert(bytes.subrange(pos + s1.len(), pos + s1.len() + s2.len()) =~= s2) by {
            assert forall|j: int| 0 <= j < s2.len() implies bytes.subrange(
                pos + s1.len(),
                pos + s1.len() + s2.len(),
            )[j] == s2[j] by {
                assert(bytes.subrange(pos, pos + (s1 + s2).len())[s1.len() + j] == (s1
                    + s2)[s1.len() + j]);
            }
        }
    }
    if bytes_at(bytes, pos, s1) && bytes_at(bytes, pos + s1.len(), s2) {
        assert(bytes.subrange(pos, pos + (s1 + s2).len()) =~= s1 + s2) by {
            assert forall|j: int| 0 <= j < (s1 + s2).len() implies bytes.subrange(
                pos,
                pos + (s1 + s2).len(),
            )[j] == (s1 + s2)[j] by {
                if j < s1.len() {
                    assert(bytes.subrange(pos, pos + s1.len())[j] == s1[j]);
                } else {
                    assert(bytes.subrange(pos + s1.len(), pos + s1.len() + s2.len())[j - s1.len()]
                        == s2[j - s1.len()]);
                }
            }
        }
    }
}

/// Append the `n`-byte little-endian encoding of `v`.
pub fn write_le(out: &mut Vec<u8>, v: u128, n: usize)
    requires
        n <= 16,
        (v as int) < pow2((8 * n) as nat),
    ensures
        final(out)@ == old(out)@ + enc_le(v as int, n as nat),
{
    let ghost out0 = out@;
    let mut cur = v;
    let mut i: usize = 0;
    proof {
        assert(out@ =~= out0 + enc_le(v as int, 0));
        assert(enc_le(v as int, n as nat) =~= enc_le(v as int, n as nat));
    }
    while i < n
        invariant
            i <= n <= 16,
            enc_le(v as int, n as nat) =~= out@.skip(out0.len() as int) + enc_le(
                cur as int,
                (n - i) as nat,
            ),
            out@.len() == out0.len() + i,
            out@.subrange(0, out0.len() as int) =~= out0,
        decreases n - i,
    {
        proof {
            assert(enc_le(cur as int, (n - i) as nat) == seq![(cur as int % 256) as u8] + enc_le(
                cur as int / 256,
                (n - i - 1) as nat,
            ));
        }
        let b = (cur % 256) as u8;
        out.push(b);
        cur = cur / 256;
        i = i + 1;
        proof {
            assert(enc_le(v as int, n as nat) =~= out@.skip(out0.len() as int) + enc_le(
                cur as int,
                (n - i) as nat,
            ));
            assert(out@.subrange(0, out0.len() as int) =~= out0);
        }
    }
    proof {
        assert(enc_le(cur as int, 0) =~= Seq::<u8>::empty());
        assert(out@.skip(out0.len() as int) + enc_le(cur as int, 0) =~= out@.skip(
            out0.len() as int,
        ));
        assert(out@ =~= out0 + out@.skip(out0.len() as int));
        assert(out@ =~= out0 + enc_le(v as int, n as nat));
    }
}

/// Read an `n`-byte little-endian value.
pub fn read_le(bytes: &[u8], pos: usize, n: usize) -> (r: Option<(u128, usize)>)
    requires
        n <= 16,
    ensures
        r is Some <==> pos + n <= bytes@.len(),
        r matches Some(p) ==> p.1 == pos + n && p.0 as int == le_val(
            bytes@.subrange(pos as int, pos + n),
        ) && bytes_at(bytes@, pos as int, enc_le(p.0 as int, n as nat)) && (p.0 as int) < pow2(
            (8 * n) as nat,
        ),
{
    let blen = bytes.len();
    if n > blen || pos > blen - n {
        return None;
    }
    let ghost window = bytes@.subrange(pos as int, pos + n);
    let mut v: u128 = 0;
    let mut k: usize = 0;
    proof {
        lemma_le_exact(window);
        assert(window.skip(n as int) =~= Seq::<u8>::empty());
        assert(pow2(0) == 1) by {
            lemma2_to64();
        }
    }
    while k < n
        invariant
            k <= n <= 16,
            blen == bytes@.len(),
            pos + n <= blen,
            window == bytes@.subrange(pos as int, pos + n),
            v as int == le_val(window.skip((n - k) as int)),
            (v as int) < pow2((8 * k) as nat),
        decreases n - k,
    {
        proof {
            assert(pow2((8 * (k + 1)) as nat) == 256 * pow2((8 * k) as nat)) by {
                lemma_pow2_adds(8, (8 * k) as nat);
                lemma2_to64();
            }
            assert(pow2((8 * (k + 1)) as nat) <= pow2(128)) by {
                if 8 * (k + 1) < 128 {
                    vstd::arithmetic::power2::lemma_pow2_strictly_increases(
                        (8 * (k + 1)) as nat,
                        128,
                    );
                }
            }
            assert(pow2(128) == 0x1_00000000_00000000_00000000_00000000) by {
                lemma2_to64();
                lemma_pow2_adds(64, 64);
            }
            let rest = window.skip((n - k - 1) as int);
            assert(rest[0] == window[(n - k - 1) as int]);
            assert(rest.drop_first() =~= window.skip((n - k) as int));
            assert(le_val(rest) == rest[0] + 256 * le_val(rest.drop_first()));
            assert(window[(n - k - 1) as int] == bytes@[pos + n - k - 1]);
        }
        let b = bytes[pos + n - k - 1];
        v = v * 256 + (b as u128);
        k = k + 1;
    }
    proof {
        assert(window.skip(0) =~= window);
        lemma_le_exact(window);
        assert(enc_le(v as int, n as nat) == window);
        assert(bytes_at(bytes@, pos as int, enc_le(v as int, n as nat)));
    }
    Some((v, pos + n))
}

/// The encoding of one day timestamp: shifted into the non-negative range,
/// eight bytes.
pub open spec fn enc_day(d: i64) -> Seq<u8> {
    enc_le(d + MAX_DAY_TS, 8)
}

/// Bounds needed to encode shifted days in eight bytes.
pub proof fn lemma_day_range()
    ensures
        2 * MAX_DAY_TS < pow2(64),
        pow2(64) == 0x1_00000000_00000000,
{
    lemma2_to64();
}

/// Append one day timestamp.
pub fn write_day(out: &mut Vec<u8>, d: i64)
    requires
        is_day_ts(d),
    ensures
        final(out)@ == old(out)@ + enc_day(d),
{
    proof {
        lemma_day_range();
    }
    let shifted: u128 = (d + MAX_DAY_TS) as u128;
    write_le(out, shifted, 8);
}

/// Where a day's encoding sits in the bytes, the stored value is the
/// shifted day.
pub proof fn lemma_enc_day_at(bytes: Seq<u8>, pos: int, d: i64)
    requires
        is_day_ts(d),
        bytes_at(bytes, pos, enc_day(d)),
    ensures
        pos + 8 <= bytes.len(),
        le_val(bytes.subrange(pos, pos + 8)) == d + MAX_DAY_TS,
{
    lemma_day_range();
    lemma_enc_le_len(d + MAX_DAY_TS, 8);
    lemma_le_roundtrip(d + MAX_DAY_TS, 8);
}

/// Read one day timestamp; only aligned, bounded days are accepted.
#[verifier::rlimit(100)]
#[verifier::spinoff_prover]
pub fn read_day(bytes: &[u8], pos: usize) -> (r: Option<(i64, usize)>)
    ensures
        r matches Some(p) ==> p.1 == pos + 8 && is_day_ts(p.0) && bytes_at(
            bytes@,
            pos as int,
            enc_day(p.0),
        ),
        forall|d: i64|
            is_day_ts(d) && bytes_at(bytes@, pos as int, #[trigger] enc_day(d)) ==> r == Some(
                (d, (pos + 8) as usize),
            ),
{
    proof {
        lemma_day_range();
        lemma_enc_le_len(0, 8);
    }
    let got = read_le(bytes, pos, 8);
    let r: Option<(i64, usize)> = match got {
        None => None,
        Some((v, p2)) => {
            if v > 2 * (MAX_DAY_TS as u128) {
                None
            } else {
                let d = (v as i64) - MAX_DAY_TS;
                if d % 86400 == 0 {
                    proof {
                        assert(d + MAX_DAY_TS == v as int);
                        assert(enc_day(d) == enc_le(v as int, 8));
                    }
                    Some((d, p2))
                } else {
                    None
                }
            }
        },
    };
    proof {
        assert forall|d: i64|
            is_day_ts(d) && bytes_at(bytes@, pos as int, #[trigger] enc_day(d)) implies r == Some(
            (d, (pos + 8) as usize),
        ) by {
            lemma_enc_day_at(bytes@, pos as int, d);
        }
    }
    r
}

/// The encoding of a day list, in order.
pub open spec fn enc_days(s: Seq<i64>) -> Seq<u8>
    decreases s.len(),
{
    if s.len() == 0 {
        Seq::empty()
    } else {
        enc_day(s[0]) + enc_days(s.drop_first())
    }
}

/// The encoding of one day range.
pub open spec fn enc_run(r: (i64, i64)) -> Seq<u8> {
    enc_day(r.0) + enc_day(r.1)
}

/// The encoding of a range list, in order.
pub open spec fn enc_runs(s: Seq<(i64, i64)>) -> Seq<u8>
    decreases s.len(),
{
    if s.len() == 0 {
        Seq::empty()
    } else {
        enc_run(s[0]) + enc_runs(s.drop_first())
    }
}

/// The encoding of one temporal entry: key, loose days, day ranges, each
/// list preceded by its count.
pub open spec fn enc_entry(e: EntryModel) -> Seq<u8> {
    enc_le(e.max_len as int, 1) + enc_le(e.origin as int, 4) + enc_le(e.loose.len() as int, 8)
        + enc_days(e.loose) + enc_le(e.runs.len() as int, 8) + enc_runs(e.runs)
}

/// The encoding of an entry list, in order.
pub open spec fn enc_entries(s: Seq<EntryModel>) -> Seq<u8>
    decreases s.len(),
{
    if s.len() == 0 {
        Seq::empty()
    } else {
        enc_entry(s[0]) + enc_entries(s.drop_first())
    }
}

/// The encoding of one prefix: a family byte, the address, the length.
pub open spec fn enc_prefix(p: IpPrefix) -> Seq<u8> {
    seq![if p.v4 { 1u8 } else { 0u8 }] + enc_le(p.addr as int, 16) + seq![p.len]
}

/// The encoding of one stored prefix with its entries.
pub open spec fn enc_node(n: NodeModel) -> Seq<u8> {
    enc_prefix(n.prefix) + enc_le(n.entries.len() as int, 8) + enc_entries(n.entries)
}

/// The encoding of a node list, in order.
pub open spec fn enc_nodes(s: Seq<NodeModel>) -> Seq<u8>
    decreases s.len(),
{
    if s.len() == 0 {
        Seq::empty()
    } else {
        enc_node(s[0]) + enc_nodes(s.drop_first())
    }
}

/// The encoding of the whole store: the node count, then the nodes. The
/// watermark is not stored; it is recomputed on load.
pub open spec fn enc_trie(m: TrieModel) -> Seq<u8> {
    enc_le(m.nodes.len() as int, 8) + enc_nodes(m.nodes)
}

/// Day lists encode element by element.
pub proof fn lemma_enc_days_push(s: Seq<i64>, d: i64)
    ensures
        enc_days(s.push(d)) == enc_days(s) + enc_day(d),
    decreases s.len(),
{
    if s.len() == 0 {
        assert(s.push(d)[0] == d);
        assert(s.push(d).drop_first() =~= s);
        assert(enc_days(s.push(d)) == enc_day(d) + enc_days(s));
        assert(enc_days(s) =~= Seq::<u8>::empty());
        assert(enc_days(s.push(d)) =~= enc_days(s) + enc_day(d));
    } else {
        assert(s.push(d)[0] == s[0]);
        assert(s.push(d).drop_first() =~= s.drop_first().push(d));
        lemma_enc_days_push(s.drop_first(), d);
        assert(enc_days(s.push(d)) == enc_day(s[0]) + enc_days(s.push(d).drop_first()));
        assert(enc_days(s.push(d).drop_first()) == enc_days(s.drop_first().push(d)));
        assert(enc_days(s) == enc_day(s[0]) + enc_days(s.drop_first()));
        assert(enc_days(s.push(d)) =~= enc_days(s) + enc_day(d));
    }
}

/// Range lists encode element by element.
pub proof fn lemma_enc_runs_push(s: Seq<(i64, i64)>, r: (i64, i64))
    ensures
        enc_runs(s.push(r)) == enc_runs(s) + enc_run(r),
    decreases s.len(),
{
    if s.len() == 0 {
        assert(s.push(r)[0] == r);
        assert(s.push(r).drop_first() =~= s);
        assert(enc_runs(s.push(r)) == enc_run(r) + enc_runs(s));
        assert(enc_runs(s) =~= Seq::<u8>::empty());
        assert(enc_runs(s.push(r)) =~= enc_runs(s) + enc_run(r));
    } else {
        assert(s.push(r)[0] == s[0]);
        assert(s.push(r).drop_first() =~= s.drop_first().push(r));
        lemma_enc_runs_push(s.drop_first(), r);
        assert(enc_runs(s.push(r)) == enc_run(s[0]) + enc_runs(s.push(r).drop_first()));
        assert(enc_runs(s.push(r).drop_first()) == enc_runs(s.drop_first().push(r)));
        assert(enc_runs(s) == enc_run(s[0]) + enc_runs(s.drop_first()));
        assert(enc_runs(s.push(r)) =~= enc_runs(s) + enc_run(r));
    }
}

/// Entry lists encode element by element.
pub proof fn lemma_enc_entries_push(s: Seq<EntryModel>, e: EntryModel)
    ensures
        enc_entries(s.push(e)) == enc_entries(s) + enc_entry(e),
    decreases s.len(),
{
    if s.len() == 0 {
        assert(s.push(e)[0] == e);
        assert(s.push(e).drop_first() =~= s);
        assert(enc_entries(s.push(e)) == enc_entry(e) + enc_entries(s));
        assert(enc_entries(s) =~= Seq::<u8>::empty());
        assert(enc_entries(s.push(e)) =~= enc_entries(s) + enc_entry(e));
    } else {
        assert(s.push(e)[0] == s[0]);
        assert(s.push(e).drop_first() =~= s.drop_first().push(e));
        lemma_enc_entries_push(s.drop_first(), e);
        assert(enc_entries(s.push(e)) == enc_entry(s[0]) + enc_entries(s.push(e).drop_first()));
        assert(enc_entries(s.push(e).drop_first()) == enc_entries(s.drop_first().push(e)));
        assert(enc_entries(s) == enc_entry(s[0]) + enc_entries(s.drop_first()));
        assert(enc_entries(s.push(e)) =~= enc_entries(s) + enc_entry(e));
    }
}

/// Node lists encode element by element.
pub proof fn lemma_enc_nodes_push(s: Seq<NodeModel>, n: NodeModel)
    ensures
        enc_nodes(s.push(n)) == enc_nodes(s) + enc_node(n),
    decreases s.len(),
{
    if s.len() == 0 {
        assert(s.push(n)[0] == n);
        assert(s.push(n).drop_first() =~= s);
        assert(enc_nodes(s.push(n)) == enc_node(n) + enc_nodes(s));
        assert(enc_nodes(s) =~= Seq::<u8>::empty());
        assert(enc_nodes(s.push(n)) =~= enc_nodes(s) + enc_node(n));
    } else {
        assert(s.push(n)[0] == s[0]);
        assert(s.push(n).drop_first() =~= s.drop_first().push(n));
        lemma_enc_nodes_push(s.drop_first(), n);
        assert(enc_nodes(s.push(n)) == enc_node(s[0]) + enc_nodes(s.push(n).drop_first()));
        assert(enc_nodes(s.push(n).drop_first()) == enc_nodes(s.drop_first().push(n)));
        assert(enc_nodes(s) == enc_node(s[0]) + enc_nodes(s.drop_first()));
        assert(enc_nodes(s.push(n)) =~= enc_nodes(s) + enc_node(n));
    }
}

/// A day list's encoding is eight bytes per day.
pub proof fn lemma_enc_days_len(s: Seq<i64>)
    ensures
        enc_days(s).len() == 8 * s.len(),
    decreases s.len(),
{
    if s.len() > 0 {
        lemma_enc_le_len(s[0] + MAX_DAY_TS, 8);
        lemma_enc_days_len(s.drop_first());
    }
}

/// A range list's encoding is sixteen bytes per range.
pub proof fn lemma_enc_runs_len(s: Seq<(i64, i64)>)
    ensures
        enc_runs(s).len() == 16 * s.len(),
    decreases s.len(),
{
    if s.len() > 0 {
        lemma_enc_le_len(s[0].0 + MAX_DAY_TS, 8);
        lemma_enc_le_len(s[0].1 + MAX_DAY_TS, 8);
        lemma_enc_runs_len(s.drop_first());
    }
}

/// A day list's encoding splits at any index.
pub proof fn lemma_enc_days_split(s: Seq<i64>, i: int)
    requires
        0 <= i <= s.len(),
    ensures
        enc_days(s) == enc_days(s.take(i)) + enc_days(s.skip(i)),
    decreases i,
{
    if i == 0 {
        assert(s.take(0) =~= Seq::<i64>::empty());
        assert(s.skip(0) =~= s);
        assert(enc_days(s) =~= enc_days(s.take(0)) + enc_days(s.skip(0)));
    } else {
        assert(s.take(i).drop_last() =~= s.take(i - 1));
        assert(s.take(i).last() == s[i - 1]);
        lemma_enc_days_split(s, i - 1);
        lemma_enc_days_push(s.take(i - 1), s[i - 1]);
        assert(s.take(i - 1).push(s[i - 1]) =~= s.take(i));
        // peel one element off the front of the skipped part
        let sk = s.skip(i - 1);
        assert(sk[0] == s[i - 1]);
        assert(sk.drop_first() =~= s.skip(i));
        assert(enc_days(sk) == enc_day(s[i - 1]) + enc_days(s.skip(i)));
        assert(enc_days(s) =~= enc_days(s.take(i)) + enc_days(s.skip(i)));
    }
}

/// A range list's encoding splits at any index.
pub proof fn lemma_enc_runs_split(s: Seq<(i64, i64)>, i: int)
    requires
        0 <= i <= s.len(),
    ensures
        enc_runs(s) == enc_runs(s.take(i)) + enc_runs(s.skip(i)),
    decreases i,
{
    if i == 0 {
        assert(s.take(0) =~= Seq::<(i64, i64)>::empty());
        assert(s.skip(0) =~= s);
        assert(enc_runs(s) =~= enc_runs(s.take(0)) + enc_runs(s.skip(0)));
    } else {
        lemma_enc_runs_split(s, i - 1);
        lemma_enc_runs_push(s.take(i - 1), s[i - 1]);
        assert(s.take(i - 1).push(s[i - 1]) =~= s.take(i));
        let sk = s.skip(i - 1);
        assert(sk[0] == s[i - 1]);
        assert(sk.drop_first() =~= s.skip(i));
        assert(enc_runs(sk) == enc_run(s[i - 1]) + enc_runs(s.skip(i)));
        assert(enc_runs(s) =~= enc_runs(s.take(i)) + enc_runs(s.skip(i)));
    }
}

/// Append a day list.
fn write_days(out: &mut Vec<u8>, v: &Vec<i64>)
    requires
        forall|i: int| 0 <= i < v@.len() ==> is_day_ts(#[trigger] v@[i]),
    ensures
        final(out)@ == old(out)@ + enc_days(v@),
{
    let ghost out0 = out@;
    let mut i: usize = 0;
    proof {
        assert(v@.take(0) =~= Seq::<i64>::empty());
        assert(out@ =~= out0 + enc_days(v@.take(0)));
    }
    while i < v.len()
        invariant
            i <= v@.len(),
            forall|t: int| 0 <= t < v@.len() ==> is_day_ts(#[trigger] v@[t]),
            out@ == out0 + enc_days(v@.take(i as int)),
        decreases v@.len() - i,
    {
        write_day(out, v[i]);
        proof {
            lemma_enc_days_push(v@.take(i as int), v@[i as int]);
            assert(v@.take(i as int).push(v@[i as int]) =~= v@.take(i + 1));
            assert(out@ =~= out0 + enc_days(v@.take(i + 1)));
        }
        i = i + 1;
    }
    proof {
        assert(v@.take(v@.len() as int) =~= v@);
    }
}

/// Append a range list.
fn write_runs(out: &mut Vec<u8>, v: &Vec<(i64, i64)>)
    requires
        forall|i: int|
            0 <= i < v@.len() ==> is_day_ts((#[trigger] v@[i]).0) && is_day_ts(v@[i].1),
    ensures
        final(out)@ == old(out)@ + enc_runs(v@),
{
    let ghost out0 = out@;
    let mut i: usize = 0;
    proof {
        assert(v@.take(0) =~= Seq::<(i64, i64)>::empty());
        assert(out@ =~= out0 + enc_runs(v@.take(0)));
    }
    while i < v.len()
        invariant
            i <= v@.len(),
            forall|t: int|
                0 <= t < v@.len() ==> is_day_ts((#[trigger] v@[t]).0) && is_day_ts(v@[t].1),
            out@ == out0 + enc_runs(v@.take(i as int)),
        decreases v@.len() - i,
    {
        let (s, e) = v[i];
        write_day(out, s);
        write_day(out, e);
        proof {
            lemma_enc_runs_push(v@.take(i as int), v@[i as int]);
            assert(v@.take(i as int).push(v@[i as int]) =~= v@.take(i + 1));
            assert(out@ =~= out0 + enc_runs(v@.take(i + 1)));
        }
        i = i + 1;
    }
    proof {
        assert(v@.take(v@.len() as int) =~= v@);
    }
}

/// Bounds for one-byte, four-byte and eight-byte fields.
proof fn lemma_small_pows()
    ensures
        pow2(8) == 0x100,
        pow2(32) == 0x1_00000000,
        pow2(64) == 0x1_00000000_00000000,
{
    lemma2_to64();
}

/// Append one temporal entry.
pub fn write_entry(out: &mut Vec<u8>, e: &RoasTrieEntry)
    requires
        e@.wf(),
    ensures
        final(out)@ == old(out)@ + enc_entry(e@),
{
    proof {
        lemma_small_pows();
    }
    let loose = e.get_loose_dates();
    let runs = e.get_date_ranges();
    write_le(out, e.get_max_len() as u128, 1);
    write_le(out, e.get_origin() as u128, 4);
    write_le(out, loose.len() as u128, 8);
    write_days(out, &loose);
    write_le(out, runs.len() as u128, 8);
    write_runs(out, &runs);
    proof {
        assert(final(out)@ =~= old(out)@ + enc_entry(e@));
    }
}

/// Append one prefix.
pub fn write_prefix(out: &mut Vec<u8>, p: &IpPrefix)
    requires
        p.wf(),
    ensures
        final(out)@ == old(out)@ + enc_prefix(*p),
{
    let fam: u8 = if p.v4 {
        1
    } else {
        0
    };
    out.push(fam);
    proof {
        assert(pow2(128) == 0x1_00000000_00000000_00000000_00000000) by {
            lemma2_to64();
            lemma_pow2_adds(64, 64);
        }
    }
    write_le(out, p.addr, 16);
    out.push(p.len);
    proof {
        assert(final(out)@ =~= old(out)@ + enc_prefix(*p));
    }
}

/// Read a list of `cnt` day timestamps.
fn read_days(bytes: &[u8], pos: usize, cnt: usize) -> (r: Option<(Vec<i64>, usize)>)
    ensures
        r matches Some(p) ==> p.0@.len() == cnt && (forall|t: int|
            0 <= t < cnt ==> is_day_ts(#[trigger] p.0@[t])) && bytes_at(
            bytes@,
            pos as int,
            enc_days(p.0@),
        ) && p.1 as int == pos + 8 * (cnt as int),
        forall|ds: Seq<i64>|
            ds.len() == cnt && (forall|t: int| 0 <= t < ds.len() ==> is_day_ts(#[trigger] ds[t]))
                && bytes_at(bytes@, pos as int, #[trigger] enc_days(ds)) ==> (r matches Some(p)
                && p.0@ == ds),
{
    if pos > bytes.len() {
        proof {
            assert forall|ds: Seq<i64>|
                ds.len() == cnt && (forall|t: int|
                    0 <= t < ds.len() ==> is_day_ts(#[trigger] ds[t])) && bytes_at(
                    bytes@,
                    pos as int,
                    #[trigger] enc_days(ds),
                ) implies false by {}
        }
        return None;
    }
    let mut acc: Vec<i64> = Vec::new();
    let mut cur = pos;
    let mut i: usize = 0;
    proof {
        assert(enc_days(acc@) =~= Seq::<u8>::empty());
        assert(bytes@.subrange(pos as int, pos as int) =~= Seq::<u8>::empty());
    }
    while i < cnt
        invariant
            i <= cnt,
            acc@.len() == i,
            forall|t: int| 0 <= t < i ==> is_day_ts(#[trigger] acc@[t]),
            bytes_at(bytes@, pos as int, enc_days(acc@)),
            cur as int == pos + 8 * (i as int),
            cur <= bytes@.len(),
            pos <= bytes@.len(),
            forall|ds: Seq<i64>|
                ds.len() == cnt && (forall|t: int|
                    0 <= t < ds.len() ==> is_day_ts(#[trigger] ds[t])) && bytes_at(
                    bytes@,
                    pos as int,
                    #[trigger] enc_days(ds),
                ) ==> acc@ == ds.take(i as int),
        decreases cnt - i,
    {
        proof {
            lemma_enc_days_len(acc@);
        }
        let got = read_day(bytes, cur);
        proof {
            assert forall|ds: Seq<i64>|
                ds.len() == cnt && (forall|t: int|
                    0 <= t < ds.len() ==> is_day_ts(#[trigger] ds[t])) && bytes_at(
                    bytes@,
                    pos as int,
                    #[trigger] enc_days(ds),
                ) implies got == Some((ds[i as int], (cur + 8) as usize)) by {
                assert(acc@ == ds.take(i as int));
                lemma_enc_days_split(ds, i as int);
                lemma_enc_days_len(ds.take(i as int));
                lemma_bytes_at_concat(
                    bytes@,
                    pos as int,
                    enc_days(ds.take(i as int)),
                    enc_days(ds.skip(i as int)),
                );
                let sk = ds.skip(i as int);
                assert(sk[0] == ds[i as int]);
                assert(sk.drop_first() =~= ds.skip(i + 1));
                assert(enc_days(sk) == enc_day(ds[i as int]) + enc_days(ds.skip(i + 1)));
                lemma_bytes_at_concat(
                    bytes@,
                    cur as int,
                    enc_day(ds[i as int]),
                    enc_days(ds.skip(i + 1)),
                );
                assert(bytes_at(bytes@, cur as int, enc_day(ds[i as int])));
            }
        }
        match got {
            None => {
                return None;
            },
            Some((d, p2)) => {
                let ghost acc0 = acc@;
                acc.push(d);
                cur = p2;
                proof {
                    lemma_enc_days_push(acc0, d);
                    lemma_enc_days_len(acc0);
                    lemma_enc_le_len(d + MAX_DAY_TS, 8);
                    lemma_bytes_at_concat(bytes@, pos as int, enc_days(acc0), enc_day(d));
                    assert(bytes_at(bytes@, pos as int, enc_days(acc@)));
                    assert forall|ds: Seq<i64>|
                        ds.len() == cnt && (forall|t: int|
                            0 <= t < ds.len() ==> is_day_ts(#[trigger] ds[t])) && bytes_at(
                            bytes@,
                            pos as int,
                            #[trigger] enc_days(ds),
                        ) implies acc@ == ds.take(i + 1) by {
                        assert(ds[i as int] == d);
                        assert(acc@ =~= ds.take(i as int).push(ds[i as int]));
                        assert(ds.take(i as int).push(ds[i as int]) =~= ds.take(i + 1));
                    }
                }
                i = i + 1;
            },
        }
    }
    proof {
        assert forall|ds: Seq<i64>|
            ds.len() == cnt && (forall|t: int| 0 <= t < ds.len() ==> is_day_ts(#[trigger] ds[t]))
                && bytes_at(bytes@, pos as int, #[trigger] enc_days(ds)) implies acc@ == ds by {
            assert(acc@ == ds.take(cnt as int));
            assert(ds.take(cnt as int) =~= ds);
        }
    }
    Some((acc, cur))
}

/// Read a list of `cnt` day ranges.
fn read_runs(bytes: &[u8], pos: usize, cnt: usize) -> (r: Option<(Vec<(i64, i64)>, usize)>)
    ensures
        r matches Some(p) ==> p.0@.len() == cnt && (forall|t: int|
            0 <= t < cnt ==> is_day_ts((#[trigger] p.0@[t]).0) && is_day_ts(p.0@[t].1))
            && bytes_at(bytes@, pos as int, enc_runs(p.0@)) && p.1 as int == pos + 16 * (
        cnt as int),
        forall|rs: Seq<(i64, i64)>|
            rs.len() == cnt && (forall|t: int|
                0 <= t < rs.len() ==> is_day_ts((#[trigger] rs[t]).0) && is_day_ts(rs[t].1))
                && bytes_at(bytes@, pos as int, #[trigger] enc_runs(rs)) ==> (r matches Some(p)
                && p.0@ == rs),
{
    if pos > bytes.len() {
        proof {
            assert forall|rs: Seq<(i64, i64)>|
                rs.len() == cnt && (forall|t: int|
                    0 <= t < rs.len() ==> is_day_ts((#[trigger] rs[t]).0) && is_day_ts(rs[t].1))
                    && bytes_at(bytes@, pos as int, #[trigger] enc_runs(rs)) implies false by {}
        }
        return None;
    }
    let mut acc: Vec<(i64, i64)> = Vec::new();
    let mut cur = pos;
    let mut i: usize = 0;
    proof {
        assert(enc_runs(acc@) =~= Seq::<u8>::empty());
        assert(bytes@.subrange(pos as int, pos as int) =~= Seq::<u8>::empty());
    }
    while i < cnt
        invariant
            i <= cnt,
            acc@.len() == i,
            forall|t: int| 0 <= t < i ==> is_day_ts((#[trigger] acc@[t]).0) && is_day_ts(
                acc@[t].1,
            ),
            bytes_at(bytes@, pos as int, enc_runs(acc@)),
            cur as int == pos + 16 * (i as int),
            cur <= bytes@.len(),
            pos <= bytes@.len(),
            forall|rs: Seq<(i64, i64)>|
                rs.len() == cnt && (forall|t: int|
                    0 <= t < rs.len() ==> is_day_ts((#[trigger] rs[t]).0) && is_day_ts(rs[t].1))
                    && bytes_at(bytes@, pos as int, #[trigger] enc_runs(rs)) ==> acc@ == rs.take(
                    i as int,
                ),
        decreases cnt - i,
    {
        proof {
            lemma_enc_runs_len(acc@);
        }
        let got_s = read_day(bytes, cur);
        let got_e = match got_s {
            Some((_, mid)) => read_day(bytes, mid),
            None => None,
        };
        proof {
            assert forall|rs: Seq<(i64, i64)>|
                rs.len() == cnt && (forall|t: int|
                    0 <= t < rs.len() ==> is_day_ts((#[trigger] rs[t]).0) && is_day_ts(rs[t].1))
                    && bytes_at(bytes@, pos as int, #[trigger] enc_runs(rs)) implies got_s == Some(
                (rs[i as int].0, (cur + 8) as usize),
            ) && got_e == Some((rs[i as int].1, (cur + 16) as usize)) by {
                assert(acc@ == rs.take(i as int));
                lemma_enc_runs_split(rs, i as int);
                lemma_enc_runs_len(rs.take(i as int));
                lemma_bytes_at_concat(
                    bytes@,
                    pos as int,
                    enc_runs(rs.take(i as int)),
                    enc_runs(rs.skip(i as int)),
                );
                let sk = rs.skip(i as int);
                assert(sk[0] == rs[i as int]);
                assert(sk.drop_first() =~= rs.skip(i + 1));
                assert(enc_runs(sk) == enc_run(rs[i as int]) + enc_runs(rs.skip(i + 1)));
                lemma_bytes_at_concat(
                    bytes@,
                    cur as int,
                    enc_run(rs[i as int]),
                    enc_runs(rs.skip(i + 1)),
                );
                lemma_bytes_at_concat(
                    bytes@,
                    cur as int,
                    enc_day(rs[i as int].0),
                    enc_day(rs[i as int].1),
                );
                lemma_enc_le_len(rs[i as int].0 + MAX_DAY_TS, 8);
                assert(bytes_at(bytes@, cur as int, enc_day(rs[i as int].0)));
                assert(bytes_at(bytes@, cur + 8, enc_day(rs[i as int].1)));
            }
        }
        match (got_s, got_e) {
            (Some((d0, _)), Some((d1, p2))) => {
                let ghost acc0 = acc@;
                acc.push((d0, d1));
                cur = p2;
                proof {
                    lemma_enc_runs_push(acc0, (d0, d1));
                    lemma_enc_runs_len(acc0);
                    lemma_enc_le_len(d0 + MAX_DAY_TS, 8);
                    lemma_enc_le_len(d1 + MAX_DAY_TS, 8);
                    lemma_bytes_at_concat(bytes@, cur as int - 16, enc_day(d0), enc_day(d1));
                    lemma_bytes_at_concat(bytes@, pos as int, enc_runs(acc0), enc_run((d0, d1)));
                    assert(bytes_at(bytes@, pos as int, enc_runs(acc@)));
                    assert forall|rs: Seq<(i64, i64)>|
                        rs.len() == cnt && (forall|t: int|
                            0 <= t < rs.len() ==> is_day_ts((#[trigger] rs[t]).0) && is_day_ts(
                                rs[t].1,
                            )) && bytes_at(bytes@, pos as int, #[trigger] enc_runs(rs))
                        implies acc@ == rs.take(i + 1) by {
                        assert(rs[i as int].0 == d0 && rs[i as int].1 == d1);
                        assert(acc@ =~= rs.take(i as int).push(rs[i as int]));
                        assert(rs.take(i as int).push(rs[i as int]) =~= rs.take(i + 1));
                    }
                }
                i = i + 1;
            },
            _ => {
                return None;
            },
        }
    }
    proof {
        assert forall|rs: Seq<(i64, i64)>|
            rs.len() == cnt && (forall|t: int|
                0 <= t < rs.len() ==> is_day_ts((#[trigger] rs[t]).0) && is_day_ts(rs[t].1))
                && bytes_at(bytes@, pos as int, #[trigger] enc_runs(rs)) implies acc@ == rs by {
            assert(acc@ == rs.take(cnt as int));
            assert(rs.take(cnt as int) =~= rs);
        }
    }
    Some((acc, cur))
}

/// Duplicate check over a day list.
fn days_unique(v: &Vec<i64>) -> (r: bool)
    ensures
        r == forall|i: int, j: int| 0 <= i < j < v@.len() ==> v@[i] != v@[j],
{
    let n = v.len();
    let mut i: usize = 0;
    while i < n
        invariant
            i <= n == v@.len(),
            forall|a: int, b: int| 0 <= a < b < v@.len() && a < i ==> v@[a] != v@[b],
        decreases n - i,
    {
        let mut j: usize = i + 1;
        while j < n
            invariant
                i < j <= n == v@.len(),
                forall|b: int| i < b < j ==> v@[i as int] != v@[b],
            decreases n - j,
        {
            if v[i] == v[j] {
                proof {
                    assert(v@[i as int] == v@[j as int]);
                }
                return false;
            }
            j = j + 1;
        }
        i = i + 1;
    }
    true
}

/// Consecutive gaps and non-empty runs give the pairwise gap property.
proof fn lemma_runs_chain(runs: Seq<(i64, i64)>, i: int, j: int)
    requires
        forall|t: int| 0 <= t < runs.len() ==> (#[trigger] runs[t]).0 <= runs[t].1,
        forall|t: int|
            0 <= t < runs.len() - 1 ==> (#[trigger] runs[t]).1 + 2 * 86400 <= runs[t + 1].0,
        0 <= i < j < runs.len(),
    ensures
        runs[i].1 + 2 * 86400 <= runs[j].0,
    decreases j - i,
{
    if j == i + 1 {
        assert((#[trigger] runs[i]).1 + 2 * 86400 <= runs[i + 1].0);
    } else {
        lemma_runs_chain(runs, i, j - 1);
        assert((#[trigger] runs[j - 1]).1 + 2 * 86400 <= runs[j].0);
        assert((#[trigger] runs[j - 1]).0 <= runs[j - 1].1);
    }
}

/// Canonicity check over a range list: runs non-empty and each gap at least
/// one whole day.
fn runs_canonical(v: &Vec<(i64, i64)>) -> (r: bool)
    requires
        forall|t: int|
            0 <= t < v@.len() ==> is_day_ts((#[trigger] v@[t]).0) && is_day_ts(v@[t].1),
    ensures
        r == runs_wf(v@),
{
    let n = v.len();
    let mut i: usize = 0;
    while i < n
        invariant
            i <= n == v@.len(),
            forall|t: int|
                0 <= t < v@.len() ==> is_day_ts((#[trigger] v@[t]).0) && is_day_ts(v@[t].1),
            forall|t: int| 0 <= t < i ==> (#[trigger] v@[t]).0 <= v@[t].1,
            forall|t: int| 0 <= t < i && t < v@.len() - 1 ==> (#[trigger] v@[t]).1 + 2 * 86400
                <= v@[t + 1].0,
        decreases n - i,
    {
        let (rs, re) = v[i];
        if rs > re {
            proof {
                assert(!((#[trigger] v@[i as int]).0 <= v@[i as int].1));
            }
            return false;
        }
        if i + 1 < n {
            let (ns, _ne) = v[i + 1];
            if re > ns - 2 * ONE_DAY {
                proof {
                    assert(!((#[trigger] v@[i as int]).1 + 2 * 86400 <= v@[i as int + 1].0));
                }
                return false;
            }
        }
        i = i + 1;
    }
    proof {
        if !runs_wf(v@) {
            assert forall|a: int, b: int| 0 <= a < b < v@.len() implies #[trigger] v@[a].1 + 2
                * 86400 <= #[trigger] v@[b].0 by {
                lemma_runs_chain(v@, a, b);
            }
        }
    }
    true
}

/// All pieces of an entry's encoding sit at their offsets.
pub open spec fn entry_parts_at(bytes: Seq<u8>, pos: int, em: EntryModel) -> bool {
    &&& bytes_at(bytes, pos, enc_le(em.max_len as int, 1))
    &&& bytes_at(bytes, pos + 1, enc_le(em.origin as int, 4))
    &&& bytes_at(bytes, pos + 5, enc_le(em.loose.len() as int, 8))
    &&& bytes_at(bytes, pos + 13, enc_days(em.loose))
    &&& bytes_at(bytes, pos + 13 + 8 * em.loose.len(), enc_le(em.runs.len() as int, 8))
    &&& bytes_at(bytes, pos + 21 + 8 * em.loose.len(), enc_runs(em.runs))
}

/// Where an entry's encoding sits in the bytes, each piece sits at its
/// offset.
pub proof fn lemma_entry_parts(bytes: Seq<u8>, pos: int, em: EntryModel)
    requires
        bytes_at(bytes, pos, enc_entry(em)),
    ensures
        entry_parts_at(bytes, pos, em),
        enc_entry(em).len() == 21 + 8 * em.loose.len() + 16 * em.runs.len(),
{
    lemma_enc_le_len(em.max_len as int, 1);
    lemma_enc_le_len(em.origin as int, 4);
    lemma_enc_le_len(em.loose.len() as int, 8);
    lemma_enc_le_len(em.runs.len() as int, 8);
    lemma_enc_days_len(em.loose);
    lemma_enc_runs_len(em.runs);
    let a = enc_le(em.max_len as int, 1);
    let b = enc_le(em.origin as int, 4);
    let c = enc_le(em.loose.len() as int, 8);
    let d = enc_days(em.loose);
    let e = enc_le(em.runs.len() as int, 8);
    let f = enc_runs(em.runs);
    assert(enc_entry(em) =~= a + (b + (c + (d + (e + f)))));
    lemma_bytes_at_concat(bytes, pos, a, b + (c + (d + (e + f))));
    lemma_bytes_at_concat(bytes, pos + 1, b, c + (d + (e + f)));
    lemma_bytes_at_concat(bytes, pos + 5, c, d + (e + f));
    lemma_bytes_at_concat(bytes, pos + 13, d, e + f);
    lemma_bytes_at_concat(bytes, pos + 13 + 8 * em.loose.len(), e, f);
}

/// A fixed-width field's encoding at an offset forces what `read_le`
/// returns there.
pub proof fn lemma_le_forced(bytes: Seq<u8>, pos: int, v: int, n: nat)
    requires
        0 <= v < pow2(8 * n),
        bytes_at(bytes, pos, enc_le(v, n)),
    ensures
        pos + n <= bytes.len(),
        le_val(bytes.subrange(pos, pos + n)) == v,
        enc_le(v, n).len() == n,
{
    lemma_enc_le_len(v, n);
    lemma_le_roundtrip(v, n);
}

/// Read one temporal entry; exactly the well-formed entries are accepted.
#[verifier::rlimit(100)]
pub fn read_entry(bytes: &[u8], pos: usize) -> (r: Option<(RoasTrieEntry, usize)>)
    ensures
        r matches Some(p) ==> p.0@.wf() && bytes_at(bytes@, pos as int, enc_entry(p.0@)) && p.1
            as int == pos + enc_entry(p.0@).len(),
        forall|em: EntryModel|
            em.wf() && bytes_at(bytes@, pos as int, #[trigger] enc_entry(em)) ==> (r matches Some(
                p,
            ) && p.0@ == em && p.1 as int == pos + enc_entry(em).len()),
{
    proof {
        lemma_small_pows();
    }
    let blen = bytes.len();
    let s1: Option<(u8, usize)> = match read_le(bytes, pos, 1) {
        Some((v, p)) => Some((v as u8, p)),
        None => None,
    };
    let s2: Option<(u8, u32, usize)> = match s1 {
        Some((ml, p)) => match read_le(bytes, p, 4) {
            Some((v, q)) => Some((ml, v as u32, q)),
            None => None,
        },
        None => None,
    };
    let s3: Option<(u8, u32, usize, usize)> = match s2 {
        Some((ml, origin, p)) => match read_le(bytes, p, 8) {
            Some((v, q)) => if v <= usize::MAX as u128 {
                Some((ml, origin, v as usize, q))
            } else {
                None
            },
            None => None,
        },
        None => None,
    };
    let s4: Option<(u8, u32, Vec<i64>, usize)> = match s3 {
        Some((ml, origin, lc, p)) => match read_days(bytes, p, lc) {
            Some((days, q)) => Some((ml, origin, days, q)),
            None => None,
        },
        None => None,
    };
    let s5: Option<(u8, u32, Vec<i64>, usize, usize)> = match s4 {
        Some((ml, origin, days, p)) => match read_le(bytes, p, 8) {
            Some((v, q)) => if v <= usize::MAX as u128 {
                Some((ml, origin, days, v as usize, q))
            } else {
                None
            },
            None => None,
        },
        None => None,
    };
    let s6: Option<(u8, u32, Vec<i64>, Vec<(i64, i64)>, usize)> = match s5 {
        Some((ml, origin, days, rc, p)) => match read_runs(bytes, p, rc) {
            Some((runs, q)) => Some((ml, origin, days, runs, q)),
            None => None,
        },
        None => None,
    };
    let r: Option<(RoasTrieEntry, usize)> = match s6 {
        Some((ml, origin, days, runs, p)) => {
            let ok_u = days_unique(&days);
            let ok_c = runs_canonical(&runs);
            let nonempty = days.len() > 0 || runs.len() > 0;
            if ok_u && ok_c && nonempty {
                let ghost dv = days@;
                let ghost rv = runs@;
                let entry = crate::entry::RoasTrieEntry::from_parts(ml, origin, days, runs);
                proof {
                    lemma_enc_days_len(dv);
                    lemma_enc_runs_len(rv);
                    lemma_enc_le_len(ml as int, 1);
                    lemma_enc_le_len(origin as int, 4);
                    lemma_enc_le_len(dv.len() as int, 8);
                    lemma_enc_le_len(rv.len() as int, 8);
                    assert(entry_encoding_at(bytes@, pos as int, entry@)) by {
                        let a = enc_le(ml as int, 1);
                        let b = enc_le(origin as int, 4);
                        let c = enc_le(dv.len() as int, 8);
                        let d = enc_days(dv);
                        let e = enc_le(rv.len() as int, 8);
                        let f = enc_runs(rv);
                        assert(enc_entry(entry@) =~= a + (b + (c + (d + (e + f)))));
                        lemma_bytes_at_concat(bytes@, pos as int + 13 + 8 * dv.len(), e, f);
                        lemma_bytes_at_concat(bytes@, pos as int + 13, d, e + f);
                        lemma_bytes_at_concat(bytes@, pos as int + 5, c, d + (e + f));
                        lemma_bytes_at_concat(bytes@, pos as int + 1, b, c + (d + (e + f)));
                        lemma_bytes_at_concat(bytes@, pos as int, a, b + (c + (d + (e + f))));
                    }
                }
                Some((entry, p))
            } else {
                None
            }
        },
        None => None,
    };
    proof {
        assert forall|em: EntryModel|
            em.wf() && bytes_at(bytes@, pos as int, #[trigger] enc_entry(em)) implies (
        r matches Some(p) && p.0@ == em && p.1 as int == pos + enc_entry(em).len()) by {
            lemma_entry_parts(bytes@, pos as int, em);
            lemma_le_forced(bytes@, pos as int, em.max_len as int, 1);
            assert(s1 == Some((em.max_len, (pos + 1) as usize)));
            lemma_le_forced(bytes@, pos + 1, em.origin as int, 4);
            assert(s2 == Some((em.max_len, em.origin, (pos + 5) as usize)));
            lemma_le_forced(bytes@, pos + 5, em.loose.len() as int, 8);
            lemma_enc_days_len(em.loose);
            assert(em.loose.len() <= usize::MAX);
            assert(s3 == Some(
                (em.max_len, em.origin, em.loose.len() as usize, (pos + 13) as usize),
            ));
            assert(s4 matches Some(x) && x.0 == em.max_len && x.1 == em.origin && x.2@ == em.loose
                && x.3 as int == pos + 13 + 8 * em.loose.len());
            lemma_le_forced(bytes@, pos + 13 + 8 * em.loose.len(), em.runs.len() as int, 8);
            lemma_enc_runs_len(em.runs);
            assert(em.runs.len() <= usize::MAX);
            assert(s5 matches Some(x) && x.0 == em.max_len && x.1 == em.origin && x.2@ == em.loose
                && x.3 == em.runs.len() && x.4 as int == pos + 21 + 8 * em.loose.len());
            assert(s6 matches Some(x) && x.0 == em.max_len && x.1 == em.origin && x.2@ == em.loose
                && x.3@ == em.runs && x.4 as int == pos + 21 + 8 * em.loose.len() + 16
                * em.runs.len());
            assert(enc_entry(em).len() == 21 + 8 * em.loose.len() + 16 * em.runs.len());
        }
    }
    r
}

/// An entry's whole encoding sits at the offset, with its known length.
pub open spec fn entry_encoding_at(bytes: Seq<u8>, pos: int, em: EntryModel) -> bool {
    bytes_at(bytes, pos, enc_entry(em)) && enc_entry(em).len() == 21 + 8 * em.loose.len() + 16
        * em.runs.len()
}

/// An entry list's encoding splits at any index.
pub proof fn lemma_enc_entries_split(s: Seq<EntryModel>, i: int)
    requires
        0 <= i <= s.len(),
    ensures
        enc_entries(s) == enc_entries(s.take(i)) + enc_entries(s.skip(i)),
    decreases i,
{
    if i == 0 {
        assert(s.take(0) =~= Seq::<EntryModel>::empty());
        assert(s.skip(0) =~= s);
        assert(enc_entries(s) =~= enc_entries(s.take(0)) + enc_entries(s.skip(0)));
    } else {
        lemma_enc_entries_split(s, i - 1);
        lemma_enc_entries_push(s.take(i - 1), s[i - 1]);
        assert(s.take(i - 1).push(s[i - 1]) =~= s.take(i));
        let sk = s.skip(i - 1);
        assert(sk[0] == s[i - 1]);
        assert(sk.drop_first() =~= s.skip(i));
        assert(enc_entries(sk) == enc_entry(s[i - 1]) + enc_entries(s.skip(i)));
        assert(enc_entries(s) =~= enc_entries(s.take(i)) + enc_entries(s.skip(i)));
    }
}

/// Read one prefix; exactly the canonical well-formed prefixes are
/// accepted.
pub fn read_prefix(bytes: &[u8], pos: usize) -> (r: Option<(IpPrefix, usize)>)
    ensures
        r matches Some(p) ==> p.0.wf() && bytes_at(bytes@, pos as int, enc_prefix(p.0)) && p.1
            as int == pos + 18,
        forall|q: IpPrefix|
            q.wf() && bytes_at(bytes@, pos as int, #[trigger] enc_prefix(q)) ==> r == Some(
                (q, (pos + 18) as usize),
            ),
{
    proof {
        lemma_small_pows();
        assert(pow2(128) == 0x1_00000000_00000000_00000000_00000000) by {
            lemma2_to64();
            lemma_pow2_adds(64, 64);
        }
    }
    let s1: Option<(bool, usize)> = match read_le(bytes, pos, 1) {
        Some((v, p)) => if v == 0 {
            Some((false, p))
        } else if v == 1 {
            Some((true, p))
        } else {
            None
        },
        None => None,
    };
    let s2: Option<(bool, u128, usize)> = match s1 {
        Some((v4, p)) => match read_le(bytes, p, 16) {
            Some((a, q)) => Some((v4, a, q)),
            None => None,
        },
        None => None,
    };
    let s3: Option<(bool, u128, u8, usize)> = match s2 {
        Some((v4, a, p)) => match read_le(bytes, p, 1) {
            Some((l, q)) => Some((v4, a, l as u8, q)),
            None => None,
        },
        None => None,
    };
    let r: Option<(IpPrefix, usize)> = match s3 {
        Some((v4, a, l, p)) => match IpPrefix::from_parts(v4, a, l) {
            Some(q) => if q.addr == a {
                proof {
                    lemma_enc_le_len(if q.v4 { 1int } else { 0int }, 1);
                    lemma_enc_le_len(q.addr as int, 16);
                    lemma_enc_le_len(q.len as int, 1);
                    assert(enc_prefix(q) =~= enc_le(if q.v4 { 1int } else { 0int }, 1) + (enc_le(
                        q.addr as int,
                        16,
                    ) + enc_le(q.len as int, 1)));
                    lemma_bytes_at_concat(bytes@, pos + 1, enc_le(q.addr as int, 16), enc_le(
                        q.len as int,
                        1,
                    ));
                    lemma_bytes_at_concat(
                        bytes@,
                        pos as int,
                        enc_le(if q.v4 { 1int } else { 0int }, 1),
                        enc_le(q.addr as int, 16) + enc_le(q.len as int, 1),
                    );
                }
                Some((q, p))
            } else {
                None
            },
            None => None,
        },
        None => None,
    };
    proof {
        assert forall|q: IpPrefix|
            q.wf() && bytes_at(bytes@, pos as int, #[trigger] enc_prefix(q)) implies r == Some(
            (q, (pos + 18) as usize),
        ) by {
            let fam: int = if q.v4 {
                1
            } else {
                0
            };
            lemma_enc_le_len(fam, 1);
            lemma_enc_le_len(q.addr as int, 16);
            lemma_enc_le_len(q.len as int, 1);
            assert(enc_prefix(q) =~= enc_le(fam, 1) + (enc_le(q.addr as int, 16) + enc_le(
                q.len as int,
                1,
            )));
            lemma_bytes_at_concat(
                bytes@,
                pos as int,
                enc_le(fam, 1),
                enc_le(q.addr as int, 16) + enc_le(q.len as int, 1),
            );
            lemma_bytes_at_concat(bytes@, pos + 1, enc_le(q.addr as int, 16), enc_le(
                q.len as int,
                1,
            ));
            lemma_le_forced(bytes@, pos as int, fam, 1);
            assert(pow2(128) == 0x1_00000000_00000000_00000000_00000000) by {
                lemma2_to64();
                lemma_pow2_adds(64, 64);
            }
            lemma_le_forced(bytes@, pos + 1, q.addr as int, 16);
            lemma_le_forced(bytes@, pos + 17, q.len as int, 1);
            assert(s3 == Some((q.v4, q.addr, q.len, (pos + 18) as usize)));
            // a well-formed prefix is already canonical, so the rebuild
            // returns it unchanged
            let shift = (spec_width(q.v4) - q.len as nat) as nat;
            assert(q.addr as int % pow2(shift) as int == 0);
            assert(spec_trunc(q.addr, shift) == q.addr as int);
        }
    }
    r
}

/// Read a list of `cnt` temporal entries.
pub fn read_entries(bytes: &[u8], pos: usize, cnt: usize) -> (r: Option<
    (Vec<RoasTrieEntry>, usize),
>)
    ensures
        r matches Some(p) ==> (forall|t: int|
            0 <= t < p.0@.len() ==> (#[trigger] p.0@[t])@.wf()) && p.0@.len() == cnt && bytes_at(
            bytes@,
            pos as int,
            enc_entries(p.0@.map_values(|e: RoasTrieEntry| e@)),
        ) && p.1 as int == pos + enc_entries(p.0@.map_values(|e: RoasTrieEntry| e@)).len(),
        forall|es: Seq<EntryModel>|
            es.len() == cnt && (forall|t: int| 0 <= t < es.len() ==> (#[trigger] es[t]).wf())
                && bytes_at(bytes@, pos as int, #[trigger] enc_entries(es)) ==> (r matches Some(p)
                && p.0@.map_values(|e: RoasTrieEntry| e@) == es && p.1 as int == pos + enc_entries(
                es,
            ).len()),
{
    if pos > bytes.len() {
        proof {
            assert forall|es: Seq<EntryModel>|
                es.len() == cnt && (forall|t: int| 0 <= t < es.len() ==> (#[trigger] es[t]).wf())
                    && bytes_at(bytes@, pos as int, #[trigger] enc_entries(es)) implies false by {}
        }
        return None;
    }
    let mut acc: Vec<RoasTrieEntry> = Vec::new();
    let mut cur = pos;
    let mut i: usize = 0;
    proof {
        assert(acc@.map_values(|e: RoasTrieEntry| e@) =~= Seq::<EntryModel>::empty());
        assert(enc_entries(acc@.map_values(|e: RoasTrieEntry| e@)) =~= Seq::<u8>::empty());
        assert(bytes@.subrange(pos as int, pos as int) =~= Seq::<u8>::empty());
    }
    while i < cnt
        invariant
            i <= cnt,
            acc@.len() == i,
            forall|t: int| 0 <= t < i ==> (#[trigger] acc@[t])@.wf(),
            bytes_at(bytes@, pos as int, enc_entries(acc@.map_values(|e: RoasTrieEntry| e@))),
            cur as int == pos + enc_entries(acc@.map_values(|e: RoasTrieEntry| e@)).len(),
            cur <= bytes@.len(),
            pos <= bytes@.len(),
            forall|es: Seq<EntryModel>|
                es.len() == cnt && (forall|t: int| 0 <= t < es.len() ==> (#[trigger] es[t]).wf())
                    && bytes_at(bytes@, pos as int, #[trigger] enc_entries(es)) ==> acc@.map_values(
                    |e: RoasTrieEntry| e@,
                ) == es.take(i as int),
        decreases cnt - i,
    {
        let got = read_entry(bytes, cur);
        proof {
            assert forall|es: Seq<EntryModel>|
                es.len() == cnt && (forall|t: int| 0 <= t < es.len() ==> (#[trigger] es[t]).wf())
                    && bytes_at(bytes@, pos as int, #[trigger] enc_entries(es)) implies (
            got matches Some(g) && g.0@ == es[i as int] && g.1 as int == cur + enc_entry(
                es[i as int],
            ).len()) by {
                assert(acc@.map_values(|e: RoasTrieEntry| e@) == es.take(i as int));
                lemma_enc_entries_split(es, i as int);
                lemma_bytes_at_concat(
                    bytes@,
                    pos as int,
                    enc_entries(es.take(i as int)),
                    enc_entries(es.skip(i as int)),
                );
                let sk = es.skip(i as int);
                assert(sk[0] == es[i as int]);
                assert(sk.drop_first() =~= es.skip(i + 1));
                assert(enc_entries(sk) == enc_entry(es[i as int]) + enc_entries(es.skip(i + 1)));
                lemma_bytes_at_concat(
                    bytes@,
                    cur as int,
                    enc_entry(es[i as int]),
                    enc_entries(es.skip(i + 1)),
                );
                assert(bytes_at(bytes@, cur as int, enc_entry(es[i as int])));
                assert(es[i as int].wf());
            }
        }
        match got {
            None => {
                return None;
            },
            Some((entry, p2)) => {
                let ghost accm0 = acc@.map_values(|e: RoasTrieEntry| e@);
                let ghost em = entry@;
                acc.push(entry);
                cur = p2;
                proof {
                    assert(acc@.map_values(|e: RoasTrieEntry| e@) =~= accm0.push(em));
                    lemma_enc_entries_push(accm0, em);
                    lemma_bytes_at_concat(bytes@, pos as int, enc_entries(accm0), enc_entry(em));
                    assert(bytes_at(
                        bytes@,
                        pos as int,
                        enc_entries(acc@.map_values(|e: RoasTrieEntry| e@)),
                    ));
                    assert forall|es: Seq<EntryModel>|
                        es.len() == cnt && (forall|t: int|
                            0 <= t < es.len() ==> (#[trigger] es[t]).wf()) && bytes_at(
                            bytes@,
                            pos as int,
                            #[trigger] enc_entries(es),
                        ) implies acc@.map_values(|e: RoasTrieEntry| e@) == es.take(i + 1) by {
                        assert(es[i as int] == em);
                        assert(accm0.push(em) =~= es.take(i as int).push(es[i as int]));
                        assert(es.take(i as int).push(es[i as int]) =~= es.take(i + 1));
                    }
                }
                i = i + 1;
            },
        }
    }
    proof {
        assert forall|es: Seq<EntryModel>|
            es.len() == cnt && (forall|t: int| 0 <= t < es.len() ==> (#[trigger] es[t]).wf())
                && bytes_at(bytes@, pos as int, #[trigger] enc_entries(es))
            implies acc@.map_values(|e: RoasTrieEntry| e@) == es by {
            assert(acc@.map_values(|e: RoasTrieEntry| e@) == es.take(cnt as int));
            assert(es.take(cnt as int) =~= es);
        }
    }
    Some((acc, cur))
}

/// A node list's encoding splits at any index.
pub proof fn lemma_enc_nodes_split(s: Seq<NodeModel>, i: int)
    requires
        0 <= i <= s.len(),
    ensures
        enc_nodes(s) == enc_nodes(s.take(i)) + enc_nodes(s.skip(i)),
    decreases i,
{
    if i == 0 {
        assert(s.take(0) =~= Seq::<NodeModel>::empty());
        assert(s.skip(0) =~= s);
        assert(enc_nodes(s) =~= enc_nodes(s.take(0)) + enc_nodes(s.skip(0)));
    } else {
        lemma_enc_nodes_split(s, i - 1);
        lemma_enc_nodes_push(s.take(i - 1), s[i - 1]);
        assert(s.take(i - 1).push(s[i - 1]) =~= s.take(i));
        let sk = s.skip(i - 1);
        assert(sk[0] == s[i - 1]);
        assert(sk.drop_first() =~= s.skip(i));
        assert(enc_nodes(sk) == enc_node(s[i - 1]) + enc_nodes(s.skip(i)));
        assert(enc_nodes(s) =~= enc_nodes(s.take(i)) + enc_nodes(s.skip(i)));
    }
}

/// Key-uniqueness check over an entry list.
pub fn keys_unique(v: &Vec<RoasTrieEntry>) -> (r: bool)
    ensures
        r == forall|k: int, l: int|
            0 <= k < l < v@.len() ==> entry_key((#[trigger] v@[k])@) != entry_key(
                (#[trigger] v@[l])@,
            ),
{
    let n = v.len();
    let mut i: usize = 0;
    while i < n
        invariant
            i <= n == v@.len(),
            forall|a: int, b: int|
                0 <= a < b < v@.len() && a < i ==> entry_key((#[trigger] v@[a])@) != entry_key(
                    (#[trigger] v@[b])@,
                ),
        decreases n - i,
    {
        let mut j: usize = i + 1;
        while j < n
            invariant
                i < j <= n == v@.len(),
                forall|b: int|
                    i < b < j ==> entry_key((#[trigger] v@[b])@) != entry_key(v@[i as int]@),
            decreases n - j,
        {
            if v[i].get_max_len() == v[j].get_max_len() && v[i].get_origin() == v[j].get_origin() {
                proof {
                    assert(entry_key((#[trigger] v@[i as int])@) == entry_key(
                        (#[trigger] v@[j as int])@,
                    ));
                }
                return false;
            }
            j = j + 1;
        }
        i = i + 1;
    }
    true
}

/// Append one stored prefix with its entries.
pub fn write_node(out: &mut Vec<u8>, prefix: &IpPrefix, entries: &Vec<RoasTrieEntry>)
    requires
        prefix.wf(),
        forall|t: int| 0 <= t < entries@.len() ==> (#[trigger] entries@[t])@.wf(),
    ensures
        final(out)@ == old(out)@ + enc_node(
            NodeModel { prefix: *prefix, entries: entries@.map_values(|e: RoasTrieEntry| e@) },
        ),
{
    proof {
        lemma_small_pows();
    }
    write_prefix(out, prefix);
    write_le(out, entries.len() as u128, 8);
    let ghost mid = out@;
    let ghost ents = entries@.map_values(|e: RoasTrieEntry| e@);
    let mut k: usize = 0;
    proof {
        assert(ents.take(0) =~= Seq::<EntryModel>::empty());
        assert(out@ =~= mid + enc_entries(ents.take(0)));
    }
    while k < entries.len()
        invariant
            k <= entries@.len(),
            ents == entries@.map_values(|e: RoasTrieEntry| e@),
            forall|t: int| 0 <= t < entries@.len() ==> (#[trigger] entries@[t])@.wf(),
            out@ == mid + enc_entries(ents.take(k as int)),
        decreases entries@.len() - k,
    {
        write_entry(out, &entries[k]);
        proof {
            lemma_enc_entries_push(ents.take(k as int), ents[k as int]);
            assert(ents.take(k as int).push(ents[k as int]) =~= ents.take(k + 1));
            assert(out@ =~= mid + enc_entries(ents.take(k + 1)));
        }
        k = k + 1;
    }
    proof {
        assert(ents.take(ents.len() as int) =~= ents);
        assert(final(out)@ =~= old(out)@ + enc_node(
            NodeModel { prefix: *prefix, entries: ents },
        ));
    }
}

/// Where a node's encoding sits in the bytes, each piece sits at its
/// offset.
pub proof fn lemma_node_parts(bytes: Seq<u8>, pos: int, nm: NodeModel)
    requires
        bytes_at(bytes, pos, enc_node(nm)),
    ensures
        bytes_at(bytes, pos, enc_prefix(nm.prefix)),
        bytes_at(bytes, pos + 18, enc_le(nm.entries.len() as int, 8)),
        bytes_at(bytes, pos + 26, enc_entries(nm.entries)),
        enc_node(nm).len() == 26 + enc_entries(nm.entries).len(),
        enc_prefix(nm.prefix).len() == 18,
{
    lemma_enc_le_len(nm.prefix.addr as int, 16);
    lemma_enc_le_len(nm.entries.len() as int, 8);
    let a = enc_prefix(nm.prefix);
    let b = enc_le(nm.entries.len() as int, 8);
    let c = enc_entries(nm.entries);
    assert(enc_node(nm) =~= a + (b + c));
    lemma_bytes_at_concat(bytes, pos, a, b + c);
    lemma_bytes_at_concat(bytes, pos + 18, b, c);
}

/// Read one stored prefix with its entries; exactly the well-formed nodes
/// are accepted.
pub fn read_node(bytes: &[u8], pos: usize) -> (r: Option<(IpPrefix, Vec<RoasTrieEntry>, usize)>)
    ensures
        r matches Some(p) ==> node_wf(
            NodeModel { prefix: p.0, entries: p.1@.map_values(|e: RoasTrieEntry| e@) },
        ) && bytes_at(
            bytes@,
            pos as int,
            enc_node(NodeModel { prefix: p.0, entries: p.1@.map_values(|e: RoasTrieEntry| e@) }),
        ) && p.2 as int == pos + enc_node(
            NodeModel { prefix: p.0, entries: p.1@.map_values(|e: RoasTrieEntry| e@) },
        ).len(),
        forall|nm: NodeModel|
            node_wf(nm) && bytes_at(bytes@, pos as int, #[trigger] enc_node(nm)) ==> (
            r matches Some(p) && p.0 == nm.prefix && p.1@.map_values(|e: RoasTrieEntry| e@)
                == nm.entries && p.2 as int == pos + enc_node(nm).len()),
{
    proof {
        lemma_small_pows();
    }
    let blen = bytes.len();
    let s1: Option<(IpPrefix, usize)> = read_prefix(bytes, pos);
    let s2: Option<(IpPrefix, usize, usize)> = match s1 {
        Some((pfx, p)) => match read_le(bytes, p, 8) {
            Some((v, q)) => if v <= usize::MAX as u128 && v > 0 {
                Some((pfx, v as usize, q))
            } else {
                None
            },
            None => None,
        },
        None => None,
    };
    let s3: Option<(IpPrefix, Vec<RoasTrieEntry>, usize)> = match s2 {
        Some((pfx, cnt, p)) => match read_entries(bytes, p, cnt) {
            Some((ents, q)) => Some((pfx, ents, q)),
            None => None,
        },
        None => None,
    };
    let ku: bool = match &s3 {
        Some((_, ents, _)) => keys_unique(ents),
        None => false,
    };
    let r: Option<(IpPrefix, Vec<RoasTrieEntry>, usize)> = match s3 {
        Some((pfx, ents, p)) => {
            if ku {
                proof {
                    let em = ents@.map_values(|e: RoasTrieEntry| e@);
                    let nm = NodeModel { prefix: pfx, entries: em };
                    lemma_enc_le_len(pfx.addr as int, 16);
                    lemma_enc_le_len(em.len() as int, 8);
                    assert(enc_node(nm) =~= enc_prefix(pfx) + (enc_le(em.len() as int, 8)
                        + enc_entries(em)));
                    lemma_bytes_at_concat(bytes@, pos + 18, enc_le(em.len() as int, 8),
                    enc_entries(em));
                    lemma_bytes_at_concat(
                        bytes@,
                        pos as int,
                        enc_prefix(pfx),
                        enc_le(em.len() as int, 8) + enc_entries(em),
                    );
                }
                Some((pfx, ents, p))
            } else {
                None
            }
        },
        None => None,
    };
    proof {
        assert forall|nm: NodeModel|
            node_wf(nm) && bytes_at(bytes@, pos as int, #[trigger] enc_node(nm)) implies (
        r matches Some(p) && p.0 == nm.prefix && p.1@.map_values(|e: RoasTrieEntry| e@)
            == nm.entries && p.2 as int == pos + enc_node(nm).len()) by {
            lemma_node_parts(bytes@, pos as int, nm);
            assert(s1 == Some((nm.prefix, (pos + 18) as usize)));
            lemma_enc_entries_ge_len(nm.entries);
            assert(nm.entries.len() <= bytes@.len());
            assert(nm.entries.len() <= usize::MAX);
            assert(nm.entries.len() < pow2(64));
            lemma_le_forced(bytes@, pos + 18, nm.entries.len() as int, 8);
            assert(s2 == Some((nm.prefix, nm.entries.len() as usize, (pos + 26) as usize)));
            assert(s3 matches Some(x) && x.0 == nm.prefix && x.1@.map_values(
                |e: RoasTrieEntry| e@,
            ) == nm.entries && x.2 as int == pos + 26 + enc_entries(nm.entries).len());
            let x = s3.unwrap();
            assert forall|k: int, l: int|
                0 <= k < l < x.1@.len() implies entry_key((#[trigger] x.1@[k])@) != entry_key(
                (#[trigger] x.1@[l])@,
            ) by {
                assert(x.1@[k]@ == nm.entries[k]);
                assert(x.1@[l]@ == nm.entries[l]);
                assert(entry_key(#[trigger] nm.entries[k]) != entry_key(#[trigger] nm.entries[l]));
            }
            assert(ku);
        }
    }
    r
}

/// An entry list's encoding is at least one byte per entry.
pub proof fn lemma_enc_entries_ge_len(s: Seq<EntryModel>)
    ensures
        enc_entries(s).len() >= s.len(),
    decreases s.len(),
{
    if s.len() > 0 {
        lemma_enc_entries_ge_len(s.drop_first());
        lemma_enc_le_len(s[0].max_len as int, 1);
        lemma_enc_le_len(s[0].origin as int, 4);
        lemma_enc_le_len(s[0].loose.len() as int, 8);
        lemma_enc_le_len(s[0].runs.len() as int, 8);
        lemma_enc_days_len(s[0].loose);
        lemma_enc_runs_len(s[0].runs);
    }
}

/// A node list's encoding is at least one byte per node.
pub proof fn lemma_enc_nodes_ge_len(s: Seq<NodeModel>)
    ensures
        enc_nodes(s).len() >= s.len(),
    decreases s.len(),
{
    if s.len() > 0 {
        lemma_enc_nodes_ge_len(s.drop_first());
        lemma_enc_le_len(s[0].prefix.addr as int, 16);
        lemma_enc_le_len(s[0].entries.len() as int, 8);
    }
}

/// A whole-store encoding starts with the node count, then the nodes.
pub proof fn lemma_trie_head(bytes: Seq<u8>, m: TrieModel)
    requires
        bytes == enc_trie(m),
    ensures
        bytes.len() == 8 + enc_nodes(m.nodes).len(),
        bytes_at(bytes, 0, enc_le(m.nodes.len() as int, 8)),
        bytes_at(bytes, 8, enc_nodes(m.nodes)),
        m.nodes.len() <= enc_nodes(m.nodes).len(),
{
    lemma_enc_le_len(m.nodes.len() as int, 8);
    lemma_enc_nodes_ge_len(m.nodes);
    assert(bytes.subrange(0, bytes.len() as int) =~= bytes);
    assert(bytes_at(bytes, 0, enc_le(m.nodes.len() as int, 8) + enc_nodes(m.nodes)));
    lemma_bytes_at_concat(bytes, 0, enc_le(m.nodes.len() as int, 8), enc_nodes(m.nodes));
}

} // verus!
