//! The snapshot CSV grammar.
//!
//! A snapshot file starts with a header line beginning with `URI`; every
//! following line is `<uri>,AS<asn>,<prefix>,<max_len>`. The snapshot's
//! calendar date comes from the URL path, not from the file. Lines that do
//! not follow the grammar are dropped; a file without its header is
//! rejected whole.

use vstd::prelude::*;

verus! {

use crate::days::{day_ts, day_ts_of, is_day_ts};
use crate::prefix::{parse_prefix, ipnet_parse_of, canon_of};
use crate::roa::{RoaEntry, RoaModel};

/// The index of the first occurrence of `sep` in `s`, or `s.len()` when
/// absent.
pub open spec fn find_byte(s: Seq<u8>, sep: u8) -> int
    decreases s.len(),
{
    if s.len() == 0 {
        0
    } else if s[0] == sep {
        0
    } else {
        1 + find_byte(s.drop_first(), sep)
    }
}

/// `find_byte` points at the first occurrence.
pub proof fn lemma_find_byte(s: Seq<u8>, sep: u8)
    ensures
        0 <= find_byte(s, sep) <= s.len(),
        find_byte(s, sep) < s.len() ==> s[find_byte(s, sep)] == sep,
        forall|j: int| 0 <= j < find_byte(s, sep) ==> s[j] != sep,
    decreases s.len(),
{
    if s.len() > 0 && s[0] != sep {
        lemma_find_byte(s.drop_first(), sep);
        let f = find_byte(s, sep);
        assert forall|j: int| 0 <= j < f implies s[j] != sep by {
            if j > 0 {
                assert(s.drop_first()[j - 1] == s[j]);
            }
        }
        if f < s.len() {
            assert(s.drop_first()[f - 1] == s[f]);
        }
    }
}

/// The first occurrence is where `find_byte` points.
pub proof fn lemma_find_byte_at(s: Seq<u8>, sep: u8, k: int)
    requires
        0 <= k <= s.len(),
        forall|j: int| 0 <= j < k ==> s[j] != sep,
        k < s.len() ==> s[k] == sep,
    ensures
        find_byte(s, sep) == k,
    decreases k,
{
    if s.len() == 0 {
    } else if k == 0 {
    } else {
        assert(s[0] != sep);
        assert forall|j: int| 0 <= j < k - 1 implies s.drop_first()[j] != sep by {
            assert(s.drop_first()[j] == s[j + 1]);
        }
        if k - 1 < s.drop_first().len() {
            assert(s.drop_first()[k - 1] == s[k]);
        }
        lemma_find_byte_at(s.drop_first(), sep, k - 1);
    }
}

/// Split on a separator byte: the separators themselves are dropped, empty
/// pieces are kept, and an empty input gives one empty piece.
pub open spec fn spec_split(s: Seq<u8>, sep: u8) -> Seq<Seq<u8>>
    decreases s.len(),
    via spec_split_dec
{
    let f = find_byte(s, sep);
    if f == s.len() {
        seq![s]
    } else {
        seq![s.take(f)] + spec_split(s.skip(f + 1), sep)
    }
}

#[via_fn]
proof fn spec_split_dec(s: Seq<u8>, sep: u8) {
    lemma_find_byte(s, sep);
}

/// Split a byte string on a separator byte.
pub fn split_bytes(v: &[u8], sep: u8) -> (r: Vec<Vec<u8>>)
    ensures
        r@.map_values(|p: Vec<u8>| p@) == spec_split(v@, sep),
        r@.len() >= 1,
{
    let mut out: Vec<Vec<u8>> = Vec::new();
    let mut start: usize = 0;
    let mut i: usize = 0;
    proof {
        assert(v@.skip(0) =~= v@);
        assert(out@.map_values(|p: Vec<u8>| p@) + spec_split(v@, sep) =~= spec_split(v@, sep));
    }
    while i < v.len()
        invariant
            0 <= start <= i <= v@.len(),
            forall|j: int| start <= j < i ==> v@[j] != sep,
            spec_split(v@, sep) =~= out@.map_values(|p: Vec<u8>| p@) + spec_split(
                v@.skip(start as int),
                sep,
            ),
        decreases v@.len() - i,
    {
        if v[i] == sep {
            let seg = vstd::slice::slice_to_vec(vstd::slice::slice_subrange(v, start, i));
            let ghost out0 = out@;
            out.push(seg);
            proof {
                let rest = v@.skip(start as int);
                assert forall|j: int| 0 <= j < i - start implies rest[j] != sep by {
                    assert(rest[j] == v@[start + j]);
                }
                assert(rest[i - start] == v@[i as int]);
                lemma_find_byte_at(rest, sep, i - start);
                assert(rest.take(i - start) =~= v@.subrange(start as int, i as int));
                assert(rest.skip(i - start + 1) =~= v@.skip(i + 1));
                assert(spec_split(rest, sep) == seq![rest.take(i - start)] + spec_split(
                    v@.skip(i + 1),
                    sep,
                ));
                assert(out@.map_values(|p: Vec<u8>| p@) =~= out0.map_values(|p: Vec<u8>| p@)
                    + seq![v@.subrange(start as int, i as int)]);
                assert(spec_split(v@, sep) =~= out@.map_values(|p: Vec<u8>| p@) + spec_split(
                    v@.skip(i + 1),
                    sep,
                ));
            }
            start = i + 1;
        }
        i = i + 1;
    }
    let seg = vstd::slice::slice_to_vec(vstd::slice::slice_subrange(v, start, v.len()));
    let ghost out0 = out@;
    out.push(seg);
    proof {
        let rest = v@.skip(start as int);
        assert forall|j: int| 0 <= j < rest.len() implies rest[j] != sep by {
            assert(rest[j] == v@[start + j]);
        }
        lemma_find_byte_at(rest, sep, rest.len() as int);
        assert(spec_split(rest, sep) == seq![rest]);
        assert(rest =~= v@.subrange(start as int, v@.len() as int));
        assert(out@.map_values(|p: Vec<u8>| p@) =~= out0.map_values(|p: Vec<u8>| p@)
            + seq![rest]);
        assert(out@.map_values(|p: Vec<u8>| p@) =~= spec_split(v@, sep));
    }
    out
}

/// A non-empty string of decimal digits.
pub open spec fn is_digits(s: Seq<u8>) -> bool {
    s.len() > 0 && forall|i: int| 0 <= i < s.len() ==> 48 <= #[trigger] s[i] <= 57
}

/// The value of a decimal digit string.
pub open spec fn dec_val(s: Seq<u8>) -> int
    decreases s.len(),
{
    if s.len() == 0 {
        0
    } else {
        dec_val(s.drop_last()) * 10 + (s.last() - 48)
    }
}

/// The digit part of an unsigned decimal: one optional leading plus sign
/// is dropped.
pub open spec fn unsigned_digits(s: Seq<u8>) -> Seq<u8> {
    if s.len() > 0 && s[0] == 43 {
        s.drop_first()
    } else {
        s
    }
}

/// An unsigned decimal number: digits, optionally preceded by one plus sign.
pub open spec fn is_uint_text(s: Seq<u8>) -> bool {
    is_digits(unsigned_digits(s))
}

/// The value of an unsigned decimal number string.
pub open spec fn uint_val(s: Seq<u8>) -> int {
    dec_val(unsigned_digits(s))
}

/// Parse an unsigned decimal number as a `u32`: `None` on malformed input
/// or overflow.
pub fn parse_u32_dec(s: &[u8]) -> (r: Option<u32>)
    ensures
        r is Some <==> (is_uint_text(s@) && uint_val(s@) <= u32::MAX),
        r matches Some(n) ==> n == uint_val(s@),
{
    if s.len() > 0 && s[0] == 43 {
        let rest = vstd::slice::slice_subrange(s, 1, s.len());
        proof {
            assert(rest@ =~= s@.drop_first());
        }
        parse_digits_u32(rest)
    } else {
        parse_digits_u32(s)
    }
}

/// Parse a plain decimal digit string as a `u32`: `None` on non-digits or
/// overflow.
fn parse_digits_u32(s: &[u8]) -> (r: Option<u32>)
    ensures
        r is Some <==> (is_digits(s@) && dec_val(s@) <= u32::MAX),
        r matches Some(n) ==> n == dec_val(s@),
{
    if s.len() == 0 {
        return None;
    }
    let mut acc: u64 = 0;
    let mut i: usize = 0;
    while i < s.len()
        invariant
            0 < s@.len(),
            i <= s@.len(),
            forall|j: int| 0 <= j < i ==> 48 <= #[trigger] s@[j] <= 57,
            acc == dec_val(s@.subrange(0, i as int)),
            acc <= u32::MAX,
        decreases s@.len() - i,
    {
        let c = s[i];
        if c < 48 || c > 57 {
            return None;
        }
        proof {
            assert(s@.subrange(0, i + 1).drop_last() =~= s@.subrange(0, i as int));
            assert(s@.subrange(0, i + 1).last() == s@[i as int]);
        }
        let next: u64 = acc * 10 + ((c - 48) as u64);
        if next > u32::MAX as u64 {
            proof {
                // the parsed prefix already exceeds u32; more digits cannot
                // bring the value back down
                if is_digits(s@) {
                    lemma_dec_val_monotonic(s@, i + 1);
                }
            }
            return None;
        }
        acc = next;
        i = i + 1;
    }
    proof {
        assert(s@.subrange(0, s@.len() as int) =~= s@);
    }
    Some(acc as u32)
}

/// A longer digit prefix never has a smaller value.
proof fn lemma_dec_val_monotonic(s: Seq<u8>, k: int)
    requires
        0 <= k <= s.len(),
        forall|i: int| 0 <= i < s.len() ==> 48 <= #[trigger] s[i] <= 57,
    ensures
        dec_val(s) >= dec_val(s.subrange(0, k)),
    decreases s.len() - k,
{
    if k < s.len() {
        lemma_dec_val_monotonic(s, k + 1);
        assert(s.subrange(0, k + 1).drop_last() =~= s.subrange(0, k));
        assert(s.subrange(0, k + 1).last() == s[k]);
        assert(dec_val(s.subrange(0, k + 1)) == dec_val(s.subrange(0, k)) * 10 + (s[k] - 48));
        assert(dec_val(s.subrange(0, k)) >= 0) by {
            lemma_dec_val_nonneg(s.subrange(0, k));
        }
    } else {
        assert(s.subrange(0, k) =~= s);
    }
}

/// Digit strings have non-negative values.
proof fn lemma_dec_val_nonneg(s: Seq<u8>)
    requires
        forall|i: int| 0 <= i < s.len() ==> 48 <= #[trigger] s[i] <= 57,
    ensures
        dec_val(s) >= 0,
    decreases s.len(),
{
    if s.len() > 0 {
        assert forall|i: int| 0 <= i < s.drop_last().len() implies 48 <= #[trigger] s.drop_last()[i] <= 57 by {
            assert(s.drop_last()[i] == s[i]);
        }
        lemma_dec_val_nonneg(s.drop_last());
    }
}

/// A decimal integer: digits, optionally preceded by one sign.
pub open spec fn is_dec_int(s: Seq<u8>) -> bool {
    is_digits(s) || (s.len() > 1 && (s[0] == 45 || s[0] == 43) && is_digits(s.drop_first()))
}

/// The value of a decimal integer string.
pub open spec fn dec_int_val(s: Seq<u8>) -> int {
    if s.len() > 0 && s[0] == 45 {
        -dec_val(s.drop_first())
    } else if s.len() > 0 && s[0] == 43 {
        dec_val(s.drop_first())
    } else {
        dec_val(s)
    }
}

/// A line starting with `URI`: the snapshot header.
pub open spec fn starts_uri(line: Seq<u8>) -> bool {
    line.len() >= 3 && line[0] == 85 && line[1] == 82 && line[2] == 73
}

/// The ASN field with every leading `AS` removed.
pub open spec fn strip_as(s: Seq<u8>) -> Seq<u8>
    decreases s.len(),
{
    if s.len() >= 2 && s[0] == 65 && s[1] == 83 {
        strip_as(s.skip(2))
    } else {
        s
    }
}

/// What one data line contributes: `None` where the line does not follow
/// the grammar (too few fields, a bad ASN, or a bad prefix). A malformed or
/// missing max_len field falls back to the prefix's own length.
pub open spec fn line_record(tal: Seq<u8>, date_ts: i64, line: Seq<u8>) -> Option<RoaModel> {
    let fs = spec_split(line, 44);
    if fs.len() < 4 {
        None
    } else {
        let asn_s = strip_as(fs[1]);
        if !(is_uint_text(asn_s) && uint_val(asn_s) <= u32::MAX) {
            None
        } else {
            match ipnet_parse_of(fs[2]) {
                None => None,
                Some(raw) => {
                    let p = canon_of(raw);
                    let ml: int = if is_dec_int(fs[3]) && i32::MIN <= dec_int_val(fs[3])
                        <= i32::MAX {
                        dec_int_val(fs[3])
                    } else {
                        raw.2 as int
                    };
                    Some(
                        RoaModel {
                            tal,
                            prefix: p,
                            max_len: ml as i32,
                            asn: uint_val(asn_s) as u32,
                            date_ts,
                        },
                    )
                },
            }
        }
    }
}

/// A record with the same (prefix, max_len, asn) is already present.
pub open spec fn dup_key(rs: Seq<RoaModel>, r: RoaModel) -> bool {
    exists|i: int|
        0 <= i < rs.len() && (#[trigger] rs[i]).prefix == r.prefix && rs[i].max_len == r.max_len
            && rs[i].asn == r.asn
}

/// The records of a snapshot's lines, in order of first appearance: header
/// lines are skipped, malformed lines are dropped, and a repeated
/// (prefix, max_len, asn) is collapsed into its first occurrence.
pub open spec fn lines_records(tal: Seq<u8>, date_ts: i64, lines: Seq<Seq<u8>>) -> Seq<RoaModel>
    decreases lines.len(),
{
    if lines.len() == 0 {
        Seq::empty()
    } else {
        let rest = lines_records(tal, date_ts, lines.drop_last());
        let ln = lines.last();
        if starts_uri(ln) {
            rest
        } else {
            match line_record(tal, date_ts, ln) {
                Some(r) => if dup_key(rest, r) {
                    rest
                } else {
                    rest.push(r)
                },
                None => rest,
            }
        }
    }
}

/// The header is in place: the file is empty, or its first line is the
/// header. (Any data line before the header fails the file.)
pub open spec fn header_ok(lines: Seq<Seq<u8>>) -> bool {
    lines.len() == 0 || starts_uri(lines[0])
}

/// The URL carries the snapshot's calendar date in its path:
/// `.../<tal>.tal/<year>/<month>/<day>/roas.csv.xz`.
pub open spec fn url_ok(url: Seq<u8>) -> bool {
    let fs = spec_split(url, 47);
    &&& fs.len() >= 8
    &&& is_uint_text(fs[5]) && uint_val(fs[5]) <= i32::MAX
    &&& is_uint_text(fs[6]) && uint_val(fs[6]) <= u32::MAX
    &&& is_uint_text(fs[7]) && uint_val(fs[7]) <= u32::MAX
}

/// The snapshot's calendar date, read from the URL path.
pub open spec fn url_date(url: Seq<u8>) -> Option<i64> {
    let fs = spec_split(url, 47);
    day_ts_of(uint_val(fs[5]) as i32, uint_val(fs[6]) as u32, uint_val(fs[7]) as u32)
}

/// The trust anchor name: the URL's fifth path component up to its first
/// dot.
pub open spec fn url_tal(url: Seq<u8>) -> Seq<u8> {
    let f = spec_split(url, 47)[4];
    f.take(find_byte(f, 46))
}

/// Why a snapshot file was rejected whole.
#[derive(Debug, Clone, Copy, PartialEq, Eq, Structural)]
pub enum ParseError {
    /// The URL path does not carry tal/year/month/day components.
    UrlFormat,
    /// The year/month/day in the URL is not a real calendar date.
    InvalidDate,
    /// A data line appears before the `URI` header line.
    HeaderMissing,
}

/// Parse a decimal integer as an `i32`: `None` on malformed input or
/// overflow.
pub fn parse_i32_dec(s: &[u8]) -> (r: Option<i32>)
    ensures
        r is Some <==> (is_dec_int(s@) && i32::MIN <= dec_int_val(s@) <= i32::MAX),
        r matches Some(n) ==> n == dec_int_val(s@),
{
    if s.len() > 0 && s[0] == 45 {
        let rest = vstd::slice::slice_subrange(s, 1, s.len());
        proof {
            assert(rest@ =~= s@.drop_first());
        }
        match parse_digits_u32(rest) {
            Some(n) => {
                if n <= 0x8000_0000 {
                    proof {
                        assert(s@[0] == 45);
                    }
                    if n == 0x8000_0000 {
                        Some(i32::MIN)
                    } else {
                        Some(-(n as i32))
                    }
                } else {
                    None
                }
            },
            None => {
                proof {
                    if is_dec_int(s@) && i32::MIN <= dec_int_val(s@) <= i32::MAX {
                        assert(is_digits(s@.drop_first()));
                        assert(dec_val(s@.drop_first()) <= 0x8000_0000) by {
                            assert(dec_int_val(s@) == -dec_val(s@.drop_first()));
                        }
                    }
                }
                None
            },
        }
    } else if s.len() > 0 && s[0] == 43 {
        let rest = vstd::slice::slice_subrange(s, 1, s.len());
        proof {
            assert(rest@ =~= s@.drop_first());
        }
        match parse_digits_u32(rest) {
            Some(n) => {
                if n <= i32::MAX as u32 {
                    Some(n as i32)
                } else {
                    None
                }
            },
            None => None,
        }
    } else {
        match parse_digits_u32(s) {
            Some(n) => {
                if n <= i32::MAX as u32 {
                    Some(n as i32)
                } else {
                    None
                }
            },
            None => {
                proof {
                    if is_dec_int(s@) {
                        assert(is_digits(s@));
                    }
                }
                None
            },
        }
    }
}

/// Which rejection a snapshot draws: the URL shape is checked first, then
/// its date, then the header.
pub open spec fn parse_roas_csv_spec_err(url: Seq<u8>, lines: Seq<Seq<u8>>, e: ParseError) -> bool {
    match e {
        ParseError::UrlFormat => !url_ok(url),
        ParseError::InvalidDate => url_ok(url) && url_date(url) is None,
        ParseError::HeaderMissing => url_ok(url) && url_date(url) is Some && !header_ok(lines),
    }
}

/// Whether a line is the snapshot header.
fn starts_uri_exec(line: &Vec<u8>) -> (r: bool)
    ensures
        r == starts_uri(line@),
{
    line.len() >= 3 && line[0] == 85 && line[1] == 82 && line[2] == 73
}

/// Strip every leading `AS` from the ASN field.
fn strip_as_exec<'a>(s: &'a [u8]) -> (r: &'a [u8])
    ensures
        r@ == strip_as(s@),
{
    let mut off: usize = 0;
    proof {
        assert(s@.skip(0) =~= s@);
    }
    while s.len() - off >= 2 && s[off] == 65 && s[off + 1] == 83
        invariant
            off <= s@.len(),
            strip_as(s@) == strip_as(s@.skip(off as int)),
        decreases s@.len() - off,
    {
        proof {
            let rest = s@.skip(off as int);
            assert(rest[0] == s@[off as int] && rest[1] == s@[off as int + 1]);
            assert(strip_as(rest) == strip_as(rest.skip(2)));
            assert(rest.skip(2) =~= s@.skip(off + 2));
        }
        off = off + 2;
    }
    proof {
        let rest = s@.skip(off as int);
        if rest.len() >= 2 {
            assert(rest[0] == s@[off as int] && rest[1] == s@[off as int + 1]);
        }
        assert(strip_as(rest) == rest);
    }
    vstd::slice::slice_subrange(s, off, s.len())
}

/// Parse one snapshot: the URL gives the trust anchor and the calendar
/// date, the lines give the rows. The whole file is rejected when the URL
/// path is malformed, when its date is not a real calendar date, or when a
/// data line precedes the `URI` header; a malformed data line is dropped;
/// rows repeating an already-seen (prefix, max_len, asn) are collapsed.
pub fn parse_roas_csv(url: &[u8], lines: &Vec<Vec<u8>>) -> (r: Result<
    Vec<RoaEntry>,
    ParseError,
>)
    ensures
        !url_ok(url@) <==> r == Err::<Vec<RoaEntry>, ParseError>(ParseError::UrlFormat),
        url_ok(url@) ==> ((url_date(url@) is None) <==> r == Err::<Vec<RoaEntry>, ParseError>(
            ParseError::InvalidDate,
        )),
        url_ok(url@) && url_date(url@) is Some ==> (!header_ok(
            lines@.map_values(|l: Vec<u8>| l@),
        ) <==> r == Err::<Vec<RoaEntry>, ParseError>(ParseError::HeaderMissing)),
        r is Ok <==> (url_ok(url@) && url_date(url@) is Some && header_ok(
            lines@.map_values(|l: Vec<u8>| l@),
        )),
        r matches Ok(v) ==> (url_date(url@) matches Some(ts) && v@.map_values(|e: RoaEntry| e@)
            == lines_records(url_tal(url@), ts, lines@.map_values(|l: Vec<u8>| l@))),
        r matches Ok(v) ==> forall|i: int| 0 <= i < v@.len() ==> (#[trigger] v@[i])@.wf(),
{
    let ufields = split_bytes(url, 47);
    if ufields.len() < 8 {
        return Err(ParseError::UrlFormat);
    }
    let year_n = match parse_u32_dec(ufields[5].as_slice()) {
        Some(n) => n,
        None => {
            return Err(ParseError::UrlFormat);
        },
    };
    if year_n > i32::MAX as u32 {
        return Err(ParseError::UrlFormat);
    }
    let month_n = match parse_u32_dec(ufields[6].as_slice()) {
        Some(n) => n,
        None => {
            return Err(ParseError::UrlFormat);
        },
    };
    let day_n = match parse_u32_dec(ufields[7].as_slice()) {
        Some(n) => n,
        None => {
            return Err(ParseError::UrlFormat);
        },
    };
    proof {
        assert(url_ok(url@));
    }
    let ts = match day_ts(year_n as i32, month_n, day_n) {
        Some(t) => t,
        None => {
            return Err(ParseError::InvalidDate);
        },
    };
    let ghost lsviews = lines@.map_values(|l: Vec<u8>| l@);
    if lines.len() > 0 {
        if !starts_uri_exec(&lines[0]) {
            return Err(ParseError::HeaderMissing);
        }
    }
    // trust anchor: the fifth path component up to its first dot
    let talf = &ufields[4];
    let mut dot: usize = 0;
    while dot < talf.len() && talf[dot] != 46
        invariant
            dot <= talf@.len(),
            forall|j: int| 0 <= j < dot ==> talf@[j] != 46,
        decreases talf@.len() - dot,
    {
        dot = dot + 1;
    }
    proof {
        lemma_find_byte_at(talf@, 46, dot as int);
    }
    let tal = vstd::slice::slice_to_vec(vstd::slice::slice_subrange(talf.as_slice(), 0, dot));
    proof {
        assert(tal@ =~= url_tal(url@));
    }
    let mut out: Vec<RoaEntry> = Vec::new();
    let mut i: usize = 0;
    while i < lines.len()
        invariant
            i <= lines@.len(),
            lsviews == lines@.map_values(|l: Vec<u8>| l@),
            tal@ == url_tal(url@),
            is_day_ts(ts),
            out@.map_values(|e: RoaEntry| e@) == lines_records(
                tal@,
                ts,
                lsviews.subrange(0, i as int),
            ),
            forall|t: int| 0 <= t < out@.len() ==> (#[trigger] out@[t])@.wf(),
        decreases lines@.len() - i,
    {
        let ghost rest = lines_records(tal@, ts, lsviews.subrange(0, i as int));
        proof {
            assert(lsviews.subrange(0, i + 1).drop_last() =~= lsviews.subrange(0, i as int));
            assert(lsviews.subrange(0, i + 1).last() == lsviews[i as int]);
            assert(lsviews[i as int] == lines@[i as int]@);
        }
        let line = &lines[i];
        if !starts_uri_exec(line) {
            let lfields = split_bytes(line.as_slice(), 44);
            let ghost fs = spec_split(line@, 44);
            if lfields.len() >= 4 {
                let asn_field = strip_as_exec(lfields[1].as_slice());
                proof {
                    assert(lfields@[1]@ == fs[1]);
                    assert(lfields@[2]@ == fs[2]);
                    assert(lfields@[3]@ == fs[3]);
                }
                if let Some(asn) = parse_u32_dec(asn_field) {
                    if let Some(p) = parse_prefix(lfields[2].as_slice()) {
                        let ml: i32 = match parse_i32_dec(lfields[3].as_slice()) {
                            Some(n) => n,
                            None => p.len as i32,
                        };
                        let ghost rm = line_record(tal@, ts, lines@[i as int]@).unwrap();
                        proof {
                            assert(rm.prefix == p && rm.max_len == ml && rm.asn == asn
                                && rm.date_ts == ts && rm.tal == tal@);
                        }
                        let mut dup = false;
                        let mut t: usize = 0;
                        while t < out.len()
                            invariant
                                t <= out@.len(),
                                dup <==> exists|j: int|
                                    0 <= j < t && (#[trigger] out@[j])@.prefix == p && out@[j]@.max_len
                                        == ml && out@[j]@.asn == asn,
                            decreases out@.len() - t,
                        {
                            let cand = &out[t];
                            if cand.prefix == p && cand.max_len == ml && cand.asn == asn {
                                dup = true;
                                proof {
                                    assert((#[trigger] out@[t as int])@.prefix == p
                                        && out@[t as int]@.max_len == ml && out@[t as int]@.asn
                                        == asn);
                                }
                            }
                            t = t + 1;
                        }
                        proof {
                            assert(dup == dup_key(rest, rm)) by {
                                if dup_key(rest, rm) && !dup {
                                    let j = choose|j: int|
                                        0 <= j < rest.len() && (#[trigger] rest[j]).prefix
                                            == rm.prefix && rest[j].max_len == rm.max_len
                                            && rest[j].asn == rm.asn;
                                    assert((#[trigger] out@[j])@ == rest[j]);
                                }
                                if dup {
                                    let j = choose|j: int|
                                        0 <= j < out@.len() && (#[trigger] out@[j])@.prefix == p
                                            && out@[j]@.max_len == ml && out@[j]@.asn == asn;
                                    assert((#[trigger] rest[j]).prefix == rm.prefix
                                        && rest[j].max_len == rm.max_len && rest[j].asn
                                        == rm.asn);
                                }
                            }
                        }
                        if !dup {
                            let entry = RoaEntry {
                                tal: vstd::slice::slice_to_vec(tal.as_slice()),
                                prefix: p,
                                max_len: ml,
                                asn,
                                date_ts: ts,
                            };
                            let ghost out0 = out@;
                            proof {
                                assert(entry@ =~= rm);
                            }
                            out.push(entry);
                            proof {
                                assert(out@.map_values(|e: RoaEntry| e@) =~= out0.map_values(
                                    |e: RoaEntry| e@,
                                ).push(rm));
                            }
                        }
                    }
                }
            }
        }
        i = i + 1;
    }
    proof {
        assert(lsviews.subrange(0, lsviews.len() as int) =~= lsviews);
    }
    Ok(out)
}

} // verus!
