//! The search endpoint's request and response shapes, and the pagination
//! rule applied to search results.

use vstd::prelude::*;

verus! {

/// The filters a search request may carry. Prefixes and dates arrive as
/// text and are parsed at the serving edge.
#[derive(Debug, Clone, PartialEq, Eq)]
pub struct RoasSearchQuery {
    /// Filter results by ASN exact match.
    pub asn: Option<u32>,
    /// IP prefix to search ROAs for, in CIDR text.
    pub prefix: Option<String>,
    /// Filter results by the max_len value.
    pub max_len: Option<u8>,
    /// Limit the date of the ROAs, as `YYYY-MM-DD` text.
    pub date: Option<String>,
    /// Filter results to whether the ROA is still current.
    pub current: Option<bool>,
    /// Page number, starting from 0.
    pub page: Option<usize>,
    /// Number of items per page, capped at 1000.
    pub page_size: Option<usize>,
}

/// Metadata attached to every search response.
#[derive(Debug, Clone, PartialEq, Eq)]
pub struct Meta {
    /// The index's watermark day, as `YYYY-MM-DD` text.
    pub latest_date: String,
}

/// One row of a search response, fully rendered.
#[derive(Debug, Clone, PartialEq, Eq)]
pub struct RoasSearchResultEntry {
    /// The stored network, in CIDR text.
    pub prefix: String,
    /// ROA max length.
    pub max_len: u8,
    /// Origin ASN.
    pub asn: u32,
    /// Day ranges, as `YYYY-MM-DD` text pairs.
    pub date_ranges: Vec<(String, String)>,
    /// Whether some range reaches the watermark.
    pub current: bool,
}

/// A whole search response.
#[derive(Debug, Clone, PartialEq, Eq)]
pub struct RoasSearchResult {
    /// Rows on this page.
    pub count: usize,
    /// An error message, for rejected queries.
    pub error: Option<String>,
    /// The page's rows.
    pub data: Vec<RoasSearchResultEntry>,
    /// Response metadata.
    pub meta: Option<Meta>,
    /// The page served.
    pub page: usize,
    /// The page size served.
    pub page_size: usize,
}

/// One query result row rendered flat for tabular display.
#[derive(Debug, Clone, PartialEq, Eq)]
pub struct RoasLookupEntryTabled {
    /// Origin ASN.
    pub origin: u32,
    /// The stored network, in CIDR text.
    pub prefix: String,
    /// ROA max length.
    pub max_len: u8,
    /// The day ranges, rendered as one string.
    pub dates_ranges: String,
}

impl RoasLookupEntryTabled {
    /// Assemble a display row from rendered fields.
    pub fn new(origin: u32, prefix: String, max_len: u8, dates_ranges: String) -> (r:
        RoasLookupEntryTabled)
        ensures
            r.origin == origin,
            r.prefix == prefix,
            r.max_len == max_len,
            r.dates_ranges == dates_ranges,
    {
        RoasLookupEntryTabled { origin, prefix, max_len, dates_ranges }
    }
}

/// The page actually served: the requested one, or the first.
pub open spec fn spec_page(page: Option<usize>) -> usize {
    match page {
        Some(p) => p,
        None => 0,
    }
}

/// The page size actually served: the requested one capped at 1000, or the
/// default of 100.
pub open spec fn spec_page_size(page_size: Option<usize>) -> usize {
    match page_size {
        Some(s) => if s > 1000 {
            1000
        } else {
            s
        },
        None => 100,
    }
}

/// The rows of one page: the window starting at page x page_size.
pub open spec fn spec_paginate(
    s: Seq<RoasSearchResultEntry>,
    page: usize,
    page_size: usize,
) -> Seq<RoasSearchResultEntry> {
    let start = page as int * page_size as int;
    let end = if start + page_size as int > s.len() {
        s.len() as int
    } else {
        start + page_size as int
    };
    if start >= s.len() {
        Seq::empty()
    } else {
        s.subrange(start, end)
    }
}

/// Assemble the search response: resolve page and page size, keep only the
/// requested window of rows, and count what is served.
pub fn build_search_result(
    entries: Vec<RoasSearchResultEntry>,
    page: Option<usize>,
    page_size: Option<usize>,
    latest_date: String,
) -> (r: RoasSearchResult)
    ensures
        r.page == spec_page(page),
        r.page_size == spec_page_size(page_size),
        r.data@ == spec_paginate(entries@, spec_page(page), spec_page_size(page_size)),
        r.count == r.data@.len(),
        r.error is None,
        r.meta matches Some(m) && m.latest_date == latest_date,
{
    let p: usize = match page {
        Some(p) => p,
        None => 0,
    };
    let mut ps: usize = match page_size {
        Some(s) => s,
        None => 100,
    };
    if ps > 1000 {
        ps = 1000;
    }
    let ghost orig = entries@;
    let mut data = entries;
    let n = data.len();
    // the window [start, end) of the kept rows, saturating at the ends
    let beyond: bool = if ps == 0 {
        true
    } else {
        p > n / ps
    };
    if beyond {
        proof {
            if ps > 0 {
                assert(p as int * ps as int >= orig.len()) by (nonlinear_arith)
                    requires
                        p as int > orig.len() as int / ps as int,
                        ps as int > 0,
                        n == orig.len(),
                ;
            }
        }
        data.clear();
        let count = data.len();
        return RoasSearchResult {
            count,
            error: None,
            data,
            meta: Some(Meta { latest_date }),
            page: p,
            page_size: ps,
        };
    }
    proof {
        assert(p as int * ps as int <= n as int) by (nonlinear_arith)
            requires
                ps as int > 0,
                p as int <= n as int / ps as int,
        ;
    }
    let start = p * ps;
    if start >= n {
        data.clear();
        let count = data.len();
        return RoasSearchResult {
            count,
            error: None,
            data,
            meta: Some(Meta { latest_date }),
            page: p,
            page_size: ps,
        };
    }
    let end = if ps > n - start {
        n
    } else {
        start + ps
    };
    data.truncate(end);
    proof {
        assert(data@ =~= orig.subrange(0, end as int));
    }
    let mut j: usize = 0;
    while j < start
        invariant
            j <= start,
            start < end <= orig.len(),
            data@ =~= orig.subrange(j as int, end as int),
        decreases start - j,
    {
        data.remove(0);
        proof {
            assert(data@ =~= orig.subrange(j + 1, end as int));
        }
        j = j + 1;
    }
    proof {
        assert(data@ =~= spec_paginate(orig, p, ps));
    }
    let count = data.len();
    RoasSearchResult {
        count,
        error: None,
        data,
        meta: Some(Meta { latest_date }),
        page: p,
        page_size: ps,
    }
}

} // verus!
