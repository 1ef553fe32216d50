//! Plain records handed to the ingest engine.

use vstd::prelude::*;

verus! {

use crate::days::{DateYmd, is_day_ts};
use crate::prefix::IpPrefix;

/// Mathematical model of one ROA snapshot row.
#[verifier::ext_equal]
pub struct RoaModel {
    pub tal: Seq<u8>,
    pub prefix: IpPrefix,
    pub max_len: i32,
    pub asn: u32,
    pub date_ts: i64,
}

impl RoaModel {
    /// The prefix is canonical and the date is a day timestamp.
    pub open spec fn wf(self) -> bool {
        &&& self.prefix.wf()
        &&& is_day_ts(self.date_ts)
    }
}

/// One ROA observed in a snapshot: the trust anchor it came from, its
/// network, max length, origin ASN, and the snapshot's day.
#[derive(Debug, Clone, PartialEq, Eq)]
pub struct RoaEntry {
    /// Trust anchor name, as ASCII bytes from the snapshot URL.
    pub tal: Vec<u8>,
    /// The authorized network.
    pub prefix: IpPrefix,
    /// Longest authorized prefix length, as published.
    pub max_len: i32,
    /// Origin ASN.
    pub asn: u32,
    /// Day timestamp of the snapshot the row came from.
    pub date_ts: i64,
}

impl View for RoaEntry {
    type V = RoaModel;

    open spec fn view(&self) -> RoaModel {
        RoaModel {
            tal: self.tal@,
            prefix: self.prefix,
            max_len: self.max_len,
            asn: self.asn,
            date_ts: self.date_ts,
        }
    }
}

/// Metadata of one snapshot file found by the crawler. The core consumes
/// only the URL and the file date.
#[derive(Debug, Clone, PartialEq, Eq)]
pub struct RoaFile {
    /// Where the snapshot lives.
    pub url: String,
    /// Trust anchor name.
    pub tal: String,
    /// The day the snapshot describes, from the URL path.
    pub file_date: DateYmd,
    /// Row count, filled after parsing.
    pub rows_count: i32,
    /// Whether the file has been folded into the index.
    pub processed: bool,
}

} // verus!
