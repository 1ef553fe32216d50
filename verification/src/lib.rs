//! Historical RPKI ROA archive core: a temporal prefix index that folds daily
//! ROA snapshots into a queryable in-memory store keyed by IP prefix, answers
//! point-in-time route-origin-validation questions, and round-trips through a
//! binary dump format.

pub mod days;
pub mod prefix;
pub mod entry;
pub mod roa;
pub mod trie;
pub mod gaps;
pub mod csv;
pub mod api;
pub mod codec;
pub mod tals;

pub use days::day_ts;
pub use days::check_date;
pub use days::DateYmd;
pub use prefix::IpPrefix;
pub use prefix::parse_prefix;
pub use entry::RoasTrieEntry;
pub use roa::RoaEntry;
pub use roa::RoaFile;
pub use trie::RoasTrie;
pub use trie::RpkiValidation;
pub use trie::RoasLookupEntry;
pub use trie::LoadError;
pub use csv::parse_roas_csv;
pub use csv::ParseError;
pub use gaps::known_gaps;
pub use tals::get_tal_urls;
pub use api::RoasSearchQuery;
pub use api::RoasSearchResult;
pub use api::RoasSearchResultEntry;
pub use api::RoasLookupEntryTabled;
pub use api::Meta;
pub use api::build_search_result;
