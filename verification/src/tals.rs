//! The trust anchor set and its snapshot mirror URLs.

use vstd::prelude::*;

verus! {

/// The snapshot mirror URL of a trust anchor, by name; `None` for a name
/// outside the set {afrinic, lacnic, apnic, ripencc, arin}.
pub open spec fn tal_url_of(name: Seq<char>) -> Option<Seq<char>> {
    if name == "afrinic"@ {
        Some("https://ftp.ripe.net/rpki/afrinic.tal"@)
    } else if name == "lacnic"@ {
        Some("https://ftp.ripe.net/rpki/lacnic.tal"@)
    } else if name == "apnic"@ {
        Some("https://ftp.ripe.net/rpki/apnic.tal"@)
    } else if name == "ripencc"@ {
        Some("https://ftp.ripe.net/rpki/ripencc.tal"@)
    } else if name == "arin"@ {
        Some("https://ftp.ripe.net/rpki/arin.tal"@)
    } else {
        None
    }
}

/// The snapshot mirror URLs to crawl: all five without a trust anchor name,
/// the named one alone when the name is known, and `None` for an unknown
/// name.
pub fn get_tal_urls(tal: Option<String>) -> (r: Option<Vec<String>>)
    ensures
        tal is None ==> (r matches Some(v) && v@.len() == 5 && v@[0]@
            == "https://ftp.ripe.net/rpki/afrinic.tal"@ && v@[1]@
            == "https://ftp.ripe.net/rpki/lacnic.tal"@ && v@[2]@
            == "https://ftp.ripe.net/rpki/apnic.tal"@ && v@[3]@
            == "https://ftp.ripe.net/rpki/ripencc.tal"@ && v@[4]@
            == "https://ftp.ripe.net/rpki/arin.tal"@),
        tal matches Some(t) ==> (tal_url_of(t@) matches Some(u) ==> (r matches Some(v)
            && v@.len() == 1 && v@[0]@ == u)),
        tal matches Some(t) ==> (tal_url_of(t@) is None ==> r is None),
{
    match tal {
        None => {
            let mut v: Vec<String> = Vec::new();
            v.push("https://ftp.ripe.net/rpki/afrinic.tal".to_owned());
            v.push("https://ftp.ripe.net/rpki/lacnic.tal".to_owned());
            v.push("https://ftp.ripe.net/rpki/apnic.tal".to_owned());
            v.push("https://ftp.ripe.net/rpki/ripencc.tal".to_owned());
            v.push("https://ftp.ripe.net/rpki/arin.tal".to_owned());
            Some(v)
        },
        Some(t) => {
            let url: Option<String> = if t == "afrinic".to_owned() {
                Some("https://ftp.ripe.net/rpki/afrinic.tal".to_owned())
            } else if t == "lacnic".to_owned() {
                Some("https://ftp.ripe.net/rpki/lacnic.tal".to_owned())
            } else if t == "apnic".to_owned() {
                Some("https://ftp.ripe.net/rpki/apnic.tal".to_owned())
            } else if t == "ripencc".to_owned() {
                Some("https://ftp.ripe.net/rpki/ripencc.tal".to_owned())
            } else if t == "arin".to_owned() {
                Some("https://ftp.ripe.net/rpki/arin.tal".to_owned())
            } else {
                None
            };
            match url {
                Some(u) => {
                    let mut v: Vec<String> = Vec::new();
                    v.push(u);
                    Some(v)
                },
                None => None,
            }
        },
    }
}

} // verus!
