//! Addresses of the data sources and of the web pages a route links to.
use vstd::prelude::*;

use crate::text::{decimal, push_decimal};

verus! {

/// Page of the market browser that lists items by type.
pub open spec fn market_browser_base() -> Seq<char> {
    "https://evemarketbrowser.com/region/0/type"@
}

/// Page of the camp checker for stargates.
pub open spec fn gatecamp_base() -> Seq<char> {
    "https://eve-gatecheck.space/eve/#"@
}

/// Archive of the universe data scrape.
pub open spec fn esi_scrape_address() -> Seq<char> {
    "https://data.everef.net/esi-scrape/eve-ref-esi-scrape-latest.tar.xz"@
}

/// Archive of the latest market orders.
pub open spec fn market_data_address() -> Seq<char> {
    "https://data.everef.net/market-orders/market-orders-latest.v3.csv.bz2"@
}

/// Each name preceded by a comma, all concatenated.
pub open spec fn comma_prefixed(names: Seq<Seq<char>>) -> Seq<char>
    decreases names.len(),
{
    if names.len() == 0 {
        Seq::empty()
    } else {
        comma_prefixed(names.drop_last()) + seq![','] + names.last()
    }
}

/// The camp check address for a path of system names: the first and
/// the last system separated by a colon, then, each after a comma, the
/// systems from the third to the one before the last, then a colon and the
/// flag. A path of fewer than two systems has no address (empty text).
pub open spec fn gatecamp_url(path: Seq<Seq<char>>, flag: Seq<char>) -> Seq<char> {
    if path.len() < 2 {
        Seq::empty()
    } else {
        gatecamp_base() + path[0] + seq![':'] + path[path.len() - 1] + comma_prefixed(
            path.subrange(2, path.len() - 1),
        ) + seq![':'] + flag
    }
}

/// Address of the universe data archive.
pub fn get_esi_scrape_url() -> (s: String)
    ensures
        s@ == esi_scrape_address(),
{
    String::from_str("https://data.everef.net/esi-scrape/eve-ref-esi-scrape-latest.tar.xz")
}

/// Address of the market orders archive.
pub fn get_market_data_url() -> (s: String)
    ensures
        s@ == market_data_address(),
{
    String::from_str("https://data.everef.net/market-orders/market-orders-latest.v3.csv.bz2")
}

/// Market browser page of an item type: the base address, a slash and
/// the type id in decimal.
pub fn get_market_browser_url(type_id: u32) -> (s: String)
    ensures
        s@ == market_browser_base() + seq!['/'] + decimal(type_id as nat),
{
    let mut s = String::from_str("https://evemarketbrowser.com/region/0/type");
    s.append("/");
    push_decimal(&mut s, type_id as u64);
    proof {
        reveal_strlit("/");
    }
    s
}

/// Gate camp check address of a path of system names (see
/// `gatecamp_url`). A path of exactly two systems is refused: the middle
/// part is then taken from the third system to the first, a range that
/// does not exist.
pub fn get_gatecamp_url(path: Vec<String>, flag: &str) -> (s: String)
    requires
        path.len() != 2,
    ensures
        s@ == gatecamp_url(path.deep_view(), flag@),
{
    let ghost names = path.deep_view();
    if path.len() < 2 {
        return String::new();
    }
    let last = path.len() - 1;
    let mut url = String::from_str("https://eve-gatecheck.space/eve/#");
    url.append(path[0].as_str());
    url.append(":");
    url.append(path[last].as_str());
    let ghost head = url@;
    proof {
        assert(names[0] == path@[0]@);
        assert(names[last as int] == path@[last as int]@);
        reveal_strlit(":");
        reveal_strlit(",");
        assert(names.subrange(2, 2) =~= Seq::<Seq<char>>::empty());
    }
    let mut i: usize = 2;
    while i < last
        invariant
            names == path.deep_view(),
            names.len() == path.len(),
            last == path.len() - 1,
            2 <= i <= last,
            url@ == head + comma_prefixed(names.subrange(2, i as int)),
        decreases last - i,
    {
        let ghost before = url@;
        url.append(",");
        url.append(path[i].as_str());
        proof {
            reveal_strlit(",");
            let nxt = names.subrange(2, i + 1);
            assert(nxt.drop_last() =~= names.subrange(2, i as int));
            assert(names[i as int] == path@[i as int]@);
            assert(nxt.last() == names[i as int]);
            assert(comma_prefixed(nxt) == comma_prefixed(names.subrange(2, i as int)) + seq![',']
                + names[i as int]);
            assert(url@ =~= head + comma_prefixed(nxt));
        }
        i = i + 1;
    }
    url.append(":");
    url.append(flag);
    proof {
        assert(url@ =~= gatecamp_url(names, flag@));
    }
    url
}

} // verus!
