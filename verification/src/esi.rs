//! Turning the downloaded market and universe data into the planner's
//! records: decompressing the archives, reading the market order table,
//! grouping stargate links by system and converting positions to whole
//! astronomical units.
use std::collections::{HashMap, HashSet};
use std::io::Read;
use vstd::prelude::*;

use crate::errors::ESIError;
use crate::text::{parse_bool, parse_u32, parsed_bool, parsed_u32};
use crate::types::Vector3;

verus! {

broadcast use vstd::std_specs::hash::group_hash_axioms;

/// Metres in one astronomical unit.
pub const AU: i128 = 149_597_870_700;

/// What the bzip2 decoder of the `bzip2` crate reads out of `data`:
/// `None` when it reports an error.
pub uninterp spec fn bzip2_decoded(data: Seq<u8>) -> Option<Seq<u8>>;

/// What the xz decoder of the `xz2` crate reads out of `data`: `None`
/// when it reports an error.
pub uninterp spec fn xz_decoded(data: Seq<u8>) -> Option<Seq<u8>>;

/// The records, after the header line, that the CSV reader of the `csv`
/// crate reads out of `data`, each as its list of fields; `None` when it
/// reports an error for some record.
pub uninterp spec fn csv_records(data: Seq<u8>) -> Option<Seq<Seq<Seq<char>>>>;

/// Decompresses `data` with `bzip2::read::BzDecoder`, reading to the end.
/// Claimed: the result is `bzip2_decoded(data)`, a function of the bytes
/// alone.
#[verifier::external_body]
fn bzip2_decompress(data: &[u8]) -> (r: Option<Vec<u8>>)
    ensures
        r.deep_view() == bzip2_decoded(data@),
{
    let mut out = Vec::new();
    match bzip2::read::BzDecoder::new(data).read_to_end(&mut out) {
        Ok(_) => Some(out),
        Err(_) => None,
    }
}

/// Decompresses `data` with `xz2::read::XzDecoder`, reading to the end.
/// Claimed: the result is `xz_decoded(data)`, a function of the bytes
/// alone.
#[verifier::external_body]
fn xz_decompress(data: &[u8]) -> (r: Option<Vec<u8>>)
    ensures
        r.deep_view() == xz_decoded(data@),
{
    let mut out = Vec::new();
    match xz2::read::XzDecoder::new(data).read_to_end(&mut out) {
        Ok(_) => Some(out),
        Err(_) => None,
    }
}

/// Reads every record of the CSV table in `data` with `csv::Reader`
/// (first line taken as the header), each field as a `String`. Claimed:
/// the result is `csv_records(data)`, a function of the bytes alone.
#[verifier::external_body]
fn read_csv_records(data: &[u8]) -> (r: Option<Vec<Vec<String>>>)
    ensures
        r.deep_view() == csv_records(data@),
{
    let mut reader = csv::Reader::from_reader(data);
    let mut rows = Vec::new();
    for result in reader.records() {
        match result {
            Ok(record) => rows.push(record.iter().map(|field| field.to_string()).collect()),
            Err(_) => return None,
        }
    }
    Some(rows)
}

/// A market order as read from one record of the order table. The price
/// is kept as its text.
pub struct OrderRecord {
    pub is_buy_order: bool,
    pub price: String,
    pub station_id: u32,
    pub system_id: u32,
    pub region_id: u32,
    pub volume: u32,
    pub type_id: u32,
}

impl Clone for OrderRecord {
    fn clone(&self) -> (r: Self)
        ensures
            r@ == self@,
    {
        OrderRecord {
            is_buy_order: self.is_buy_order,
            price: self.price.clone(),
            station_id: self.station_id,
            system_id: self.system_id,
            region_id: self.region_id,
            volume: self.volume,
            type_id: self.type_id,
        }
    }
}

/// The orders of one item type, split into those that buy and those that
/// sell.
pub struct OrderSides {
    pub buy: Vec<OrderRecord>,
    pub sell: Vec<OrderRecord>,
}

/// The content of an `OrderRecord`.
pub struct OrderRecordView {
    pub is_buy_order: bool,
    pub price: Seq<char>,
    pub station_id: u32,
    pub system_id: u32,
    pub region_id: u32,
    pub volume: u32,
    pub type_id: u32,
}

impl View for OrderRecord {
    type V = OrderRecordView;

    open spec fn view(&self) -> OrderRecordView {
        OrderRecordView {
            is_buy_order: self.is_buy_order,
            price: self.price@,
            station_id: self.station_id,
            system_id: self.system_id,
            region_id: self.region_id,
            volume: self.volume,
            type_id: self.type_id,
        }
    }
}

/// Field `i` of a record, or `default` when the record is shorter.
pub open spec fn field_or(fields: Seq<Seq<char>>, i: int, default: Seq<char>) -> Seq<char> {
    if 0 <= i < fields.len() {
        fields[i]
    } else {
        default
    }
}

/// Field `i` (or `default`) read as a `u32`, 0 when it is not one.
pub open spec fn u32_field(fields: Seq<Seq<char>>, i: int, default: Seq<char>) -> u32 {
    match parsed_u32(field_or(fields, i, default)) {
        Some(v) => v,
        None => 0,
    }
}

/// The order a record of the market order table describes: whether it
/// buys (field 1), the price (6), the system (8), the item type (9), the
/// volume (10), the station (13) and the region (14).
pub open spec fn decoded_order(fields: Seq<Seq<char>>) -> OrderRecordView {
    OrderRecordView {
        is_buy_order: match parsed_bool(field_or(fields, 1, "false"@)) {
            Some(b) => b,
            None => false,
        },
        price: field_or(fields, 6, "0.0"@),
        station_id: u32_field(fields, 13, "0"@),
        system_id: u32_field(fields, 8, "0"@),
        region_id: u32_field(fields, 14, "0"@),
        volume: u32_field(fields, 10, "0.0"@),
        type_id: u32_field(fields, 9, "0"@),
    }
}

/// Whether an order is kept: its item type is known and it is placed at a
/// station.
pub open spec fn order_kept(o: OrderRecordView, known_types: Set<u32>) -> bool {
    known_types.contains(o.type_id) && o.station_id != 0
}

/// The orders of the records, in record order, that are kept.
pub open spec fn selected_orders(rows: Seq<Seq<Seq<char>>>, known_types: Set<u32>) -> Seq<
    OrderRecordView,
>
    decreases rows.len(),
{
    if rows.len() == 0 {
        Seq::empty()
    } else {
        let prev = selected_orders(rows.drop_last(), known_types);
        let o = decoded_order(rows.last());
        if order_kept(o, known_types) {
            prev.push(o)
        } else {
            prev
        }
    }
}

/// Every selected order has a known item type and a station, and no
/// record yields more than one order.
pub proof fn law_selected_orders_kept(rows: Seq<Seq<Seq<char>>>, known_types: Set<u32>)
    ensures
        forall|i: int|
            0 <= i < selected_orders(rows, known_types).len() ==> order_kept(
                #[trigger] selected_orders(rows, known_types)[i],
                known_types,
            ),
        selected_orders(rows, known_types).len() <= rows.len(),
    decreases rows.len(),
{
    if rows.len() > 0 {
        law_selected_orders_kept(rows.drop_last(), known_types);
        let prev = selected_orders(rows.drop_last(), known_types);
        let cur = selected_orders(rows, known_types);
        assert forall|i: int| 0 <= i < cur.len() implies order_kept(
            #[trigger] cur[i],
            known_types,
        ) by {
            if i < prev.len() {
                assert(cur[i] == prev[i]);
            }
        }
    }
}

/// The selected orders are exactly the decoded records, in record order,
/// that are kept: no kept order is left out and nothing else is added.
pub proof fn law_selected_orders_are_filter(rows: Seq<Seq<Seq<char>>>, known_types: Set<u32>)
    ensures
        selected_orders(rows, known_types) == rows.map_values(|r: Seq<Seq<char>>| decoded_order(r)).filter(
            |o: OrderRecordView| order_kept(o, known_types),
        ),
    decreases rows.len(),
{
    reveal(Seq::filter);
    let d = rows.map_values(|r: Seq<Seq<char>>| decoded_order(r));
    if rows.len() > 0 {
        law_selected_orders_are_filter(rows.drop_last(), known_types);
        assert(d.drop_last() =~= rows.drop_last().map_values(|r: Seq<Seq<char>>| decoded_order(r)));
        assert(d.last() == decoded_order(rows.last()));
    } else {
        assert(d =~= Seq::<OrderRecordView>::empty());
    }
}

/// The orders of a type on a side are exactly those orders, in order.
pub proof fn law_side_orders_are_filter(orders: Seq<OrderRecordView>, t: u32, buy: bool)
    ensures
        side_orders(orders, t, buy) == orders.filter(
            |o: OrderRecordView| o.type_id == t && o.is_buy_order == buy,
        ),
    decreases orders.len(),
{
    reveal(Seq::filter);
    if orders.len() > 0 {
        law_side_orders_are_filter(orders.drop_last(), t, buy);
    }
}

/// The systems kept for having gates are exactly those of `ids` that have
/// gates, in order.
pub proof fn law_with_gates_is_filter(ids: Seq<u32>, gates: Map<u32, Vec<u32>>)
    ensures
        with_gates(ids, gates) == ids.filter(|id: u32| has_gates(gates, id)),
    decreases ids.len(),
{
    reveal(Seq::filter);
    if ids.len() > 0 {
        law_with_gates_is_filter(ids.drop_last(), gates);
    }
}

/// The destinations grouped under a system are the destinations of exactly
/// the links that start at it, in link order.
pub proof fn law_destinations_are_filter(links: Seq<(u32, u32)>, system: u32)
    ensures
        destinations_from(links, system) == links.filter(|l: (u32, u32)| l.0 == system).map_values(
            |l: (u32, u32)| l.1,
        ),
    decreases links.len(),
{
    reveal(Seq::filter);
    if links.len() > 0 {
        law_destinations_are_filter(links.drop_last(), system);
        let f = links.drop_last().filter(|l: (u32, u32)| l.0 == system);
        if links.last().0 == system {
            assert(f.push(links.last()).map_values(|l: (u32, u32)| l.1) =~= f.map_values(
                |l: (u32, u32)| l.1,
            ).push(links.last().1));
        }
    } else {
        assert(links.filter(|l: (u32, u32)| l.0 == system).map_values(|l: (u32, u32)| l.1)
            =~= Seq::<u32>::empty());
    }
}

fn field_text<'b>(fields: &'b Vec<String>, i: usize, default: &'b str) -> (s: &'b str)
    ensures
        s@ == field_or(fields.deep_view(), i as int, default@),
{
    if i < fields.len() {
        fields[i].as_str()
    } else {
        default
    }
}

fn u32_field_value(fields: &Vec<String>, i: usize, default: &str) -> (v: u32)
    ensures
        v == u32_field(fields.deep_view(), i as int, default@),
{
    match parse_u32(field_text(fields, i, default)) {
        Some(v) => v,
        None => 0,
    }
}

/// Reads one record of the market order table (see `decoded_order`).
pub fn decode_order_record(fields: &Vec<String>) -> (o: OrderRecord)
    ensures
        o@ == decoded_order(fields.deep_view()),
{
    let is_buy_order = match parse_bool(field_text(fields, 1, "false")) {
        Some(b) => b,
        None => false,
    };
    let price = String::from_str(field_text(fields, 6, "0.0"));
    OrderRecord {
        is_buy_order,
        price,
        station_id: u32_field_value(fields, 13, "0"),
        system_id: u32_field_value(fields, 8, "0"),
        region_id: u32_field_value(fields, 14, "0"),
        volume: u32_field_value(fields, 10, "0.0"),
        type_id: u32_field_value(fields, 9, "0"),
    }
}

/// The orders of the records, in record order, whose item type is in
/// `known_types` and whose station is not 0.
pub fn select_market_orders(rows: &Vec<Vec<String>>, known_types: &HashSet<u32>) -> (orders: Vec<
    OrderRecord,
>)
    ensures
        orders@.map_values(|o: OrderRecord| o@) == selected_orders(
            rows.deep_view(),
            known_types@,
        ),
{
    let ghost all = rows.deep_view();
    let mut orders: Vec<OrderRecord> = Vec::new();
    let mut i: usize = 0;
    while i < rows.len()
        invariant
            all == rows.deep_view(),
            i <= rows@.len(),
            orders@.map_values(|o: OrderRecord| o@) == selected_orders(
                all.subrange(0, i as int),
                known_types@,
            ),
        decreases rows@.len() - i,
    {
        let ghost before = orders@.map_values(|o: OrderRecord| o@);
        let order = decode_order_record(&rows[i]);
        proof {
            let pre = all.subrange(0, i as int);
            let post = all.subrange(0, i + 1);
            assert(post.drop_last() =~= pre);
            assert(post.last() == rows@[i as int].deep_view());
        }
        if known_types.contains(&order.type_id) && order.station_id != 0 {
            orders.push(order);
            assert(orders@.map_values(|o: OrderRecord| o@) =~= before.push(order@));
        }
        i = i + 1;
    }
    assert(all.subrange(0, rows@.len() as int) =~= all);
    orders
}

/// The market orders in a bzip2-compressed order table: decompressed, read
/// as CSV, then selected as `select_market_orders` does. Data that does
/// not decompress or does not read as CSV is `InvalidData`.
pub fn market_orders(compressed: &[u8], known_types: &HashSet<u32>) -> (r: Result<
    Vec<OrderRecord>,
    ESIError,
>)
    ensures
        match bzip2_decoded(compressed@) {
            None => r matches Err(ESIError::InvalidData),
            Some(raw) => match csv_records(raw) {
                None => r matches Err(ESIError::InvalidData),
                Some(rows) => r matches Ok(orders) && orders@.map_values(|o: OrderRecord| o@)
                    == selected_orders(rows, known_types@),
            },
        },
{
    let raw = match bzip2_decompress(compressed) {
        Some(raw) => raw,
        None => return Err(ESIError::InvalidData),
    };
    assert(raw.deep_view() =~= raw@);
    let rows = match read_csv_records(raw.as_slice()) {
        Some(rows) => rows,
        None => return Err(ESIError::InvalidData),
    };
    Ok(select_market_orders(&rows, known_types))
}

/// The universe data archive (a tar file) inside the xz-compressed
/// download; data that does not decompress is `InvalidData`.
pub fn universe_archive(compressed: &[u8]) -> (r: Result<Vec<u8>, ESIError>)
    ensures
        match xz_decoded(compressed@) {
            None => r matches Err(ESIError::InvalidData),
            Some(raw) => r matches Ok(data) && data@ == raw,
        },
{
    match xz_decompress(compressed) {
        Some(raw) => {
            assert(raw.deep_view() =~= raw@);
            Ok(raw)
        },
        None => Err(ESIError::InvalidData),
    }
}

/// The orders among `orders` of item type `t` that buy (`buy`) or sell
/// (`!buy`), in order.
pub open spec fn side_orders(orders: Seq<OrderRecordView>, t: u32, buy: bool) -> Seq<OrderRecordView>
    decreases orders.len(),
{
    if orders.len() == 0 {
        Seq::empty()
    } else {
        let prev = side_orders(orders.drop_last(), t, buy);
        let o = orders.last();
        if o.type_id == t && o.is_buy_order == buy {
            prev.push(o)
        } else {
            prev
        }
    }
}

/// The contents of a list of order records.
pub open spec fn record_views(orders: Seq<OrderRecord>) -> Seq<OrderRecordView> {
    orders.map_values(|o: OrderRecord| o@)
}

/// Groups orders by item type: each type that some order has maps to its
/// buy orders and its sell orders, each in the given order.
pub fn group_orders_by_type(orders: &Vec<OrderRecord>) -> (groups: HashMap<u32, OrderSides>)
    ensures
        forall|t: u32| #[trigger]
            groups@.contains_key(t) <==> exists|i: int|
                0 <= i < orders@.len() && #[trigger] orders@[i].type_id == t,
        forall|t: u32| #[trigger]
            groups@.contains_key(t) ==> {
                &&& record_views(groups@[t].buy@) == side_orders(record_views(orders@), t, true)
                &&& record_views(groups@[t].sell@) == side_orders(record_views(orders@), t, false)
            },
{
    let ghost all = record_views(orders@);
    let mut groups: HashMap<u32, OrderSides> = HashMap::new();
    let mut i: usize = 0;
    while i < orders.len()
        invariant
            all == record_views(orders@),
            i <= orders@.len(),
            forall|t: u32| #[trigger]
                groups@.contains_key(t) <==> exists|k: int|
                    0 <= k < i && #[trigger] orders@[k].type_id == t,
            forall|t: u32| #[trigger]
                groups@.contains_key(t) ==> {
                    &&& record_views(groups@[t].buy@) == side_orders(
                        all.subrange(0, i as int),
                        t,
                        true,
                    )
                    &&& record_views(groups@[t].sell@) == side_orders(
                        all.subrange(0, i as int),
                        t,
                        false,
                    )
                },
            forall|t: u32|
                !(#[trigger] groups@.contains_key(t)) ==> side_orders(all.subrange(0, i as int), t, true)
                    == Seq::<OrderRecordView>::empty() && side_orders(
                    all.subrange(0, i as int),
                    t,
                    false,
                ) == Seq::<OrderRecordView>::empty(),
        decreases orders@.len() - i,
    {
        let order = orders[i].clone();
        let t = order.type_id;
        let ghost pre = all.subrange(0, i as int);
        let ghost post = all.subrange(0, i + 1);
        let ghost o = order@;
        proof {
            assert(post.drop_last() =~= pre);
            assert(post.last() == orders@[i as int]@);
        }
        let mut sides = match groups.remove(&t) {
            Some(sides) => sides,
            None => OrderSides { buy: Vec::new(), sell: Vec::new() },
        };
        proof {
            assert(record_views(sides.buy@) =~= side_orders(pre, t, true));
            assert(record_views(sides.sell@) =~= side_orders(pre, t, false));
        }
        let ghost buy_before = sides.buy@;
        let ghost sell_before = sides.sell@;
        if order.is_buy_order {
            sides.buy.push(order);
            assert(record_views(sides.buy@) =~= record_views(buy_before).push(o));
        } else {
            sides.sell.push(order);
            assert(record_views(sides.sell@) =~= record_views(sell_before).push(o));
        }
        groups.insert(t, sides);
        proof {
            assert forall|u: u32| #[trigger]
                groups@.contains_key(u) <==> exists|k: int|
                    0 <= k < i + 1 && #[trigger] orders@[k].type_id == u by {
                if u == t {
                    assert(orders@[i as int].type_id == u);
                }
            }
            assert forall|u: u32| u != t implies side_orders(post, u, true) == side_orders(
                pre,
                u,
                true,
            ) && side_orders(post, u, false) == side_orders(pre, u, false) by {}
        }
        i = i + 1;
    }
    proof {
        assert(all.subrange(0, orders@.len() as int) =~= all);
    }
    groups
}

/// The systems that the stargate links `(system, destination)` lead to from
/// `system`, in link order.
pub open spec fn destinations_from(links: Seq<(u32, u32)>, system: u32) -> Seq<u32>
    decreases links.len(),
{
    if links.len() == 0 {
        Seq::empty()
    } else {
        let prev = destinations_from(links.drop_last(), system);
        if links.last().0 == system {
            prev.push(links.last().1)
        } else {
            prev
        }
    }
}

/// Groups stargate links `(system, destination)` by system: each system that
/// has a link maps to the destinations of its links, in link order.
pub fn group_stargates(links: &Vec<(u32, u32)>) -> (m: HashMap<u32, Vec<u32>>)
    ensures
        forall|s: u32| #[trigger]
            m@.contains_key(s) <==> destinations_from(links@, s).len() > 0,
        forall|s: u32| #[trigger] m@.contains_key(s) ==> m@[s]@ == destinations_from(links@, s),
{
    let mut m: HashMap<u32, Vec<u32>> = HashMap::new();
    let mut i: usize = 0;
    while i < links.len()
        invariant
            i <= links@.len(),
            forall|s: u32| #[trigger]
                m@.contains_key(s) <==> destinations_from(links@.subrange(0, i as int), s).len()
                    > 0,
            forall|s: u32| #[trigger]
                m@.contains_key(s) ==> m@[s]@ == destinations_from(
                    links@.subrange(0, i as int),
                    s,
                ),
        decreases links@.len() - i,
    {
        let (system_id, destination) = links[i];
        let ghost pre = links@.subrange(0, i as int);
        let ghost post = links@.subrange(0, i + 1);
        proof {
            assert(post.drop_last() =~= pre);
            assert(post.last() == (system_id, destination));
        }
        let mut list = match m.remove(&system_id) {
            Some(list) => list,
            None => Vec::new(),
        };
        proof {
            assert(list@ =~= destinations_from(pre, system_id));
        }
        list.push(destination);
        m.insert(system_id, list);
        proof {
            assert forall|s: u32| #[trigger] m@.contains_key(s) <==> destinations_from(post, s).len()
                > 0 by {
                if s != system_id {
                    assert(destinations_from(post, s) == destinations_from(pre, s));
                }
            }
            assert forall|s: u32| #[trigger] m@.contains_key(s) implies m@[s]@ == destinations_from(
                post,
                s,
            ) by {
                if s != system_id {
                    assert(destinations_from(post, s) == destinations_from(pre, s));
                }
            }
        }
        i = i + 1;
    }
    proof {
        assert(links@.subrange(0, links@.len() as int) =~= links@);
    }
    m
}

/// Whether `system` has at least one stargate in `gates` (as grouped by
/// `group_stargates`).
pub open spec fn has_gates(gates: Map<u32, Vec<u32>>, system: u32) -> bool {
    gates.contains_key(system) && gates[system]@.len() > 0
}

/// The systems among `ids` that have at least one stargate, in order.
pub open spec fn with_gates(ids: Seq<u32>, gates: Map<u32, Vec<u32>>) -> Seq<u32>
    decreases ids.len(),
{
    if ids.len() == 0 {
        Seq::empty()
    } else {
        let prev = with_gates(ids.drop_last(), gates);
        if has_gates(gates, ids.last()) {
            prev.push(ids.last())
        } else {
            prev
        }
    }
}

/// Keeps, in order, the systems among `ids` that have at least one
/// stargate in `stargates`; a system without gates is left out of the map.
pub fn systems_with_gates(ids: &Vec<u32>, stargates: &HashMap<u32, Vec<u32>>) -> (kept: Vec<u32>)
    ensures
        kept@ == with_gates(ids@, stargates@),
{
    let mut kept: Vec<u32> = Vec::new();
    let mut i: usize = 0;
    while i < ids.len()
        invariant
            i <= ids@.len(),
            kept@ == with_gates(ids@.subrange(0, i as int), stargates@),
        decreases ids@.len() - i,
    {
        let id = ids[i];
        proof {
            let post = ids@.subrange(0, i + 1);
            assert(post.drop_last() =~= ids@.subrange(0, i as int));
            assert(post.last() == id);
        }
        let keep = match stargates.get(&id) {
            Some(destinations) => destinations.len() > 0,
            None => false,
        };
        if keep {
            kept.push(id);
        }
        i = i + 1;
    }
    assert(ids@.subrange(0, ids@.len() as int) =~= ids@);
    kept
}

/// `a / b` rounded towards zero, as integer division does.
pub open spec fn div_toward_zero(a: int, b: int) -> int {
    if a >= 0 {
        a / b
    } else {
        -((-a) / b)
    }
}

/// Division rounded towards zero: the quotient has the sign of `a` (or is
/// 0), and its magnitude is the number of whole `b`s in the magnitude of
/// `a`.
pub proof fn law_div_toward_zero(a: int, b: int)
    requires
        b > 0,
    ensures
        ({
            let q = div_toward_zero(a, b);
            let qa = if q < 0 {
                -q
            } else {
                q
            };
            let aa = if a < 0 {
                -a
            } else {
                a
            };
            &&& a >= 0 ==> q >= 0
            &&& a <= 0 ==> q <= 0
            &&& qa * b <= aa < (qa + 1) * b
        }),
{
    let aa = if a < 0 {
        -a
    } else {
        a
    };
    vstd::arithmetic::div_mod::lemma_fundamental_div_mod(aa, b);
    let q0 = aa / b;
    let r0 = aa % b;
    assert(0 <= r0 < b);
    assert(q0 >= 0) by {
        vstd::arithmetic::div_mod::lemma_div_pos_is_pos(aa, b);
    }
    assert(q0 * b <= aa < (q0 + 1) * b) by (nonlinear_arith)
        requires
            aa == b * q0 + r0,
            0 <= r0 < b,
    ;
}

/// Whole astronomical units in `meters` (rounded towards zero), when that
/// number fits in an `i32`.
pub fn au_from_meters(meters: i128) -> (r: Option<i32>)
    ensures
        ({
            let q = div_toward_zero(meters as int, AU as int);
            if i32::MIN <= q <= i32::MAX {
                r == Some(q as i32)
            } else {
                r is None
            }
        }),
{
    let q: i128 = if meters >= 0 {
        meters / AU
    } else {
        let magnitude: u128 = (-(meters + 1)) as u128 + 1;
        let units: u128 = magnitude / (AU as u128);
        proof {
            vstd::arithmetic::div_mod::lemma_div_is_ordered_by_denominator(
                magnitude as int,
                2,
                AU as int,
            );
            assert(magnitude / 2 <= 0x4000_0000_0000_0000_0000_0000_0000_0000int);
        }
        -(units as i128)
    };
    if q >= -2147483648 && q <= 2147483647 {
        Some(q as i32)
    } else {
        None
    }
}

/// A position given in metres, in whole astronomical units (see
/// `au_from_meters`); `None` when a coordinate does not fit.
pub fn position_from_meters(x: i128, y: i128, z: i128) -> (r: Option<Vector3>)
    ensures
        ({
            let qx = div_toward_zero(x as int, AU as int);
            let qy = div_toward_zero(y as int, AU as int);
            let qz = div_toward_zero(z as int, AU as int);
            if i32::MIN <= qx <= i32::MAX && i32::MIN <= qy <= i32::MAX && i32::MIN <= qz
                <= i32::MAX {
                r == Some(Vector3 { x: qx as i32, y: qy as i32, z: qz as i32 })
            } else {
                r is None
            }
        }),
{
    match (au_from_meters(x), au_from_meters(y), au_from_meters(z)) {
        (Some(ax), Some(ay), Some(az)) => Some(Vector3 { x: ax, y: ay, z: az }),
        _ => None,
    }
}

} // verus!
