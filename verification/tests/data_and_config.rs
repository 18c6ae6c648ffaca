use std::collections::HashSet;
use std::io::Write;

use evetrade::config::{
    first_missing_section, log_level_from_lowercase, orders_source, parse_log_level, universe_source,
    DataSource, LogLevel,
};
use evetrade::errors::{ESIError, EvetradeError};
use evetrade::esi::{
    au_from_meters, decode_order_record, group_orders_by_type, group_stargates, market_orders,
    position_from_meters, select_market_orders, systems_with_gates, universe_archive, AU,
};
use evetrade::processor::{
    group_fate, group_pairs_by_system, orders_in_known_systems, truncation_point, GroupFate,
};
use evetrade::types::Vector3;

const HEADER: &str = "order_id,is_buy_order,duration,issued,min_volume,range,price,http_last_modified,system_id,type_id,volume_remain,volume_total,constellation_id,location_id,region_id";

fn row(buy: &str, price: &str, system: &str, type_id: &str, volume: &str, station: &str, region: &str) -> Vec<String> {
    vec![
        "1".to_string(),
        buy.to_string(),
        "90".to_string(),
        "2024-01-01".to_string(),
        "1".to_string(),
        "region".to_string(),
        price.to_string(),
        "x".to_string(),
        system.to_string(),
        type_id.to_string(),
        volume.to_string(),
        "100".to_string(),
        "20000020".to_string(),
        station.to_string(),
        region.to_string(),
    ]
}

fn bzip2_bytes(text: &str) -> Vec<u8> {
    let mut enc = bzip2::write::BzEncoder::new(Vec::new(), bzip2::Compression::default());
    enc.write_all(text.as_bytes()).unwrap();
    enc.finish().unwrap()
}

#[test]
fn order_record_reads_its_fields() {
    let o = decode_order_record(&row("true", "5.25", "30000142", "34", "1500", "60003760", "10000002"));
    assert!(o.is_buy_order);
    assert_eq!(o.price, "5.25");
    assert_eq!(o.system_id, 30000142);
    assert_eq!(o.type_id, 34);
    assert_eq!(o.volume, 1500);
    assert_eq!(o.station_id, 60003760);
    assert_eq!(o.region_id, 10000002);
}

#[test]
fn order_record_defaults_bad_or_missing_fields() {
    let o = decode_order_record(&row("yes", "1", "x", "-3", "2.5", "", "+9"));
    assert!(!o.is_buy_order);
    assert_eq!(o.system_id, 0);
    assert_eq!(o.type_id, 0);
    assert_eq!(o.volume, 0);
    assert_eq!(o.station_id, 0);
    assert_eq!(o.region_id, 9);
    let short = decode_order_record(&vec!["1".to_string(), "true".to_string()]);
    assert!(short.is_buy_order);
    assert_eq!(short.price, "0.0");
    assert_eq!(short.type_id, 0);
}

#[test]
fn orders_of_unknown_types_or_without_station_are_dropped() {
    let rows = vec![
        row("true", "5", "1", "34", "10", "60003760", "1"),
        row("false", "4", "1", "35", "10", "60003760", "1"),
        row("false", "4", "1", "34", "10", "0", "1"),
        row("false", "3", "2", "34", "20", "60000001", "1"),
    ];
    let mut known = HashSet::new();
    known.insert(34u32);
    let kept = select_market_orders(&rows, &known);
    assert_eq!(kept.len(), 2);
    assert!(kept[0].is_buy_order);
    assert_eq!(kept[1].price, "3");
    assert_eq!(kept[1].system_id, 2);
}

#[test]
fn compressed_order_table_is_read() {
    let table = format!(
        "{}\n1,true,90,d,1,region,5.5,x,30000142,34,100,100,1,60003760,10000002\n2,false,90,d,1,region,4.25,x,30000144,34,50,100,1,60003761,10000002\n3,false,90,d,1,region,1.0,x,30000144,99,50,100,1,60003761,10000002\n",
        HEADER
    );
    let mut known = HashSet::new();
    known.insert(34u32);
    let orders = market_orders(&bzip2_bytes(&table), &known).unwrap();
    assert_eq!(orders.len(), 2);
    assert_eq!(orders[0].price, "5.5");
    assert_eq!(orders[1].station_id, 60003761);
    assert!(!orders[1].is_buy_order);
}

#[test]
fn data_that_does_not_decompress_is_invalid() {
    let known = HashSet::new();
    assert!(matches!(market_orders(b"not bzip2 at all", &known), Err(ESIError::InvalidData)));
    assert!(matches!(universe_archive(b"not xz either"), Err(ESIError::InvalidData)));
}

#[test]
fn ragged_csv_is_invalid() {
    let table = format!("{}\n1,true\n", HEADER);
    let known = HashSet::new();
    assert!(matches!(market_orders(&bzip2_bytes(&table), &known), Err(ESIError::InvalidData)));
}

#[test]
fn universe_archive_is_decompressed() {
    let mut enc = xz2::write::XzEncoder::new(Vec::new(), 6);
    enc.write_all(b"tar bytes here").unwrap();
    let packed = enc.finish().unwrap();
    assert_eq!(universe_archive(&packed).unwrap(), b"tar bytes here".to_vec());
}

#[test]
fn stargates_are_grouped_by_system() {
    let links = vec![(1u32, 2u32), (3, 4), (1, 5), (1, 2)];
    let m = group_stargates(&links);
    assert_eq!(m.len(), 2);
    assert_eq!(m[&1], vec![2, 5, 2]);
    assert_eq!(m[&3], vec![4]);
    assert!(group_stargates(&vec![]).is_empty());
}

#[test]
fn metres_become_whole_astronomical_units() {
    assert_eq!(au_from_meters(0), Some(0));
    assert_eq!(au_from_meters(AU - 1), Some(0));
    assert_eq!(au_from_meters(AU * 3 + 5), Some(3));
    assert_eq!(au_from_meters(-(AU * 3 + 5)), Some(-3));
    assert_eq!(au_from_meters(-(AU - 1)), Some(0));
    assert_eq!(au_from_meters(i128::MIN), None);
    assert_eq!(au_from_meters(AU * (i32::MAX as i128)), Some(i32::MAX));
    assert_eq!(au_from_meters(AU * (i32::MAX as i128 + 1)), None);
    assert_eq!(
        position_from_meters(AU * 2, -AU * 7, 12),
        Some(Vector3 { x: 2, y: -7, z: 0 })
    );
    assert_eq!(position_from_meters(0, 0, i128::MAX), None);
}

#[test]
fn log_level_names() {
    assert_eq!(log_level_from_lowercase("trace"), LogLevel::Trace);
    assert_eq!(log_level_from_lowercase("debug"), LogLevel::Debug);
    assert_eq!(log_level_from_lowercase("info"), LogLevel::Info);
    assert_eq!(log_level_from_lowercase("warn"), LogLevel::Warn);
    assert_eq!(log_level_from_lowercase("error"), LogLevel::Error);
    assert_eq!(log_level_from_lowercase("verbose"), LogLevel::Debug);
    assert_eq!(parse_log_level("INFO"), LogLevel::Info);
    assert_eq!(parse_log_level("Warn"), LogLevel::Warn);
    assert_eq!(parse_log_level("quiet"), LogLevel::Debug);
}

#[test]
fn required_sections_are_checked_in_order() {
    let all: Vec<String> = ["settings", "thresholds", "user", "route", "advanced", "extra"]
        .iter()
        .map(|s| s.to_string())
        .collect();
    assert_eq!(first_missing_section(&all), None);
    let some: Vec<String> = ["advanced", "settings", "route"].iter().map(|s| s.to_string()).collect();
    assert_eq!(first_missing_section(&some), Some("thresholds".to_string()));
    assert_eq!(first_missing_section(&vec![]), Some("settings".to_string()));
}

#[test]
fn universe_data_is_fetched_without_cache_or_on_request() {
    assert_eq!(universe_source(false, false), DataSource::Fetch);
    assert_eq!(universe_source(true, true), DataSource::Fetch);
    assert_eq!(universe_source(true, false), DataSource::Cache);
}

#[test]
fn orders_are_fetched_when_missing_or_old() {
    let minute: u128 = 60_000_000_000;
    assert_eq!(orders_source(false, 0, 0), DataSource::Fetch);
    assert_eq!(orders_source(true, 100 * minute, 114 * minute), DataSource::Cache);
    assert_eq!(orders_source(true, 100 * minute, 115 * minute), DataSource::Cache);
    assert_eq!(orders_source(true, 100 * minute, 115 * minute + 1), DataSource::Fetch);
    assert_eq!(orders_source(true, 200 * minute, 100 * minute), DataSource::Cache);
}

#[test]
fn order_lists_are_cut_after_the_leading_profitable_run() {
    assert_eq!(truncation_point(&vec![]), 0);
    assert_eq!(truncation_point(&vec![true, true, false, true]), 2);
    assert_eq!(truncation_point(&vec![true, true, true]), 3);
    assert_eq!(truncation_point(&vec![false, true, true]), 3);
    assert_eq!(truncation_point(&vec![true, false]), 1);
}

#[test]
fn error_messages() {
    assert_eq!(ESIError::RequestError.message(), "Request error");
    assert_eq!(ESIError::InvalidData.message(), "Invalid data");
    let io = std::io::Error::new(std::io::ErrorKind::NotFound, "gone");
    assert_eq!(ESIError::IoError(io).message(), "IO error: gone");
    assert_eq!(EvetradeError::ESIError.message(), "Failed to perform API requests!");
    assert_eq!(EvetradeError::IOError.message(), "Failed to save routes!");
    assert_eq!(EvetradeError::ConfigError.message(), "Failed to load the configuration file!");
}

#[test]
fn io_errors_convert_into_esi_errors() {
    let io = std::io::Error::new(std::io::ErrorKind::Other, "disk");
    let e: ESIError = io.into();
    assert!(matches!(e, ESIError::IoError(_)));
}

#[test]
fn orders_are_grouped_by_type_and_side() {
    let records = vec![
        decode_order_record(&row("true", "1.5", "30000142", "34", "10", "60003760", "10000002")),
        decode_order_record(&row("false", "2.5", "30000142", "35", "20", "60003760", "10000002")),
        decode_order_record(&row("false", "3.5", "30000144", "34", "30", "60003761", "10000002")),
        decode_order_record(&row("true", "4.5", "30000145", "34", "40", "60003762", "10000002")),
    ];
    let groups = group_orders_by_type(&records);
    assert_eq!(groups.len(), 2);
    let t34 = &groups[&34];
    assert_eq!(t34.buy.iter().map(|o| o.volume).collect::<Vec<_>>(), vec![10, 40]);
    assert_eq!(t34.sell.iter().map(|o| o.price.as_str()).collect::<Vec<_>>(), vec!["3.5"]);
    let t35 = &groups[&35];
    assert!(t35.buy.is_empty());
    assert_eq!(t35.sell.len(), 1);
    assert_eq!(t35.sell[0].system_id, 30000142);
    assert!(group_orders_by_type(&vec![]).is_empty());
}

#[test]
fn only_systems_with_gates_are_kept() {
    let mut gates = group_stargates(&vec![(1u32, 2u32), (3, 1)]);
    gates.insert(7, vec![]);
    assert_eq!(systems_with_gates(&vec![5, 3, 7, 1, 2], &gates), vec![3, 1]);
    assert_eq!(systems_with_gates(&vec![], &gates), Vec::<u32>::new());
}

#[test]
fn order_groups_are_judged_in_order() {
    assert_eq!(group_fate(0, 3, false, false), GroupFate::Empty);
    assert_eq!(group_fate(2, 0, true, true), GroupFate::Empty);
    assert_eq!(group_fate(2, 3, false, false), GroupFate::UnknownType);
    assert_eq!(group_fate(2, 3, true, false), GroupFate::TooLarge);
    assert_eq!(group_fate(2, 3, true, true), GroupFate::Kept);
}

#[test]
fn orders_in_unknown_systems_are_dropped() {
    let known: HashSet<u32> = [10u32, 30].into_iter().collect();
    assert_eq!(orders_in_known_systems(&vec![10, 20, 30, 10, 40], &known), vec![0, 2, 3]);
    assert_eq!(orders_in_known_systems(&vec![], &known), Vec::<usize>::new());
}

#[test]
fn pairs_are_grouped_by_sell_system() {
    let (systems, pairs) = group_pairs_by_system(&vec![7, 3, 7, 9, 3, 7]);
    assert_eq!(systems, vec![7, 3, 9]);
    assert_eq!(pairs.len(), 3);
    assert_eq!(pairs[&7], vec![0, 2, 5]);
    assert_eq!(pairs[&3], vec![1, 4]);
    assert_eq!(pairs[&9], vec![3]);
    let (none, empty) = group_pairs_by_system(&vec![]);
    assert!(none.is_empty() && empty.is_empty());
}
