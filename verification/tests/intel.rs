use modemui::intel::{
    field, freq_lock_cmd, parse_aggregation, parse_neighbors, parse_serving, parse_state,
    parse_xcesq, parse_xlec, LockStore, RADIO_CYCLE,
};
use modemui::signal::Reading;
use modemui::store::FileChange;

/// A reply of a Fibocom L860 as it came, with the line breaks that the modem puts into long
/// records.
const REAL_XMCI: &str = "+XMCI: 4,250,02,\"0x2608\",\"0x026D741E\",\"0x0108\",\"0x00000642\",\"0x00004C92\",\n\"0xFFFFFFFF\",58,22,38,\"0x00000003\",\"0x00000000\"\n\
+XMCI: 5,000,000,\"0xFFFE\",\"0xFFFFFFFF\",\"0x01B7\",\"0x00000BE8\",\"0xFFFFFFFF\",\n\"0xFFFFFFFF\",51,14,255,\"0x7FFFFFFF\",\"0x00000000\"\n\
+XMCI: 5,000,000,\"0xFFFE\",\"0xFFFFFFFF\",\"0x0108\",\"0x000000E1\",\"0xFFFFFFFF\",\n\"0xFFFFFFFF\",54,14,255,\"0x7FFFFFFF\",\"0x00000000\"\n\
+XMCI: 5,000,000,\"0xFFFE\",\"0xFFFFFFFF\",\"0x0108\",\"0x000005B2\",\"0xFFFFFFFF\",\n\"0xFFFFFFFF\",59,23,255,\"0x7FFFFFFF\",\"0x00000000\"\n\
+XMCI: 5,000,000,\"0xFFFE\",\"0xFFFFFFFF\",\"0x00EC\",\"0x00000642\",\"0xFFFFFFFF\",\n\"0xFFFFFFFF\",44,0,255,\"0x7FFFFFFF\",\"0x00000000\"\n\
+XMCI: 5,000,000,\"0xFFFE\",\"0xFFFFFFFF\",\"0x00EC\",\"0x000000E1\",\"0xFFFFFFFF\",\n\"0xFFFFFFFF\",41,0,255,\"0x7FFFFFFF\",\"0x00000000\"\nOK";

/// The number that a measurement stands for.
fn value(r: &Option<Reading>) -> Option<f64> {
    match r {
        Some(Reading::Scaled { base, step, index }) => {
            Some(*base as f64 / 2.0 + *step as f64 / 2.0 * *index as f64)
        }
        Some(Reading::Numeral(t)) => t.parse().ok(),
        None => None,
    }
}

/// Tenths of a MHz in MHz.
fn mhz(tenths: u32) -> f64 {
    tenths as f64 / 10.0
}

#[test]
fn parses_serving_cell_from_real_output() {
    let s = parse_serving(REAL_XMCI).expect("служебная сота должна найтись");
    assert_eq!(s.earfcn, Some(1602));
    assert_eq!(s.pci, Some(264));
    assert_eq!(value(&s.rsrp), Some(-83.0));
    assert_eq!(value(&s.rsrq), Some(-9.0));
    assert_eq!(s.band.as_deref(), Some("B3"));
}

#[test]
fn parses_all_neighbors_from_real_output() {
    let n = parse_neighbors(REAL_XMCI);
    assert_eq!(n.len(), 5, "в ответе пять записей TYPE=5");
    // The strongest cell comes first.
    assert_eq!((n[0].pci, n[0].earfcn), (264, 1458));
    assert_eq!(value(&n[0].rsrp), Some(-82.0));
    // The weakest one comes last.
    assert_eq!((n[4].pci, n[4].earfcn), (236, 225));
    assert_eq!(value(&n[4].rsrp), Some(-100.0));
}

#[test]
fn serving_cell_is_not_listed_as_neighbor() {
    let n = parse_neighbors(REAL_XMCI);
    assert!(!n.iter().any(|c| c.pci == 264 && c.earfcn == 1602));
}

#[test]
fn treats_sentinel_values_as_missing() {
    assert_eq!(field("\"0xFFFFFFFF\""), None);
    assert_eq!(field("\"0x7FFFFFFF\""), None);
    assert_eq!(field(""), None);
    assert_eq!(field("\"0x0108\""), Some(264));
    assert_eq!(field("58"), Some(58));
}

#[test]
fn parses_real_xcesq() {
    let s = parse_xcesq("+XCESQ: 0,99,99,255,255,24,62,34,255,255,255,255").unwrap();
    assert_eq!(value(&s.rsrp), Some(-79.0));
    assert_eq!(value(&s.rsrq), Some(-8.0));
}

#[test]
fn xcesq_out_of_range_is_unknown() {
    let s = parse_xcesq("+XCESQ: 0,99,99,255,255,255,255,255").unwrap();
    assert_eq!(value(&s.rsrp), None);
    assert_eq!(value(&s.rsrq), None);
}

#[test]
fn builds_lock_command_for_real_cell() {
    assert_eq!(
        freq_lock_cmd(1602, 264, true).unwrap(),
        "at@sic:freq_lock(0,3,103,1,1602,264)"
    );
    assert_eq!(
        freq_lock_cmd(1602, 264, false).unwrap(),
        "at@sic:freq_lock(0,3,103,0,1602,264)"
    );
    assert_eq!(
        freq_lock_cmd(3048, 439, true).unwrap(),
        "at@sic:freq_lock(0,3,107,1,3048,439)"
    );
}

#[test]
fn refuses_earfcn_outside_known_bands() {
    assert!(freq_lock_cmd(20000, 1, true).is_err());
}

#[test]
fn parses_aggregation_from_real_xlec() {
    let a = parse_aggregation("+XLEC: 0,4,5,5,4,3,BAND_LTE_3,0,0,0,0").unwrap();
    assert_eq!(a.carriers, 4);
    let widths: Vec<f64> = a.bandwidths.iter().map(|w| mhz(*w)).collect();
    assert_eq!(widths, vec![20.0, 20.0, 15.0, 10.0]);
    assert_eq!(mhz(a.total), 65.0);
    assert_eq!(a.bands, vec!["B3"]);
}

#[test]
fn parses_aggregation_second_sample() {
    let a = parse_aggregation("+XLEC: 0,4,5,5,4,3,BAND_LTE_3,0,7,1,3").unwrap();
    assert_eq!(a.carriers, 4);
    assert_eq!(mhz(a.total), 65.0);
}

#[test]
fn aggregation_refuses_implausible_shapes() {
    assert!(parse_aggregation("+XLEC: 0,99,5,5").is_none());
    assert!(parse_aggregation("+XLEC: 0,4,5").is_none());
    assert!(parse_aggregation("+XLEC: 0,2,9,9").is_none());
    assert!(parse_aggregation("OK").is_none());
}

#[test]
fn single_carrier_aggregation() {
    let a = parse_aggregation("+XLEC: 0,1,5,BAND_LTE_7").unwrap();
    assert_eq!(a.carriers, 1);
    assert_eq!(mhz(a.total), 20.0);
    assert_eq!(a.bands, vec!["B7"]);
}

#[test]
fn parses_xlec_line() {
    let raw = parse_xlec("+XLEC: 0,4,5,5,4,3,BAND_LTE_3,0,7,1,3\nOK").unwrap();
    assert!(raw.contains("BAND_LTE_3"));
}

#[test]
fn lock_state_roundtrip() {
    assert_eq!(parse_state("1602 264\n"), Some((1602, 264)));
    assert_eq!(parse_state(""), None);
    assert_eq!(parse_state("мусор"), None);
}

#[test]
fn unknown_carriers_are_named_in_the_error() {
    assert_eq!(
        freq_lock_cmd(20000, 1, true),
        Err("не удалось определить LTE-диапазон для EARFCN 20000".to_string())
    );
}

#[test]
fn fields_in_odd_notation() {
    assert_eq!(field(" \" 0X1f \" "), Some(31));
    assert_eq!(field("4294967294"), Some(4294967294));
    assert_eq!(field("4294967295"), None);
    assert_eq!(field("2147483647"), None);
    assert_eq!(field("4294967296"), None);
    assert_eq!(field("-1"), None);
    assert_eq!(field("0x"), None);
}

#[test]
fn serving_cell_gives_all_it_knows() {
    let s = parse_serving(REAL_XMCI).unwrap();
    assert_eq!(value(&s.sinr), Some(38.0));
    assert!(s.rssi.is_none() && s.operator.is_none() && !s.registered);
    // A record without metrics, and one that is too short.
    let s = parse_serving("+XMCI: 4,1\n+XMCI: 4,250,02,a,b,70000,20000\nOK").unwrap();
    assert_eq!((s.pci, s.earfcn), (Some(4464), Some(20000)));
    assert!(s.rsrp.is_none() && s.band.is_none());
    assert!(parse_serving("OK").is_none());
}

#[test]
fn cells_without_metrics_come_last_and_equal_cells_stay() {
    let n = parse_neighbors(
        "+XMCI: 5,0,0,0,0,1,100,0,0,255,0\n+XMCI: 5,0,0,0,0,2,100,0,0,50,0\n+XMCI: 5,0,0,0,0,3,100,0,0,50,41\n+XMCI: 5,0,0,0,0,4,100\n+XMCI: 5,0,0,0,0,x,100\nOK",
    );
    let order: Vec<u16> = n.iter().map(|c| c.pci).collect();
    assert_eq!(order, vec![2, 3, 1, 4]);
    assert_eq!(value(&n[0].rsrq), Some(-20.0));
    assert_eq!(value(&n[1].rsrq), None);
}

#[test]
fn short_xcesq_says_nothing() {
    assert!(parse_xcesq("+XCESQ: 0,99,99,255,255,24").is_none());
    assert!(parse_xcesq("OK").is_none());
    let s = parse_xcesq("x\n+XCESQ: 0,99,99,255,255,40,140").unwrap();
    assert_eq!((value(&s.rsrq), value(&s.rsrp)), (Some(0.0), Some(-1.0)));
    assert!(s.sinr.is_none());
}

#[test]
fn unknown_xcesq_sinr() {
    let s = parse_xcesq("+XCESQ: 0,99,99,255,255,24,62,255").unwrap();
    assert_eq!(value(&s.sinr), None);
    assert_eq!((value(&s.rsrq), value(&s.rsrp)), (Some(-8.0), Some(-79.0)));
    let s = parse_xcesq("+XCESQ: 0,99,99,255,255,24,62,34").unwrap();
    assert_eq!(value(&s.sinr), Some(34.0));
    let s = parse_xcesq("+XCESQ: 0,99,99,255,255,24,62,254").unwrap();
    assert_eq!(value(&s.sinr), Some(254.0));
}

#[test]
fn every_width_has_its_code() {
    let a = parse_aggregation("+XLEC: 0,6,0,1,2,3,4,5,BAND_LTE_1,BAND_LTE_20").unwrap();
    assert_eq!(a.bandwidths, vec![14, 30, 50, 100, 150, 200]);
    assert_eq!(a.total, 544);
    assert_eq!(a.bands, vec!["B1", "B20"]);
    assert!(parse_aggregation("+XLEC: 0,0,BAND_LTE_1").is_none());
    assert!(parse_aggregation("+XLEC: 0,9,5,5,5,5,5,5,5,5,5").is_none());
}

#[test]
fn intel_locks_are_noted() {
    let s = LockStore::new("/tmp/lock");
    assert_eq!(s.path(), "/tmp/lock");
    assert_eq!(s.load(None), None);
    match s.save(1602, 264) {
        FileChange::Write { path, text } => {
            assert_eq!(path, "/tmp/lock");
            assert_eq!(text, "1602 264\n");
            assert_eq!(s.load(Some(&text)), Some((1602, 264)));
        }
        other => panic!("{:?}", other),
    }
    assert_eq!(s.clear(), FileChange::Remove { path: "/tmp/lock".to_string() });
    assert_eq!(parse_state("1 65536"), None);
}

#[test]
fn radio_is_cycled() {
    assert_eq!(RADIO_CYCLE, ["at+cfun=4", "at+cfun=15"]);
}
