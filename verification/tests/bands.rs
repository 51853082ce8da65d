use modemui::bands::{band_from_earfcn, intel_band_code};

#[test]
fn resolves_bands_seen_on_real_modem() {
    // Values from the output of AT+XMCI=1 on a Fibocom L860.
    assert_eq!(band_from_earfcn(1602), Some(3));
    assert_eq!(band_from_earfcn(1458), Some(3));
    assert_eq!(band_from_earfcn(225), Some(1));
    assert_eq!(band_from_earfcn(3048), Some(7));
}

#[test]
fn resolves_band_edges() {
    assert_eq!(band_from_earfcn(0), Some(1));
    assert_eq!(band_from_earfcn(599), Some(1));
    assert_eq!(band_from_earfcn(600), Some(2));
    assert_eq!(band_from_earfcn(1200), Some(3));
    assert_eq!(band_from_earfcn(1949), Some(3));
    assert_eq!(band_from_earfcn(1950), Some(4));
    assert_eq!(band_from_earfcn(6150), Some(20));
    assert_eq!(band_from_earfcn(38650), Some(40));
    assert_eq!(band_from_earfcn(66436), Some(66));
}

#[test]
fn gaps_between_bands_are_unknown() {
    assert_eq!(band_from_earfcn(5000), None);
    assert_eq!(band_from_earfcn(20000), None);
    assert_eq!(band_from_earfcn(69000), None);
}

#[test]
fn intel_codes_match_xact_listing() {
    assert_eq!(intel_band_code(1), 101);
    assert_eq!(intel_band_code(3), 103);
    assert_eq!(intel_band_code(7), 107);
    assert_eq!(intel_band_code(20), 120);
    assert_eq!(intel_band_code(66), 166);
}

#[test]
fn last_bands_of_the_table() {
    assert_eq!(band_from_earfcn(10359), Some(32));
    assert_eq!(band_from_earfcn(10360), None);
    assert_eq!(band_from_earfcn(35999), None);
    assert_eq!(band_from_earfcn(36000), Some(33));
    assert_eq!(band_from_earfcn(68586), Some(71));
    assert_eq!(band_from_earfcn(68935), Some(71));
    assert_eq!(band_from_earfcn(68936), None);
    assert_eq!(band_from_earfcn(u32::MAX), None);
}
