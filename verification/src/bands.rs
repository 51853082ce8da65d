//! Which LTE band a carrier number (EARFCN) belongs to.
//!
//! Intel modems want the number of the band in their lock command, while people know only the
//! EARFCN. The table is that of 3GPP TS 36.101, table 5.7.3-1, for the downlink.

use vstd::prelude::*;

verus! {

/// The band, its first EARFCN and its last one.
pub const NDL_RANGES: [(u16, u32, u32); 51] = [
    (1, 0, 599),
    (2, 600, 1199),
    (3, 1200, 1949),
    (4, 1950, 2399),
    (5, 2400, 2649),
    (6, 2650, 2749),
    (7, 2750, 3449),
    (8, 3450, 3799),
    (9, 3800, 4149),
    (10, 4150, 4749),
    (11, 4750, 4949),
    (12, 5010, 5179),
    (13, 5180, 5279),
    (14, 5280, 5379),
    (17, 5730, 5849),
    (18, 5850, 5999),
    (19, 6000, 6149),
    (20, 6150, 6449),
    (21, 6450, 6599),
    (22, 6600, 7399),
    (23, 7500, 7699),
    (24, 7700, 8039),
    (25, 8040, 8689),
    (26, 8690, 9039),
    (27, 9040, 9209),
    (28, 9210, 9659),
    (29, 9660, 9769),
    (30, 9770, 9869),
    (31, 9870, 9919),
    (32, 9920, 10359),
    (33, 36000, 36199),
    (34, 36200, 36349),
    (35, 36350, 36949),
    (36, 36950, 37549),
    (37, 37550, 37749),
    (38, 37750, 38249),
    (39, 38250, 38649),
    (40, 38650, 39649),
    (41, 39650, 41589),
    (42, 41590, 43589),
    (43, 43590, 45589),
    (44, 45590, 46589),
    (45, 46590, 46789),
    (46, 46790, 54539),
    (47, 54540, 55239),
    (48, 55240, 56739),
    (65, 65536, 66435),
    (66, 66436, 67335),
    (67, 67336, 67535),
    (68, 67536, 67835),
    (71, 68586, 68935),
];

/// Whether the `i`th row of the table holds a carrier.
pub open spec fn covers(i: int, earfcn: int) -> bool {
    0 <= i < 51 && NDL_RANGES@[i].1 <= earfcn <= NDL_RANGES@[i].2
}

/// The band of the first row, from the `i`th on, that holds a carrier.
pub open spec fn band_from(i: int, earfcn: int) -> Option<u16>
    decreases 51 - i,
{
    if i < 0 || i >= 51 {
        None
    } else if covers(i, earfcn) {
        Some(NDL_RANGES@[i].0)
    } else {
        band_from(i + 1, earfcn)
    }
}

/// The band of a carrier, if it is not in a gap between bands.
pub open spec fn band_of(earfcn: int) -> Option<u16> {
    band_from(0, earfcn)
}

/// The number of the band that a carrier belongs to. There is none for a carrier in a gap
/// between bands, such as 4950 to 5009.
pub fn band_from_earfcn(earfcn: u32) -> (r: Option<u16>)
    ensures
        r == band_of(earfcn as int),
{
    let mut i: usize = 0;
    while i < 51
        invariant
            i <= 51,
            band_from(i as int, earfcn as int) == band_of(earfcn as int),
        decreases 51 - i,
    {
        let row = NDL_RANGES[i];
        if earfcn >= row.1 && earfcn <= row.2 {
            return Some(row.0);
        }
        i += 1;
    }
    None
}

/// How Intel modems number the LTE band `band`: the numbers below belong to UMTS.
pub fn intel_band_code(band: u16) -> (r: u16)
    requires
        band <= u16::MAX - 100,
    ensures
        r == 100 + band,
{
    100 + band
}

proof fn lemma_rows_ascend(i: int)
    requires
        0 <= i < 50,
    ensures
        NDL_RANGES@[i].2 < NDL_RANGES@[i + 1].1,
{
}

proof fn lemma_rows_apart(i: int, j: int)
    requires
        0 <= i < j < 51,
    ensures
        NDL_RANGES@[i].2 < NDL_RANGES@[j].1,
    decreases j - i,
{
    lemma_rows_ascend(j - 1);
    if i < j - 1 {
        lemma_rows_apart(i, j - 1);
        lemma_row(j - 1);
    }
}

proof fn lemma_row(i: int)
    requires
        0 <= i < 51,
    ensures
        NDL_RANGES@[i].1 <= NDL_RANGES@[i].2,
        1 <= NDL_RANGES@[i].0 <= 71,
{
}

proof fn lemma_band_from(i: int, j: int, earfcn: int)
    requires
        0 <= i <= j,
        covers(j, earfcn),
    ensures
        band_from(i, earfcn) == Some(NDL_RANGES@[j].0),
    decreases j - i,
{
    if i < j {
        lemma_rows_apart(i, j);
        lemma_band_from(i + 1, j, earfcn);
    }
}

proof fn lemma_band_row(i: int, earfcn: int)
    requires
        0 <= i,
        band_from(i, earfcn) is Some,
    ensures
        exists|k: int| covers(k, earfcn) && NDL_RANGES@[k].0 == band_from(i, earfcn)->0,
    decreases 51 - i,
{
    if i < 51 && !covers(i, earfcn) {
        lemma_band_row(i + 1, earfcn);
    }
}

/// The bands do not overlap: the row that holds a carrier is the only one, and its band is the
/// band of the carrier.
pub proof fn theorem_bands_are_disjoint(i: int, j: int, earfcn: int)
    requires
        covers(i, earfcn),
        covers(j, earfcn),
    ensures
        i == j,
        band_of(earfcn) == Some(NDL_RANGES@[i].0),
{
    if i < j {
        lemma_rows_apart(i, j);
    } else if j < i {
        lemma_rows_apart(j, i);
    }
    lemma_band_from(0, i, earfcn);
}

/// A carrier has a band exactly if some row holds it, and every band has a code for Intel
/// modems.
pub proof fn theorem_known_bands(earfcn: int)
    ensures
        band_of(earfcn) is Some <==> exists|i: int| covers(i, earfcn),
        band_of(earfcn) is Some ==> 1 <= band_of(earfcn)->0 <= 71,
{
    if band_of(earfcn) is Some {
        lemma_band_row(0, earfcn);
        let k = choose|k: int|
            covers(k, earfcn) && NDL_RANGES@[k].0 == band_from(0, earfcn)->0;
        lemma_row(k);
    } else if exists|i: int| covers(i, earfcn) {
        let k = choose|i: int| covers(i, earfcn);
        lemma_band_from(0, k, earfcn);
    }
}

proof fn lemma_names_ascend(i: int)
    requires
        0 <= i < 50,
    ensures
        NDL_RANGES@[i].0 < NDL_RANGES@[i + 1].0,
{
}

proof fn lemma_names_apart(i: int, j: int)
    requires
        0 <= i < j < 51,
    ensures
        NDL_RANGES@[i].0 < NDL_RANGES@[j].0,
    decreases j - i,
{
    lemma_names_ascend(j - 1);
    if i < j - 1 {
        lemma_names_apart(i, j - 1);
    }
}

proof fn lemma_row_alone(i: int, earfcn: int)
    requires
        0 <= i < 51,
    ensures
        NDL_RANGES@[i].1 <= earfcn <= NDL_RANGES@[i].2 <==> band_of(earfcn) == Some(
            NDL_RANGES@[i].0,
        ),
{
    if covers(i, earfcn) {
        lemma_band_from(0, i, earfcn);
    }
    if band_of(earfcn) == Some(NDL_RANGES@[i].0) {
        lemma_band_row(0, earfcn);
        let k = choose|k: int|
            covers(k, earfcn) && NDL_RANGES@[k].0 == band_from(0, earfcn)->0;
        if k < i {
            lemma_names_apart(k, i);
        } else if i < k {
            lemma_names_apart(i, k);
        }
    }
}

/// Which carriers belong to each band: those from its first one to its last one, and no others.
#[verifier::spinoff_prover]
#[verifier::rlimit(50)]
pub proof fn theorem_carriers_of_each_band(earfcn: int)
    ensures
        0 <= earfcn <= 599 <==> band_of(earfcn) == Some(1u16),
        600 <= earfcn <= 1199 <==> band_of(earfcn) == Some(2u16),
        1200 <= earfcn <= 1949 <==> band_of(earfcn) == Some(3u16),
        1950 <= earfcn <= 2399 <==> band_of(earfcn) == Some(4u16),
        2400 <= earfcn <= 2649 <==> band_of(earfcn) == Some(5u16),
        2650 <= earfcn <= 2749 <==> band_of(earfcn) == Some(6u16),
        2750 <= earfcn <= 3449 <==> band_of(earfcn) == Some(7u16),
        3450 <= earfcn <= 3799 <==> band_of(earfcn) == Some(8u16),
        3800 <= earfcn <= 4149 <==> band_of(earfcn) == Some(9u16),
        4150 <= earfcn <= 4749 <==> band_of(earfcn) == Some(10u16),
        4750 <= earfcn <= 4949 <==> band_of(earfcn) == Some(11u16),
        5010 <= earfcn <= 5179 <==> band_of(earfcn) == Some(12u16),
        5180 <= earfcn <= 5279 <==> band_of(earfcn) == Some(13u16),
        5280 <= earfcn <= 5379 <==> band_of(earfcn) == Some(14u16),
        5730 <= earfcn <= 5849 <==> band_of(earfcn) == Some(17u16),
        5850 <= earfcn <= 5999 <==> band_of(earfcn) == Some(18u16),
        6000 <= earfcn <= 6149 <==> band_of(earfcn) == Some(19u16),
        6150 <= earfcn <= 6449 <==> band_of(earfcn) == Some(20u16),
        6450 <= earfcn <= 6599 <==> band_of(earfcn) == Some(21u16),
        6600 <= earfcn <= 7399 <==> band_of(earfcn) == Some(22u16),
        7500 <= earfcn <= 7699 <==> band_of(earfcn) == Some(23u16),
        7700 <= earfcn <= 8039 <==> band_of(earfcn) == Some(24u16),
        8040 <= earfcn <= 8689 <==> band_of(earfcn) == Some(25u16),
        8690 <= earfcn <= 9039 <==> band_of(earfcn) == Some(26u16),
        9040 <= earfcn <= 9209 <==> band_of(earfcn) == Some(27u16),
        9210 <= earfcn <= 9659 <==> band_of(earfcn) == Some(28u16),
        9660 <= earfcn <= 9769 <==> band_of(earfcn) == Some(29u16),
        9770 <= earfcn <= 9869 <==> band_of(earfcn) == Some(30u16),
        9870 <= earfcn <= 9919 <==> band_of(earfcn) == Some(31u16),
        9920 <= earfcn <= 10359 <==> band_of(earfcn) == Some(32u16),
        36000 <= earfcn <= 36199 <==> band_of(earfcn) == Some(33u16),
        36200 <= earfcn <= 36349 <==> band_of(earfcn) == Some(34u16),
        36350 <= earfcn <= 36949 <==> band_of(earfcn) == Some(35u16),
        36950 <= earfcn <= 37549 <==> band_of(earfcn) == Some(36u16),
        37550 <= earfcn <= 37749 <==> band_of(earfcn) == Some(37u16),
        37750 <= earfcn <= 38249 <==> band_of(earfcn) == Some(38u16),
        38250 <= earfcn <= 38649 <==> band_of(earfcn) == Some(39u16),
        38650 <= earfcn <= 39649 <==> band_of(earfcn) == Some(40u16),
        39650 <= earfcn <= 41589 <==> band_of(earfcn) == Some(41u16),
        41590 <= earfcn <= 43589 <==> band_of(earfcn) == Some(42u16),
        43590 <= earfcn <= 45589 <==> band_of(earfcn) == Some(43u16),
        45590 <= earfcn <= 46589 <==> band_of(earfcn) == Some(44u16),
        46590 <= earfcn <= 46789 <==> band_of(earfcn) == Some(45u16),
        46790 <= earfcn <= 54539 <==> band_of(earfcn) == Some(46u16),
        54540 <= earfcn <= 55239 <==> band_of(earfcn) == Some(47u16),
        55240 <= earfcn <= 56739 <==> band_of(earfcn) == Some(48u16),
        65536 <= earfcn <= 66435 <==> band_of(earfcn) == Some(65u16),
        66436 <= earfcn <= 67335 <==> band_of(earfcn) == Some(66u16),
        67336 <= earfcn <= 67535 <==> band_of(earfcn) == Some(67u16),
        67536 <= earfcn <= 67835 <==> band_of(earfcn) == Some(68u16),
        68586 <= earfcn <= 68935 <==> band_of(earfcn) == Some(71u16),
{
    lemma_row_alone(0, earfcn);
    lemma_row_alone(1, earfcn);
    lemma_row_alone(2, earfcn);
    lemma_row_alone(3, earfcn);
    lemma_row_alone(4, earfcn);
    lemma_row_alone(5, earfcn);
    lemma_row_alone(6, earfcn);
    lemma_row_alone(7, earfcn);
    lemma_row_alone(8, earfcn);
    lemma_row_alone(9, earfcn);
    lemma_row_alone(10, earfcn);
    lemma_row_alone(11, earfcn);
    lemma_row_alone(12, earfcn);
    lemma_row_alone(13, earfcn);
    lemma_row_alone(14, earfcn);
    lemma_row_alone(15, earfcn);
    lemma_row_alone(16, earfcn);
    lemma_row_alone(17, earfcn);
    lemma_row_alone(18, earfcn);
    lemma_row_alone(19, earfcn);
    lemma_row_alone(20, earfcn);
    lemma_row_alone(21, earfcn);
    lemma_row_alone(22, earfcn);
    lemma_row_alone(23, earfcn);
    lemma_row_alone(24, earfcn);
    lemma_row_alone(25, earfcn);
    lemma_row_alone(26, earfcn);
    lemma_row_alone(27, earfcn);
    lemma_row_alone(28, earfcn);
    lemma_row_alone(29, earfcn);
    lemma_row_alone(30, earfcn);
    lemma_row_alone(31, earfcn);
    lemma_row_alone(32, earfcn);
    lemma_row_alone(33, earfcn);
    lemma_row_alone(34, earfcn);
    lemma_row_alone(35, earfcn);
    lemma_row_alone(36, earfcn);
    lemma_row_alone(37, earfcn);
    lemma_row_alone(38, earfcn);
    lemma_row_alone(39, earfcn);
    lemma_row_alone(40, earfcn);
    lemma_row_alone(41, earfcn);
    lemma_row_alone(42, earfcn);
    lemma_row_alone(43, earfcn);
    lemma_row_alone(44, earfcn);
    lemma_row_alone(45, earfcn);
    lemma_row_alone(46, earfcn);
    lemma_row_alone(47, earfcn);
    lemma_row_alone(48, earfcn);
    lemma_row_alone(49, earfcn);
    lemma_row_alone(50, earfcn);
}

} // verus!
