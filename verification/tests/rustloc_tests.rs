use rustloc::codec::{AddressFamily, IpAddress};
use rustloc::loader::{load_range_table, DatasetFormatError};
use rustloc::service::{CountryLookupService, RefreshError, RefreshOutcome};
use rustloc::table::{CountryCode, RangeTable};

fn code(s: &str) -> CountryCode {
    let b = s.as_bytes();
    CountryCode { first: b[0], second: b[1] }
}

fn v4_table(data: &[u8]) -> RangeTable {
    load_range_table(data, AddressFamily::V4).expect("dataset should load")
}

#[test]
fn ordinal_of_extreme_v4_addresses() {
    assert_eq!(IpAddress::V4([255, 255, 255, 255]).to_ordinal(), 4294967295);
    assert_eq!(IpAddress::V4([0, 0, 0, 0]).to_ordinal(), 0);
}

#[test]
fn ordinal_is_big_endian() {
    assert_eq!(IpAddress::V4([1, 2, 3, 4]).to_ordinal(), 16909060);
    assert_eq!(IpAddress::V4([8, 8, 8, 8]).to_ordinal(), 134744072);
}

#[test]
fn ordinal_preserves_dotted_quad_order() {
    let addresses = [
        IpAddress::V4([0, 0, 0, 0]),
        IpAddress::V4([0, 0, 0, 1]),
        IpAddress::V4([0, 0, 1, 0]),
        IpAddress::V4([9, 255, 0, 3]),
        IpAddress::V4([10, 0, 0, 0]),
        IpAddress::V4([10, 0, 0, 7]),
        IpAddress::V4([255, 255, 255, 255]),
    ];
    for pair in addresses.windows(2) {
        assert!(pair[0].to_ordinal() < pair[1].to_ordinal());
    }
}

#[test]
fn ordinal_of_v6_segments() {
    assert_eq!(IpAddress::V6([0, 0, 0, 0, 0, 0, 0, 1]).to_ordinal(), 1);
    assert_eq!(IpAddress::V6([1, 0, 0, 0, 0, 0, 0, 0]).to_ordinal(), 1u128 << 112);
    // 2001:db8::1
    assert_eq!(
        IpAddress::V6([0x2001, 0x0db8, 0, 0, 0, 0, 0, 1]).to_ordinal(),
        (0x2001u128 << 112) | (0x0db8u128 << 96) | 1,
    );
}

#[test]
fn ordinal_preserves_segment_order() {
    let a = IpAddress::V6([0, 0, 0, 0, 0, 0, 1, 0]);
    let b = IpAddress::V6([0, 0, 0, 0, 0, 1, 0, 0]);
    assert!(a.to_ordinal() < b.to_ordinal());
}

#[test]
fn lookup_two_ranges() {
    let table = v4_table(b"0,99,US\n100,199,CA\n");
    assert_eq!(table.lookup(50), Some(code("US")));
    assert_eq!(table.lookup(100), Some(code("CA")));
    assert_eq!(table.lookup(99), Some(code("US")));
    assert_eq!(table.lookup(200), None);
}

#[test]
fn lookup_boundaries_are_inclusive() {
    let table = v4_table(b"10,20,FR\n");
    assert_eq!(table.lookup(9), None);
    assert_eq!(table.lookup(10), Some(code("FR")));
    assert_eq!(table.lookup(20), Some(code("FR")));
    assert_eq!(table.lookup(21), None);
}

#[test]
fn loader_sorts_unsorted_rows() {
    let table = v4_table(b"100,199,CA\n0,99,US\n");
    assert_eq!(table.lookup(5), Some(code("US")));
    assert_eq!(table.lookup(150), Some(code("CA")));
}

#[test]
fn overlapping_ranges_are_rejected() {
    let r = load_range_table(b"0,100,US\n50,150,CA\n", AddressFamily::V4);
    assert_eq!(r.err(), Some(DatasetFormatError::OverlappingRanges));
}

#[test]
fn malformed_rows_are_rejected() {
    let family = AddressFamily::V4;
    for bad in [
        &b"abc,5,US\n"[..],
        b"5,US\n",
        b"0,5,USA\n",
        b"0,5,U\n",
        b"0,5,US,extra\n",
        b"9,5,US\n",
        b",5,US\n",
        b"0,5,U1\n",
        b"0,5,US\n\n1000,2000,CA\n",
    ] {
        assert_eq!(
            load_range_table(bad, family).err(),
            Some(DatasetFormatError::MalformedRow),
            "dataset {:?} should be malformed",
            bad,
        );
    }
}

#[test]
fn v4_width_overflow_is_rejected() {
    // 2^32 does not fit the IPv4 number space ...
    let r = load_range_table(b"0,4294967296,US\n", AddressFamily::V4);
    assert_eq!(r.err(), Some(DatasetFormatError::MalformedRow));
    // ... but fits the IPv6 one.
    assert!(load_range_table(b"0,4294967296,US\n", AddressFamily::V6).is_ok());
}

#[test]
fn v6_width_overflow_is_rejected() {
    // 2^128 fits no family.
    let r = load_range_table(b"0,340282366920938463463374607431768211456,US\n", AddressFamily::V6);
    assert_eq!(r.err(), Some(DatasetFormatError::MalformedRow));
    assert!(
        load_range_table(b"0,340282366920938463463374607431768211455,US\n", AddressFamily::V6)
            .is_ok()
    );
}

#[test]
fn empty_dataset_loads_to_empty_table() {
    let table = v4_table(b"");
    assert_eq!(table.len(), 0);
    assert_eq!(table.lookup(0), None);
}

#[test]
fn crlf_and_missing_final_newline_are_accepted() {
    let table = v4_table(b"0,99,US\r\n100,199,CA");
    assert_eq!(table.lookup(0), Some(code("US")));
    assert_eq!(table.lookup(199), Some(code("CA")));
}

#[test]
fn leading_zeros_parse_as_decimal() {
    let table = v4_table(b"007,0099,US\n");
    assert_eq!(table.lookup(7), Some(code("US")));
    assert_eq!(table.lookup(6), None);
}

#[test]
fn eu_membership_of_sample_codes() {
    assert_eq!(rustloc::eu::is_eu_country("FR"), true);
    assert_eq!(rustloc::eu::is_eu_country("US"), false);
    assert_eq!(rustloc::eu::is_eu_country(""), false);
}

#[test]
fn eu_membership_of_all_members() {
    for member in [
        "AT", "BE", "BG", "HR", "CY", "CZ", "DK", "EE", "FI", "FR", "DE", "GR", "HU", "IE", "IT",
        "LV", "LT", "LU", "MT", "NL", "PL", "PT", "RO", "SK", "SI", "ES", "SE",
    ] {
        assert!(rustloc::eu::is_eu_country(member), "{} is a member", member);
    }
    for outsider in ["GB", "CH", "NO", "UA", "fr", "F", "FRA", "ÉÉ"] {
        assert!(!rustloc::eu::is_eu_country(outsider), "{} is no member", outsider);
    }
}

#[test]
fn end_to_end_lookup_of_public_address() {
    let table = v4_table(b"134744064,134744319,US\n");
    let service = CountryLookupService::new(table, RangeTable::empty());
    let r = service.lookup(&IpAddress::V4([8, 8, 8, 8]));
    assert_eq!(r.family, AddressFamily::V4);
    assert_eq!(r.ordinal, 134744072);
    assert_eq!(r.ordinal.to_string(), "134744072");
    assert_eq!(r.country_code, Some(code("US")));
    assert_eq!(r.is_eu, false);
}

#[test]
fn lookup_of_eu_range_sets_eu_flag() {
    let table = v4_table(b"0,99,FR\n");
    let service = CountryLookupService::new(table, RangeTable::empty());
    let r = service.lookup(&IpAddress::V4([0, 0, 0, 42]));
    assert_eq!(r.country_code, Some(code("FR")));
    assert_eq!(r.is_eu, true);
}

#[test]
fn lookup_miss_gives_empty_result() {
    let service = CountryLookupService::empty();
    let r = service.lookup(&IpAddress::V4([8, 8, 8, 8]));
    assert_eq!(r.country_code, None);
    assert_eq!(r.is_eu, false);
    let r6 = service.lookup(&IpAddress::V6([0, 0, 0, 0, 0, 0, 0, 1]));
    assert_eq!(r6.family, AddressFamily::V6);
    assert_eq!(r6.country_code, None);
}

#[test]
fn refresh_installs_and_reports_unchanged() {
    let mut service = CountryLookupService::empty();
    let data: Vec<u8> = b"0,99,US\n".to_vec();
    assert_eq!(
        service.refresh_family(AddressFamily::V4, Some(&data)),
        RefreshOutcome::Updated,
    );
    assert_eq!(
        service.refresh_family(AddressFamily::V4, Some(&data)),
        RefreshOutcome::Unchanged,
    );
    let r = service.lookup(&IpAddress::V4([0, 0, 0, 1]));
    assert_eq!(r.country_code, Some(code("US")));
}

#[test]
fn failed_v6_refresh_leaves_v4_lookups_intact() {
    let mut service = CountryLookupService::empty();
    let v4_data: Vec<u8> = b"134744064,134744319,US\n".to_vec();
    assert_eq!(
        service.refresh_family(AddressFamily::V4, Some(&v4_data)),
        RefreshOutcome::Updated,
    );
    // The IPv6 fetch fails outright ...
    assert_eq!(
        service.refresh_family(AddressFamily::V6, None),
        RefreshOutcome::Failed(RefreshError::FetchFailed),
    );
    let r = service.lookup(&IpAddress::V4([8, 8, 8, 8]));
    assert_eq!(r.country_code, Some(code("US")));
    // ... and a later malformed IPv6 dataset still leaves IPv4 intact.
    let bad: Vec<u8> = b"not a dataset\n".to_vec();
    assert_eq!(
        service.refresh_family(AddressFamily::V6, Some(&bad)),
        RefreshOutcome::Failed(RefreshError::BadDataset(DatasetFormatError::MalformedRow)),
    );
    let again = service.lookup(&IpAddress::V4([8, 8, 8, 8]));
    assert_eq!(again.country_code, Some(code("US")));
}

#[test]
fn bad_dataset_empties_only_its_family() {
    let mut service = CountryLookupService::empty();
    let good: Vec<u8> = b"0,99,DE\n".to_vec();
    service.refresh_family(AddressFamily::V4, Some(&good));
    assert_eq!(service.lookup(&IpAddress::V4([0, 0, 0, 1])).country_code, Some(code("DE")));
    // An overlapping replacement empties the IPv4 table rather than
    // serving either generation's corrupt mixture.
    let overlapping: Vec<u8> = b"0,100,US\n50,150,CA\n".to_vec();
    assert_eq!(
        service.refresh_family(AddressFamily::V4, Some(&overlapping)),
        RefreshOutcome::Failed(RefreshError::BadDataset(DatasetFormatError::OverlappingRanges)),
    );
    assert_eq!(service.lookup(&IpAddress::V4([0, 0, 0, 1])).country_code, None);
}
