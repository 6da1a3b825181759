use hpsdr_emu::radio::{
    code_to_sample_rate, locally_administered, parse_mac, parse_radio, sample_rate_to_code, HpsdrHw,
    RadioState,
};

#[test]
fn board_codes_match_variants() {
    assert_eq!(HpsdrHw::Atlas.code(), 0);
    assert_eq!(HpsdrHw::Hermes.code(), 1);
    assert_eq!(HpsdrHw::HermesII.code(), 2);
    assert_eq!(HpsdrHw::Angelia.code(), 3);
    assert_eq!(HpsdrHw::Orion.code(), 4);
    assert_eq!(HpsdrHw::OrionMkII.code(), 5);
    assert_eq!(HpsdrHw::HermesLite.code(), 6);
    assert_eq!(HpsdrHw::Saturn.code(), 10);
    assert_eq!(HpsdrHw::SaturnMkII.code(), 11);
}

#[test]
fn max_ddcs_match_variants() {
    assert_eq!(HpsdrHw::Atlas.max_ddcs(), 2);
    assert_eq!(HpsdrHw::Hermes.max_ddcs(), 4);
    assert_eq!(HpsdrHw::HermesII.max_ddcs(), 4);
    assert_eq!(HpsdrHw::Angelia.max_ddcs(), 5);
    assert_eq!(HpsdrHw::Orion.max_ddcs(), 5);
    assert_eq!(HpsdrHw::OrionMkII.max_ddcs(), 8);
    assert_eq!(HpsdrHw::HermesLite.max_ddcs(), 2);
    assert_eq!(HpsdrHw::Saturn.max_ddcs(), 10);
    assert_eq!(HpsdrHw::SaturnMkII.max_ddcs(), 10);
}

#[test]
fn from_name_ignores_case() {
    assert_eq!(HpsdrHw::from_name("HERMES"), Some(HpsdrHw::Hermes));
    assert_eq!(HpsdrHw::from_name("OrionMkII"), Some(HpsdrHw::OrionMkII));
    assert_eq!(HpsdrHw::from_name("saturnmkii"), Some(HpsdrHw::SaturnMkII));
    assert_eq!(HpsdrHw::from_name("hermes2"), None);
    assert_eq!(HpsdrHw::from_name(""), None);
}

#[test]
fn from_lowercase_name_is_exact() {
    assert_eq!(HpsdrHw::from_lowercase_name("hermeslite"), Some(HpsdrHw::HermesLite));
    assert_eq!(HpsdrHw::from_lowercase_name("HermesLite"), None);
}

#[test]
fn all_names_round_trip_through_from_name() {
    let names = HpsdrHw::all_names();
    assert_eq!(names.len(), 9);
    assert_eq!(names[0], "atlas");
    assert_eq!(names[8], "saturnmkii");
    for name in names {
        assert!(HpsdrHw::from_name(name).is_some());
    }
}

#[test]
fn display_names_are_upper_case() {
    assert_eq!(HpsdrHw::Hermes.display_name(), "HERMES");
    assert_eq!(HpsdrHw::OrionMkII.display_name(), "ORIONMKII");
}

#[test]
fn sample_rate_codes() {
    assert_eq!(sample_rate_to_code(48000), 0);
    assert_eq!(sample_rate_to_code(96000), 1);
    assert_eq!(sample_rate_to_code(192000), 2);
    assert_eq!(sample_rate_to_code(384000), 3);
    assert_eq!(sample_rate_to_code(44100), 0);
    assert_eq!(code_to_sample_rate(0), Some(48000));
    assert_eq!(code_to_sample_rate(1), Some(96000));
    assert_eq!(code_to_sample_rate(2), Some(192000));
    assert_eq!(code_to_sample_rate(3), Some(384000));
    assert_eq!(code_to_sample_rate(4), None);
}

#[test]
fn radio_state_defaults() {
    let s = RadioState::new(HpsdrHw::Angelia, [1, 2, 3, 4, 5, 6]);
    assert_eq!(s.hw, HpsdrHw::Angelia);
    assert_eq!(s.mac, [1, 2, 3, 4, 5, 6]);
    assert_eq!(s.firmware_version, 25);
    assert_eq!(s.mercury_versions, [25, 25, 25, 25]);
    assert_eq!(s.penny_version, 25);
    assert_eq!(s.metis_version, 25);
    assert_eq!(s.sample_rate, 48000);
    assert_eq!(s.nddc, 5);
    assert_eq!(s.rx_frequencies, [7_074_000; 12]);
    assert_eq!(s.tx_frequency, 7_074_000);
    assert_eq!(s.tx_drive, 0);
    assert!(!s.running);
    assert!(!s.ptt);
}

#[test]
fn next_seq_counts_per_stream() {
    let mut s = RadioState::new(HpsdrHw::Hermes, [0; 6]);
    assert_eq!(s.next_seq("p1_data"), 0);
    assert_eq!(s.next_seq("p1_data"), 1);
    assert_eq!(s.next_seq("other"), 0);
    assert_eq!(s.next_seq("p1_data"), 2);
    assert_eq!(s.next_seq("other"), 1);
}

#[test]
fn mac_string_is_lower_hex_with_colons() {
    let s = RadioState::new(HpsdrHw::Hermes, [0x00, 0x1c, 0xc0, 0xa2, 0x22, 0x5e]);
    assert_eq!(s.mac_string(), "00:1c:c0:a2:22:5e");
    let t = RadioState::new(HpsdrHw::Hermes, [0xff, 0xAB, 0x01, 0x10, 0x9f, 0x00]);
    assert_eq!(t.mac_string(), "ff:ab:01:10:9f:00");
}

#[test]
fn random_mac_is_local_unicast() {
    for _ in 0..32 {
        let m = RadioState::random_mac();
        assert_eq!(m[0] & 0x03, 0x02);
    }
}

#[test]
fn locally_administered_sets_bits() {
    assert_eq!(locally_administered([0x01, 2, 3, 4, 5, 6]), [0x02, 2, 3, 4, 5, 6]);
    assert_eq!(locally_administered([0xFF, 0, 0, 0, 0, 0]), [0xFE, 0, 0, 0, 0, 0]);
}

#[test]
fn parse_mac_accepts_any_separators() {
    let want = [0x00, 0x1c, 0xc0, 0xa2, 0x22, 0x5e];
    assert_eq!(parse_mac("00:1c:c0:a2:22:5e"), Some(want));
    assert_eq!(parse_mac("001CC0A2225E"), Some(want));
    assert_eq!(parse_mac("00-1c-c0-a2-22-5e"), Some(want));
}

#[test]
fn parse_mac_rejects_wrong_digit_count() {
    assert_eq!(parse_mac("00:1c:c0:a2:22"), None);
    assert_eq!(parse_mac("00:1c:c0:a2:22:5e:01"), None);
    assert_eq!(parse_mac(""), None);
}

#[test]
fn parse_radio_accepts_known_names() {
    assert_eq!(parse_radio("Hermes"), Ok(HpsdrHw::Hermes));
    assert_eq!(parse_radio("SATURN"), Ok(HpsdrHw::Saturn));
}

#[test]
fn parse_radio_lists_valid_names() {
    let err = parse_radio("foo").unwrap_err();
    assert_eq!(
        err,
        "unknown radio 'foo'. Valid: atlas, hermes, hermesii, angelia, orion, orionmkii, hermeslite, saturn, saturnmkii"
    );
}
