//! Tokenizing, trimming, number parsing and line classification.

use frame_order::analyzer::{parse_range, BondPolicy, Config, ConfigError};
use frame_order::fixed::{parse_fixed, COORD_LIMIT, TIME_LIMIT};
use frame_order::record::{extract_atom, frame_time, species_key};
use frame_order::text::{contains_subslice, find_marker, tokenize, trim_spaces};

#[test]
fn tokenize_splits_on_whitespace() {
    let toks = tokenize(b"  a bb\t c ");
    assert_eq!(toks.len(), 3);
    assert_eq!(toks[0], b"a".to_vec());
    assert_eq!(toks[1], b"bb".to_vec());
    assert_eq!(toks[2], b"c".to_vec());
    assert_eq!(tokenize(b"").len(), 0);
    assert_eq!(tokenize(b"   ").len(), 0);
}

#[test]
fn trim_strips_both_ends() {
    assert_eq!(trim_spaces(b"  CAL \n"), b"CAL".to_vec());
    assert_eq!(trim_spaces(b"CAL"), b"CAL".to_vec());
    assert_eq!(trim_spaces(b" \t "), Vec::<u8>::new());
}

#[test]
fn contains_matches_substrings() {
    assert!(contains_subslice(b"1TTA", b"TTA"));
    assert!(contains_subslice(b"TTA", b"TTA"));
    assert!(!contains_subslice(b"TT", b"TTA"));
    assert!(!contains_subslice(b"CAX", b"CAL"));
    assert!(contains_subslice(b"anything", b""));
}

#[test]
fn parse_fixed_plain_decimals() {
    assert_eq!(parse_fixed(b"1.234", TIME_LIMIT), Some(1234));
    assert_eq!(parse_fixed(b"-0.5", TIME_LIMIT), Some(-500));
    assert_eq!(parse_fixed(b"+2", TIME_LIMIT), Some(2000));
    assert_eq!(parse_fixed(b".5", TIME_LIMIT), Some(500));
    assert_eq!(parse_fixed(b"5.", TIME_LIMIT), Some(5000));
    assert_eq!(parse_fixed(b"0", TIME_LIMIT), Some(0));
    assert_eq!(parse_fixed(b"400000", TIME_LIMIT), Some(400_000_000));
}

#[test]
fn parse_fixed_truncates_extra_digits() {
    assert_eq!(parse_fixed(b"1.2349", TIME_LIMIT), Some(1234));
    assert_eq!(parse_fixed(b"-1.2399", TIME_LIMIT), Some(-1239));
}

#[test]
fn parse_fixed_rejects_malformed() {
    assert_eq!(parse_fixed(b"", TIME_LIMIT), None);
    assert_eq!(parse_fixed(b"-", TIME_LIMIT), None);
    assert_eq!(parse_fixed(b".", TIME_LIMIT), None);
    assert_eq!(parse_fixed(b"1e5", TIME_LIMIT), None);
    assert_eq!(parse_fixed(b"1.2.3", TIME_LIMIT), None);
    assert_eq!(parse_fixed(b"--1", TIME_LIMIT), None);
    assert_eq!(parse_fixed(b"nan", TIME_LIMIT), None);
}

#[test]
fn parse_fixed_enforces_the_limit() {
    assert_eq!(parse_fixed(b"500.0", COORD_LIMIT), Some(500_000));
    assert_eq!(parse_fixed(b"500.001", COORD_LIMIT), None);
    assert_eq!(parse_fixed(b"-600", COORD_LIMIT), None);
    assert_eq!(parse_fixed(b"00000000000000000000001", COORD_LIMIT), Some(1000));
}

#[test]
fn find_marker_first_occurrence() {
    assert_eq!(find_marker(b"frame t= 5.0"), Some(6));
    assert_eq!(find_marker(b"t="), Some(0));
    assert_eq!(find_marker(b"no marker here"), None);
    assert_eq!(find_marker(b""), None);
}

#[test]
fn frame_time_reads_first_token_after_marker() {
    assert_eq!(frame_time(b"step 100 t= 12.5 extra"), 12_500);
    assert_eq!(frame_time(b"t=0.0"), 0);
    assert_eq!(frame_time(b"t= 10.0 t= 99.0"), 10_000);
    // Nothing readable after the marker counts as time zero.
    assert_eq!(frame_time(b"t= junk"), 0);
    assert_eq!(frame_time(b"t="), 0);
    assert_eq!(frame_time(b"t=t=5"), 0);
}

#[test]
fn species_key_cuts_at_underscore() {
    assert_eq!(species_key(b"AL_3"), b"AL".to_vec());
    assert_eq!(species_key(b"CAL"), b"CAL".to_vec());
    assert_eq!(species_key(b"_x"), Vec::<u8>::new());
}

#[test]
fn extract_atom_reads_seventh_token_lines() {
    let a = extract_atom(b"1 ALA 7 0.100 0.200 0.300 v").unwrap();
    assert_eq!(a.species, b"ALA".to_vec());
    assert_eq!(a.pos.x, 100);
    assert_eq!(a.pos.y, 200);
    assert_eq!(a.pos.z, 300);
    // Too few tokens: not a record.
    assert!(extract_atom(b"1 ALA 7 0.100 0.200 0.300").is_none());
    // A coordinate that does not parse: the record is skipped.
    assert!(extract_atom(b"1 ALA 7 x.y 0.200 0.300 v").is_none());
    // A coordinate out of range: the record is skipped.
    assert!(extract_atom(b"1 ALA 7 600.0 0.200 0.300 v").is_none());
}

#[test]
fn parse_range_wants_two_numbers() {
    assert_eq!(parse_range(b"0.0 400.0"), Ok((0, 400_000)));
    assert_eq!(parse_range(b" -5 7.5 "), Ok((-5000, 7500)));
    assert_eq!(parse_range(b"1.0"), Err(ConfigError::WrongTokenCount));
    assert_eq!(parse_range(b"1.0 2.0 3.0"), Err(ConfigError::WrongTokenCount));
    assert_eq!(parse_range(b"1.0 abc"), Err(ConfigError::BadNumber));
    assert_eq!(parse_range(b""), Err(ConfigError::WrongTokenCount));
}

#[test]
fn config_from_lines_trims_the_species() {
    let c = Config::from_lines(b"0 10", b"  CAL \n", BondPolicy::SkipTriplet).unwrap();
    assert_eq!(c.range_start, 0);
    assert_eq!(c.range_end, 10_000);
    assert_eq!(c.species, b"CAL".to_vec());
    assert!(Config::from_lines(b"zero ten", b"CAL", BondPolicy::SkipTriplet).is_err());
}
