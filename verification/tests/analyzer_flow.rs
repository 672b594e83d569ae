//! End-to-end behaviour of the frame-segmentation state machine.

use frame_order::analyzer::{Analyzer, BondPolicy, Config, FrameResult, Warning};
use frame_order::stats::Ratio;

fn config(start: i64, end: i64, species: &[u8], policy: BondPolicy) -> Config {
    Config { range_start: start, range_end: end, species: species.to_vec(), policy }
}

fn run(lines: &[&[u8]], cfg: Config) -> (Vec<FrameResult>, Analyzer) {
    let mut an = Analyzer::new(cfg);
    let mut out: Vec<FrameResult> = Vec::new();
    for line in lines {
        if let Some(fr) = an.on_line(line) {
            out.push(fr);
        }
    }
    (out, an)
}

/// A species pattern A,B,A,B,A with B central: every interior B occurrence
/// contributes one triplet, and with identical bonds the average equals the
/// single triplet's order parameter exactly.
#[test]
fn species_pattern_counts_interior_occurrences() {
    let lines: [&[u8]; 7] = [
        b"frame t= 0.0",
        b"1 A 1 0.000 0.000 0.100 x",
        b"1 B 2 0.000 0.000 0.150 x",
        b"1 A 3 0.000 0.000 0.200 x",
        b"1 B 4 0.000 0.000 0.250 x",
        b"1 A 5 0.000 0.000 0.300 x",
        b"frame t= 10.0",
    ];
    let (out, _an) = run(&lines, config(0, 10_000, b"B", BondPolicy::SkipTriplet));
    assert_eq!(out.len(), 1);
    let fr = out[0];
    assert_eq!(fr.frame_index, 1);
    assert_eq!(fr.frame_time, 0);
    // B stands at positions 1 and 3 of the frame, both interior.
    assert_eq!(fr.triplet_count, 2);
    // Both bonds run along the z axis, so both order parameters are 1.0
    // and the average equals each triplet's value exactly.
    assert_eq!(fr.average, 1_000_000);
    assert_eq!(fr.median, Ratio { num: 2_000_000, den: 2 });
}

/// One interior central atom: the flush reports exactly its bond's order
/// parameter.
#[test]
fn single_triplet_average_is_exact() {
    let lines: [&[u8]; 5] = [
        b"t= 0.0",
        b"1 A 1 0.100 0.100 0.100 x",
        b"1 B 2 0.150 0.150 0.150 x",
        b"1 A 3 0.200 0.200 0.200 x",
        b"t= 10.0",
    ];
    let (out, _an) = run(&lines, config(0, 10_000, b"B", BondPolicy::SkipTriplet));
    assert_eq!(out.len(), 1);
    // The bond (0.1, 0.1, 0.1) sits at the magic angle: order parameter 0.
    assert_eq!(out[0].triplet_count, 1);
    assert_eq!(out[0].average, 0);
    assert_eq!(out[0].median, Ratio { num: 0, den: 1 });
}

/// Two markers, range starting at the first: the first frame's lines are
/// accumulated and exactly one report comes out, under the first frame's
/// time.
#[test]
fn two_markers_one_report() {
    let lines: [&[u8]; 5] = [
        b"box t= 0.0",
        b"1 A 1 0.000 0.000 0.100 x",
        b"1 B 2 0.000 0.000 0.200 x",
        b"1 A 3 0.000 0.000 0.300 x",
        b"box t= 10.0",
    ];
    let (out, mut an) = run(&lines, config(0, 10_000, b"B", BondPolicy::SkipTriplet));
    assert_eq!(out.len(), 1);
    assert_eq!(out[0].frame_index, 1);
    assert_eq!(out[0].frame_time, 0);
    assert_eq!(an.frames_seen(), 2);
    // Nothing was buffered after the second marker, so closing the stream
    // reports nothing more.
    assert!(an.finalize().is_none());
}

/// A frame whose time falls outside the window is skipped whole: no
/// records are buffered, and its boundary flushes nothing.
#[test]
fn out_of_window_frame_is_skipped() {
    let lines: [&[u8]; 4] = [
        b"t= 50.0",
        b"1 B 1 0.000 0.000 0.100 x",
        b"1 B 2 0.000 0.000 0.200 x",
        b"t= 60.0",
    ];
    let (out, an) = run(&lines, config(0, 10_000, b"B", BondPolicy::SkipTriplet));
    assert_eq!(out.len(), 0);
    assert!(!an.is_accumulating());
    assert_eq!(an.warnings().len(), 0);
}

/// The window reaches one frame step beyond its end: a frame at the end
/// time itself is still accepted.
#[test]
fn window_has_one_step_of_slack() {
    let mut an = Analyzer::new(config(0, 10_000, b"B", BondPolicy::SkipTriplet));
    an.on_line(b"t= 10.0");
    assert!(an.is_accumulating());
    an.on_line(b"t= 19.999");
    assert!(an.is_accumulating());
    an.on_line(b"t= 20.0");
    assert!(!an.is_accumulating());
}

/// A too-long bond is left out under the skip policy, counts under the
/// disabled policy, and the difference is exactly that triplet.
#[test]
fn bond_length_policy_decides_the_triplet() {
    let lines: [&[u8]; 5] = [
        b"t= 0.0",
        b"1 A 1 0.000 0.000 0.000 x",
        b"1 B 2 0.000 0.000 0.200 x",
        b"1 A 3 0.000 0.000 0.400 x",
        b"t= 10.0",
    ];
    // The neighbours lie 0.4 apart, beyond the 0.3 sanity bound.
    let (skipped, an) = run(&lines, config(0, 10_000, b"B", BondPolicy::SkipTriplet));
    assert_eq!(skipped[0].triplet_count, 0);
    assert_eq!(skipped[0].average, 0);
    assert_eq!(an.warnings().as_slice(), &[Warning::NoTriplets { frame: 1 }]);

    let (counted, an2) = run(&lines, config(0, 10_000, b"B", BondPolicy::Disabled));
    assert_eq!(counted[0].triplet_count, 1);
    assert_eq!(counted[0].average, 1_000_000);
    assert_eq!(an2.warnings().len(), 0);
}

/// Under the abort policy a too-long bond ends the frame's scan; under the
/// skip policy the later triplet still counts.
#[test]
fn abort_policy_stops_the_scan() {
    let lines: [&[u8]; 7] = [
        b"t= 0.0",
        b"1 A 1 0.000 0.000 0.000 x",
        b"1 B 2 0.000 0.000 0.200 x",
        b"1 A 3 0.000 0.000 0.400 x",
        b"1 B 4 0.000 0.000 0.450 x",
        b"1 A 5 0.000 0.000 0.500 x",
        b"t= 10.0",
    ];
    let (aborted, _) = run(&lines, config(0, 10_000, b"B", BondPolicy::AbortFrame));
    assert_eq!(aborted[0].triplet_count, 0);
    let (skipped, _) = run(&lines, config(0, 10_000, b"B", BondPolicy::SkipTriplet));
    // Only the second B's bond, 0.1 long, passes the check.
    assert_eq!(skipped[0].triplet_count, 1);
    assert_eq!(skipped[0].average, 1_000_000);
}

/// Coinciding neighbours give a bond with no direction: it counts as zero
/// and is flagged, rather than dividing by zero.
#[test]
fn degenerate_bond_counts_zero_with_warning() {
    let lines: [&[u8]; 5] = [
        b"t= 0.0",
        b"1 A 1 0.100 0.100 0.100 x",
        b"1 B 2 0.200 0.200 0.200 x",
        b"1 A 3 0.100 0.100 0.100 x",
        b"t= 10.0",
    ];
    let (out, an) = run(&lines, config(0, 10_000, b"B", BondPolicy::SkipTriplet));
    assert_eq!(out[0].triplet_count, 1);
    assert_eq!(out[0].average, 0);
    assert_eq!(an.warnings().as_slice(), &[Warning::DegenerateBond { frame: 1 }]);
}

/// A record-shaped line with an unreadable coordinate is skipped with a
/// warning; shorter lines are skipped silently.
#[test]
fn bad_records_are_flagged() {
    let mut an = Analyzer::new(config(0, 10_000, b"B", BondPolicy::SkipTriplet));
    an.on_line(b"t= 0.0");
    an.on_line(b"1 B 1 x.y 0.100 0.100 q");
    an.on_line(b"just a short line");
    assert_eq!(an.buffered(), 0);
    assert_eq!(an.warnings().as_slice(), &[Warning::BadRecord { frame: 1 }]);
}

/// A marker line that itself splits into seven tokens with readable
/// coordinates is buffered as a record of the frame it opens.
#[test]
fn marker_line_can_carry_a_record() {
    let mut an = Analyzer::new(config(0, 10_000, b"B", BondPolicy::SkipTriplet));
    an.on_line(b"MD t= 0.0 0.100 0.200 0.300 step");
    assert_eq!(an.frames_seen(), 1);
    assert_eq!(an.buffered(), 1);
}

/// The final frame of a file has no closing marker; `finalize` reports it.
#[test]
fn finalize_flushes_the_last_frame() {
    let lines: [&[u8]; 4] = [
        b"t= 0.0",
        b"1 A 1 0.000 0.000 0.100 x",
        b"1 B 2 0.000 0.000 0.200 x",
        b"1 A 3 0.000 0.000 0.300 x",
    ];
    let (out, mut an) = run(&lines, config(0, 10_000, b"B", BondPolicy::SkipTriplet));
    assert_eq!(out.len(), 0);
    let fr = an.finalize().unwrap();
    assert_eq!(fr.frame_index, 1);
    assert_eq!(fr.frame_time, 0);
    assert_eq!(fr.triplet_count, 1);
    assert_eq!(fr.average, 1_000_000);
    assert_eq!(an.buffered(), 0);
}

/// Frames outside the window still count toward the frame index.
#[test]
fn frame_counter_counts_every_marker() {
    let mut an = Analyzer::new(config(0, 10_000, b"B", BondPolicy::SkipTriplet));
    an.on_line(b"t= 50.0");
    an.on_line(b"t= 0.0");
    an.on_line(b"1 A 1 0.000 0.000 0.100 x");
    an.on_line(b"1 B 2 0.000 0.000 0.200 x");
    an.on_line(b"1 A 3 0.000 0.000 0.300 x");
    let fr = an.on_line(b"t= 60.0").unwrap();
    assert_eq!(fr.frame_index, 2);
    assert_eq!(an.frames_seen(), 3);
}

/// When every bond passes the sanity check, all three policies agree.
#[test]
fn policies_agree_when_bonds_pass() {
    let lines: [&[u8]; 7] = [
        b"t= 0.0",
        b"1 A 1 0.000 0.000 0.100 x",
        b"1 B 2 0.000 0.000 0.150 x",
        b"1 A 3 0.000 0.000 0.200 x",
        b"1 B 4 0.000 0.000 0.250 x",
        b"1 A 5 0.000 0.000 0.300 x",
        b"t= 10.0",
    ];
    let (skip, _) = run(&lines, config(0, 10_000, b"B", BondPolicy::SkipTriplet));
    let (abort, _) = run(&lines, config(0, 10_000, b"B", BondPolicy::AbortFrame));
    let (off, _) = run(&lines, config(0, 10_000, b"B", BondPolicy::Disabled));
    assert_eq!(skip[0], abort[0]);
    assert_eq!(skip[0], off[0]);
    assert_eq!(skip[0].triplet_count, 2);
}

/// The central label matches as a substring of the species portion.
#[test]
fn species_matches_as_substring() {
    let lines: [&[u8]; 5] = [
        b"t= 0.0",
        b"1 XAX 1 0.000 0.000 0.100 x",
        b"1 1TTA 2 0.000 0.000 0.200 x",
        b"1 XAX 3 0.000 0.000 0.300 x",
        b"t= 10.0",
    ];
    let (out, _) = run(&lines, config(0, 10_000, b"TTA", BondPolicy::SkipTriplet));
    assert_eq!(out[0].triplet_count, 1);
    let (none, an) = run(&lines, config(0, 10_000, b"ZZZ", BondPolicy::SkipTriplet));
    assert_eq!(none[0].triplet_count, 0);
    assert_eq!(an.warnings().as_slice(), &[Warning::NoTriplets { frame: 1 }]);
}
