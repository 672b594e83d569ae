//! The frame-segmentation state machine and per-frame aggregation.
//!
//! The analyzer consumes a trajectory line by line.  A line containing `t=`
//! closes the frame being accumulated — its aggregate is computed and
//! reported under the closed frame's index and time — and opens the next
//! one, whose time decides whether its records are buffered.  Any line,
//! marker lines included, that splits into at least seven tokens is an atom
//! record and is buffered in file order while a frame is accepted.
//!
//! At a flush, every buffered record whose species contains the configured
//! central label, and which has a neighbour on both sides in file order,
//! spans a bond from its predecessor's to its successor's position; the
//! bond's order parameter against the z axis enters the frame's sum, subject
//! to the configured bond-length sanity policy.  A file whose last frame is
//! never followed by another marker only reports that frame through an
//! explicit [`Analyzer::finalize`] call, since a frame's aggregate is only
//! knowable once it is closed.

use vstd::prelude::*;
use crate::fixed::{fixed_of, parse_fixed, TIME_LIMIT};
use crate::geometry::{dist_sq, dist_sq_spec, lemma_op_range, op_num, order_param_fixed,
    vec3_bounded, Vec3};
use crate::record::{atom_of_line, bad_record, extract_atom, frame_time, marker_time, Atom,
    AtomView};
use crate::stats::{average_scaled, median, median_den, median_num, seq_sum, sum_values, tdiv,
    Ratio};
use crate::text::{contains_seq, contains_subslice, find_marker, has_marker, tokenize, tokens,
    trim_spaces, trimmed};

verus! {

/// Extra width of the accepted time window beyond its upper end: one frame
/// step of ten file units.
pub const TIME_SLACK: i64 = 10_000;

/// Largest squared bond length a triplet may span when the bond-length
/// check is on: the square of three tenths of a file unit.
pub const BOND_LIMIT_SQ: u64 = 90_000;

/// What to do with the bond-length sanity check on a triplet's bond.
#[derive(Clone, Copy, Debug, PartialEq, Eq, Structural)]
pub enum BondPolicy {
    /// No check: every interior occurrence of the central species counts.
    Disabled,
    /// A triplet whose bond is too long is left out; the scan goes on.
    /// The default.
    SkipTriplet,
    /// A triplet whose bond is too long ends the scan of its frame.
    AbortFrame,
}

/// The run's immutable settings.
pub struct Config {
    /// Start of the accepted time window, in fixed-point steps.
    pub range_start: i64,
    /// End of the accepted time window, in fixed-point steps; the window
    /// reaches [`TIME_SLACK`] beyond it.
    pub range_end: i64,
    /// Central-species label, matched as a substring of each record's
    /// species portion.
    pub species: Vec<u8>,
    /// Bond-length sanity policy.
    pub policy: BondPolicy,
}

/// Window ends the analyzer can hold: within the time range, so that the
/// slack cannot overflow.
pub open spec fn config_wf(start: int, end: int) -> bool {
    &&& -TIME_LIMIT <= start <= TIME_LIMIT
    &&& -TIME_LIMIT <= end <= TIME_LIMIT
}

/// Whether a frame time falls in the accepted window, `start` inclusive to
/// `end` plus the slack exclusive.
pub open spec fn in_window(start: int, end: int, t: int) -> bool {
    start <= t && t < end + TIME_SLACK
}

/// A diagnostic event; the analyzer appends them to its warning sink as
/// processing goes on.
#[derive(Clone, Copy, Debug, PartialEq, Eq, Structural)]
pub enum Warning {
    /// A flushed frame had a triplet whose neighbours coincide: the bond
    /// has no direction and its order parameter counts as zero.
    DegenerateBond { frame: usize },
    /// A flushed frame produced no triplet at all; its average is reported
    /// as zero.  Often a misspelt species label.
    NoTriplets { frame: usize },
    /// A record-shaped line had a coordinate that does not parse or is out
    /// of range; the record was skipped.
    BadRecord { frame: usize },
}

/// The report for one completed frame.
#[derive(Clone, Copy, Debug, PartialEq, Eq, Structural)]
pub struct FrameResult {
    /// One-based index of the completed frame.
    pub frame_index: usize,
    /// The completed frame's time stamp, in fixed-point steps.
    pub frame_time: i64,
    /// How many triplets the frame contributed.
    pub triplet_count: usize,
    /// The triplets' average order parameter in [`crate::geometry::OP_SCALE`]
    /// steps, truncated toward zero; zero when there was no triplet.
    pub average: i64,
    /// The triplets' median order parameter, exactly.
    pub median: Ratio,
}

/// The analyzer's state, as contracts see it.
pub struct AnalyzerView {
    pub start: i64,
    pub end: i64,
    pub species: Seq<u8>,
    pub policy: BondPolicy,
    pub buffer: Seq<AtomView>,
    pub frames_seen: usize,
    pub frame_time: i64,
    pub accumulating: bool,
    pub warnings: Seq<Warning>,
}

/// Position `i` holds a central atom with neighbours on both sides.
pub open spec fn is_site(atoms: Seq<AtomView>, species: Seq<u8>, i: int) -> bool {
    0 < i && i + 1 < atoms.len() && contains_seq(atoms[i].species, species)
}

/// The bond-length sanity check passes at site `i`.
pub open spec fn site_accepted(atoms: Seq<AtomView>, policy: BondPolicy, i: int) -> bool {
    policy is Disabled || dist_sq_spec(atoms[i - 1].pos, atoms[i + 1].pos) <= BOND_LIMIT_SQ
}

/// The order parameter of the bond spanned from `prev` to `next`.
pub open spec fn bond_op(prev: Vec3, next: Vec3) -> i64 {
    op_num(next.x - prev.x, next.y - prev.y, next.z - prev.z) as i64
}

/// The order parameters a frame contributes, scanning sites from position
/// `i` on in file order, under the given bond policy.
pub open spec fn frame_ops(atoms: Seq<AtomView>, species: Seq<u8>, policy: BondPolicy, i: int)
    -> Seq<i64>
    decreases atoms.len() - i,
{
    if i < 0 || i >= atoms.len() {
        Seq::empty()
    } else {
        let rest = frame_ops(atoms, species, policy, i + 1);
        if is_site(atoms, species, i) {
            if site_accepted(atoms, policy, i) {
                seq![bond_op(atoms[i - 1].pos, atoms[i + 1].pos)] + rest
            } else if policy is SkipTriplet {
                rest
            } else {
                Seq::empty()
            }
        } else {
            rest
        }
    }
}

/// Whether the scan from position `i` on meets a counted triplet whose
/// neighbours coincide.
pub open spec fn frame_degenerate(atoms: Seq<AtomView>, species: Seq<u8>, policy: BondPolicy,
    i: int) -> bool
    decreases atoms.len() - i,
{
    if i < 0 || i >= atoms.len() {
        false
    } else {
        let rest = frame_degenerate(atoms, species, policy, i + 1);
        if is_site(atoms, species, i) {
            if site_accepted(atoms, policy, i) {
                atoms[i - 1].pos == atoms[i + 1].pos || rest
            } else if policy is SkipTriplet {
                rest
            } else {
                false
            }
        } else {
            rest
        }
    }
}

/// How many positions from `i` on hold a central atom with neighbours on
/// both sides.
pub open spec fn site_count(atoms: Seq<AtomView>, species: Seq<u8>, i: int) -> nat
    decreases atoms.len() - i,
{
    if i < 0 || i >= atoms.len() {
        0
    } else {
        (if is_site(atoms, species, i) {
            1nat
        } else {
            0nat
        }) + site_count(atoms, species, i + 1)
    }
}

/// With the bond-length check disabled, a frame contributes exactly one
/// order parameter per interior occurrence of the central species.
pub proof fn lemma_disabled_counts_every_site(atoms: Seq<AtomView>, species: Seq<u8>, i: int)
    ensures
        frame_ops(atoms, species, BondPolicy::Disabled, i).len() == site_count(atoms, species, i),
    decreases atoms.len() - i,
{
    if 0 <= i < atoms.len() {
        lemma_disabled_counts_every_site(atoms, species, i + 1);
    }
}

/// When every triplet's bond passes the sanity check, the policy makes no
/// difference: any change from disabling the check comes only from triplets
/// the check excluded.
pub proof fn lemma_policy_immaterial_when_bonds_pass(atoms: Seq<AtomView>, species: Seq<u8>,
    policy: BondPolicy, i: int)
    requires
        forall|j: int|
            i <= j && #[trigger] is_site(atoms, species, j) ==> dist_sq_spec(
                atoms[j - 1].pos,
                atoms[j + 1].pos,
            ) <= BOND_LIMIT_SQ,
    ensures
        frame_ops(atoms, species, policy, i) == frame_ops(atoms, species, BondPolicy::Disabled, i),
    decreases atoms.len() - i,
{
    if 0 <= i < atoms.len() {
        lemma_policy_immaterial_when_bonds_pass(atoms, species, policy, i + 1);
    }
}

/// A frame contributes at most one order parameter per buffered record, and
/// each lies in the order-parameter range.
proof fn lemma_frame_ops_bounds(atoms: Seq<AtomView>, species: Seq<u8>, policy: BondPolicy,
    i: int)
    ensures
        0 <= i <= atoms.len() ==> frame_ops(atoms, species, policy, i).len() + i <= atoms.len(),
        !(0 <= i < atoms.len()) ==> frame_ops(atoms, species, policy, i).len() == 0,
        forall|j: int|
            0 <= j < frame_ops(atoms, species, policy, i).len() ==> -500_000 <= #[trigger] frame_ops(
                atoms,
                species,
                policy,
                i,
            )[j] <= 1_000_000,
    decreases atoms.len() - i,
{
    if 0 <= i < atoms.len() {
        lemma_frame_ops_bounds(atoms, species, policy, i + 1);
        if is_site(atoms, species, i) && site_accepted(atoms, policy, i) {
            let prev = atoms[i - 1].pos;
            let next = atoms[i + 1].pos;
            lemma_op_range(next.x - prev.x, next.y - prev.y, next.z - prev.z);
        }
    }
}

/// The aggregate of a flushed frame: triplet count, truncated average and
/// exact median of its order parameters, under the flushed frame's index
/// and time.
pub open spec fn frame_summary(v: AnalyzerView) -> FrameResult {
    let ops = frame_ops(v.buffer, v.species, v.policy, 0);
    FrameResult {
        frame_index: v.frames_seen,
        frame_time: v.frame_time,
        triplet_count: ops.len() as usize,
        average: (if ops.len() == 0 {
            0int
        } else {
            tdiv(seq_sum(ops), ops.len() as int)
        }) as i64,
        median: Ratio { num: median_num(ops) as i64, den: median_den(ops) as i64 },
    }
}

/// The warnings a flush of the buffered frame emits.
pub open spec fn flush_warnings(v: AnalyzerView) -> Seq<Warning> {
    if v.buffer.len() > 0 {
        (if frame_degenerate(v.buffer, v.species, v.policy, 0) {
            seq![Warning::DegenerateBond { frame: v.frames_seen }]
        } else {
            Seq::<Warning>::empty()
        }) + (if frame_ops(v.buffer, v.species, v.policy, 0).len() == 0 {
            seq![Warning::NoTriplets { frame: v.frames_seen }]
        } else {
            Seq::<Warning>::empty()
        })
    } else {
        Seq::<Warning>::empty()
    }
}

/// Whether a line makes the analyzer emit a frame report: a marker while a
/// nonempty frame stands in the buffer.
pub open spec fn step_emits(pre: AnalyzerView, line: Seq<u8>) -> bool {
    has_marker(line) && pre.buffer.len() > 0
}

/// Whether records are accepted after the line: a marker line decides by
/// its time, any other line leaves the state as it was.
pub open spec fn step_accumulating(pre: AnalyzerView, line: Seq<u8>) -> bool {
    if has_marker(line) {
        in_window(pre.start as int, pre.end as int, marker_time(line))
    } else {
        pre.accumulating
    }
}

/// How many markers have been seen after the line.
pub open spec fn step_frames_seen(pre: AnalyzerView, line: Seq<u8>) -> int {
    if has_marker(line) {
        pre.frames_seen + 1
    } else {
        pre.frames_seen as int
    }
}

/// The buffer after the line: a marker clears it; then the line's own
/// record, if it is one and records are accepted, is appended.
pub open spec fn step_buffer(pre: AnalyzerView, line: Seq<u8>) -> Seq<AtomView> {
    let base = if has_marker(line) {
        Seq::<AtomView>::empty()
    } else {
        pre.buffer
    };
    if step_accumulating(pre, line) && atom_of_line(line) is Some {
        base.push(atom_of_line(line)->Some_0)
    } else {
        base
    }
}

/// The warnings the line appends: those of a flush, then one for a skipped
/// record.
pub open spec fn step_warnings(pre: AnalyzerView, line: Seq<u8>) -> Seq<Warning> {
    (if has_marker(line) {
        flush_warnings(pre)
    } else {
        Seq::<Warning>::empty()
    }) + (if step_accumulating(pre, line) && bad_record(line) {
        seq![Warning::BadRecord { frame: step_frames_seen(pre, line) as usize }]
    } else {
        Seq::<Warning>::empty()
    })
}

/// Whether a line has the shape of an atom record.
fn looks_like_record(line: &[u8]) -> (r: bool)
    ensures
        r == (tokens(line@).len() >= 7),
{
    let toks = tokenize(line);
    toks.len() >= 7
}

/// Scans the buffered frame and collects its order parameters, with the
/// flag for a degenerate bond among them.
fn compute_ops(buffer: &Vec<Atom>, species: &Vec<u8>, policy: BondPolicy) -> (r: (Vec<i64>, bool))
    requires
        forall|i: int| 0 <= i < buffer@.len() ==> vec3_bounded(#[trigger] buffer@[i]@.pos),
    ensures
        r.0@ == frame_ops(buffer@.map_values(|a: Atom| a@), species@, policy, 0),
        r.1 == frame_degenerate(buffer@.map_values(|a: Atom| a@), species@, policy, 0),
        forall|j: int| 0 <= j < r.0@.len() ==> -500_000 <= #[trigger] r.0@[j] <= 1_000_000,
{
    let ghost atoms = buffer@.map_values(|a: Atom| a@);
    let n = buffer.len();
    let mut ops: Vec<i64> = Vec::new();
    let mut deg = false;
    let mut i: usize = 0;
    proof {
        assert(Seq::<i64>::empty() + frame_ops(atoms, species@, policy, 0) =~= frame_ops(
            atoms,
            species@,
            policy,
            0,
        ));
    }
    while i < n
        invariant_except_break
            i <= n,
            n == buffer@.len(),
            atoms == buffer@.map_values(|a: Atom| a@),
            forall|k: int| 0 <= k < buffer@.len() ==> vec3_bounded(#[trigger] buffer@[k]@.pos),
            frame_ops(atoms, species@, policy, 0) == ops@ + frame_ops(
                atoms,
                species@,
                policy,
                i as int,
            ),
            frame_degenerate(atoms, species@, policy, 0) == (deg || frame_degenerate(
                atoms,
                species@,
                policy,
                i as int,
            )),
            forall|j: int| 0 <= j < ops@.len() ==> -500_000 <= #[trigger] ops@[j] <= 1_000_000,
        ensures
            ops@ == frame_ops(atoms, species@, policy, 0),
            deg == frame_degenerate(atoms, species@, policy, 0),
            forall|j: int| 0 <= j < ops@.len() ==> -500_000 <= #[trigger] ops@[j] <= 1_000_000,
        decreases n - i,
    {
        proof {
            assert(atoms[i as int] == buffer@[i as int]@);
        }
        let is_central = contains_subslice(buffer[i].species.as_slice(), species.as_slice());
        if is_central && i > 0 && i + 1 < n {
            let prev = buffer[i - 1].pos;
            let next = buffer[i + 1].pos;
            proof {
                assert(atoms[i - 1] == buffer@[i - 1]@);
                assert(atoms[i + 1] == buffer@[i + 1]@);
                assert(is_site(atoms, species@, i as int));
            }
            let accept = match policy {
                BondPolicy::Disabled => true,
                _ => dist_sq(prev, next) <= BOND_LIMIT_SQ,
            };
            if accept {
                let op = order_param_fixed(next.x - prev.x, next.y - prev.y, next.z - prev.z);
                if prev.x == next.x && prev.y == next.y && prev.z == next.z {
                    deg = true;
                }
                proof {
                    assert(site_accepted(atoms, policy, i as int));
                    assert(op == bond_op(prev, next));
                    assert(ops@.push(op) + frame_ops(atoms, species@, policy, i as int + 1)
                        =~= ops@ + (seq![bond_op(prev, next)] + frame_ops(
                        atoms,
                        species@,
                        policy,
                        i as int + 1,
                    )));
                }
                ops.push(op);
            } else {
                match policy {
                    BondPolicy::SkipTriplet => {},
                    BondPolicy::AbortFrame => {
                        proof {
                            assert(frame_ops(atoms, species@, policy, i as int)
                                =~= Seq::<i64>::empty());
                            assert(ops@ + Seq::<i64>::empty() =~= ops@);
                            assert(!frame_degenerate(atoms, species@, policy, i as int));
                        }
                        break;
                    },
                    BondPolicy::Disabled => {
                        proof {
                            assert(false);
                        }
                    },
                }
            }
        } else {
            proof {
                assert(!is_site(atoms, species@, i as int));
            }
        }
        i = i + 1;
    }
    (ops, deg)
}

/// Computes the report of the buffered frame under the given index and
/// time, with the degenerate-bond flag.
fn flush_frame(buffer: &Vec<Atom>, species: &Vec<u8>, policy: BondPolicy, index: usize, time: i64)
    -> (r: (FrameResult, bool))
    requires
        forall|i: int| 0 <= i < buffer@.len() ==> vec3_bounded(#[trigger] buffer@[i]@.pos),
    ensures
        ({
            let atoms = buffer@.map_values(|a: Atom| a@);
            let ops = frame_ops(atoms, species@, policy, 0);
            &&& r.0.frame_index == index
            &&& r.0.frame_time == time
            &&& r.0.triplet_count == ops.len()
            &&& r.0.average as int == if ops.len() == 0 {
                0int
            } else {
                tdiv(seq_sum(ops), ops.len() as int)
            }
            &&& -1_000_000 <= r.0.average <= 1_000_000
            &&& r.0.median.num == median_num(ops)
            &&& r.0.median.den == median_den(ops)
            &&& r.1 == frame_degenerate(atoms, species@, policy, 0)
        }),
{
    let (ops, deg) = compute_ops(buffer, species, policy);
    let count = ops.len();
    let avg: i64 = if count == 0 {
        0
    } else {
        let s = sum_values(&ops);
        average_scaled(s, count)
    };
    let med = median(&ops);
    (
        FrameResult {
            frame_index: index,
            frame_time: time,
            triplet_count: count,
            average: avg,
            median: med,
        },
        deg,
    )
}

/// The streaming analyzer: owns the frame buffer, the frame counter and
/// the warning sink.
pub struct Analyzer {
    config: Config,
    buffer: Vec<Atom>,
    frames_seen: usize,
    frame_time: i64,
    accumulating: bool,
    warnings: Vec<Warning>,
}

impl View for Analyzer {
    type V = AnalyzerView;

    closed spec fn view(&self) -> AnalyzerView {
        AnalyzerView {
            start: self.config.range_start,
            end: self.config.range_end,
            species: self.config.species@,
            policy: self.config.policy,
            buffer: self.buffer@.map_values(|a: Atom| a@),
            frames_seen: self.frames_seen,
            frame_time: self.frame_time,
            accumulating: self.accumulating,
            warnings: self.warnings@,
        }
    }
}

impl Analyzer {
    /// Established by the constructor and kept by every method: the window
    /// ends are in range, and every buffered coordinate is bounded.
    pub closed spec fn wf(&self) -> bool {
        &&& config_wf(self.config.range_start as int, self.config.range_end as int)
        &&& forall|i: int|
            0 <= i < self.buffer@.len() ==> vec3_bounded(#[trigger] self.buffer@[i]@.pos)
    }

    /// Starts an analyzer with an empty buffer, before any frame.
    pub fn new(config: Config) -> (r: Analyzer)
        requires
            config_wf(config.range_start as int, config.range_end as int),
        ensures
            r.wf(),
            r@.start == config.range_start,
            r@.end == config.range_end,
            r@.species == config.species@,
            r@.policy == config.policy,
            r@.buffer == Seq::<AtomView>::empty(),
            r@.frames_seen == 0,
            r@.frame_time == 0,
            r@.accumulating == false,
            r@.warnings == Seq::<Warning>::empty(),
    {
        let r = Analyzer {
            config,
            buffer: Vec::new(),
            frames_seen: 0,
            frame_time: 0,
            accumulating: false,
            warnings: Vec::new(),
        };
        proof {
            assert(r.buffer@.map_values(|a: Atom| a@) =~= Seq::<AtomView>::empty());
        }
        r
    }

    /// Feeds one line of the trajectory.  A marker line closes the frame in
    /// the buffer — returning its report — counts the new frame, and admits
    /// or rejects it by its time; then the line itself, like every line
    /// while a frame is accepted, is buffered if it is an atom record.
    pub fn on_line(&mut self, line: &[u8]) -> (r: Option<FrameResult>)
        requires
            old(self).wf(),
            old(self)@.frames_seen < usize::MAX,
        ensures
            final(self).wf(),
            final(self)@.start == old(self)@.start,
            final(self)@.end == old(self)@.end,
            final(self)@.species == old(self)@.species,
            final(self)@.policy == old(self)@.policy,
            final(self)@.frames_seen == step_frames_seen(old(self)@, line@),
            final(self)@.frame_time == if has_marker(line@) {
                marker_time(line@)
            } else {
                old(self)@.frame_time as int
            },
            final(self)@.accumulating == step_accumulating(old(self)@, line@),
            final(self)@.buffer == step_buffer(old(self)@, line@),
            final(self)@.warnings == old(self)@.warnings + step_warnings(old(self)@, line@),
            r == if step_emits(old(self)@, line@) {
                Some(frame_summary(old(self)@))
            } else {
                None::<FrameResult>
            },
    {
        let ghost pre = self@;
        let mut result: Option<FrameResult> = None;
        match find_marker(line) {
            Some(_) => {
                if self.buffer.len() > 0 {
                    let (fr, deg) = flush_frame(
                        &self.buffer,
                        &self.config.species,
                        self.config.policy,
                        self.frames_seen,
                        self.frame_time,
                    );
                    proof {
                        lemma_frame_ops_bounds(pre.buffer, pre.species, pre.policy, 0);
                        assert(fr == frame_summary(pre));
                    }
                    if deg {
                        self.warnings.push(Warning::DegenerateBond { frame: self.frames_seen });
                    }
                    if fr.triplet_count == 0 {
                        self.warnings.push(Warning::NoTriplets { frame: self.frames_seen });
                    }
                    result = Some(fr);
                    self.buffer.clear();
                }
                let t = frame_time(line);
                self.frames_seen = self.frames_seen + 1;
                self.frame_time = t;
                self.accumulating = self.config.range_start <= t && t < self.config.range_end
                    + TIME_SLACK;
            },
            None => {},
        }
        proof {
            assert(self.buffer@.map_values(|a: Atom| a@) == (if has_marker(line@) {
                Seq::<AtomView>::empty()
            } else {
                pre.buffer
            })) by {
                if has_marker(line@) {
                    assert(self.buffer@.map_values(|a: Atom| a@) =~= Seq::<AtomView>::empty());
                }
            }
            assert(self.warnings@ == pre.warnings + (if has_marker(line@) {
                flush_warnings(pre)
            } else {
                Seq::<Warning>::empty()
            })) by {
                if has_marker(line@) {
                    assert(self.warnings@ =~= pre.warnings + flush_warnings(pre));
                } else {
                    assert(pre.warnings + Seq::<Warning>::empty() =~= pre.warnings);
                }
            }
        }
        let ghost mid_warnings = self.warnings@;
        let ghost mid_buffer = self.buffer@.map_values(|a: Atom| a@);
        if self.accumulating {
            match extract_atom(line) {
                Some(a) => {
                    proof {
                        assert(self.buffer@.push(a).map_values(|x: Atom| x@) =~= self.buffer@
                            .map_values(|x: Atom| x@).push(a@));
                    }
                    self.buffer.push(a);
                },
                None => {
                    if looks_like_record(line) {
                        self.warnings.push(Warning::BadRecord { frame: self.frames_seen });
                    }
                },
            }
        }
        proof {
            assert(self.buffer@.map_values(|a: Atom| a@) == step_buffer(pre, line@)) by {
                if !(step_accumulating(pre, line@) && atom_of_line(line@) is Some) {
                    assert(self.buffer@.map_values(|a: Atom| a@) =~= mid_buffer);
                }
            }
            assert(self.warnings@ == pre.warnings + step_warnings(pre, line@)) by {
                if step_accumulating(pre, line@) && bad_record(line@) {
                    assert(self.warnings@ =~= pre.warnings + step_warnings(pre, line@));
                } else {
                    assert(mid_warnings + Seq::<Warning>::empty() =~= mid_warnings);
                    assert(self.warnings@ =~= pre.warnings + step_warnings(pre, line@));
                }
            }
        }
        result
    }

    /// Closes the trajectory: reports the frame still in the buffer, if
    /// any, under the current frame index and time.  The file format has no
    /// end marker, so the last frame is only reported through this call.
    pub fn finalize(&mut self) -> (r: Option<FrameResult>)
        requires
            old(self).wf(),
        ensures
            final(self).wf(),
            final(self)@.start == old(self)@.start,
            final(self)@.end == old(self)@.end,
            final(self)@.species == old(self)@.species,
            final(self)@.policy == old(self)@.policy,
            final(self)@.frames_seen == old(self)@.frames_seen,
            final(self)@.frame_time == old(self)@.frame_time,
            final(self)@.accumulating == old(self)@.accumulating,
            final(self)@.buffer == Seq::<AtomView>::empty(),
            final(self)@.warnings == old(self)@.warnings + flush_warnings(old(self)@),
            r == if old(self)@.buffer.len() > 0 {
                Some(frame_summary(old(self)@))
            } else {
                None::<FrameResult>
            },
    {
        let ghost pre = self@;
        if self.buffer.len() == 0 {
            proof {
                assert(self.buffer@.map_values(|a: Atom| a@) =~= Seq::<AtomView>::empty());
                assert(pre.warnings + flush_warnings(pre) =~= pre.warnings);
            }
            return None;
        }
        let (fr, deg) = flush_frame(
            &self.buffer,
            &self.config.species,
            self.config.policy,
            self.frames_seen,
            self.frame_time,
        );
        proof {
            lemma_frame_ops_bounds(pre.buffer, pre.species, pre.policy, 0);
            assert(fr == frame_summary(pre));
        }
        if deg {
            self.warnings.push(Warning::DegenerateBond { frame: self.frames_seen });
        }
        if fr.triplet_count == 0 {
            self.warnings.push(Warning::NoTriplets { frame: self.frames_seen });
        }
        self.buffer.clear();
        proof {
            assert(self.buffer@.map_values(|a: Atom| a@) =~= Seq::<AtomView>::empty());
            assert(self.warnings@ =~= pre.warnings + flush_warnings(pre));
        }
        Some(fr)
    }

    /// How many frame markers have been seen.
    pub fn frames_seen(&self) -> (r: usize)
        ensures
            r == self@.frames_seen,
    {
        self.frames_seen
    }

    /// The time stamp of the frame being accumulated.
    pub fn current_time(&self) -> (r: i64)
        ensures
            r == self@.frame_time,
    {
        self.frame_time
    }

    /// Whether the current frame falls in the accepted window.
    pub fn is_accumulating(&self) -> (r: bool)
        ensures
            r == self@.accumulating,
    {
        self.accumulating
    }

    /// How many records the current frame has buffered.
    pub fn buffered(&self) -> (r: usize)
        ensures
            r == self@.buffer.len(),
    {
        self.buffer.len()
    }

    /// The warnings emitted so far.
    pub fn warnings(&self) -> (r: &Vec<Warning>)
        ensures
            r@ == self@.warnings,
    {
        &self.warnings
    }
}

/// Why a configuration line was rejected.
#[derive(Clone, Copy, Debug, PartialEq, Eq, Structural)]
pub enum ConfigError {
    /// The time-range line does not hold exactly two tokens.
    WrongTokenCount,
    /// A time-range token is not a decimal number in the time range.
    BadNumber,
}

/// A token that is not a decimal number within the time range.
pub open spec fn range_token_bad(t: Seq<u8>) -> bool {
    match fixed_of(t) {
        Some(w) => w < -TIME_LIMIT || w > TIME_LIMIT,
        None => true,
    }
}

/// The time-range line is rejected with exactly this error.
pub open spec fn range_line_error(line: Seq<u8>, e: ConfigError) -> bool {
    let ts = tokens(line);
    if e == ConfigError::WrongTokenCount {
        ts.len() != 2
    } else {
        ts.len() == 2 && (range_token_bad(ts[0]) || range_token_bad(ts[1]))
    }
}

/// Reads the time window from its input line: exactly two decimal tokens,
/// start and end.  Anything else is a fatal configuration error.
pub fn parse_range(line: &[u8]) -> (r: Result<(i64, i64), ConfigError>)
    ensures
        ({
            let ts = tokens(line@);
            match r {
                Ok(p) => ts.len() == 2 && fixed_of(ts[0]) == Some(p.0 as int) && fixed_of(ts[1])
                    == Some(p.1 as int) && -TIME_LIMIT <= p.0 <= TIME_LIMIT && -TIME_LIMIT <= p.1
                    <= TIME_LIMIT,
                Err(e) => range_line_error(line@, e),
            }
        }),
{
    let toks = tokenize(line);
    if toks.len() != 2 {
        return Err(ConfigError::WrongTokenCount);
    }
    let a = match parse_fixed(toks[0].as_slice(), TIME_LIMIT) {
        Some(v) => v,
        None => {
            return Err(ConfigError::BadNumber);
        },
    };
    let b = match parse_fixed(toks[1].as_slice(), TIME_LIMIT) {
        Some(v) => v,
        None => {
            return Err(ConfigError::BadNumber);
        },
    };
    Ok((a, b))
}

impl Config {
    /// Builds the run's settings from the two input lines: the time window
    /// and the central-species label, which is trimmed of surrounding
    /// whitespace.
    pub fn from_lines(range_line: &[u8], species_line: &[u8], policy: BondPolicy) -> (r: Result<
        Config,
        ConfigError,
    >)
        ensures
            match r {
                Ok(c) => {
                    let ts = tokens(range_line@);
                    &&& ts.len() == 2
                    &&& fixed_of(ts[0]) == Some(c.range_start as int)
                    &&& fixed_of(ts[1]) == Some(c.range_end as int)
                    &&& config_wf(c.range_start as int, c.range_end as int)
                    &&& c.species@ == trimmed(species_line@)
                    &&& c.policy == policy
                },
                Err(e) => range_line_error(range_line@, e),
            },
{
        match parse_range(range_line) {
            Ok((s, e)) => Ok(
                Config {
                    range_start: s,
                    range_end: e,
                    species: trim_spaces(species_line),
                    policy,
                },
            ),
            Err(e) => Err(e),
        }
    }
}

} // verus!
