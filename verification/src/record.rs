//! Classification of trajectory lines: frame-boundary markers with their
//! time stamp, and atom coordinate records.
//!
//! A line is a frame boundary when it contains `t=`; the frame time is the
//! first whitespace token after the first `t=`, read as a decimal number,
//! with zero for anything unreadable.  A line is an atom record when it
//! splits into at least seven whitespace tokens; token one names the
//! species, tokens three to five carry the coordinates.  A record whose
//! coordinates do not parse is skipped.

use vstd::prelude::*;
use crate::fixed::{fixed_of, parse_fixed, COORD_LIMIT, TIME_LIMIT};
use crate::geometry::Vec3;
use crate::text::{
    find_byte_from, find_marker, has_marker, lemma_find_byte_bounds, lemma_find_byte_ge,
    lemma_find_byte_hits, lemma_marker_pos_in_range, marker_pos, tokenize, tokens,
};

verus! {

/// Byte value of `_`.
pub const BYTE_UNDERSCORE: u8 = 95;

/// What an atom record denotes: the species portion of its key, and its
/// position in fixed-point coordinates.
pub struct AtomView {
    pub species: Seq<u8>,
    pub pos: Vec3,
}

/// One atom record, buffered in file order.
pub struct Atom {
    pub species: Vec<u8>,
    pub pos: Vec3,
}

impl View for Atom {
    type V = AtomView;

    open spec fn view(&self) -> AtomView {
        AtomView { species: self.species@, pos: self.pos }
    }
}

/// The species portion of a label: everything before the first underscore.
/// Buffer keys append an instance suffix after an underscore to keep
/// colliding labels apart, so matching reads only the part before it.
pub open spec fn species_part(t: Seq<u8>) -> Seq<u8> {
    t.take(find_byte_from(t, BYTE_UNDERSCORE, 0))
}

/// Copies the species portion of a label.
pub fn species_key(tok: &[u8]) -> (r: Vec<u8>)
    ensures
        r@ == species_part(tok@),
{
    let mut p: usize = 0;
    while p < tok.len() && tok[p] != BYTE_UNDERSCORE
        invariant
            p <= tok@.len(),
            forall|k: int| 0 <= k < p ==> tok@[k] != BYTE_UNDERSCORE,
        decreases tok@.len() - p,
    {
        p = p + 1;
    }
    proof {
        if p == tok@.len() {
            lemma_find_byte_ge(tok@, BYTE_UNDERSCORE, 0, p as int);
            lemma_find_byte_bounds(tok@, BYTE_UNDERSCORE, 0);
        } else {
            lemma_find_byte_hits(tok@, BYTE_UNDERSCORE, 0, p as int);
        }
        assert(tok@.take(p as int) =~= tok@.subrange(0, p as int));
    }
    vstd::slice::slice_to_vec(vstd::slice::slice_subrange(tok, 0, p))
}

/// A coordinate token's fixed-point value, when it parses and lies within
/// the coordinate range.
pub open spec fn coord_of(t: Seq<u8>) -> Option<i64> {
    match fixed_of(t) {
        Some(v) => if -COORD_LIMIT <= v <= COORD_LIMIT {
            Some(v as i64)
        } else {
            None
        },
        None => None,
    }
}

/// The atom record a line denotes, if any.
pub open spec fn atom_of_line(line: Seq<u8>) -> Option<AtomView> {
    let ts = tokens(line);
    if ts.len() >= 7 {
        if coord_of(ts[3]) is Some && coord_of(ts[4]) is Some && coord_of(ts[5]) is Some {
            Some(
                AtomView {
                    species: species_part(ts[1]),
                    pos: Vec3 {
                        x: coord_of(ts[3])->Some_0,
                        y: coord_of(ts[4])->Some_0,
                        z: coord_of(ts[5])->Some_0,
                    },
                },
            )
        } else {
            None
        }
    } else {
        None
    }
}

/// A line with the shape of an atom record whose coordinates do not parse:
/// it is skipped, with a warning.
pub open spec fn bad_record(line: Seq<u8>) -> bool {
    tokens(line).len() >= 7 && atom_of_line(line) is None
}

/// Reads the atom record a line denotes, if any.
pub fn extract_atom(line: &[u8]) -> (r: Option<Atom>)
    ensures
        match r {
            Some(a) => atom_of_line(line@) == Some(a@),
            None => atom_of_line(line@) is None,
        },
{
    let toks = tokenize(line);
    if toks.len() < 7 {
        return None;
    }
    let x = match parse_fixed(toks[3].as_slice(), COORD_LIMIT) {
        Some(v) => v,
        None => {
            return None;
        },
    };
    let y = match parse_fixed(toks[4].as_slice(), COORD_LIMIT) {
        Some(v) => v,
        None => {
            return None;
        },
    };
    let z = match parse_fixed(toks[5].as_slice(), COORD_LIMIT) {
        Some(v) => v,
        None => {
            return None;
        },
    };
    let species = species_key(toks[1].as_slice());
    Some(Atom { species, pos: Vec3 { x, y, z } })
}

/// The time stamp a marker line carries: the first token after the first
/// `t=`, read as a decimal number within the time range, else zero.
pub open spec fn marker_time(line: Seq<u8>) -> int {
    let ts = tokens(line.skip(marker_pos(line) + 2));
    if ts.len() == 0 {
        0
    } else {
        match fixed_of(ts[0]) {
            Some(v) => if -TIME_LIMIT <= v <= TIME_LIMIT {
                v
            } else {
                0
            },
            None => 0,
        }
    }
}

/// Reads the time stamp of a marker line.
pub fn frame_time(line: &[u8]) -> (r: i64)
    requires
        has_marker(line@),
    ensures
        r == marker_time(line@),
        -TIME_LIMIT <= r <= TIME_LIMIT,
{
    match find_marker(line) {
        Some(i) => {
            proof {
                lemma_marker_pos_in_range(line@);
            }
            let n = line.len();
            let rest = vstd::slice::slice_subrange(line, i + 2, n);
            proof {
                assert(rest@ =~= line@.skip(i + 2));
            }
            let ts = tokenize(rest);
            if ts.len() == 0 {
                0
            } else {
                match parse_fixed(ts[0].as_slice(), TIME_LIMIT) {
                    Some(v) => v,
                    None => 0,
                }
            }
        },
        None => {
            proof {
                assert(false);
            }
            0
        },
    }
}

} // verus!
