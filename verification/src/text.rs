//! Byte-level text scanning for trajectory lines: whitespace tokenization,
//! substring search, trimming, and locating the frame-boundary marker.
//!
//! Lines are handled as raw bytes; the format is ASCII.

use vstd::prelude::*;

verus! {

/// Byte value of `t`.
pub const BYTE_T: u8 = 116;

/// Byte value of `=`.
pub const BYTE_EQ: u8 = 61;

/// ASCII whitespace: space, tab, line feed, vertical tab, form feed,
/// carriage return.
pub open spec fn is_space(b: u8) -> bool {
    b == 32 || b == 9 || b == 10 || b == 11 || b == 12 || b == 13
}

/// Executable mirror of [`is_space`].
pub fn byte_is_space(b: u8) -> (r: bool)
    ensures
        r == is_space(b),
{
    b == 32 || b == 9 || b == 10 || b == 11 || b == 12 || b == 13
}

/// Length of the leading run of non-space bytes.
pub open spec fn token_len(s: Seq<u8>) -> nat
    decreases s.len(),
{
    if s.len() == 0 || is_space(s[0]) {
        0
    } else {
        (token_len(s.drop_first()) + 1) as nat
    }
}

/// The leading token never runs past the end of the line.
proof fn lemma_token_len_le(s: Seq<u8>)
    ensures
        token_len(s) <= s.len(),
    decreases s.len(),
{
    if s.len() != 0 && !is_space(s[0]) {
        lemma_token_len_le(s.drop_first());
    }
}

/// The whitespace-separated tokens of a line, in file order.
pub open spec fn tokens(s: Seq<u8>) -> Seq<Seq<u8>>
    decreases s.len(),
    via tokens_decreases
{
    if s.len() == 0 {
        Seq::empty()
    } else if is_space(s[0]) {
        tokens(s.drop_first())
    } else {
        seq![s.take(token_len(s) as int)] + tokens(s.skip(token_len(s) as int))
    }
}

#[via_fn]
proof fn tokens_decreases(s: Seq<u8>) {
    if s.len() != 0 && !is_space(s[0]) {
        lemma_token_len_le(s.drop_first());
    }
}

/// A scan that saw `n` non-space bytes and then a space or the end has
/// found exactly the leading token.
proof fn lemma_token_len_at(s: Seq<u8>, n: int)
    requires
        0 <= n <= s.len(),
        forall|k: int| 0 <= k < n ==> !is_space(s[k]),
        n == s.len() || is_space(s[n]),
    ensures
        token_len(s) == n,
    decreases n,
{
    if n == 0 {
    } else {
        assert(!is_space(s[0]));
        let t = s.drop_first();
        assert forall|k: int| 0 <= k < n - 1 implies !is_space(t[k]) by {
            assert(t[k] == s[k + 1]);
        }
        if n < s.len() {
            assert(t[n - 1] == s[n]);
        }
        lemma_token_len_at(t, n - 1);
    }
}

/// Splits a line into its whitespace-separated tokens.
pub fn tokenize(line: &[u8]) -> (toks: Vec<Vec<u8>>)
    ensures
        toks@.map_values(|t: Vec<u8>| t@) == tokens(line@),
{
    let mut toks: Vec<Vec<u8>> = Vec::new();
    let mut i: usize = 0;
    proof {
        assert(line@.skip(0) =~= line@);
        assert(Seq::<Vec<u8>>::empty().map_values(|t: Vec<u8>| t@) =~= Seq::<Seq<u8>>::empty());
        assert(Seq::<Seq<u8>>::empty() + tokens(line@) =~= tokens(line@));
    }
    while i < line.len()
        invariant
            i <= line@.len(),
            tokens(line@) == toks@.map_values(|t: Vec<u8>| t@) + tokens(line@.skip(i as int)),
        decreases line@.len() - i,
    {
        if byte_is_space(line[i]) {
            proof {
                assert(line@.skip(i as int).drop_first() =~= line@.skip(i as int + 1));
            }
            i = i + 1;
        } else {
            let start = i;
            let mut j = i + 1;
            while j < line.len() && !byte_is_space(line[j])
                invariant
                    i < j <= line@.len(),
                    forall|k: int| i <= k < j ==> !is_space(line@[k]),
                    !is_space(line@[i as int]),
                decreases line@.len() - j,
            {
                j = j + 1;
            }
            let tok = vstd::slice::slice_to_vec(vstd::slice::slice_subrange(line, start, j));
            proof {
                let suf = line@.skip(i as int);
                assert forall|k: int| 0 <= k < j - i implies !is_space(suf[k]) by {
                    assert(suf[k] == line@[i + k]);
                }
                if j < line@.len() {
                    assert(suf[j - i] == line@[j as int]);
                }
                lemma_token_len_at(suf, j - i);
                assert(suf.take(j - i) =~= line@.subrange(start as int, j as int));
                assert(suf.skip(j - i) =~= line@.skip(j as int));
                assert(tokens(suf) == seq![suf.take(j - i)] + tokens(suf.skip(j - i)));
                assert(toks@.push(tok).map_values(|t: Vec<u8>| t@) =~= toks@.map_values(
                    |t: Vec<u8>| t@,
                ).push(tok@));
            }
            toks.push(tok);
            i = j;
        }
    }
    proof {
        assert(line@.skip(line@.len() as int) =~= Seq::<u8>::empty());
    }
    toks
}

/// `needle` occurs contiguously somewhere in `hay`.
pub open spec fn contains_seq(hay: Seq<u8>, needle: Seq<u8>) -> bool {
    exists|k: int|
        0 <= k && k + needle.len() <= hay.len() && #[trigger] hay.subrange(k, k + needle.len())
            == needle
}

/// Whether `needle` stands at offset `k` of `hay`.
fn match_at(hay: &[u8], needle: &[u8], k: usize) -> (r: bool)
    requires
        k + needle@.len() <= hay@.len(),
    ensures
        r == (hay@.subrange(k as int, k + needle@.len()) == needle@),
{
    let hlen = hay.len();
    let mut j: usize = 0;
    while j < needle.len()
        invariant
            j <= needle@.len(),
            k + needle@.len() <= hay@.len(),
            hlen == hay@.len(),
            forall|t: int| 0 <= t < j ==> hay@[k + t] == needle@[t],
        decreases needle@.len() - j,
    {
        if hay[k + j] != needle[j] {
            proof {
                assert(hay@.subrange(k as int, k + needle@.len())[j as int] == hay@[k + j]);
            }
            return false;
        }
        j = j + 1;
    }
    proof {
        assert(hay@.subrange(k as int, k + needle@.len()) =~= needle@);
    }
    true
}

/// Substring search; an empty needle matches everywhere, as substring
/// containment is usually read.
pub fn contains_subslice(hay: &[u8], needle: &[u8]) -> (r: bool)
    ensures
        r == contains_seq(hay@, needle@),
{
    if needle.len() == 0 {
        proof {
            assert(hay@.subrange(0, 0 + needle@.len() as int) =~= needle@);
        }
        return true;
    }
    if needle.len() > hay.len() {
        return false;
    }
    let bound = hay.len() - needle.len();
    let mut k: usize = 0;
    while k <= bound
        invariant
            bound == hay@.len() - needle@.len(),
            needle@.len() >= 1,
            hay@.len() <= usize::MAX,
            k <= bound + 1,
            forall|k2: int|
                0 <= k2 < k ==> #[trigger] hay@.subrange(k2, k2 + needle@.len()) != needle@,
        decreases bound + 1 - k,
    {
        if match_at(hay, needle, k) {
            return true;
        }
        k = k + 1;
    }
    false
}

/// Length of the leading run of spaces.
pub open spec fn lead_spaces(s: Seq<u8>) -> nat
    decreases s.len(),
{
    if s.len() == 0 || !is_space(s[0]) {
        0
    } else {
        (lead_spaces(s.drop_first()) + 1) as nat
    }
}

/// Length of the trailing run of spaces.
pub open spec fn trail_spaces(s: Seq<u8>) -> nat
    decreases s.len(),
{
    if s.len() == 0 || !is_space(s.last()) {
        0
    } else {
        (trail_spaces(s.drop_last()) + 1) as nat
    }
}

/// The line with leading and trailing whitespace removed.
pub open spec fn trimmed(s: Seq<u8>) -> Seq<u8> {
    let front = s.skip(lead_spaces(s) as int);
    front.take(front.len() - trail_spaces(front))
}

/// A scan that saw `n` spaces and then a non-space or the end has found
/// exactly the leading space run.
proof fn lemma_lead_spaces_at(s: Seq<u8>, n: int)
    requires
        0 <= n <= s.len(),
        forall|k: int| 0 <= k < n ==> is_space(s[k]),
        n == s.len() || !is_space(s[n]),
    ensures
        lead_spaces(s) == n,
    decreases n,
{
    if n == 0 {
    } else {
        let t = s.drop_first();
        assert forall|k: int| 0 <= k < n - 1 implies is_space(t[k]) by {
            assert(t[k] == s[k + 1]);
        }
        if n < s.len() {
            assert(t[n - 1] == s[n]);
        }
        lemma_lead_spaces_at(t, n - 1);
    }
}

/// A backwards scan that saw `n` spaces and then a non-space or the start
/// has found exactly the trailing space run.
proof fn lemma_trail_spaces_at(s: Seq<u8>, n: int)
    requires
        0 <= n <= s.len(),
        forall|k: int| s.len() - n <= k < s.len() ==> is_space(s[k]),
        n == s.len() || !is_space(s[s.len() - n - 1]),
    ensures
        trail_spaces(s) == n,
    decreases n,
{
    if n == 0 {
    } else {
        assert(is_space(s.last()));
        let t = s.drop_last();
        assert forall|k: int| t.len() - (n - 1) <= k < t.len() implies is_space(t[k]) by {
            assert(t[k] == s[k]);
        }
        if n < s.len() {
            assert(t[t.len() - (n - 1) - 1] == s[s.len() - n - 1]);
        }
        lemma_trail_spaces_at(t, n - 1);
    }
}

/// Copies the line without its leading and trailing whitespace.
pub fn trim_spaces(line: &[u8]) -> (r: Vec<u8>)
    ensures
        r@ == trimmed(line@),
{
    let mut a: usize = 0;
    while a < line.len() && byte_is_space(line[a])
        invariant
            a <= line@.len(),
            forall|k: int| 0 <= k < a ==> is_space(line@[k]),
        decreases line@.len() - a,
    {
        a = a + 1;
    }
    proof {
        lemma_lead_spaces_at(line@, a as int);
    }
    let mut b: usize = line.len();
    while b > a && byte_is_space(line[b - 1])
        invariant
            a <= b <= line@.len(),
            forall|k: int| b <= k < line@.len() ==> is_space(line@[k]),
        decreases b,
    {
        b = b - 1;
    }
    proof {
        let front = line@.skip(a as int);
        assert forall|k: int| front.len() - (line@.len() - b) <= k < front.len() implies is_space(
            front[k],
        ) by {
            assert(front[k] == line@[a + k]);
        }
        if b > a {
            assert(front[(front.len() - (line@.len() - b) - 1) as int] == line@[b - 1]);
        }
        lemma_trail_spaces_at(front, line@.len() - b);
        assert(front.take(front.len() - (line@.len() - b)) =~= line@.subrange(
            a as int,
            b as int,
        ));
    }
    vstd::slice::slice_to_vec(vstd::slice::slice_subrange(line, a, b))
}

/// Index of the first occurrence of byte `b` at or after `i`, or the
/// length if there is none.
pub open spec fn find_byte_from(s: Seq<u8>, b: u8, i: int) -> int
    decreases s.len() - i,
{
    if i < 0 || i >= s.len() {
        s.len() as int
    } else if s[i] == b {
        i
    } else {
        find_byte_from(s, b, i + 1)
    }
}

/// The first-byte scan stays between its start and the length.
pub proof fn lemma_find_byte_bounds(s: Seq<u8>, b: u8, i: int)
    requires
        0 <= i <= s.len(),
    ensures
        i <= find_byte_from(s, b, i) <= s.len(),
    decreases s.len() - i,
{
    if i < s.len() && s[i] != b {
        lemma_find_byte_bounds(s, b, i + 1);
    }
}

/// While only other bytes have been seen, the first occurrence lies at or
/// beyond the scan front.
pub proof fn lemma_find_byte_ge(s: Seq<u8>, b: u8, i: int, n: int)
    requires
        0 <= i <= n <= s.len(),
        forall|k: int| i <= k < n ==> s[k] != b,
    ensures
        find_byte_from(s, b, i) >= n,
    decreases n - i,
{
    if i == n {
        lemma_find_byte_bounds(s, b, i);
    } else {
        lemma_find_byte_ge(s, b, i + 1, n);
    }
}

/// A scan that saw other bytes and then `b` has found the first occurrence.
pub proof fn lemma_find_byte_hits(s: Seq<u8>, b: u8, i: int, n: int)
    requires
        0 <= i <= n < s.len(),
        forall|k: int| i <= k < n ==> s[k] != b,
        s[n] == b,
    ensures
        find_byte_from(s, b, i) == n,
    decreases n - i,
{
    if i < n {
        lemma_find_byte_hits(s, b, i + 1, n);
    }
}

/// Index of the first `t=` in the line, or the line's length if there is
/// none, scanning from offset `i`.
pub open spec fn marker_from(s: Seq<u8>, i: int) -> int
    decreases s.len() - i,
{
    if i < 0 || i + 2 > s.len() {
        s.len() as int
    } else if s[i] == BYTE_T && s[i + 1] == BYTE_EQ {
        i
    } else {
        marker_from(s, i + 1)
    }
}

/// Index of the first `t=` in the line, or the line's length if none.
pub open spec fn marker_pos(s: Seq<u8>) -> int {
    marker_from(s, 0)
}

/// Whether the line carries a frame-boundary marker `t=`.
pub open spec fn has_marker(s: Seq<u8>) -> bool {
    marker_pos(s) < s.len()
}

/// The marker scan either fails or lands two bytes short of the end.
proof fn lemma_marker_from_range(s: Seq<u8>, i: int)
    requires
        0 <= i <= s.len(),
    ensures
        marker_from(s, i) == s.len() || (i <= marker_from(s, i) && marker_from(s, i) + 2
            <= s.len()),
    decreases s.len() - i,
{
    if i + 2 <= s.len() && !(s[i] == BYTE_T && s[i + 1] == BYTE_EQ) {
        lemma_marker_from_range(s, i + 1);
    }
}

/// On a marker line the marker fits before the end of the line.
pub proof fn lemma_marker_pos_in_range(s: Seq<u8>)
    requires
        has_marker(s),
    ensures
        0 <= marker_pos(s),
        marker_pos(s) + 2 <= s.len(),
{
    lemma_marker_from_range(s, 0);
}

/// Finds the first `t=` in the line.
pub fn find_marker(line: &[u8]) -> (r: Option<usize>)
    ensures
        match r {
            Some(i) => i == marker_pos(line@) && has_marker(line@),
            None => !has_marker(line@),
        },
{
    if line.len() < 2 {
        return None;
    }
    let mut i: usize = 0;
    while i <= line.len() - 2
        invariant
            line@.len() >= 2,
            i <= line@.len(),
            marker_pos(line@) == marker_from(line@, i as int),
        decreases line@.len() - i,
    {
        if line[i] == BYTE_T && line[i + 1] == BYTE_EQ {
            return Some(i);
        }
        i = i + 1;
    }
    None
}

} // verus!
