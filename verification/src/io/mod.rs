use vstd::prelude::*;

pub mod depth;
pub mod intrinsics;
pub mod names;
pub mod text;

use crate::io::text::{
    is_f64_literal_text, is_float_literal, literal_pieces, parse_i32, parse_i32_spec, pieces_view,
    lemma_trim_idempotent, split_on, trim, trimmed,
};

verus! {

/// A decimal number in text form, split into the parts that give its value:
/// `(if negate { -1 } else { 1 }) * mantissa * 10^exponent`, where the
/// mantissa is read as a floating-point literal and a missing exponent counts as 0.
pub struct FloatLiteral {
    pub negate: bool,
    pub mantissa: Vec<char>,
    pub exponent: Option<i32>,
}

/// The parts that a number in text form is read from: the mantissa text and
/// the exponent, if there is one.
pub open spec fn float_parts(s: Seq<char>) -> (Seq<char>, Option<i32>) {
    let pieces = literal_pieces(s);
    (pieces[0], if pieces.len() == 2 {
        parse_i32_spec(pieces[1])
    } else {
        None
    })
}

/// What `parse_to_float` gives for the text and the negation flag: whether
/// to negate, the mantissa text and the exponent.
pub open spec fn float_literal_of(s: Seq<char>, negate: bool) -> (bool, Seq<char>, Option<i32>) {
    (negate, float_parts(s).0, float_parts(s).1)
}

/// Reading a number does not depend on white space around it: a text that
/// was trimmed beforehand is accepted alike and gives the same parts. The
/// negation flag changes nothing but the sign.
pub proof fn lemma_float_reading_laws(s: Seq<char>, negate: bool)
    ensures
        trimmed(trimmed(s)) == trimmed(s),
        is_float_literal(trimmed(s)) == is_float_literal(s),
        float_literal_of(trimmed(s), negate) == float_literal_of(s, negate),
        float_literal_of(s, negate).0 == negate,
        float_literal_of(s, !negate).0 == !negate,
        float_literal_of(s, !negate).1 == float_literal_of(s, negate).1,
        float_literal_of(s, !negate).2 == float_literal_of(s, negate).2,
{
    lemma_trim_idempotent(s);
}

/// Whether the text can be read as a number by `parse_to_float`: after
/// trimming it has at most one `e`, what precedes it is a floating-point
/// number, and what follows it is an `i32`.
pub fn is_float_literal_text(string: &Vec<char>) -> (ok: bool)
    ensures
        ok == is_float_literal(string@),
{
    let trimmed = trim(string);
    let pieces = split_on(&trimmed, 'e');
    assert(pieces[0]@ == pieces_view(pieces@)[0]);
    if pieces.len() > 2 {
        false
    } else if !is_f64_literal_text(&pieces[0]) {
        false
    } else if pieces.len() == 2 {
        assert(pieces[1]@ == pieces_view(pieces@)[1]);
        parse_i32(&pieces[1]).is_some()
    } else {
        true
    }
}

/// Splits a number written as `mantissa` or `mantissa e exponent` (after
/// trimming white space) into its parts, and records whether the value is
/// to be negated.
pub fn parse_to_float(string: &Vec<char>, negate_value: bool) -> (literal: FloatLiteral)
    requires
        is_float_literal(string@),
    ensures
        literal.negate == negate_value,
        literal.mantissa@ == literal_pieces(string@)[0],
        literal.exponent == (if literal_pieces(string@).len() == 2 {
            parse_i32_spec(literal_pieces(string@)[1])
        } else {
            None
        }),
        literal_pieces(string@).len() == 2 ==> literal.exponent is Some,
        (literal.negate, literal.mantissa@, literal.exponent) == float_literal_of(string@, negate_value),
{
    let trimmed = trim(string);
    let mut pieces = split_on(&trimmed, 'e');
    let ghost view = pieces_view(pieces@);
    let exponent = if pieces.len() == 2 {
        assert(pieces[1]@ == view[1]);
        parse_i32(&pieces[1])
    } else {
        None
    };
    assert(pieces[0]@ == view[0]);
    let mantissa = pieces.swap_remove(0);
    FloatLiteral { negate: negate_value, mantissa, exponent }
}

/// The order key of the largest finite distance, `f64::MAX`: distances are
/// compared through the bit patterns of their absolute values, which order
/// non-negative floats (with NaN above everything) exactly as `<` does.
pub const MAX_DELTA_KEY: u64 = 0x7fef_ffff_ffff_ffff;

/// Where the scan for the closest entry stops when it has reached index `i`
/// on a strictly falling run: at the first index whose successor does not
/// fall below it.
pub open spec fn scan_end(keys: Seq<u64>, i: int) -> int
    decreases keys.len() - i,
{
    if 0 <= i && i + 1 < keys.len() && keys[i + 1] < keys[i] {
        scan_end(keys, i + 1)
    } else {
        i
    }
}

/// The index that the scan for the closest entry picks from the distance keys
/// of the entries: the end of the strictly falling run at the start, or the
/// last index when the first distance is not below the largest finite one.
pub open spec fn closest_index(keys: Seq<u64>) -> int {
    if keys[0] < MAX_DELTA_KEY {
        scan_end(keys, 0)
    } else {
        keys.len() - 1
    }
}

/// `keys` falls strictly from index `0` through index `m`.
pub open spec fn falls_through(keys: Seq<u64>, m: int) -> bool {
    forall|i: int, j: int| 0 <= i < j <= m ==> #[trigger] keys[j] < #[trigger] keys[i]
}

/// `keys` does not fall from index `m` on.
pub open spec fn rises_from(keys: Seq<u64>, m: int) -> bool {
    forall|i: int, j: int| m <= i <= j < keys.len() ==> #[trigger] keys[i] <= #[trigger] keys[j]
}

/// The scan stops inside the sequence, after a strictly falling run.
proof fn lemma_scan_end(keys: Seq<u64>, i: int)
    requires
        0 <= i < keys.len(),
        falls_through(keys, i),
    ensures
        i <= scan_end(keys, i) < keys.len(),
        falls_through(keys, scan_end(keys, i)),
        scan_end(keys, i) + 1 < keys.len() ==> keys[scan_end(keys, i) + 1] >= keys[scan_end(keys, i)],
    decreases keys.len() - i,
{
    if i + 1 < keys.len() && keys[i + 1] < keys[i] {
        assert(falls_through(keys, i + 1)) by {
            assert forall|a: int, b: int| 0 <= a < b <= i + 1 implies #[trigger] keys[b] < #[trigger] keys[a] by {
                if b == i + 1 && a < i {
                    assert(keys[i] < keys[a]);
                }
            }
        }
        lemma_scan_end(keys, i + 1);
    }
}

/// The index of the entry whose distance to the query is smallest, for a
/// list whose distances first fall and then rise (as for sorted timestamps):
/// the scan walks while the distance strictly falls and stops at the first
/// entry that is not closer than its predecessor. `delta_keys[i]` is the order
/// key of the distance of entry `i` (see `MAX_DELTA_KEY`).
pub fn closest_ts_index(delta_keys: &Vec<u64>) -> (idx: usize)
    requires
        delta_keys.len() > 0,
    ensures
        idx == closest_index(delta_keys@),
        idx < delta_keys.len(),
{
    let mut min_delta: u64 = MAX_DELTA_KEY;
    let mut min_idx: usize = delta_keys.len() - 1;
    let mut idx: usize = 0;
    while idx < delta_keys.len()
        invariant_except_break
            idx <= delta_keys.len(),
            idx == 0 ==> min_delta == MAX_DELTA_KEY && min_idx == delta_keys.len() - 1,
            idx > 0 ==> {
                &&& delta_keys[0] < MAX_DELTA_KEY
                &&& min_idx == idx - 1
                &&& min_delta == delta_keys[idx - 1]
                &&& scan_end(delta_keys@, 0) == scan_end(delta_keys@, idx - 1)
            },
        ensures
            min_idx == closest_index(delta_keys@),
        decreases delta_keys.len() - idx,
    {
        let delta = delta_keys[idx];
        if delta < min_delta {
            min_delta = delta;
            min_idx = idx;
        } else {
            break;
        }
        idx += 1;
    }
    proof {
        if delta_keys[0] < MAX_DELTA_KEY {
            assert(falls_through(delta_keys@, 0));
            lemma_scan_end(delta_keys@, 0);
        }
    }
    min_idx
}

/// When the distances first fall strictly and then never fall again, the
/// chosen entry is a closest one: no entry has a smaller distance.
pub proof fn lemma_closest_in_valley(keys: Seq<u64>, m: int, j: int)
    requires
        0 <= m < keys.len(),
        keys[0] < MAX_DELTA_KEY,
        falls_through(keys, m),
        rises_from(keys, m),
        0 <= j < keys.len(),
    ensures
        keys[closest_index(keys)] <= keys[j],
{
    assert(falls_through(keys, 0));
    lemma_scan_end(keys, 0);
    let idx = closest_index(keys);
    if idx < m {
        assert(keys[idx + 1] < keys[idx]);
    }
    if j < idx {
        assert(keys[idx] < keys[j]);
    } else if j > idx {
        assert(keys[idx] <= keys[j]);
    }
}

} // verus!
