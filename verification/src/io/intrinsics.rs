use vstd::prelude::*;

use crate::io::text::{is_f64_literal, is_f64_literal_text, pieces_view, trim, trimmed};

verus! {

/// Whether `char::is_numeric` holds of `c`, that is, whether `c` belongs to
/// one of the Unicode general categories for numbers.
pub uninterp spec fn numeric_char(c: char) -> bool;

/// `char::is_numeric` from std. Its result is a function of the character
/// alone (the Unicode categories Nd, Nl and No), named `numeric_char`; the
/// category tables themselves are not restated here.
#[verifier::external_body]
fn is_numeric_char(c: char) -> (b: bool)
    ensures
        b == numeric_char(c),
{
    c.is_numeric()
}

/// The pieces of `s` between the characters that are not numbers, in order;
/// `n` such characters give `n + 1` pieces, some of which may be empty.
pub open spec fn numeric_runs(s: Seq<char>) -> Seq<Seq<char>>
    decreases s.len(),
{
    if s.len() == 0 {
        seq![Seq::<char>::empty()]
    } else {
        let pieces = numeric_runs(s.drop_last());
        if !numeric_char(s.last()) {
            pieces.push(Seq::<char>::empty())
        } else {
            pieces.update(pieces.len() - 1, pieces.last().push(s.last()))
        }
    }
}

/// The pieces that read as floating-point numbers, in order.
pub open spec fn number_pieces(pieces: Seq<Seq<char>>) -> Seq<Seq<char>>
    decreases pieces.len(),
{
    if pieces.len() == 0 {
        seq![]
    } else {
        let kept = number_pieces(pieces.drop_last());
        if is_f64_literal(pieces.last()) {
            kept.push(pieces.last())
        } else {
            kept
        }
    }
}

/// The number texts of a camera-intrinsics file: the trimmed text is cut at
/// every character that is not a number, and the pieces that read as numbers
/// are kept, in order.
pub open spec fn intrinsics_texts_spec(contents: Seq<char>) -> Seq<Seq<char>> {
    number_pieces(numeric_runs(trimmed(contents)))
}

/// The pieces of the text between the characters that are not numbers.
fn split_at_non_numeric(s: &Vec<char>) -> (pieces: Vec<Vec<char>>)
    ensures
        pieces_view(pieces@) == numeric_runs(s@),
{
    let mut pieces = Vec::<Vec<char>>::new();
    let mut current = Vec::<char>::new();
    let mut i: usize = 0;
    assert(s@.subrange(0, 0) =~= Seq::<char>::empty());
    while i < s.len()
        invariant
            i <= s.len(),
            numeric_runs(s@.subrange(0, i as int)) == pieces_view(pieces@).push(current@),
        decreases s.len() - i,
    {
        let c = s[i];
        let ghost before = s@.subrange(0, i as int);
        assert(s@.subrange(0, i as int + 1).drop_last() =~= before);
        if !is_numeric_char(c) {
            pieces.push(current);
            current = Vec::<char>::new();
            assert(pieces_view(pieces@) =~= numeric_runs(before));
        } else {
            let ghost old_pieces = pieces_view(pieces@);
            current.push(c);
            assert(numeric_runs(before).update(
                numeric_runs(before).len() - 1,
                numeric_runs(before).last().push(c),
            ) =~= old_pieces.push(current@));
        }
        i += 1;
    }
    assert(s@.subrange(0, s.len() as int) =~= s@);
    pieces.push(current);
    assert(pieces_view(pieces@) =~= numeric_runs(s@));
    pieces
}

/// The number texts of a camera-intrinsics file (see `intrinsics_texts_spec`).
pub fn intrinsics_number_texts(contents: &Vec<char>) -> (texts: Vec<Vec<char>>)
    ensures
        pieces_view(texts@) == intrinsics_texts_spec(contents@),
{
    let trimmed_contents = trim(contents);
    let pieces = split_at_non_numeric(&trimmed_contents);
    let ghost runs = pieces_view(pieces@);
    let mut texts = Vec::<Vec<char>>::new();
    let mut i: usize = 0;
    assert(runs.subrange(0, 0) =~= Seq::<Seq<char>>::empty());
    while i < pieces.len()
        invariant
            i <= pieces.len(),
            runs == pieces_view(pieces@),
            pieces_view(texts@) == number_pieces(runs.subrange(0, i as int)),
        decreases pieces.len() - i,
    {
        assert(runs.subrange(0, i as int + 1).drop_last() =~= runs.subrange(0, i as int));
        assert(pieces[i as int]@ == runs[i as int]);
        if is_f64_literal_text(&pieces[i]) {
            let ghost old_texts = pieces_view(texts@);
            texts.push(pieces[i].clone());
            assert(pieces_view(texts@) =~= old_texts.push(runs[i as int]));
        }
        i += 1;
    }
    assert(runs.subrange(0, pieces.len() as int) =~= runs);
    texts
}

} // verus!
