use vstd::prelude::*;

verus! {

// ---------------------------------------------------------------------------
// Specification
// ---------------------------------------------------------------------------

/// The characters with the Unicode `White_Space` property, which is what
/// `char::is_whitespace` tests and what `str::trim` removes.
pub open spec fn is_white_space(c: char) -> bool {
    let v = c as u32;
    ||| 0x09 <= v <= 0x0d
    ||| v == 0x20
    ||| v == 0x85
    ||| v == 0xa0
    ||| v == 0x1680
    ||| 0x2000 <= v <= 0x200a
    ||| v == 0x2028
    ||| v == 0x2029
    ||| v == 0x202f
    ||| v == 0x205f
    ||| v == 0x3000
}

/// `s` without its leading white space.
pub open spec fn trim_start(s: Seq<char>) -> Seq<char>
    decreases s.len(),
{
    if s.len() > 0 && is_white_space(s[0]) {
        trim_start(s.drop_first())
    } else {
        s
    }
}

/// `s` without its trailing white space.
pub open spec fn trim_end(s: Seq<char>) -> Seq<char>
    decreases s.len(),
{
    if s.len() > 0 && is_white_space(s.last()) {
        trim_end(s.drop_last())
    } else {
        s
    }
}

/// `s` without leading and trailing white space.
pub open spec fn trimmed(s: Seq<char>) -> Seq<char> {
    trim_end(trim_start(s))
}

/// The pieces of `s` between the occurrences of `sep`, in order; `n`
/// occurrences give `n + 1` pieces, some of which may be empty.
pub open spec fn split_at_char(s: Seq<char>, sep: char) -> Seq<Seq<char>> {
    split_at_chars(s, seq![sep])
}

/// The pieces of `s` between the occurrences of any of the characters `seps`.
pub open spec fn split_at_chars(s: Seq<char>, seps: Seq<char>) -> Seq<Seq<char>>
    decreases s.len(),
{
    if s.len() == 0 {
        seq![Seq::<char>::empty()]
    } else {
        let pieces = split_at_chars(s.drop_last(), seps);
        if seps.contains(s.last()) {
            pieces.push(Seq::<char>::empty())
        } else {
            pieces.update(pieces.len() - 1, pieces.last().push(s.last()))
        }
    }
}

/// `c` is an ASCII decimal digit.
pub open spec fn is_digit(c: char) -> bool {
    48 <= c as u32 <= 57
}

/// The number that the decimal digits `s` denote.
pub open spec fn digits_value(s: Seq<char>) -> int
    decreases s.len(),
{
    if s.len() == 0 {
        0
    } else {
        digits_value(s.drop_last()) * 10 + (s.last() as u32 - 48)
    }
}

/// The text starts with a sign.
pub open spec fn has_sign(s: Seq<char>) -> bool {
    s.len() > 0 && (s[0] == '-' || s[0] == '+')
}

/// The digits of an integer literal: the text after its sign, if any.
pub open spec fn unsigned_part(s: Seq<char>) -> Seq<char> {
    if has_sign(s) {
        s.drop_first()
    } else {
        s
    }
}

/// `s` is a non-empty run of ASCII digits.
pub open spec fn all_digits(s: Seq<char>) -> bool {
    s.len() > 0 && forall|i: int| 0 <= i < s.len() ==> is_digit(#[trigger] s[i])
}

/// The number an integer literal denotes.
pub open spec fn signed_value(s: Seq<char>) -> int {
    if s.len() > 0 && s[0] == '-' {
        -digits_value(unsigned_part(s))
    } else {
        digits_value(unsigned_part(s))
    }
}

/// The result of parsing `s` as an `i32` in the way of `str::parse::<i32>`:
/// an optional `+` or `-`, then at least one ASCII digit, and nothing else; the
/// value must fit in an `i32`.
pub open spec fn parse_i32_spec(s: Seq<char>) -> Option<i32> {
    if all_digits(unsigned_part(s)) && i32::MIN <= signed_value(s) <= i32::MAX {
        Some(signed_value(s) as i32)
    } else {
        None
    }
}

/// The result of parsing `s` as a `usize` in the way of `str::parse::<usize>`:
/// an optional `+` (a `-` is refused), then at least one ASCII digit, and
/// nothing else; the value must fit in a `usize`.
pub open spec fn parse_usize_spec(s: Seq<char>) -> Option<usize> {
    if !(s.len() > 0 && s[0] == '-') && all_digits(unsigned_part(s)) && digits_value(
        unsigned_part(s),
    ) <= usize::MAX {
        Some(digits_value(unsigned_part(s)) as usize)
    } else {
        None
    }
}

/// The pieces of the trimmed text around the exponent marker `e`.
pub open spec fn literal_pieces(s: Seq<char>) -> Seq<Seq<char>> {
    split_at_char(trimmed(s), 'e')
}

/// `c` is the letter `lower` in either case (`lower` is a lower-case ASCII letter).
pub open spec fn same_letter(c: char, lower: char) -> bool {
    c as u32 == lower as u32 || c as u32 == lower as u32 - 32
}

/// `s` spells the lower-case word `w`, ignoring ASCII case.
pub open spec fn spells(s: Seq<char>, w: Seq<char>) -> bool {
    s.len() == w.len() && forall|i: int| 0 <= i < s.len() ==> same_letter(#[trigger] s[i], w[i])
}

/// `c` marks the exponent of a floating-point literal.
pub open spec fn is_exponent_marker(c: char) -> bool {
    c == 'e' || c == 'E'
}

/// The index of the first exponent marker of `s`, or its length when it has none.
pub open spec fn first_marker(s: Seq<char>) -> int
    decreases s.len(),
{
    if s.len() == 0 {
        0
    } else if is_exponent_marker(s[0]) {
        0
    } else {
        1 + first_marker(s.drop_first())
    }
}

/// Digits with at most one decimal point, and at least one digit:
/// `Digit+ | Digit+ '.' Digit* | Digit* '.' Digit+`.
pub open spec fn is_decimal(d: Seq<char>) -> bool {
    &&& d.len() > 0
    &&& forall|i: int| 0 <= i < d.len() ==> is_digit(#[trigger] d[i]) || d[i] == '.'
    &&& forall|i: int, j: int| 0 <= i < j < d.len() ==> !(#[trigger] d[i] == '.' && #[trigger] d[j] == '.')
    &&& !(d.len() == 1 && d[0] == '.')
}

/// A decimal number with an optional exponent: `Decimal (('e' | 'E') Sign? Digit+)?`.
pub open spec fn is_decimal_number(u: Seq<char>) -> bool {
    let k = first_marker(u);
    if k >= u.len() {
        is_decimal(u)
    } else {
        is_decimal(u.subrange(0, k)) && all_digits(unsigned_part(u.subrange(k + 1, u.len() as int)))
    }
}

/// The texts that `str::parse` accepts as a floating-point number: an
/// optional sign, then `inf`, `infinity` or `nan` in any case, or a decimal
/// number with an optional exponent (no white space anywhere).
pub open spec fn is_f64_literal(s: Seq<char>) -> bool {
    let u = unsigned_part(s);
    ||| spells(u, seq!['i', 'n', 'f'])
    ||| spells(u, seq!['i', 'n', 'f', 'i', 'n', 'i', 't', 'y'])
    ||| spells(u, seq!['n', 'a', 'n'])
    ||| is_decimal_number(u)
}

/// The text splits into a mantissa and at most one exponent; the mantissa
/// is a floating-point number, and the exponent, when there is one, is a valid `i32`.
pub open spec fn is_float_literal(s: Seq<char>) -> bool {
    let pieces = literal_pieces(s);
    &&& pieces.len() <= 2
    &&& is_f64_literal(pieces[0])
    &&& pieces.len() == 2 ==> parse_i32_spec(pieces[1]) is Some
}

/// The pieces of a text as a sequence of character sequences.
pub open spec fn pieces_view(v: Seq<Vec<char>>) -> Seq<Seq<char>> {
    v.map_values(|p: Vec<char>| p@)
}

// ---------------------------------------------------------------------------
// Lemmas
// ---------------------------------------------------------------------------

/// Digit strings denote non-negative numbers.
proof fn lemma_digits_value_nonneg(s: Seq<char>)
    requires
        forall|i: int| 0 <= i < s.len() ==> is_digit(#[trigger] s[i]),
    ensures
        digits_value(s) >= 0,
    decreases s.len(),
{
    if s.len() > 0 {
        lemma_digits_value_nonneg(s.drop_last());
    }
}

/// What `trim_start` leaves does not start with white space.
proof fn lemma_trim_start_clean(s: Seq<char>)
    ensures
        trim_start(s).len() > 0 ==> !is_white_space(trim_start(s)[0]),
    decreases s.len(),
{
    if s.len() > 0 && is_white_space(s[0]) {
        lemma_trim_start_clean(s.drop_first());
    }
}

/// What `trim_end` leaves is a prefix of the text that does not end with white space.
proof fn lemma_trim_end_clean(s: Seq<char>)
    ensures
        trim_end(s).len() <= s.len(),
        trim_end(s) == s.subrange(0, trim_end(s).len() as int),
        trim_end(s).len() > 0 ==> !is_white_space(trim_end(s).last()),
    decreases s.len(),
{
    if s.len() > 0 && is_white_space(s.last()) {
        lemma_trim_end_clean(s.drop_last());
        assert(s.drop_last().subrange(0, trim_end(s).len() as int) =~= s.subrange(0, trim_end(s).len() as int));
    } else {
        assert(s.subrange(0, s.len() as int) =~= s);
    }
}

/// Trimming twice is trimming once: a text that was already trimmed gives
/// the same result as the text itself.
pub proof fn lemma_trim_idempotent(s: Seq<char>)
    ensures
        trimmed(trimmed(s)) == trimmed(s),
{
    let t = trim_start(s);
    let u = trim_end(t);
    lemma_trim_start_clean(s);
    lemma_trim_end_clean(t);
    if u.len() > 0 {
        assert(u[0] == t[0]);
    }
    assert(trim_start(u) == u);
    lemma_trim_end_clean(u);
    if u.len() > 0 {
        assert(trim_end(u) == u);
    }
}

// ---------------------------------------------------------------------------
// Implementation
// ---------------------------------------------------------------------------

/// Whether `c` is white space in the sense of `char::is_whitespace`.
pub fn is_white_space_char(c: char) -> (b: bool)
    ensures
        b == is_white_space(c),
{
    let v = c as u32;
    (0x09 <= v && v <= 0x0d) || v == 0x20 || v == 0x85 || v == 0xa0 || v == 0x1680 || (0x2000
        <= v && v <= 0x200a) || v == 0x2028 || v == 0x2029 || v == 0x202f || v == 0x205f || v
        == 0x3000
}

/// The text without leading and trailing white space.
pub fn trim(s: &Vec<char>) -> (t: Vec<char>)
    ensures
        t@ == trimmed(s@),
{
    let n = s.len();
    let mut start: usize = 0;
    assert(s@.subrange(0, n as int) =~= s@);
    while start < n && is_white_space_char(s[start])
        invariant
            n == s.len(),
            start <= n,
            trim_start(s@) == trim_start(s@.subrange(start as int, n as int)),
        decreases n - start,
    {
        assert(s@.subrange(start as int, n as int).drop_first() =~= s@.subrange(
            start as int + 1,
            n as int,
        ));
        start += 1;
    }
    assert(trim_start(s@) == s@.subrange(start as int, n as int));
    let mut end: usize = n;
    while end > start && is_white_space_char(s[end - 1])
        invariant
            n == s.len(),
            start <= end <= n,
            trimmed(s@) == trim_end(s@.subrange(start as int, end as int)),
        decreases end - start,
    {
        assert(s@.subrange(start as int, end as int).drop_last() =~= s@.subrange(
            start as int,
            end as int - 1,
        ));
        end -= 1;
    }
    assert(trimmed(s@) == s@.subrange(start as int, end as int));
    let mut t = Vec::<char>::new();
    let mut i = start;
    while i < end
        invariant
            n == s.len(),
            start <= i <= end <= n,
            t@ == s@.subrange(start as int, i as int),
        decreases end - i,
    {
        t.push(s[i]);
        i += 1;
        assert(t@ =~= s@.subrange(start as int, i as int));
    }
    t
}

/// Whether `c` is one of `seps`.
fn is_one_of(seps: &Vec<char>, c: char) -> (b: bool)
    ensures
        b == seps@.contains(c),
{
    let mut k: usize = 0;
    while k < seps.len()
        invariant
            k <= seps.len(),
            forall|j: int| 0 <= j < k ==> seps@[j] != c,
        decreases seps.len() - k,
    {
        if seps[k] == c {
            assert(seps@[k as int] == c);
            return true;
        }
        k += 1;
    }
    false
}

/// The pieces of the text between the occurrences of any of `seps`.
pub fn split_on_any(s: &Vec<char>, seps: &Vec<char>) -> (pieces: Vec<Vec<char>>)
    ensures
        pieces_view(pieces@) == split_at_chars(s@, seps@),
        pieces.len() >= 1,
{
    let mut pieces = Vec::<Vec<char>>::new();
    let mut current = Vec::<char>::new();
    let mut i: usize = 0;
    assert(s@.subrange(0, 0) =~= Seq::<char>::empty());
    while i < s.len()
        invariant
            i <= s.len(),
            split_at_chars(s@.subrange(0, i as int), seps@) == pieces_view(pieces@).push(current@),
        decreases s.len() - i,
    {
        let c = s[i];
        let ghost before = s@.subrange(0, i as int);
        assert(s@.subrange(0, i as int + 1).drop_last() =~= before);
        if is_one_of(seps, c) {
            pieces.push(current);
            current = Vec::<char>::new();
            assert(pieces_view(pieces@) =~= split_at_chars(before, seps@));
        } else {
            let ghost old_pieces = pieces_view(pieces@);
            current.push(c);
            assert(split_at_chars(before, seps@).update(
                split_at_chars(before, seps@).len() - 1,
                split_at_chars(before, seps@).last().push(c),
            ) =~= old_pieces.push(current@));
        }
        i += 1;
    }
    assert(s@.subrange(0, s.len() as int) =~= s@);
    pieces.push(current);
    assert(pieces_view(pieces@) =~= split_at_chars(s@, seps@));
    pieces
}

/// The pieces of the text between the occurrences of `sep`.
pub fn split_on(s: &Vec<char>, sep: char) -> (pieces: Vec<Vec<char>>)
    ensures
        pieces_view(pieces@) == split_at_char(s@, sep),
        pieces.len() >= 1,
{
    let seps = vec![sep];
    assert(seps@ =~= seq![sep]);
    split_on_any(s, &seps)
}

/// Where the first exponent marker stands.
proof fn lemma_first_marker(s: Seq<char>)
    ensures
        0 <= first_marker(s) <= s.len(),
        forall|i: int| 0 <= i < first_marker(s) ==> !is_exponent_marker(#[trigger] s[i]),
        first_marker(s) < s.len() ==> is_exponent_marker(s[first_marker(s)]),
    decreases s.len(),
{
    if s.len() > 0 && !is_exponent_marker(s[0]) {
        lemma_first_marker(s.drop_first());
        assert forall|i: int| 0 <= i < first_marker(s) implies !is_exponent_marker(#[trigger] s[i]) by {
            if i > 0 {
                assert(s[i] == s.drop_first()[i - 1]);
            }
        }
    }
}

/// The characters of `s` from `lo` up to `hi`.
fn copy_range(s: &Vec<char>, lo: usize, hi: usize) -> (t: Vec<char>)
    requires
        lo <= hi <= s.len(),
    ensures
        t@ == s@.subrange(lo as int, hi as int),
{
    let mut t = Vec::<char>::new();
    let mut i = lo;
    while i < hi
        invariant
            lo <= i <= hi <= s.len(),
            t@ == s@.subrange(lo as int, i as int),
        decreases hi - i,
    {
        t.push(s[i]);
        i += 1;
        assert(t@ =~= s@.subrange(lo as int, i as int));
    }
    t
}

/// Whether `u` spells the lower-case word `w`, ignoring ASCII case.
fn spells_word(u: &Vec<char>, w: &Vec<char>) -> (b: bool)
    requires
        forall|i: int| 0 <= i < w.len() ==> 97 <= (#[trigger] w@[i]) as u32 <= 122,
    ensures
        b == spells(u@, w@),
{
    if u.len() != w.len() {
        return false;
    }
    let mut i: usize = 0;
    while i < u.len()
        invariant
            u.len() == w.len(),
            forall|k: int| 0 <= k < w.len() ==> 97 <= (#[trigger] w@[k]) as u32 <= 122,
            i <= u.len(),
            forall|k: int| 0 <= k < i ==> same_letter(#[trigger] u@[k], w@[k]),
        decreases u.len() - i,
    {
        let c = u[i] as u32;
        let l = w[i] as u32;
        if !(c == l || c == l - 32) {
            assert(!same_letter(u@[i as int], w@[i as int]));
            return false;
        }
        assert(same_letter(u@[i as int], w@[i as int]));
        i += 1;
    }
    true
}

/// Whether `d` is a non-empty run of ASCII digits.
fn all_digits_text(d: &Vec<char>) -> (b: bool)
    ensures
        b == all_digits(d@),
{
    if d.len() == 0 {
        return false;
    }
    let mut i: usize = 0;
    while i < d.len()
        invariant
            i <= d.len(),
            forall|k: int| 0 <= k < i ==> is_digit(#[trigger] d@[k]),
        decreases d.len() - i,
    {
        let v = d[i] as u32;
        if v < 48 || v > 57 {
            assert(!is_digit(d@[i as int]));
            return false;
        }
        i += 1;
    }
    true
}

/// Whether `d` is a decimal number without exponent.
fn is_decimal_text(d: &Vec<char>) -> (b: bool)
    ensures
        b == is_decimal(d@),
{
    if d.len() == 0 {
        return false;
    }
    if d.len() == 1 && d[0] == '.' {
        return false;
    }
    let mut seen_point = false;
    let mut i: usize = 0;
    while i < d.len()
        invariant
            i <= d.len(),
            d.len() > 0,
            !(d.len() == 1 && d@[0] == '.'),
            forall|k: int| 0 <= k < i ==> is_digit(#[trigger] d@[k]) || d@[k] == '.',
            forall|a: int, b: int| 0 <= a < b < i ==> !(#[trigger] d@[a] == '.' && #[trigger] d@[b] == '.'),
            seen_point <==> exists|k: int| 0 <= k < i && d@[k] == '.',
        decreases d.len() - i,
    {
        let c = d[i];
        let v = c as u32;
        if c == '.' {
            if seen_point {
                let ghost k = choose|k: int| 0 <= k < i && d@[k] == '.';
                assert(d@[k] == '.' && d@[i as int] == '.');
                return false;
            }
            seen_point = true;
        } else if v < 48 || v > 57 {
            assert(!(is_digit(d@[i as int]) || d@[i as int] == '.'));
            return false;
        }
        i += 1;
    }
    true
}

/// Whether the text is a floating-point number in the sense of `str::parse::<f64>`.
pub fn is_f64_literal_text(s: &Vec<char>) -> (b: bool)
    ensures
        b == is_f64_literal(s@),
{
    let n = s.len();
    let signed = n > 0 && (s[0] == '-' || s[0] == '+');
    let start: usize = if signed {
        1
    } else {
        0
    };
    let u = copy_range(s, start, n);
    assert(u@ =~= unsigned_part(s@));
    let inf = vec!['i', 'n', 'f'];
    let infinity = vec!['i', 'n', 'f', 'i', 'n', 'i', 't', 'y'];
    let nan = vec!['n', 'a', 'n'];
    assert(inf@ =~= seq!['i', 'n', 'f']);
    assert(infinity@ =~= seq!['i', 'n', 'f', 'i', 'n', 'i', 't', 'y']);
    assert(nan@ =~= seq!['n', 'a', 'n']);
    if spells_word(&u, &inf) || spells_word(&u, &infinity) || spells_word(&u, &nan) {
        return true;
    }
    let mut k: usize = 0;
    while k < u.len() && !(u[k] == 'e' || u[k] == 'E')
        invariant
            k <= u.len(),
            forall|i: int| 0 <= i < k ==> !is_exponent_marker(#[trigger] u@[i]),
        decreases u.len() - k,
    {
        k += 1;
    }
    proof {
        lemma_first_marker(u@);
        if first_marker(u@) < k {
            assert(!is_exponent_marker(u@[first_marker(u@)]));
        }
        if k < first_marker(u@) {
            assert(!is_exponent_marker(u@[k as int]));
        }
        assert(k == first_marker(u@));
    }
    if k >= u.len() {
        is_decimal_text(&u)
    } else {
        let decimal = copy_range(&u, 0, k);
        let exponent = copy_range(&u, k + 1, u.len());
        let e_signed = exponent.len() > 0 && (exponent[0] == '-' || exponent[0] == '+');
        let e_start: usize = if e_signed {
            1
        } else {
            0
        };
        let e_digits = copy_range(&exponent, e_start, exponent.len());
        assert(e_digits@ =~= unsigned_part(exponent@));
        is_decimal_text(&decimal) && all_digits_text(&e_digits)
    }
}

/// Parses the text as an `i32` in the way of `str::parse::<i32>`.
#[verifier::rlimit(20)]
pub fn parse_i32(s: &Vec<char>) -> (r: Option<i32>)
    ensures
        r == parse_i32_spec(s@),
{
    let n = s.len();
    let negative = n > 0 && s[0] == '-';
    let signed = n > 0 && (s[0] == '-' || s[0] == '+');
    let start: usize = if signed {
        1
    } else {
        0
    };
    let ghost digits = unsigned_part(s@);
    assert(digits =~= s@.subrange(start as int, n as int));
    assert(signed == (s@.len() > 0 && (s@[0] == '-' || s@[0] == '+')));
    assert(negative == (s@.len() > 0 && s@[0] == '-'));
    if start >= n {
        return None;
    }
    let mut magnitude: u64 = 0;
    let mut too_large = false;
    let mut i = start;
    assert(s@.subrange(start as int, start as int) =~= Seq::<char>::empty());
    while i < n
        invariant
            n == s.len(),
            start <= i <= n,
            digits == s@.subrange(start as int, n as int),
            digits == unsigned_part(s@),
            signed == has_sign(s@),
            negative == (s@.len() > 0 && s@[0] == '-'),
            forall|k: int| start <= k < i ==> is_digit(#[trigger] s@[k]),
            !too_large ==> magnitude == digits_value(s@.subrange(start as int, i as int))
                && magnitude <= 2147483648,
            too_large ==> digits_value(s@.subrange(start as int, i as int)) > 2147483648,
        decreases n - i,
    {
        let v = s[i] as u32;
        if v < 48 || v > 57 {
            assert(digits[i - start] == s@[i as int]);
            assert(!is_digit(digits[i - start]));
            return None;
        }
        let ghost prefix = s@.subrange(start as int, i as int);
        assert(s@.subrange(start as int, i as int + 1).drop_last() =~= prefix);
        if !too_large {
            magnitude = magnitude * 10 + (v - 48) as u64;
            if magnitude > 2147483648 {
                too_large = true;
            }
        }
        i += 1;
    }
    assert(s@.subrange(start as int, n as int) == digits);
    assert forall|k: int| 0 <= k < digits.len() implies is_digit(#[trigger] digits[k]) by {
        assert(digits[k] == s@[k + start]);
    }
    proof {
        lemma_digits_value_nonneg(digits);
    }
    if too_large {
        return None;
    }
    if negative {
        Some((-(magnitude as i64)) as i32)
    } else if magnitude <= 2147483647 {
        Some(magnitude as i32)
    } else {
        None
    }
}


/// Parses the text as a `usize` in the way of `str::parse::<usize>`.
#[verifier::rlimit(20)]
pub fn parse_usize(s: &Vec<char>) -> (r: Option<usize>)
    ensures
        r == parse_usize_spec(s@),
{
    let n = s.len();
    if n > 0 && s[0] == '-' {
        return None;
    }
    let signed = n > 0 && s[0] == '+';
    let start: usize = if signed {
        1
    } else {
        0
    };
    let ghost digits = unsigned_part(s@);
    assert(signed == has_sign(s@));
    assert(digits =~= s@.subrange(start as int, n as int));
    if start >= n {
        return None;
    }
    let limit: u128 = usize::MAX as u128;
    let mut magnitude: u128 = 0;
    let mut too_large = false;
    let mut i = start;
    assert(s@.subrange(start as int, start as int) =~= Seq::<char>::empty());
    while i < n
        invariant
            n == s.len(),
            start <= i <= n,
            limit == usize::MAX,
            digits == s@.subrange(start as int, n as int),
            digits == unsigned_part(s@),
            !(s@.len() > 0 && s@[0] == '-'),
            forall|k: int| start <= k < i ==> is_digit(#[trigger] s@[k]),
            !too_large ==> magnitude == digits_value(s@.subrange(start as int, i as int))
                && magnitude <= limit,
            too_large ==> digits_value(s@.subrange(start as int, i as int)) > limit,
        decreases n - i,
    {
        let v = s[i] as u32;
        if v < 48 || v > 57 {
            assert(digits[i - start] == s@[i as int]);
            assert(!is_digit(digits[i - start]));
            return None;
        }
        let ghost prefix = s@.subrange(start as int, i as int);
        assert(s@.subrange(start as int, i as int + 1).drop_last() =~= prefix);
        proof {
            assert forall|k: int| 0 <= k < prefix.len() implies is_digit(#[trigger] prefix[k]) by {
                assert(prefix[k] == s@[k + start]);
            }
            lemma_digits_value_nonneg(prefix);
        }
        if !too_large {
            magnitude = magnitude * 10 + (v - 48) as u128;
            if magnitude > limit {
                too_large = true;
            }
        }
        i += 1;
    }
    assert(s@.subrange(start as int, n as int) == digits);
    assert forall|k: int| 0 <= k < digits.len() implies is_digit(#[trigger] digits[k]) by {
        assert(digits[k] == s@[k + start]);
    }
    if too_large {
        return None;
    }
    Some(magnitude as usize)
}

} // verus!
