use vstd::prelude::*;

use crate::image::orb_feature::{is_ranking, lemma_ranking_unique, rank_by_response, ranked_before};
use crate::io::text::{parse_usize, parse_usize_spec, pieces_view, split_at_chars, split_on_any};

verus! {

/// The fields of an image's file name: the pieces between the characters `_`
/// and `.` (so `img_12.png` has the fields `img`, `12` and `png`).
pub open spec fn name_fields(name: Seq<char>) -> Seq<Seq<char>> {
    split_at_chars(name, seq!['_', '.'])
}

/// The number an image's file name carries: its second field read as a
/// `usize`. A name with a single field, or whose second field is not a
/// number, carries none.
pub open spec fn image_number(name: Seq<char>) -> Option<usize> {
    let fields = name_fields(name);
    if fields.len() >= 2 {
        parse_usize_spec(fields[1])
    } else {
        None
    }
}

/// Every name carries a number.
pub open spec fn all_numbered(names: Seq<Seq<char>>) -> bool {
    forall|i: int| 0 <= i < names.len() ==> #[trigger] image_number(names[i]) is Some
}

/// The numbers the names carry, in the order of the names.
pub open spec fn image_numbers(names: Seq<Seq<char>>) -> Seq<usize> {
    names.map_values(|name: Seq<char>| image_number(name).unwrap())
}

/// Image `a` comes before image `b` when its number is smaller, or when the
/// numbers are equal and `a` comes first in the input.
pub open spec fn numbered_before(numbers: Seq<usize>, a: int, b: int) -> bool {
    numbers[a] < numbers[b] || (numbers[a] == numbers[b] && a < b)
}

/// `order` lists every index of `numbers` once, by increasing number and,
/// among equal numbers, in input order.
pub open spec fn is_number_order(numbers: Seq<usize>, order: Seq<usize>) -> bool {
    &&& order.len() == numbers.len()
    &&& forall|i: int| 0 <= i < order.len() ==> #[trigger] order[i] < numbers.len()
    &&& forall|i: int, j: int|
        0 <= i < j < order.len() ==> numbered_before(numbers, #[trigger] order[i] as int, #[trigger] order[j] as int)
}

/// Keys that rank by decreasing value exactly as the numbers rank by
/// increasing value.
spec fn descending_keys(numbers: Seq<usize>) -> Seq<u64> {
    numbers.map_values(|v: usize| (u64::MAX - v) as u64)
}

/// Ordering by increasing number is ranking by decreasing key.
proof fn lemma_number_order_is_ranking(numbers: Seq<usize>, order: Seq<usize>)
    ensures
        is_number_order(numbers, order) <==> is_ranking(descending_keys(numbers), order),
{
    let keys = descending_keys(numbers);
    assert forall|a: int, b: int| 0 <= a < numbers.len() && 0 <= b < numbers.len() implies
        numbered_before(numbers, a, b) == ranked_before(keys, a, b) by {
        assert(keys[a] == u64::MAX - numbers[a]);
        assert(keys[b] == u64::MAX - numbers[b]);
    }
}

/// There is only one order of the images by number: the order is fully
/// determined by the numbers their names carry.
pub proof fn lemma_number_order_unique(numbers: Seq<usize>, first: Seq<usize>, second: Seq<usize>)
    requires
        is_number_order(numbers, first),
        is_number_order(numbers, second),
    ensures
        first == second,
{
    lemma_number_order_is_ranking(numbers, first);
    lemma_number_order_is_ranking(numbers, second);
    lemma_ranking_unique(descending_keys(numbers), first, second);
}

/// The number an image's file name carries, if any (see `image_number`).
pub fn image_number_of(name: &Vec<char>) -> (number: Option<usize>)
    ensures
        number == image_number(name@),
{
    let separators = vec!['_', '.'];
    assert(separators@ =~= seq!['_', '.']);
    let fields = split_on_any(name, &separators);
    if fields.len() < 2 {
        None
    } else {
        assert(fields[1]@ == pieces_view(fields@)[1]);
        parse_usize(&fields[1])
    }
}

/// The order in which images are loaded: the indices of `names` by increasing
/// number carried in the name, equal numbers in input order. `None` when a
/// name carries no number.
pub fn order_images_by_number(names: &Vec<Vec<char>>) -> (order: Option<Vec<usize>>)
    ensures
        order is Some <==> all_numbered(pieces_view(names@)),
        order matches Some(o) ==> is_number_order(image_numbers(pieces_view(names@)), o@),
{
    let ghost view = pieces_view(names@);
    let mut keys = Vec::<u64>::new();
    let mut i: usize = 0;
    while i < names.len()
        invariant
            i <= names.len(),
            view == pieces_view(names@),
            keys.len() == i,
            forall|k: int| 0 <= k < i ==> #[trigger] image_number(view[k]) is Some,
            forall|k: int| 0 <= k < i ==> #[trigger] keys@[k] == u64::MAX - image_number(view[k]).unwrap(),
        decreases names.len() - i,
    {
        assert(names[i as int]@ == view[i as int]);
        match image_number_of(&names[i]) {
            Some(number) => {
                keys.push(u64::MAX - number as u64);
            },
            None => {
                assert(!(image_number(view[i as int]) is Some));
                return None;
            },
        }
        i += 1;
    }
    let order = rank_by_response(&keys);
    proof {
        let numbers = image_numbers(view);
        assert(keys@ =~= descending_keys(numbers));
        lemma_number_order_is_ranking(numbers, order@);
    }
    Some(order)
}

/// The index of the last `.` in `name`, or -1 when there is none.
pub open spec fn last_dot(name: Seq<char>) -> int
    decreases name.len(),
{
    if name.len() == 0 {
        -1
    } else if name.last() == '.' {
        name.len() - 1
    } else {
        last_dot(name.drop_last())
    }
}

/// The extension of a file name in the sense of `Path::extension`: the text
/// after its last `.`. A name without a `.`, a name whose only `.` is its
/// first character, and the name `..` have none.
pub open spec fn file_extension(name: Seq<char>) -> Option<Seq<char>> {
    let k = last_dot(name);
    if k <= 0 || name == seq!['.', '.'] {
        None
    } else {
        Some(name.subrange(k + 1, name.len() as int))
    }
}

/// `s` ends with `suffix`.
pub open spec fn ends_with(s: Seq<char>, suffix: Seq<char>) -> bool {
    suffix.len() <= s.len() && s.subrange(s.len() - suffix.len(), s.len() as int) == suffix
}

/// An image file is loaded when its name has an extension that ends with the
/// wanted extension, written in lower or in upper case.
pub open spec fn has_wanted_extension(name: Seq<char>, ext_lower: Seq<char>, ext_upper: Seq<char>) -> bool {
    match file_extension(name) {
        Some(e) => ends_with(e, ext_upper) || ends_with(e, ext_lower),
        None => false,
    }
}

/// The last `.` is where the backward scan finds it.
proof fn lemma_last_dot(name: Seq<char>, k: int)
    requires
        -1 <= k < name.len(),
        k >= 0 ==> name[k] == '.',
        forall|j: int| k < j < name.len() ==> name[j] != '.',
    ensures
        last_dot(name) == k,
    decreases name.len(),
{
    if name.len() > 0 && k < name.len() - 1 {
        assert(name.last() != '.');
        lemma_last_dot(name.drop_last(), k);
    }
}

/// Whether `s[from..]` ends with `suffix`.
fn ends_with_from(s: &Vec<char>, from: usize, suffix: &Vec<char>) -> (b: bool)
    requires
        from <= s.len(),
    ensures
        b == ends_with(s@.subrange(from as int, s.len() as int), suffix@),
{
    let ghost tail = s@.subrange(from as int, s.len() as int);
    if suffix.len() > s.len() - from {
        return false;
    }
    let start = s.len() - suffix.len();
    let mut i: usize = 0;
    while i < suffix.len()
        invariant
            start == s.len() - suffix.len(),
            from <= start,
            tail == s@.subrange(from as int, s.len() as int),
            i <= suffix.len(),
            forall|j: int| 0 <= j < i ==> s@[start + j] == suffix@[j],
        decreases suffix.len() - i,
    {
        if s[start + i] != suffix[i] {
            assert(tail.subrange(tail.len() - suffix.len(), tail.len() as int)[i as int] != suffix@[i as int]);
            return false;
        }
        i += 1;
    }
    assert(tail.subrange(tail.len() - suffix.len(), tail.len() as int) =~= suffix@);
    true
}

/// Whether an image file with this name is loaded: its extension ends with
/// the wanted extension in lower or in upper case.
pub fn has_extension(name: &Vec<char>, ext_lower: &Vec<char>, ext_upper: &Vec<char>) -> (b: bool)
    ensures
        b == has_wanted_extension(name@, ext_lower@, ext_upper@),
{
    let n = name.len();
    let mut k: usize = n;
    while k > 0 && name[k - 1] != '.'
        invariant
            k <= n == name.len(),
            forall|j: int| k <= j < n ==> name@[j] != '.',
        decreases k,
    {
        k -= 1;
    }
    proof {
        lemma_last_dot(name@, k - 1);
    }
    if k <= 1 {
        return false;
    }
    if n == 2 && name[0] == '.' && name[1] == '.' {
        assert(name@ =~= seq!['.', '.']);
        return false;
    }
    assert(name@ != seq!['.', '.']) by {
        if name@ == seq!['.', '.'] {
            assert(name@[0] == '.' && name@[1] == '.');
        }
    }
    ends_with_from(name, k, ext_upper) || ends_with_from(name, k, ext_lower)
}

} // verus!
