//! Pairs on a command line: `400x600`, `-1.20,0.35`.
//!
//! A pair is two tokens with one separator between them. The text is cut
//! at the first separator; what each token means is up to the type it is
//! read as.

use vstd::prelude::*;
use std::str::FromStr;
use num::Complex;

verus! {

/// `num::Complex`, as the crate defines it: a struct of two public fields,
/// the real part `re` and the imaginary part `im`. Nothing more is claimed
/// of it, and none of its functions is called here.
#[verifier::external_type_specification]
#[verifier::reject_recursive_types(T)]
pub struct ExComplex<T>(Complex<T>);

/// `text` is `left`, then one `separator`, then `right`, and that separator
/// is the first in `text`.
pub open spec fn cut_at_first(
    text: Seq<char>,
    separator: char,
    left: Seq<char>,
    right: Seq<char>,
) -> bool {
    &&& text == left + seq![separator] + right
    &&& !left.contains(separator)
}

/// Cuts `s` at its first `separator`, which belongs to neither side.
/// There is no cut where `s` holds no separator.
pub fn split_pair<'a>(s: &'a str, separator: char) -> (sides: Option<(&'a str, &'a str)>)
    ensures
        match sides {
            None => !s@.contains(separator),
            Some((left, right)) => cut_at_first(s@, separator, left@, right@),
        },
{
    let length: usize = s.unicode_len();
    let mut index: usize = 0;
    for c in iter: s.chars()
        invariant
            length == s@.len(),
            index == iter.index(),
            iter.seq() == s@,
            forall|k: int| 0 <= k < index ==> s@[k] != separator,
    {
        if c == separator {
            let left = s.substring_char(0, index);
            let right = s.substring_char(index + 1, length);
            assert(s@ =~= left@ + seq![separator] + right@);
            return Some((left, right));
        }
        index += 1;
    }
    None
}

/// Both values, where both are there.
pub open spec fn both_of<T>(left: Option<T>, right: Option<T>) -> Option<(T, T)> {
    match (left, right) {
        (Some(l), Some(r)) => Some((l, r)),
        _ => None,
    }
}

/// Pairs up what the two tokens were read as: a pair where both were
/// read, nothing where either was not.
pub fn both<T>(left: Option<T>, right: Option<T>) -> (pair: Option<(T, T)>)
    ensures
        pair == both_of(left, right),
{
    match (left, right) {
        (Some(l), Some(r)) => Some((l, r)),
        _ => None,
    }
}

/// Reads one token as a `T`, by `T`'s own `FromStr::from_str`; `None`
/// where that returns an error. Nothing is claimed of the outcome: whether
/// a token can be read, and as what, is up to `T`.
#[verifier::external_body]
fn read_token<T: FromStr>(token: &str) -> (value: Option<T>) {
    T::from_str(token).ok()
}

/// `value` is what a reading of `token` as a `T` gave. This is the record
/// of a call, not a rule: it says nothing of which tokens `T` can be read
/// from, nor that two readings of one token agree.
pub closed spec fn read_as<T: FromStr>(token: Seq<char>, value: Option<T>) -> bool {
    exists|text: &str| text@ == token && #[trigger] call_ensures(read_token::<T>, (text,), value)
}

/// `pair` is what `text` gives when it is read as a pair: nothing where
/// `text` holds no separator, and otherwise both of what the text before
/// the first separator and the text after it were read as.
pub open spec fn pair_read_from<T: FromStr>(
    pair: Option<(T, T)>,
    text: Seq<char>,
    separator: char,
) -> bool {
    if text.contains(separator) {
        exists|left: Seq<char>, right: Seq<char>, first: Option<T>, second: Option<T>|
            cut_at_first(text, separator, left, right) && #[trigger] read_as(left, first)
                && #[trigger] read_as(right, second) && pair == both_of(first, second)
    } else {
        pair is None
    }
}

/// Reads `s` as two values of type `T` with `separator` between them,
/// such as `"400x600"` or `"1.0,0.5"`: the text before the first separator
/// and the text after it are each read by `T`'s `from_str`, and the pair
/// is there where both succeed.
pub fn parse_pair<T: FromStr>(s: &str, separator: char) -> (pair: Option<(T, T)>)
    ensures
        pair_read_from(pair, s@, separator),
        !s@.contains(separator) ==> pair is None,
{
    match split_pair(s, separator) {
        None => None,
        Some((left, right)) => {
            assert(s@[left@.len() as int] == separator);
            let first = read_token::<T>(left);
            let second = read_token::<T>(right);
            assert(read_as(left@, first));
            assert(read_as(right@, second));
            both(first, second)
        },
    }
}

/// The complex number whose parts are the pair, real part first.
pub open spec fn complex_of<T>(pair: Option<(T, T)>) -> Option<Complex<T>> {
    match pair {
        Some((re, im)) => Some(Complex { re, im }),
        None => None,
    }
}

/// Makes a complex number of a pair, real part first.
pub fn complex_from_pair<T>(pair: Option<(T, T)>) -> (point: Option<Complex<T>>)
    ensures
        point == complex_of(pair),
{
    match pair {
        Some((re, im)) => Some(Complex { re, im }),
        None => None,
    }
}

/// The parts of a complex number as a pair, real part first.
pub open spec fn parts_of<T>(point: Option<Complex<T>>) -> Option<(T, T)> {
    match point {
        Some(number) => Some((number.re, number.im)),
        None => None,
    }
}

/// Reads a pair of numbers with a comma between them as a complex number,
/// real part first: the number is there where the pair is, and its parts
/// are what the text before the first comma and the text after it were
/// read as.
pub fn parse_complex<T: FromStr>(s: &str) -> (point: Option<Complex<T>>)
    ensures
        pair_read_from(parts_of(point), s@, ','),
        !s@.contains(',') ==> point is None,
{
    let pair = parse_pair::<T>(s, ',');
    assert(parts_of(complex_of(pair)) == pair);
    complex_from_pair(pair)
}

} // verus!
