//! Parsing of a pair of values written with a separator between them, such
//! as `1000x750` or `-1.20,0.35`.

use vstd::prelude::*;
use vstd::string::StrSliceExecFns;

verus! {

/// Splits `s` at the first occurrence of `separator`.
///
/// The halves are what stands before and after that occurrence; the
/// separator itself belongs to neither. A string without the separator has
/// no halves.
pub fn split_pair<'a>(s: &'a str, separator: char) -> (halves: Option<(&'a str, &'a str)>)
    ensures
        match halves {
            Some((left, right)) => {
                &&& !left@.contains(separator)
                &&& s@ == left@.push(separator) + right@
            },
            None => !s@.contains(separator),
        },
{
    let length: usize = s.unicode_len();
    let mut index: usize = 0;
    for c in iter: s.chars()
        invariant
            index == iter.index(),
            iter.seq() == s@,
            length == s@.len(),
            forall|j: int| 0 <= j < index ==> s@[j] != separator,
    {
        if c == separator {
            let left = s.substring_char(0, index);
            let right = s.substring_char(index + 1, length);
            assert(s@ =~= left@.push(separator) + right@);
            return Some((left, right));
        }
        index = index + 1;
    }
    None
}

/// Parses one half of a pair by `T`'s own `FromStr::from_str`, keeping the
/// value and dropping the error. What a type accepts is that type's
/// business, so nothing is claimed of the result.
#[verifier::external_body]
fn parse_half<T: core::str::FromStr>(half: &str) -> (value: Option<T>) {
    T::from_str(half).ok()
}

/// The pair of two parsed halves: there is one when both halves parsed.
pub open spec fn pair_of_spec<T>(left: Option<T>, right: Option<T>) -> Option<(T, T)> {
    match (left, right) {
        (Some(l), Some(r)) => Some((l, r)),
        _ => None,
    }
}

/// Joins the results of parsing the two halves of a pair.
pub fn pair_of<T>(left: Option<T>, right: Option<T>) -> (pair: Option<(T, T)>)
    ensures
        pair == pair_of_spec(left, right),
{
    match (left, right) {
        (Some(l), Some(r)) => Some((l, r)),
        _ => None,
    }
}

/// Parses `s`, of the form left, separator, right, as a pair of values of
/// type `T`.
///
/// The string is split at the first occurrence of `separator` and each half
/// is parsed as a `T`. There is no pair when the separator is missing, and
/// none when either half does not parse; which halves parse is for `T` to
/// say.
pub fn parse_pair<T: core::str::FromStr>(s: &str, separator: char) -> (pair: Option<(T, T)>)
    ensures
        !s@.contains(separator) ==> pair is None,
        s@.contains(separator) ==> exists|l: Option<T>, r: Option<T>|
            #[trigger] parsed_halves(s@, separator, l, r) && pair == pair_of_spec(l, r),
{
    match split_pair(s, separator) {
        Some((left, right)) => {
            assert(s@[left@.len() as int] == separator);
            let parse = parse_half::<T>;
            let l = parse(left);
            let r = parse(right);
            assert(parsed_halves(s@, separator, l, r));
            pair_of(l, r)
        },
        None => None,
    }
}

/// `l` and `r` are what parsing gave for the two halves of `s`: for what
/// stands before the first occurrence of `separator`, and for what stands
/// after it.
pub closed spec fn parsed_halves<T: core::str::FromStr>(
    s: Seq<char>,
    separator: char,
    l: Option<T>,
    r: Option<T>,
) -> bool {
    exists|left: &str, right: &str|
        {
            &&& s == left@.push(separator) + right@
            &&& !left@.contains(separator)
            &&& #[trigger] call_ensures(parse_half::<T>, (left,), l)
            &&& #[trigger] call_ensures(parse_half::<T>, (right,), r)
        }
}

} // verus!
