use vstd::prelude::*;
use std::str::FromStr;

verus! {

/// `index` is the place of the first `separator` in `text`.
pub open spec fn is_first_at(text: Seq<char>, separator: char, index: int) -> bool {
    &&& 0 <= index < text.len()
    &&& text[index] == separator
    &&& forall|j: int| 0 <= j < index ==> text[j] != separator
}

/// `left` and `right` are what stands before and after the first `separator`
/// in `text`.
pub open spec fn is_split_of(
    text: Seq<char>,
    separator: char,
    left: Seq<char>,
    right: Seq<char>,
) -> bool {
    &&& text == left + seq![separator] + right
    &&& !left.contains(separator)
}

/// What two parsed halves make together: a pair where both were read, and
/// nothing where either was not.
pub open spec fn both_of<T>(left: Option<T>, right: Option<T>) -> Option<(T, T)> {
    match (left, right) {
        (Some(first), Some(second)) => Some((first, second)),
        _ => None,
    }
}

/// A text that splits at a separator holds it, and its first one stands right
/// after the left half.
pub proof fn lemma_split_holds_separator(
    text: Seq<char>,
    separator: char,
    left: Seq<char>,
    right: Seq<char>,
)
    requires
        is_split_of(text, separator, left, right),
    ensures
        text.contains(separator),
        is_first_at(text, separator, left.len() as int),
{
    assert(text[left.len() as int] == separator);
    assert forall|j: int| 0 <= j < left.len() implies text[j] != separator by {
        assert(text[j] == left[j]);
        assert(left.contains(left[j]));
    }
}

/// Reads `text` as a `T` with `T`'s own `FromStr::from_str`, and keeps the
/// value where that succeeds. What `from_str` accepts and returns is for the
/// type `T` to say: nothing is claimed of the result here.
#[verifier::external_body]
fn parse_part<T: FromStr>(text: &str) -> (value: Option<T>) {
    match T::from_str(text) {
        Ok(value) => Some(value),
        Err(_) => None,
    }
}

/// Cuts `s` at its first `separator`: what stands before it and what stands
/// after it. `None` says that `s` holds no `separator`.
pub fn split_pair(s: &str, separator: char) -> (halves: Option<(&str, &str)>)
    ensures
        match halves {
            Some((left, right)) => is_split_of(s@, separator, left@, right@),
            None => !s@.contains(separator),
        },
{
    let total: usize = s.unicode_len();
    let mut index: usize = 0;
    for c in it: s.chars()
        invariant
            index == it.index(),
            it.seq() == s@,
            total == s@.len(),
            forall|j: int| 0 <= j < index ==> s@[j] != separator,
    {
        if c == separator {
            let left = s.substring_char(0, index);
            let right = s.substring_char(index + 1, total);
            proof {
                assert(s@ =~= left@ + seq![separator] + right@);
                assert(!left@.contains(separator));
            }
            return Some((left, right));
        }
        index += 1;
    }
    None
}

/// Puts two parsed halves together.
pub fn pair_of<T>(left: Option<T>, right: Option<T>) -> (pair: Option<(T, T)>)
    ensures
        pair == both_of(left, right),
{
    match (left, right) {
        (Some(first), Some(second)) => Some((first, second)),
        _ => None,
    }
}

/// Reads `s` as two values of type `T` with `separator` between them, such as
/// `"400x600"` or `"1.0,0.5"`. The text is cut at the first `separator`, and
/// both halves have to read as a `T`.
pub fn parse_pair<T: FromStr>(s: &str, separator: char) -> (pair: Option<(T, T)>)
    ensures
        !s@.contains(separator) ==> pair is None,
{
    match split_pair(s, separator) {
        None => None,
        Some((left, right)) => {
            proof {
                lemma_split_holds_separator(s@, separator, left@, right@);
            }
            pair_of(parse_part::<T>(left), parse_part::<T>(right))
        },
    }
}

} // verus!
