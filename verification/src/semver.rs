//! Version ranges and versions, as `semver_rs` reads them.
//!
//! The library does not look into a range or a version itself. It asks
//! `semver_rs` whether a text is a range, what it reads a text as where a
//! version is expected, and whether a range admits a version, and gives each
//! answer a name.

use vstd::prelude::*;
use vstd::string::is_ascii_spec_bytes;
use vstd::utf8::is_ascii_chars;
use semver_rs::Range;
use semver_rs::Version;

verus! {

/// Whether `semver_rs` reads this text as a range, with its default options.
pub uninterp spec fn range_parses(constraint: Seq<char>) -> bool;

/// What `semver_rs` makes of this text where a version is expected, with its
/// default options: nothing where it reports an error, else whether what it
/// read is the empty version. It reads a text that has not the form of a
/// version as the empty version, and reports an error only for a number that
/// it cannot hold.
pub uninterp spec fn version_read(version: Seq<char>) -> Option<bool>;

/// Whether both texts are read, and the range admits the version.
pub uninterp spec fn range_admits(constraint: Seq<char>, version: Seq<char>) -> bool;

/// Whether a text is a version: it is read, and not as the empty version.
pub open spec fn is_version(text: Seq<char>) -> bool {
    version_read(text) == Some(false)
}

/// An ASCII digit.
pub open spec fn is_digit(c: char) -> bool {
    '0' <= c <= '9'
}

/// Only digits stand from `from` up to `to`.
pub open spec fn all_digits(text: Seq<char>, from: int, to: int) -> bool {
    forall|i: int| from <= i < to ==> is_digit(#[trigger] text[i])
}

/// The longest number that a constraint may hold, in digits: so many that
/// one more than the number still fits in an `i64` and in a `usize`.
pub open spec fn max_digits() -> int {
    if usize::BITS >= 64 {
        18
    } else {
        9
    }
}

/// Whether the text is ASCII and holds no run of more than `max_digits()`
/// digits. Only such a text is tried as a range.
///
/// This is coarser than what a range needs. A text with white space beyond
/// ASCII, or with a longer run of digits in a part where no number is
/// computed with, is not plain either, and so is no constraint to this
/// library.
pub open spec fn is_plain(text: Seq<char>) -> bool {
    &&& is_ascii_chars(text)
    &&& forall|from: int|
        0 <= from && from + max_digits() + 1 <= text.len() ==> !#[trigger] all_digits(
            text,
            from,
            from + max_digits() + 1,
        )
}

/// The longest number that a constraint may hold, in digits.
pub fn digits_limit() -> (limit: usize)
    ensures
        limit == max_digits(),
{
    if usize::BITS >= 64 {
        18
    } else {
        9
    }
}

/// Whether a text is plain.
pub fn is_plain_text(text: &str) -> (plain: bool)
    ensures
        plain == is_plain(text@),
{
    if !text.is_ascii() {
        return false;
    }
    let bytes = text.as_bytes();
    proof {
        is_ascii_spec_bytes(text);
    }
    let limit = digits_limit();
    let mut run: usize = 0;
    let mut i: usize = 0;
    while i < bytes.len()
        invariant
            is_ascii_chars(text@),
            bytes@.len() == text@.len(),
            forall|j: int| 0 <= j < bytes@.len() ==> bytes@[j] == (#[trigger] text@[j]) as u8,
            limit == max_digits(),
            i <= bytes.len(),
            run <= i,
            run <= limit,
            all_digits(text@, i - run, i as int),
            run < i ==> !is_digit(text@[i - run - 1]),
            forall|from: int|
                0 <= from && from + limit + 1 <= i ==> !#[trigger] all_digits(
                    text@,
                    from,
                    from + limit + 1,
                ),
        decreases bytes.len() - i,
    {
        let byte = bytes[i];
        let ghost c = text@[i as int];
        assert(byte == c as u8);
        assert('\0' <= c <= '\u{7f}');
        if 48 <= byte && byte <= 57 {
            assert(is_digit(c));
            if run == limit {
                proof {
                    let from = i - limit;
                    assert(all_digits(text@, from, from + limit + 1));
                }
                return false;
            }
            proof {
                let from = i - limit;
                if from >= 0 {
                    assert(!is_digit(text@[i - run - 1]));
                    assert(!all_digits(text@, from, from + limit + 1));
                }
            }
            run += 1;
        } else {
            assert(!is_digit(c));
            proof {
                let from = i - limit;
                if from >= 0 {
                    assert(!is_digit(text@[i as int]));
                    assert(!all_digits(text@, from, from + limit + 1));
                }
            }
            run = 0;
        }
        i += 1;
    }
    true
}

/// `Range::new(..).parse()`: whether the text is read as a range. Its parser
/// reads the numbers in the text as `i64` and as `usize` and adds one to
/// them, so only a plain text is handed to it.
#[verifier::external_body]
fn parses_as_range(constraint: &str) -> (valid: bool)
    requires
        is_plain(constraint@),
    ensures
        valid == range_parses(constraint@),
{
    Range::new(constraint).parse().is_ok()
}

/// `Version::new(..).parse()`, and `Version::is_empty` of what it returns.
#[verifier::external_body]
fn read_version(version: &str) -> (read: Option<bool>)
    ensures
        read == version_read(version@),
{
    Version::new(version).parse().ok().map(|version| version.is_empty())
}

/// `Range::test` on what the two texts are read as; `false` where one of them
/// is not read. The empty version is never tested.
#[verifier::external_body]
pub(crate) fn range_test(constraint: &str, version: &str) -> (admitted: bool)
    requires
        is_plain(constraint@),
        is_version(version@),
    ensures
        admitted == range_admits(constraint@, version@),
{
    match (Range::new(constraint).parse(), Version::new(version).parse()) {
        (Ok(range), Ok(version)) => range.test(&version),
        _ => false,
    }
}

/// Whether a text can serve as a constraint: it is plain, and a range.
pub open spec fn is_constraint(text: Seq<char>) -> bool {
    is_plain(text) && range_parses(text)
}

/// Whether a text can serve as a constraint. A text that is not plain is
/// none, whatever it would be read as.
pub fn is_valid_constraint(text: &str) -> (valid: bool)
    ensures
        valid == is_constraint(text@),
{
    is_plain_text(text) && parses_as_range(text)
}

/// Whether a text is a version. A text that has not the form of a version is
/// none.
pub fn is_valid_version(text: &str) -> (valid: bool)
    ensures
        valid == is_version(text@),
{
    match read_version(text) {
        Some(empty) => !empty,
        None => false,
    }
}

/// Whether a constraint admits a version. A text that is not plain admits
/// none, and a text that is no version is admitted by none.
pub open spec fn admits(constraint: Seq<char>, version: Seq<char>) -> bool {
    is_plain(constraint) && is_version(version) && range_admits(constraint, version)
}

/// Whether a constraint admits a version.
pub fn satisfies(constraint: &str, version: &str) -> (admitted: bool)
    ensures
        admitted == admits(constraint@, version@),
{
    is_plain_text(constraint) && is_valid_version(version) && range_test(constraint, version)
}

} // verus!
