//! Validation rules for identifiers, display names and path components.

use vstd::prelude::*;
use vstd::string::StringSliceAdditionalSpecFns;

verus! {

/// Why a piece of text was rejected.
#[derive(Clone, Copy, Debug, PartialEq, Eq, Structural)]
pub enum ValidationError {
    TrailingMinus,
    DoubleMinus,
    Empty,
    InvalidChar(u8),
    InvalidFirstChar(u8),
    TooLong,
    TrailingSpace,
    TrailingDot,
    Reserved,
}

pub open spec fn is_lower(c: u8) -> bool {
    0x61 <= c <= 0x7a
}

pub open spec fn is_upper(c: u8) -> bool {
    0x41 <= c <= 0x5a
}

pub open spec fn is_digit(c: u8) -> bool {
    0x30 <= c <= 0x39
}

pub open spec fn is_alpha(c: u8) -> bool {
    is_lower(c) || is_upper(c)
}

pub open spec fn is_alnum(c: u8) -> bool {
    is_alpha(c) || is_digit(c)
}

/// ASCII punctuation: the printable characters that are neither letters,
/// digits nor space.
pub open spec fn is_punct(c: u8) -> bool {
    (0x21 <= c <= 0x2f) || (0x3a <= c <= 0x40) || (0x5b <= c <= 0x60) || (0x7b <= c <= 0x7e)
}

/// A byte allowed in an identifier.
pub open spec fn id_byte(c: u8) -> bool {
    is_lower(c) || is_digit(c) || c == 0x2d
}

/// A byte allowed in a display name after its first byte.
pub open spec fn name_byte(c: u8) -> bool {
    is_alnum(c) || is_punct(c) || c == 0x20
}

/// A byte allowed in a path component.
pub open spec fn path_byte(c: u8) -> bool {
    is_alnum(c) || c == 0x2e || c == 0x5f || c == 0x2d
}

/// The byte classes that the validators accept after any special position.
#[derive(Clone, Copy, Debug, PartialEq, Eq, Structural)]
pub enum Alphabet {
    Id,
    Name,
    Path,
}

pub open spec fn allowed(a: Alphabet, c: u8) -> bool {
    match a {
        Alphabet::Id => id_byte(c),
        Alphabet::Name => name_byte(c),
        Alphabet::Path => path_byte(c),
    }
}

/// The first byte of `b` outside the alphabet `a`, if any.
pub open spec fn first_rejected(b: Seq<u8>, a: Alphabet) -> Option<u8>
    decreases b.len(),
{
    if b.len() == 0 {
        None
    } else if !allowed(a, b[0]) {
        Some(b[0])
    } else {
        first_rejected(b.drop_first(), a)
    }
}

pub open spec fn starts_with(b: Seq<u8>, c: u8) -> bool {
    b.len() > 0 && b[0] == c
}

pub open spec fn ends_with(b: Seq<u8>, c: u8) -> bool {
    b.len() > 0 && b.last() == c
}

pub open spec fn has_double_minus(b: Seq<u8>) -> bool {
    exists|i: int| 0 <= i < b.len() - 1 && #[trigger] b[i] == 0x2d && b[i + 1] == 0x2d
}

/// The outcome of identifier validation on the bytes `b`, rules in order.
pub open spec fn id_verdict(b: Seq<u8>) -> Result<(), ValidationError> {
    if b.len() > 16 {
        Err(ValidationError::TooLong)
    } else if starts_with(b, 0x2d) || ends_with(b, 0x2d) {
        Err(ValidationError::TrailingMinus)
    } else if has_double_minus(b) {
        Err(ValidationError::DoubleMinus)
    } else if b.len() == 0 {
        Err(ValidationError::Empty)
    } else {
        match first_rejected(b, Alphabet::Id) {
            Some(c) => Err(ValidationError::InvalidChar(c)),
            None => Ok(()),
        }
    }
}

/// The outcome of display-name validation on the bytes `b`, rules in order.
pub open spec fn name_verdict(b: Seq<u8>) -> Result<(), ValidationError> {
    if b.len() > 40 {
        Err(ValidationError::TooLong)
    } else if ends_with(b, 0x20) {
        Err(ValidationError::TrailingSpace)
    } else if b.len() == 0 {
        Err(ValidationError::Empty)
    } else if !is_alpha(b[0]) {
        Err(ValidationError::InvalidFirstChar(b[0]))
    } else {
        match first_rejected(b.drop_first(), Alphabet::Name) {
            Some(c) => Err(ValidationError::InvalidChar(c)),
            None => Ok(()),
        }
    }
}

/// `meta` and `bin` name fixed files on the device.
pub open spec fn is_reserved(b: Seq<u8>) -> bool {
    b =~= seq![0x6du8, 0x65u8, 0x74u8, 0x61u8] || b =~= seq![0x62u8, 0x69u8, 0x6eu8]
}

/// The outcome of path-component validation on the bytes `b`, rules in order.
pub open spec fn path_verdict(b: Seq<u8>) -> Result<(), ValidationError> {
    if starts_with(b, 0x2e) {
        Err(ValidationError::TrailingDot)
    } else if b.len() == 0 {
        Err(ValidationError::Empty)
    } else if is_reserved(b) {
        Err(ValidationError::Reserved)
    } else {
        match first_rejected(b, Alphabet::Path) {
            Some(c) => Err(ValidationError::InvalidChar(c)),
            None => Ok(()),
        }
    }
}

proof fn lemma_first_rejected_step(b: Seq<u8>, i: int, a: Alphabet)
    requires
        0 <= i < b.len(),
        allowed(a, b[i]),
    ensures
        first_rejected(b.skip(i), a) == first_rejected(b.skip(i + 1), a),
{
    assert(b.skip(i).drop_first() =~= b.skip(i + 1));
}

fn is_allowed(a: Alphabet, c: u8) -> (r: bool)
    ensures
        r == allowed(a, c),
{
    let alnum = (0x61 <= c && c <= 0x7a) || (0x41 <= c && c <= 0x5a) || (0x30 <= c && c <= 0x39);
    match a {
        Alphabet::Id => (0x61 <= c && c <= 0x7a) || (0x30 <= c && c <= 0x39) || c == 0x2d,
        Alphabet::Name => alnum || (0x21 <= c && c <= 0x2f) || (0x3a <= c && c <= 0x40) || (0x5b
            <= c && c <= 0x60) || (0x7b <= c && c <= 0x7e) || c == 0x20,
        Alphabet::Path => alnum || c == 0x2e || c == 0x5f || c == 0x2d,
    }
}

/// Scans `b` from `start` for a byte outside the alphabet `a`.
fn scan_rejected(b: &[u8], start: usize, a: Alphabet) -> (r: Option<u8>)
    requires
        start <= b@.len(),
    ensures
        r == first_rejected(b@.skip(start as int), a),
{
    let mut i: usize = start;
    while i < b.len()
        invariant
            start <= i <= b@.len(),
            first_rejected(b@.skip(i as int), a) == first_rejected(b@.skip(start as int), a),
        decreases b@.len() - i,
    {
        let c = b[i];
        if !is_allowed(a, c) {
            assert(b@.skip(i as int)[0] == c);
            return Some(c);
        }
        proof {
            lemma_first_rejected_step(b@, i as int, a);
        }
        i = i + 1;
    }
    assert(b@.skip(i as int).len() == 0);
    None
}

fn has_double_minus_exec(b: &[u8]) -> (r: bool)
    ensures
        r == has_double_minus(b@),
{
    let mut i: usize = 0;
    while i < b.len()
        invariant
            i <= b@.len(),
            forall|j: int| 0 <= j < i && j < b.len() - 1 ==> !(#[trigger] b@[j] == 0x2d && b@[j + 1] == 0x2d),
        decreases b@.len() - i,
    {
        if i + 1 < b.len() && b[i] == 0x2d && b[i + 1] == 0x2d {
            return true;
        }
        i = i + 1;
    }
    false
}

/// Validate the author or the app ID.
///
/// An ID has 1 to 16 bytes: ASCII lowercase letters, ASCII digits and
/// hyphens, with no hyphen at either end and no two hyphens in a row.
/// Restricting the alphabet keeps IDs safe to use as directory names.
pub fn validate_id(s: &str) -> (r: Result<(), ValidationError>)
    ensures
        r == id_verdict(s.spec_bytes()),
{
    let b = s.as_bytes();
    let n = b.len();
    if n > 16 {
        return Err(ValidationError::TooLong);
    }
    if (n > 0 && b[0] == 0x2d) || (n > 0 && b[n - 1] == 0x2d) {
        return Err(ValidationError::TrailingMinus);
    }
    if has_double_minus_exec(b) {
        return Err(ValidationError::DoubleMinus);
    }
    if n == 0 {
        return Err(ValidationError::Empty);
    }
    proof {
        assert(b@.skip(0) =~= b@);
    }
    match scan_rejected(b, 0, Alphabet::Id) {
        Some(c) => Err(ValidationError::InvalidChar(c)),
        None => Ok(()),
    }
}

/// Validate a display name (app name, author name).
///
/// A name has at most 40 bytes, starts with an ASCII letter, does not end
/// with a space, and holds only ASCII letters, digits, punctuation and
/// spaces. A valid name is printable but not necessarily a safe file name.
pub fn validate_name(s: &str) -> (r: Result<(), ValidationError>)
    ensures
        r == name_verdict(s.spec_bytes()),
{
    let b = s.as_bytes();
    let n = b.len();
    if n > 40 {
        return Err(ValidationError::TooLong);
    }
    if n > 0 && b[n - 1] == 0x20 {
        return Err(ValidationError::TrailingSpace);
    }
    if n == 0 {
        return Err(ValidationError::Empty);
    }
    let c = b[0];
    if !((0x61 <= c && c <= 0x7a) || (0x41 <= c && c <= 0x5a)) {
        return Err(ValidationError::InvalidFirstChar(c));
    }
    proof {
        assert(b@.skip(1) =~= b@.drop_first());
    }
    match scan_rejected(b, 1, Alphabet::Name) {
        Some(c) => Err(ValidationError::InvalidChar(c)),
        None => Ok(()),
    }
}

/// Validate a path component (file or directory name).
///
/// A component is not empty, does not start with a dot, holds only ASCII
/// letters, digits, `.`, `_` and `-`, and is neither `meta` nor `bin`.
pub fn validate_path_part(s: &str) -> (r: Result<(), ValidationError>)
    ensures
        r == path_verdict(s.spec_bytes()),
{
    let b = s.as_bytes();
    let n = b.len();
    if n > 0 && b[0] == 0x2e {
        return Err(ValidationError::TrailingDot);
    }
    if n == 0 {
        return Err(ValidationError::Empty);
    }
    let meta = n == 4 && b[0] == 0x6d && b[1] == 0x65 && b[2] == 0x74 && b[3] == 0x61;
    let bin = n == 3 && b[0] == 0x62 && b[1] == 0x69 && b[2] == 0x6e;
    if meta || bin {
        return Err(ValidationError::Reserved);
    }
    proof {
        assert(b@.skip(0) =~= b@);
        if is_reserved(b@) {
            if b@.len() == 4 {
                assert(b@ =~= seq![0x6du8, 0x65u8, 0x74u8, 0x61u8]);
            }
        }
    }
    match scan_rejected(b, 0, Alphabet::Path) {
        Some(c) => Err(ValidationError::InvalidChar(c)),
        None => Ok(()),
    }
}

} // verus!
