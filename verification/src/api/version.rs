use vstd::prelude::*;

verus! {

pub const LZMA_VERSION_MAJOR: u32 = 5;

pub const LZMA_VERSION_MINOR: u32 = 4;

pub const LZMA_VERSION_PATCH: u32 = 4;

pub const LZMA_VERSION_STABILITY_ALPHA: u32 = 0;

pub const LZMA_VERSION_STABILITY_BETA: u32 = 1;

pub const LZMA_VERSION_STABILITY_STABLE: u32 = 2;

pub const LZMA_VERSION_STABILITY: u32 = LZMA_VERSION_STABILITY_STABLE;

pub const LZMA_VERSION: u32 = LZMA_VERSION_MAJOR * 10000000 + LZMA_VERSION_MINOR * 10000
    + LZMA_VERSION_PATCH * 10 + LZMA_VERSION_STABILITY;

pub const LZMA_VERSION_COMMIT: &'static str = "";

pub const LZMA_VERSION_STABILITY_STRING: &'static str = "";

/// The character of the decimal digit `d`.
pub open spec fn digit_char(d: nat) -> char {
    if d == 0 {
        '0'
    } else if d == 1 {
        '1'
    } else if d == 2 {
        '2'
    } else if d == 3 {
        '3'
    } else if d == 4 {
        '4'
    } else if d == 5 {
        '5'
    } else if d == 6 {
        '6'
    } else if d == 7 {
        '7'
    } else if d == 8 {
        '8'
    } else {
        '9'
    }
}

/// The decimal digits of `n`, without sign or leading zeros.
pub open spec fn decimal(n: nat) -> Seq<char>
    decreases n,
{
    if n < 10 {
        seq![digit_char(n)]
    } else {
        decimal(n / 10).push(digit_char(n % 10))
    }
}

/// A version as text: the three numbers in decimal with a dot between
/// them, then the stability suffix and the commit.
pub open spec fn version_text(major: u32, minor: u32, patch: u32, stability: Seq<char>, commit: Seq<
    char,
>) -> Seq<char> {
    decimal(major as nat) + seq!['.'] + decimal(minor as nat) + seq!['.'] + decimal(patch as nat)
        + stability + commit
}

/// Formats a version with `format!`, which writes an unsigned integer
/// as its decimal digits and a string as it stands: the result is taken
/// to be `version_text` of the arguments.
#[verifier::external_body]
pub fn lzma_version_string_c_(major: u32, minor: u32, patch: u32, stability: &str, commit: &str) -> (text:
    String)
    ensures
        text@ == version_text(major, minor, patch, stability@, commit@),
{
    format!("{}.{}.{}{}{}", major, minor, patch, stability, commit)
}

/// A version as text, such as "5.4.4": the three numbers in decimal
/// with a dot between them, then the stability suffix and the commit.
pub fn lzma_version_string_c(major: u32, minor: u32, patch: u32, stability: &str, commit: &str) -> (text:
    String)
    ensures
        text@ == version_text(major, minor, patch, stability@, commit@),
{
    lzma_version_string_c_(major, minor, patch, stability, commit)
}

} // verus!
