use vstd::prelude::*;
use crate::card::{TEXT_LIMIT, TITLE_LIMIT};
use crate::text::{ends_with, has_suffix};

verus! {

/// Why a field's input was rejected.
#[derive(Clone, Copy, Debug, PartialEq, Eq, Structural)]
pub enum FieldError {
    /// The input is longer than the field allows, by this many characters.
    TooLong(usize),
    /// The field cannot be left empty.
    Required,
    /// The input does not parse as an absolute URL.
    InvalidUrl,
    /// The input does not end with an image extension.
    InvalidImageExtension,
    /// The input is not a whole number from 0 to 4294967295.
    NotANumber,
}

/// Whether the text parses as an absolute URL, as the `url` crate decides it.
pub uninterp spec fn is_url(s: Seq<char>) -> bool;

/// Relies on `url::Url::parse`: whether the text parses as a URL.
#[verifier::external_body]
fn url_parses(s: &str) -> (r: bool)
    ensures
        r == is_url(s@),
{
    url::Url::parse(s).is_ok()
}

/// A field result with its text as a character sequence.
pub open spec fn text_result(r: Result<String, FieldError>) -> Result<Seq<char>, FieldError> {
    match r {
        Ok(t) => Ok(t@),
        Err(e) => Err(e),
    }
}

/// A result of an optional field with its text as a character sequence.
pub open spec fn opt_text_result(r: Result<Option<String>, FieldError>) -> Result<
    Option<Seq<char>>,
    FieldError,
> {
    match r {
        Ok(Some(t)) => Ok(Some(t@)),
        Ok(None) => Ok(None),
        Err(e) => Err(e),
    }
}

/// What the title field makes of its input.
pub open spec fn title_check(s: Seq<char>) -> Result<Option<Seq<char>>, FieldError> {
    if s.len() == 0 {
        Ok(None)
    } else if s.len() > TITLE_LIMIT {
        Err(FieldError::TooLong((s.len() - TITLE_LIMIT) as usize))
    } else {
        Ok(Some(s))
    }
}

/// What the prompt text field makes of its input.
pub open spec fn text_check(s: Seq<char>) -> Result<Seq<char>, FieldError> {
    if s.len() == 0 {
        Err(FieldError::Required)
    } else if s.len() > TEXT_LIMIT {
        Err(FieldError::TooLong((s.len() - TEXT_LIMIT) as usize))
    } else {
        Ok(s)
    }
}

/// What the background field makes of its input, given whether it parses as a URL.
pub open spec fn background_check(s: Seq<char>, parses: bool) -> Result<
    Option<Seq<char>>,
    FieldError,
> {
    if s.len() == 0 {
        Ok(None)
    } else if !parses {
        Err(FieldError::InvalidUrl)
    } else if !has_image_extension(s) {
        Err(FieldError::InvalidImageExtension)
    } else {
        Ok(Some(s))
    }
}

/// What the turns field makes of its input.
pub open spec fn turns_check(s: Seq<char>) -> Result<Option<u32>, FieldError> {
    if s.len() == 0 {
        Ok(None)
    } else {
        match u32_text(s) {
            Some(n) => Ok(Some(n)),
            None => Err(FieldError::NotANumber),
        }
    }
}

/// The title field: empty means absent, otherwise at most `TITLE_LIMIT` characters.
pub fn check_title(input: &str) -> (r: Result<Option<String>, FieldError>)
    ensures
        opt_text_result(r) == title_check(input@),
{
    let n = input.unicode_len();
    if n == 0 {
        Ok(None)
    } else if n > TITLE_LIMIT {
        Err(FieldError::TooLong(n - TITLE_LIMIT))
    } else {
        Ok(Some(String::from_str(input)))
    }
}

/// The prompt text: required, at most `TEXT_LIMIT` characters.
pub fn check_text(input: &str) -> (r: Result<String, FieldError>)
    ensures
        text_result(r) == text_check(input@),
{
    let n = input.unicode_len();
    if n == 0 {
        Err(FieldError::Required)
    } else if n > TEXT_LIMIT {
        Err(FieldError::TooLong(n - TEXT_LIMIT))
    } else {
        Ok(String::from_str(input))
    }
}

/// Whether the text ends with one of the accepted image extensions.
pub open spec fn has_image_extension(s: Seq<char>) -> bool {
    ||| ends_with(s, "png"@)
    ||| ends_with(s, "jpg"@)
    ||| ends_with(s, "jpeg"@)
    ||| ends_with(s, "gif"@)
    ||| ends_with(s, "webp"@)
}

/// Whether the text ends with one of the accepted image extensions.
pub fn is_image_name(s: &str) -> (r: bool)
    ensures
        r == has_image_extension(s@),
{
    has_suffix(s, "png") || has_suffix(s, "jpg") || has_suffix(s, "jpeg") || has_suffix(s, "gif")
        || has_suffix(s, "webp")
}

/// The background field, given whether `input` parses as a URL: empty means
/// absent; otherwise it must parse and end with an image extension.
pub fn check_background_with(input: &str, parses: bool) -> (r: Result<Option<String>, FieldError>)
    ensures
        opt_text_result(r) == background_check(input@, parses),
{
    if input.unicode_len() == 0 {
        Ok(None)
    } else if !parses {
        Err(FieldError::InvalidUrl)
    } else if !is_image_name(input) {
        Err(FieldError::InvalidImageExtension)
    } else {
        Ok(Some(String::from_str(input)))
    }
}

/// The background field: empty means absent; otherwise it must parse as a URL
/// and end with an image extension.
pub fn check_background(input: &str) -> (r: Result<Option<String>, FieldError>)
    ensures
        opt_text_result(r) == background_check(input@, is_url(input@)),
{
    if input.unicode_len() == 0 {
        return Ok(None);
    }
    let parses = url_parses(input);
    check_background_with(input, parses)
}

pub open spec fn is_digit(c: char) -> bool {
    '0' <= c && c <= '9'
}

pub open spec fn digit_value(c: char) -> nat {
    (c as u32 - '0' as u32) as nat
}

/// The number that a run of decimal digits writes.
pub open spec fn decimal_value(d: Seq<char>) -> nat
    decreases d.len(),
{
    if d.len() == 0 {
        0
    } else {
        decimal_value(d.drop_last()) * 10 + digit_value(d.last())
    }
}

pub open spec fn all_digits(d: Seq<char>) -> bool {
    forall|i: int| 0 <= i < d.len() ==> is_digit(#[trigger] d[i])
}

/// The digits of a number text: what follows an optional leading `+`.
pub open spec fn unsigned_digits(s: Seq<char>) -> Seq<char> {
    if s.len() > 0 && s[0] == '+' {
        s.skip(1)
    } else {
        s
    }
}

/// The value of a number text in the unsigned 32-bit range: an optional `+`,
/// then one or more decimal digits.
pub open spec fn u32_text(s: Seq<char>) -> Option<u32> {
    let d = unsigned_digits(s);
    if d.len() > 0 && all_digits(d) && decimal_value(d) <= u32::MAX {
        Some(decimal_value(d) as u32)
    } else {
        None
    }
}

pub open spec fn capped(v: nat) -> nat {
    if v > 0x1_0000_0000 {
        0x1_0000_0000
    } else {
        v
    }
}

pub proof fn lemma_capped_step(v: nat, x: nat)
    requires
        x < 10,
    ensures
        capped(capped(v) * 10 + x) == capped(v * 10 + x),
{
    if v > 0x1_0000_0000 {
        assert(v * 10 + x > 0x1_0000_0000) by (nonlinear_arith)
            requires
                v > 0x1_0000_0000,
        ;
    }
}

/// Reads an unsigned 32-bit number: an optional `+`, then decimal digits.
pub fn parse_u32(s: &str) -> (r: Option<u32>)
    ensures
        r == u32_text(s@),
{
    let cs = crate::text::chars_of(s);
    let n = cs.len();
    let start: usize = if n > 0 && cs[0] == '+' { 1 } else { 0 };
    let ghost d = unsigned_digits(s@);
    assert(d =~= cs@.subrange(start as int, n as int));
    if start == n {
        return None;
    }
    let mut acc: u64 = 0;
    let mut k: usize = start;
    while k < n
        invariant
            cs@ == s@,
            n == cs@.len(),
            start <= k <= n,
            d =~= cs@.subrange(start as int, n as int),
            d == unsigned_digits(s@),
            all_digits(d.take(k - start)),
            acc as nat == capped(decimal_value(d.take(k - start))),
        decreases n - k,
    {
        let c = cs[k];
        if c < '0' || c > '9' {
            assert(d[(k - start) as int] == cs@[k as int]);
            assert(!is_digit(d[(k - start) as int]));
            assert(!all_digits(d));
            return None;
        }
        let x: u64 = (c as u32 - '0' as u32) as u64;
        proof {
            let t = d.take(k - start + 1);
            assert(t.drop_last() =~= d.take(k - start));
            assert(t.last() == c);
            lemma_capped_step(decimal_value(d.take(k - start)), x as nat);
        }
        let next: u64 = acc * 10 + x;
        acc = if next > 0x1_0000_0000 { 0x1_0000_0000 } else { next };
        k = k + 1;
    }
    assert(d.take(n - start) =~= d);
    if acc > 0xFFFF_FFFF {
        None
    } else {
        Some(acc as u32)
    }
}

/// The turns field: empty means absent; otherwise an unsigned 32-bit number.
pub fn check_turns(input: &str) -> (r: Result<Option<u32>, FieldError>)
    ensures
        r == turns_check(input@),
{
    if input.unicode_len() == 0 {
        return Ok(None);
    }
    match parse_u32(input) {
        Some(t) => Ok(Some(t)),
        None => Err(FieldError::NotANumber),
    }
}

} // verus!
