//! The lexical pieces of the text format: blanks, words, fields that run up to a
//! delimiter, and numbers. Every piece is described over the UTF-8 bytes of the text.
use vstd::prelude::*;
use vstd::utf8::*;
use vstd::string::*;

use crate::error::RvmError;

verus! {

broadcast use {vstd::utf8::encode_utf8_valid_utf8, vstd::utf8::encode_utf8_decode_utf8};

/// Space, tab, carriage return and line feed.
pub open spec fn is_space_byte(b: u8) -> bool {
    b == 32u8 || b == 9u8 || b == 13u8 || b == 10u8
}

/// An ASCII letter.
pub open spec fn is_alpha_byte(b: u8) -> bool {
    (65u8 <= b && b <= 90u8) || (97u8 <= b && b <= 122u8)
}

/// The first position at or after `i` that does not hold a blank.
pub open spec fn blank_end(s: Seq<u8>, i: int) -> int
    decreases s.len() - i,
{
    if 0 <= i < s.len() && is_space_byte(s[i]) {
        blank_end(s, i + 1)
    } else {
        i
    }
}

/// The first position at or after `i` that does not hold a letter.
pub open spec fn alpha_end(s: Seq<u8>, i: int) -> int
    decreases s.len() - i,
{
    if 0 <= i < s.len() && is_alpha_byte(s[i]) {
        alpha_end(s, i + 1)
    } else {
        i
    }
}

/// The first position at or after `i` that holds `c`, if any.
pub open spec fn find_byte(s: Seq<u8>, i: int, c: u8) -> Option<int>
    decreases s.len() - i,
{
    if i < 0 || i >= s.len() {
        None
    } else if s[i] == c {
        Some(i)
    } else {
        find_byte(s, i + 1, c)
    }
}

/// What is left of `s` once its leading blanks are skipped.
pub open spec fn ws(s: Seq<u8>) -> Seq<u8> {
    s.skip(blank_end(s, 0))
}

/// A non-empty run of letters: the rest of the input, and the word.
pub open spec fn spec_alpha1(s: Seq<u8>) -> Result<(Seq<u8>, Seq<u8>), RvmError> {
    let n = alpha_end(s, 0);
    if n == 0 {
        Err(RvmError::Alpha)
    } else {
        Ok((s.skip(n), s.take(n)))
    }
}

/// Everything before the first `c`: the rest of the input (which starts at that `c`),
/// and the field.
pub open spec fn spec_take_until(s: Seq<u8>, c: u8) -> Result<(Seq<u8>, Seq<u8>), RvmError> {
    match find_byte(s, 0, c) {
        Some(n) => Ok((s.skip(n), s.take(n))),
        None => Err(RvmError::TakeUntil),
    }
}

/// The characters that the bytes `b` encode.
pub open spec fn text(b: Seq<u8>) -> Seq<char> {
    decode_utf8(b)
}

/// How nom reports a parser that did not succeed.
#[derive(Debug, Clone, Copy, PartialEq, Eq, Structural)]
pub enum NomFailure {
    Incomplete,
    Error,
    Failure,
}

/// What nom's complete `float` parser gives back for a text: the rest of the text
/// and the bit pattern of the number it read, or how it failed.
pub uninterp spec fn nom_float(input: Seq<char>) -> Result<(Seq<char>, u32), NomFailure>;

/// A number at the very start of `s` (no blanks skipped), as nom reads it: the rest of
/// the input and the number's bit pattern.
pub open spec fn spec_float(s: Seq<u8>) -> Result<(Seq<u8>, u32), RvmError> {
    match nom_float(text(s)) {
        Ok((rest, bits)) => {
            let r = encode_utf8(rest);
            if r.len() < s.len() && r == s.skip(s.len() - r.len()) {
                Ok((r, bits))
            } else {
                Err(RvmError::Float)
            }
        },
        Err(NomFailure::Failure) => Err(RvmError::FloatCut),
        Err(_) => Err(RvmError::Float),
    }
}

/// Blanks, then a number.
pub open spec fn spec_ws_float(s: Seq<u8>) -> Result<(Seq<u8>, u32), RvmError> {
    spec_float(ws(s))
}

/// `n` times: blanks, then a number. The numbers in order.
pub open spec fn spec_floats(s: Seq<u8>, n: nat) -> Result<(Seq<u8>, Seq<u32>), RvmError>
    decreases n,
{
    if n == 0 {
        Ok((s, Seq::empty()))
    } else {
        match spec_floats(s, (n - 1) as nat) {
            Err(e) => Err(e),
            Ok((r, v)) => match spec_ws_float(r) {
                Err(e) => Err(e),
                Ok((r2, x)) => Ok((r2, v.push(x))),
            },
        }
    }
}

/// The outcome of a text parser, with the rest of its input taken as bytes and its
/// value by its view.
pub open spec fn text_view<V: View>(r: Result<(&str, V), RvmError>) -> Result<
    (Seq<u8>, V::V),
    RvmError,
> {
    match r {
        Ok((rest, v)) => Ok((rest.spec_bytes(), v@)),
        Err(e) => Err(e),
    }
}

/// A position just after an ASCII byte that starts a character starts a character too.
pub proof fn lemma_boundary_step(bytes: Seq<u8>, i: int)
    requires
        valid_utf8(bytes),
        is_char_boundary(bytes, i),
        0 <= i < bytes.len(),
        bytes[i] < 0x80,
    ensures
        is_char_boundary(bytes, i + 1),
    decreases bytes.len(),
{
    let l = length_of_first_scalar(bytes);
    let rest = pop_first_scalar(bytes);
    assert(valid_utf8(rest));
    if i == 0 {
        assert(l == 1);
        assert(is_char_boundary(rest, 0));
    } else {
        assert(is_char_boundary(rest, i - l));
        assert(rest[i - l] == bytes[i]);
        lemma_boundary_step(rest, i - l);
    }
}

/// A position that holds an ASCII byte starts a character.
pub proof fn lemma_boundary_at_ascii(bytes: Seq<u8>, i: int)
    requires
        valid_utf8(bytes),
        0 <= i < bytes.len(),
        bytes[i] < 0x80,
    ensures
        is_char_boundary(bytes, i),
{
    is_char_boundary_iff_not_is_continuation_byte(bytes, i);
}

/// Splits `input` at byte `mid`, which must start a character.
fn split_text(input: &str, mid: usize) -> (r: (&str, &str))
    requires
        is_char_boundary(input.spec_bytes(), mid as int),
        mid <= input.spec_bytes().len(),
    ensures
        r.0.spec_bytes() == input.spec_bytes().take(mid as int),
        r.1.spec_bytes() == input.spec_bytes().skip(mid as int),
        r.0@ == text(input.spec_bytes().take(mid as int)),
{
    let r = input.split_at(mid);
    proof {
        assert(r.0.spec_bytes() =~= input.spec_bytes().take(mid as int));
        assert(r.1.spec_bytes() =~= input.spec_bytes().skip(mid as int));
    }
    r
}

fn is_space(b: u8) -> (r: bool)
    ensures
        r == is_space_byte(b),
{
    b == 32 || b == 9 || b == 13 || b == 10
}

fn is_alpha(b: u8) -> (r: bool)
    ensures
        r == is_alpha_byte(b),
{
    (65 <= b && b <= 90) || (97 <= b && b <= 122)
}

/// Skips leading blanks: the rest of the input, and the blanks.
pub fn multispace0(input: &str) -> (r: (&str, &str))
    ensures
        r.0.spec_bytes() == ws(input.spec_bytes()),
        r.1.spec_bytes() == input.spec_bytes().take(blank_end(input.spec_bytes(), 0)),
{
    let b = input.as_bytes();
    let ghost s = input.spec_bytes();
    proof {
        is_char_boundary_start_end_of_seq(s);
    }
    let mut i: usize = 0;
    while i < b.len() && is_space(b[i])
        invariant
            b@ == s,
            valid_utf8(s),
            0 <= i <= s.len(),
            is_char_boundary(s, i as int),
            blank_end(s, i as int) == blank_end(s, 0),
        decreases s.len() - i,
    {
        proof {
            lemma_boundary_step(s, i as int);
        }
        i = i + 1;
    }
    let (m, rest) = split_text(input, i);
    (rest, m)
}

/// A non-empty run of letters: the rest of the input, and the word.
pub fn alpha1(input: &str) -> (r: Result<(&str, &str), RvmError>)
    ensures
        match r {
            Ok((rest, w)) => spec_alpha1(input.spec_bytes()) == Ok::<(Seq<u8>, Seq<u8>), RvmError>(
                (rest.spec_bytes(), w.spec_bytes()),
            ),
            Err(e) => spec_alpha1(input.spec_bytes()) == Err::<(Seq<u8>, Seq<u8>), RvmError>(e),
        },
{
    let b = input.as_bytes();
    let ghost s = input.spec_bytes();
    proof {
        is_char_boundary_start_end_of_seq(s);
    }
    let mut i: usize = 0;
    while i < b.len() && is_alpha(b[i])
        invariant
            b@ == s,
            valid_utf8(s),
            0 <= i <= s.len(),
            is_char_boundary(s, i as int),
            alpha_end(s, i as int) == alpha_end(s, 0),
        decreases s.len() - i,
    {
        proof {
            lemma_boundary_step(s, i as int);
        }
        i = i + 1;
    }
    if i == 0 {
        return Err(RvmError::Alpha);
    }
    let (w, rest) = split_text(input, i);
    Ok((rest, w))
}

/// Everything before the first byte `c` (an ASCII byte): the rest of the input, which
/// starts at that byte, and the field.
pub fn take_until(input: &str, c: u8) -> (r: Result<(&str, &str), RvmError>)
    requires
        c < 0x80,
    ensures
        match r {
            Ok((rest, f)) => spec_take_until(input.spec_bytes(), c) == Ok::<
                (Seq<u8>, Seq<u8>),
                RvmError,
            >((rest.spec_bytes(), f.spec_bytes())),
            Err(e) => spec_take_until(input.spec_bytes(), c) == Err::<
                (Seq<u8>, Seq<u8>),
                RvmError,
            >(e),
        },
        r matches Ok((_, f)) ==> f@ == text(f.spec_bytes()),
{
    let b = input.as_bytes();
    let ghost s = input.spec_bytes();
    let mut i: usize = 0;
    while i < b.len() && b[i] != c
        invariant
            b@ == s,
            0 <= i <= s.len(),
            find_byte(s, i as int, c) == find_byte(s, 0, c),
        decreases s.len() - i,
    {
        i = i + 1;
    }
    if i == b.len() {
        return Err(RvmError::TakeUntil);
    }
    proof {
        lemma_boundary_at_ascii(s, i as int);
    }
    let (f, rest) = split_text(input, i);
    Ok((rest, f))
}

/// Calls nom's complete `float` parser on `input` and gives back the rest of the text
/// with the bit pattern of the number read, or how nom failed. The contract states
/// that the outcome is `nom_float` of the text, and that on success the rest is a
/// proper suffix of the input, as nom hands back the unread tail of its input.
#[verifier::external_body]
fn float_prefix(input: &str) -> (r: Result<(&str, u32), NomFailure>)
    ensures
        match r {
            Ok((rest, bits)) => {
                &&& nom_float(input@) == Ok::<(Seq<char>, u32), NomFailure>((rest@, bits))
                &&& rest.spec_bytes().len() < input.spec_bytes().len()
                &&& rest.spec_bytes() == input.spec_bytes().skip(
                    input.spec_bytes().len() - rest.spec_bytes().len(),
                )
            },
            Err(k) => nom_float(input@) == Err::<(Seq<char>, u32), NomFailure>(k),
        },
{
    match nom::number::complete::float::<&str, nom::error::Error<&str>>(input) {
        Ok((rest, value)) => Ok((rest, value.to_bits())),
        Err(nom::Err::Incomplete(_)) => Err(NomFailure::Incomplete),
        Err(nom::Err::Error(_)) => Err(NomFailure::Error),
        Err(nom::Err::Failure(_)) => Err(NomFailure::Failure),
    }
}

/// A number at the very start of `input`: the rest and the number's bit pattern.
pub fn float(input: &str) -> (r: Result<(&str, u32), RvmError>)
    ensures
        text_view(r) == spec_float(input.spec_bytes()),
{
    proof {
        assert(text(input.spec_bytes()) == input@);
    }
    match float_prefix(input) {
        Ok((rest, bits)) => {
            proof {
                assert(encode_utf8(rest@) == rest.spec_bytes());
            }
            Ok((rest, bits))
        },
        Err(NomFailure::Failure) => Err(RvmError::FloatCut),
        Err(_) => Err(RvmError::Float),
    }
}

/// Blanks, then a number.
pub fn ws_float(input: &str) -> (r: Result<(&str, u32), RvmError>)
    ensures
        text_view(r) == spec_ws_float(input.spec_bytes()),
{
    let (rest, _) = multispace0(input);
    float(rest)
}

/// `n` times: blanks, then a number. The numbers in order.
pub fn floats(input: &str, n: usize) -> (r: Result<(&str, Vec<u32>), RvmError>)
    ensures
        text_view(r) == spec_floats(input.spec_bytes(), n as nat),
        r matches Ok((_, v)) ==> v@.len() == n,
{
    let mut rest = input;
    let mut v: Vec<u32> = Vec::new();
    let mut i: usize = 0;
    while i < n
        invariant
            0 <= i <= n,
            v@.len() == i,
            spec_floats(input.spec_bytes(), i as nat) == Ok::<(Seq<u8>, Seq<u32>), RvmError>(
                (rest.spec_bytes(), v@),
            ),
        decreases n - i,
    {
        match ws_float(rest) {
            Ok((r2, x)) => {
                rest = r2;
                v.push(x);
            },
            Err(e) => {
                proof {
                    lemma_floats_err_stays(input.spec_bytes(), (i + 1) as nat, n as nat);
                }
                return Err(e);
            },
        }
        i = i + 1;
    }
    Ok((rest, v))
}

/// Once reading `m` numbers fails, reading more fails the same way.
pub proof fn lemma_floats_err_stays(s: Seq<u8>, m: nat, n: nat)
    requires
        m <= n,
        spec_floats(s, m) is Err,
    ensures
        spec_floats(s, n) == spec_floats(s, m),
    decreases n - m,
{
    if m < n {
        lemma_floats_err_stays(s, m, (n - 1) as nat);
    }
}

/// The blanks skipped at the start of `s` lie within `s`.
pub proof fn lemma_blank_end_bounds(s: Seq<u8>, i: int)
    requires
        0 <= i <= s.len(),
    ensures
        i <= blank_end(s, i) <= s.len(),
    decreases s.len() - i,
{
    if 0 <= i < s.len() && is_space_byte(s[i]) {
        lemma_blank_end_bounds(s, i + 1);
    }
}

/// Skipping blanks leaves a suffix.
pub proof fn lemma_ws_len(s: Seq<u8>)
    ensures
        ws(s).len() <= s.len(),
        ws(s) == s.skip(s.len() - ws(s).len()),
{
    lemma_blank_end_bounds(s, 0);
}

/// A number that was read leaves a proper suffix.
pub proof fn lemma_float_shrinks(s: Seq<u8>)
    ensures
        spec_float(s) matches Ok((r, _)) ==> r.len() < s.len() && r == s.skip(s.len() - r.len()),
{
}

/// The letters counted at the start of `s` lie within `s`.
pub proof fn lemma_alpha_end_bounds(s: Seq<u8>, i: int)
    requires
        0 <= i <= s.len(),
    ensures
        i <= alpha_end(s, i) <= s.len(),
    decreases s.len() - i,
{
    if 0 <= i < s.len() && is_alpha_byte(s[i]) {
        lemma_alpha_end_bounds(s, i + 1);
    }
}

/// A found delimiter lies within `s`, at or after `i`.
pub proof fn lemma_find_byte_bounds(s: Seq<u8>, i: int, c: u8)
    requires
        0 <= i,
    ensures
        find_byte(s, i, c) matches Some(n) ==> i <= n < s.len() && s[n] == c,
    decreases s.len() - i,
{
    if i < s.len() && s[i] != c {
        lemma_find_byte_bounds(s, i + 1, c);
    }
}

/// A word that was read leaves a proper suffix.
pub proof fn lemma_alpha1_len(s: Seq<u8>)
    ensures
        spec_alpha1(s) matches Ok((r, _)) ==> r.len() < s.len(),
{
    lemma_alpha_end_bounds(s, 0);
}

/// A field read up to a delimiter leaves a suffix.
pub proof fn lemma_take_until_len(s: Seq<u8>, c: u8)
    ensures
        spec_take_until(s, c) matches Ok((r, _)) ==> r.len() <= s.len(),
{
    lemma_find_byte_bounds(s, 0, c);
}

/// Numbers that were read leave a suffix.
pub proof fn lemma_floats_len(s: Seq<u8>, n: nat)
    ensures
        spec_floats(s, n) matches Ok((r, _)) ==> r.len() <= s.len(),
    decreases n,
{
    if n > 0 {
        lemma_floats_len(s, (n - 1) as nat);
        if let Ok((r, _)) = spec_floats(s, (n - 1) as nat) {
            lemma_ws_len(r);
            lemma_float_shrinks(ws(r));
        }
    }
}


/// Reading numbers fails only for want of a number.
pub proof fn lemma_floats_err(s: Seq<u8>, n: nat)
    ensures
        spec_floats(s, n) matches Err(e) ==> e == RvmError::Float || e == RvmError::FloatCut,
    decreases n,
{
    if n > 0 {
        lemma_floats_err(s, (n - 1) as nat);
    }
}

} // verus!
