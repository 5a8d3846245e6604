//! The binary format. Every record is a run of big-endian 32-bit words: a keyword is
//! four words holding one letter each, small counts are single bytes after zero
//! padding, numbers are single-precision values in big-endian order, and text runs up
//! to the next zero byte.
use vstd::prelude::*;
use vstd::string::*;
use vstd::utf8::*;

use slab_tree::NodeId;

use crate::document::{cntb_word, cnte_word, prim_word};
use crate::error::RvmError;
use crate::lex::text;
use crate::parse_rvm::{spec_parse_prim, text_prim_kind, text_prim_numbers};
use crate::tree::{
    KindsRun, ModelTree, lemma_open_groups_first, keeps_nodes, lemma_append_keeps, lemma_keeps_trans, depth_step, depths_wf, lemma_after_append, lemma_append_wf, lemma_first_at_most_none,
    lemma_last_at_depth, lemma_last_exists, lemma_last_path_child, lemma_last_path_parent,
    lemma_open_groups_insert, on_last_path, open_groups, lemma_parent_found, parent_pos, pos_of, subtree_end,
    tree_append, tree_ids, tree_nodes, tree_ok, tree_parent, with_child,
};
use crate::names::{CNTB, CntbView, CNTE, Group, GroupView, HEAD, HeadView, MODL, ModlView, PRIM, PrimView};
use crate::numbers::{be_u32_of, be_words, byte_float_bits, u8_float_bits};
use crate::shapes::{
    shape_name, shape_number, shape_numbers, law_shape_from_numbers, arity, kind_name, kind_string, map_floats, shape_from, box_from, circular_torus_from,
    cylinder_from, elliptical_dish_from, line_from, pyramid_from, rectangular_torus_from,
    snout_from, sphere_from, spherical_dish_from, Box, CircularTorus, Cylinder, EllipticalDish,
    FacetGroup, Line, PrimShape, PrimShapes, PrimShapesView, Pyramid, RectangularTorus, Snout,
    Sphere, SphericalDish,
};

verus! {

broadcast use {vstd::utf8::encode_utf8_valid_utf8, vstd::utf8::encode_utf8_decode_utf8};

/// The outcome of a binary parser, with its value taken by its view.
pub open spec fn bin_view<V: View>(r: Result<(&[u8], V), RvmError>) -> Result<(Seq<u8>, V::V), RvmError> {
    match r {
        Ok((rest, v)) => Ok((rest@, v@)),
        Err(e) => Err(e),
    }
}

/// True for the byte 0.
pub fn is_zero(chr: u8) -> (r: bool)
    ensures
        r == (chr == 0),
{
    chr == 0
}

/// True for every byte but 0.
pub fn is_not_zero(chr: u8) -> (r: bool)
    ensures
        r == (chr != 0),
{
    chr != 0
}

/// `arr` followed by the bytes of `input` that are not 0, in order.
pub fn take_zero_out(input: [u8; 4], arr: Vec<u8>) -> (r: Vec<u8>)
    ensures
        r@ == arr@ + input@.filter(|b: u8| b != 0),
{
    let mut arr = arr;
    let ghost start = arr@;
    for i in 0..4
        invariant
            arr@ == start + input@.take(i as int).filter(|b: u8| b != 0),
    {
        proof {
            assert(input@.take(i + 1).drop_last() =~= input@.take(i as int));
            reveal_with_fuel(Seq::filter, 1);
        }
        if input[i] != 0 {
            arr.push(input[i]);
        }
        proof {
            assert(arr@ =~= start + input@.take(i + 1).filter(|b: u8| b != 0));
        }
    }
    proof {
        assert(input@.take(4) =~= input@);
    }
    arr
}

/// The first position at or after `i` that does not hold 0.
pub open spec fn zero_end(s: Seq<u8>, i: int) -> int
    decreases s.len() - i,
{
    if 0 <= i < s.len() && s[i] == 0 {
        zero_end(s, i + 1)
    } else {
        i
    }
}

/// The first position at or after `i` that holds 0.
pub open spec fn nonzero_end(s: Seq<u8>, i: int) -> int
    decreases s.len() - i,
{
    if 0 <= i < s.len() && s[i] != 0 {
        nonzero_end(s, i + 1)
    } else {
        i
    }
}

/// What is left once leading zero bytes are skipped.
pub open spec fn skip_zeros(s: Seq<u8>) -> Seq<u8> {
    s.skip(zero_end(s, 0))
}

/// The bytes up to the first 0: the rest (which starts at that 0), and the field.
pub open spec fn spec_take_nonzero(s: Seq<u8>) -> (Seq<u8>, Seq<u8>) {
    (s.skip(nonzero_end(s, 0)), s.take(nonzero_end(s, 0)))
}

/// One byte.
pub open spec fn spec_byte(s: Seq<u8>) -> Result<(Seq<u8>, u8), RvmError> {
    if s.len() == 0 {
        Err(RvmError::Eof)
    } else {
        Ok((s.drop_first(), s[0]))
    }
}

/// Zero bytes, then one byte.
pub open spec fn spec_zbyte(s: Seq<u8>) -> Result<(Seq<u8>, u8), RvmError> {
    spec_byte(skip_zeros(s))
}

/// `n` big-endian 32-bit numbers, one after the other.
pub open spec fn spec_be_floats(s: Seq<u8>, n: nat) -> Result<(Seq<u8>, Seq<u32>), RvmError> {
    if s.len() < 4 * n {
        Err(RvmError::Eof)
    } else {
        Ok((s.skip(4 * n as int), Seq::new(n, |i: int| be_u32_of(s.subrange(4 * i, 4 * i + 4)))))
    }
}

/// Skips leading zero bytes: the rest, and the zeros.
pub fn take_zeros(input: &[u8]) -> (r: (&[u8], &[u8]))
    ensures
        r.0@ == skip_zeros(input@),
        r.1@ == input@.take(zero_end(input@, 0)),
        r.0@.len() <= input@.len(),
{
    let mut i: usize = 0;
    while i < input.len() && input[i] == 0
        invariant
            0 <= i <= input@.len(),
            zero_end(input@, i as int) == zero_end(input@, 0),
        decreases input@.len() - i,
    {
        i = i + 1;
    }
    let (z, rest) = input.split_at(i);
    (rest, z)
}

/// The bytes up to the first 0: the rest, which starts at that 0, and the field.
pub fn take_nonzeros(input: &[u8]) -> (r: (&[u8], &[u8]))
    ensures
        (r.0@, r.1@) == spec_take_nonzero(input@),
        r.0@.len() <= input@.len(),
{
    let mut i: usize = 0;
    while i < input.len() && input[i] != 0
        invariant
            0 <= i <= input@.len(),
            nonzero_end(input@, i as int) == nonzero_end(input@, 0),
        decreases input@.len() - i,
    {
        i = i + 1;
    }
    let (f, rest) = input.split_at(i);
    (rest, f)
}

/// One byte.
pub fn byte(input: &[u8]) -> (r: Result<(&[u8], u8), RvmError>)
    ensures
        bin_view(r) == spec_byte(input@),
{
    if input.len() == 0 {
        return Err(RvmError::Eof);
    }
    let (b, rest) = input.split_at(1);
    assert(rest@ =~= input@.drop_first());
    Ok((rest, b[0]))
}

/// Zero bytes, then one byte.
pub fn zbyte(input: &[u8]) -> (r: Result<(&[u8], u8), RvmError>)
    ensures
        bin_view(r) == spec_zbyte(input@),
{
    let (rest, _) = take_zeros(input);
    byte(rest)
}

/// A big-endian single-precision number: the rest and the number's bit pattern.
pub fn parse_f32(input: &[u8]) -> (r: Result<(&[u8], u32), RvmError>)
    ensures
        bin_view(r) == (if input@.len() < 4 {
            Err::<(Seq<u8>, u32), RvmError>(RvmError::Eof)
        } else {
            Ok((input@.skip(4), be_u32_of(input@)))
        }),
{
    if input.len() < 4 {
        return Err(RvmError::Eof);
    }
    let v = (input[0] as u32) * 0x100_0000 + (input[1] as u32) * 0x1_0000 + (input[2] as u32)
        * 0x100 + (input[3] as u32);
    let (_, rest) = input.split_at(4);
    Ok((rest, v))
}

/// `n` big-endian single-precision numbers.
pub fn be_floats(input: &[u8], n: usize) -> (r: Result<(&[u8], Vec<u32>), RvmError>)
    ensures
        bin_view(r) == spec_be_floats(input@, n as nat),
        r matches Ok((_, v)) ==> v@.len() == n,
{
    if input.len() / 4 < n {
        return Err(RvmError::Eof);
    }
    let mut v: Vec<u32> = Vec::new();
    let mut rest = input;
    let mut i: usize = 0;
    while i < n
        invariant
            0 <= i <= n,
            4 * n <= input@.len(),
            rest@ == input@.skip(4 * i),
            v@.len() == i,
            forall|j: int| 0 <= j < i ==> v@[j] == be_u32_of(#[trigger] input@.subrange(4 * j, 4 * j + 4)),
        decreases n - i,
    {
        let (r2, x) = match parse_f32(rest) {
            Ok(p) => p,
            Err(e) => return Err(e),
        };
        proof {
            assert(rest@.subrange(0, 4) =~= input@.subrange(4 * i, 4 * i + 4));
            assert(r2@ =~= input@.skip(4 * (i + 1)));
            assert(be_u32_of(rest@) == be_u32_of(input@.subrange(4 * i, 4 * i + 4)));
        }
        v.push(x);
        rest = r2;
        i = i + 1;
    }
    proof {
        assert(v@ =~= Seq::new(n as nat, |j: int| be_u32_of(input@.subrange(4 * j, 4 * j + 4))));
    }
    Ok((rest, v))
}

#[verifier::external_type_specification]
#[verifier::external_body]
pub struct ExUtf8Error(core::str::Utf8Error);

/// Calls `std::str::from_utf8`, which accepts exactly the byte strings that are valid
/// UTF-8 and then gives back the same bytes as a `&str`.
#[verifier::external_body]
fn str_from_utf8(v: &[u8]) -> (r: Result<&str, core::str::Utf8Error>)
    ensures
        r is Ok <==> valid_utf8(v@),
        r matches Ok(s) ==> s.spec_bytes() == v@,
{
    core::str::from_utf8(v)
}

/// The bytes `v` as text, or `Utf8` when they are not valid UTF-8.
fn utf8_text(v: &[u8]) -> (r: Result<String, RvmError>)
    ensures
        r is Ok <==> valid_utf8(v@),
        r matches Ok(s) ==> s@ == text(v@),
        r matches Err(e) ==> e == RvmError::Utf8,
{
    match str_from_utf8(v) {
        Ok(s) => {
            proof {
                assert(decode_utf8(encode_utf8(s@)) == s@);
            }
            Ok(s.to_owned())
        },
        Err(_) => Err(RvmError::Utf8),
    }
}

/// A keyword: four times zero bytes then one byte; the four bytes.
pub open spec fn spec_head_name(s: Seq<u8>) -> Result<(Seq<u8>, Seq<u8>), RvmError> {
    match spec_zbyte(s) {
        Err(e) => Err(e),
        Ok((s1, a)) => match spec_zbyte(s1) {
            Err(e) => Err(e),
            Ok((s2, b)) => match spec_zbyte(s2) {
                Err(e) => Err(e),
                Ok((s3, c)) => match spec_zbyte(s3) {
                    Err(e) => Err(e),
                    Ok((s4, d)) => Ok((s4, seq![a, b, c, d])),
                },
            },
        },
    }
}

/// Reads a keyword.
pub fn parse_head_name(input: &[u8]) -> (r: Result<(&[u8], [u8; 4]), RvmError>)
    ensures
        bin_view(r) == spec_head_name(input@),
{
    let (rest, a) = zbyte(input)?;
    let (rest, b) = zbyte(rest)?;
    let (rest, c) = zbyte(rest)?;
    let (rest, d) = zbyte(rest)?;
    let k = [a, b, c, d];
    assert(k@ =~= seq![a, b, c, d]);
    Ok((rest, k))
}

/// A header version: three times zero bytes then one byte; always read as version 1.
pub open spec fn spec_head_version(s: Seq<u8>) -> Result<(Seq<u8>, u8), RvmError> {
    match spec_zbyte(s) {
        Err(e) => Err(e),
        Ok((s1, _)) => match spec_zbyte(s1) {
            Err(e) => Err(e),
            Ok((s2, _)) => match spec_zbyte(s2) {
                Err(e) => Err(e),
                Ok((s3, _)) => Ok((s3, 1u8)),
            },
        },
    }
}

/// Reads a header version.
pub fn parse_head_version(input: &[u8]) -> (r: Result<(&[u8], u8), RvmError>)
    ensures
        bin_view(r) == spec_head_version(input@),
{
    let (rest, _) = zbyte(input)?;
    let (rest, _) = zbyte(rest)?;
    let (rest, _) = zbyte(rest)?;
    Ok((rest, 1))
}

/// A text field of the header: zero bytes, one byte, then the bytes up to the next 0.
pub open spec fn spec_head_field(s: Seq<u8>) -> Result<(Seq<u8>, Seq<u8>), RvmError> {
    match spec_zbyte(s) {
        Err(e) => Err(e),
        Ok((s1, _)) => Ok(spec_take_nonzero(s1)),
    }
}

fn head_field(input: &[u8]) -> (r: Result<(&[u8], &[u8]), RvmError>)
    ensures
        bin_view(r) == spec_head_field(input@),
{
    let (rest, _) = zbyte(input)?;
    let (rest, f) = take_nonzeros(rest);
    Ok((rest, f))
}

/// Reads the note field of the header.
pub fn parse_head_note(input: &[u8]) -> (r: Result<(&[u8], &[u8]), RvmError>)
    ensures
        bin_view(r) == spec_head_field(input@),
{
    head_field(input)
}

/// Reads the date field of the header.
pub fn parse_head_date(input: &[u8]) -> (r: Result<(&[u8], &[u8]), RvmError>)
    ensures
        bin_view(r) == spec_head_field(input@),
{
    head_field(input)
}

/// Reads the user field of the header.
pub fn parse_head_user(input: &[u8]) -> (r: Result<(&[u8], &[u8]), RvmError>)
    ensures
        bin_view(r) == spec_head_field(input@),
{
    head_field(input)
}

/// Reads the encoding field of the header.
pub fn parse_head_unicode(input: &[u8]) -> (r: Result<(&[u8], &[u8]), RvmError>)
    ensures
        bin_view(r) == spec_head_field(input@),
{
    head_field(input)
}

/// The header: keyword, version, then the note, date, user and encoding fields, each
/// of which must be valid UTF-8 (checked in that order once all four are read). The
/// header's name is always `HEAD`.
#[verifier::opaque]
pub open spec fn spec_head_binary(s: Seq<u8>) -> Result<(Seq<u8>, HeadView), RvmError> {
    match spec_head_name(s) {
        Err(e) => Err(e),
        Ok((s1, _)) => match spec_head_version(s1) {
            Err(e) => Err(e),
            Ok((s2, _)) => match spec_head_field(s2) {
                Err(e) => Err(e),
                Ok((s3, note)) => match spec_head_field(s3) {
                    Err(e) => Err(e),
                    Ok((s4, date)) => match spec_head_field(s4) {
                        Err(e) => Err(e),
                        Ok((s5, user)) => match spec_head_field(s5) {
                            Err(e) => Err(e),
                            Ok((s6, unicode)) => if !valid_utf8(note) || !valid_utf8(date)
                                || !valid_utf8(user) || !valid_utf8(unicode) {
                                Err(RvmError::Utf8)
                            } else {
                                Ok(
                                    (
                                        s6,
                                        HeadView {
                                            info: "HEAD"@,
                                            note: text(note),
                                            data: text(date),
                                            user: text(user),
                                            encoding: text(unicode),
                                        },
                                    ),
                                )
                            },
                        },
                    },
                },
            },
        },
    }
}

/// Reads the header of a binary model. A field that is not UTF-8 gives `Utf8` rather
/// than a panic.
pub fn parse_head_binary(input: &[u8]) -> (r: Result<(&[u8], HEAD), RvmError>)
    ensures
        bin_view(r) == spec_head_binary(input@),
{
    reveal(spec_head_binary);
    let (rest, _) = parse_head_name(input)?;
    let (rest, _) = parse_head_version(rest)?;
    let (rest, note) = parse_head_note(rest)?;
    let (rest, date) = parse_head_date(rest)?;
    let (rest, user) = parse_head_user(rest)?;
    let (rest, unicode) = parse_head_unicode(rest)?;
    let note = utf8_text(note)?;
    let date = utf8_text(date)?;
    let user = utf8_text(user)?;
    let unicode = utf8_text(unicode)?;
    let info = "HEAD".to_owned();
    Ok((rest, HEAD { info, note, data: date, user, encoding: unicode }))
}

/// The model block: keyword, version, then the project and the name, each as zero
/// bytes, one byte and the bytes up to the next 0; both must be valid UTF-8.
#[verifier::opaque]
pub open spec fn spec_modl_binary(s: Seq<u8>) -> Result<(Seq<u8>, ModlView), RvmError> {
    match spec_head_name(s) {
        Err(e) => Err(e),
        Ok((s1, _)) => match spec_head_version(s1) {
            Err(e) => Err(e),
            Ok((s2, _)) => match spec_head_field(s2) {
                Err(e) => Err(e),
                Ok((s3, project)) => match spec_head_field(s3) {
                    Err(e) => Err(e),
                    Ok((s4, name)) => if !valid_utf8(project) || !valid_utf8(name) {
                        Err(RvmError::Utf8)
                    } else {
                        Ok((s4, ModlView { project: text(project), name: text(name) }))
                    },
                },
            },
        },
    }
}

/// Reads the model block of a binary model. A field that is not UTF-8 gives `Utf8`
/// rather than a panic.
pub fn parse_modl_binary(input: &[u8]) -> (r: Result<(&[u8], MODL), RvmError>)
    ensures
        bin_view(r) == spec_modl_binary(input@),
{
    reveal(spec_modl_binary);
    let (rest, _) = parse_head_name(input)?;
    let (rest, _) = parse_head_version(rest)?;
    let (rest, _) = zbyte(rest)?;
    let (rest, project) = take_nonzeros(rest);
    let (rest, _) = zbyte(rest)?;
    let (rest, names) = take_nonzeros(rest);
    let project = utf8_text(project)?;
    let names = utf8_text(names)?;
    Ok((rest, MODL { project, name: names }))
}

/// The version of a group or primitive block: twice zero bytes then one byte; always
/// read as version 1.
pub open spec fn spec_cnte_version(s: Seq<u8>) -> Result<(Seq<u8>, u8), RvmError> {
    match spec_zbyte(s) {
        Err(e) => Err(e),
        Ok((s1, _)) => match spec_zbyte(s1) {
            Err(e) => Err(e),
            Ok((s2, _)) => Ok((s2, 1u8)),
        },
    }
}

/// Reads the version of a group or primitive block.
pub fn parse_cnte_version(input: &[u8]) -> (r: Result<(&[u8], u8), RvmError>)
    ensures
        bin_view(r) == spec_cnte_version(input@),
{
    let (rest, _) = zbyte(input)?;
    let (rest, _) = zbyte(rest)?;
    Ok((rest, 1))
}

/// The head of a group or primitive block after its keyword: zero bytes, the bytes up
/// to the next 0, and the block's version.
pub open spec fn spec_block_head(s: Seq<u8>) -> Result<(Seq<u8>, u8), RvmError> {
    spec_cnte_version(spec_take_nonzero(skip_zeros(s)).0)
}

fn block_head(input: &[u8]) -> (r: Result<(&[u8], u8), RvmError>)
    ensures
        bin_view(r) == spec_block_head(input@),
{
    let (rest, _) = take_zeros(input);
    let (rest, _) = take_nonzeros(rest);
    parse_cnte_version(rest)
}

/// A group end after its keyword.
pub open spec fn spec_cnte_binary(s: Seq<u8>) -> Result<(Seq<u8>, CNTE), RvmError> {
    match spec_block_head(s) {
        Err(e) => Err(e),
        Ok((s1, _)) => Ok((s1, CNTE)),
    }
}

/// Reads a group end that follows its keyword.
pub fn parse_cnte_binary(input: &[u8]) -> (r: Result<(&[u8], CNTE), RvmError>)
    ensures
        bin_view(r) == spec_cnte_binary(input@),
{
    let (rest, _) = block_head(input)?;
    Ok((rest, CNTE))
}

/// A group start after its keyword: the block head, then the name's length in 4-byte
/// words (after zero bytes), the name, three numbers for the translation, and the
/// material number (after zero bytes). A length of 64 words or more is refused, as is
/// a name that is not valid UTF-8.
#[verifier::opaque]
pub open spec fn spec_cntb_binary(s: Seq<u8>) -> Result<(Seq<u8>, CntbView), RvmError> {
    match spec_block_head(s) {
        Err(e) => Err(e),
        Ok((s1, _)) => match spec_zbyte(s1) {
            Err(e) => Err(e),
            Ok((s2, size)) => if size >= 64 {
                Err(RvmError::NameTooLong)
            } else if s2.len() < 4 * size {
                Err(RvmError::Eof)
            } else {
                let name = s2.take(4 * size);
                match spec_be_floats(s2.skip(4 * size), 3) {
                    Err(e) => Err(e),
                    Ok((s3, t)) => match spec_zbyte(s3) {
                        Err(e) => Err(e),
                        Ok((s4, m)) => if !valid_utf8(name) {
                            Err(RvmError::Utf8)
                        } else {
                            Ok(
                                (
                                    s4,
                                    CntbView {
                                        name: text(name),
                                        translation: t,
                                        material: byte_float_bits(m),
                                    },
                                ),
                            )
                        },
                    },
                }
            },
        },
    }
}

/// Reads a group start that follows its keyword. A name length of 64 words or more
/// (whose byte count would not fit a byte) gives `NameTooLong`, a name that runs past the
/// input gives `Eof`, and a name that is not UTF-8 gives `Utf8`, rather than a panic.
pub fn parse_cntb_binary(input: &[u8]) -> (r: Result<(&[u8], CNTB), RvmError>)
    ensures
        bin_view(r) == spec_cntb_binary(input@),
{
    reveal(spec_cntb_binary);
    let (rest, _) = block_head(input)?;
    let (rest, str_size) = zbyte(rest)?;
    if str_size >= 64 {
        return Err(RvmError::NameTooLong);
    }
    let str_size: usize = (str_size * 4) as usize;
    if rest.len() < str_size {
        return Err(RvmError::Eof);
    }
    let (name, rest) = rest.split_at(str_size);
    let (rest, t) = be_floats(rest, 3)?;
    let (rest, material) = zbyte(rest)?;
    let name = utf8_text(name)?;
    let translation = [t[0], t[1], t[2]];
    assert(translation@ =~= t@);
    Ok((rest, CNTB { name, translation, material: u8_float_bits(material) }))
}

/// Reads three big-endian numbers.
pub fn parse_3float_binary(input: &[u8]) -> (r: Result<(&[u8], [u32; 3]), RvmError>)
    ensures
        bin_view(r) == spec_be_floats(input@, 3),
{
    let (rest, v) = be_floats(input, 3)?;
    let a = [v[0], v[1], v[2]];
    assert(a@ =~= v@);
    Ok((rest, a))
}

/// Reads a local bounding box: six big-endian numbers.
#[allow(non_snake_case)]
pub fn parse_bboxLocal_binary(input: &[u8]) -> (r: Result<(&[u8], [u32; 6]), RvmError>)
    ensures
        bin_view(r) == spec_be_floats(input@, 6),
{
    let (rest, v) = be_floats(input, 6)?;
    let a = [v[0], v[1], v[2], v[3], v[4], v[5]];
    assert(a@ =~= v@);
    Ok((rest, a))
}

/// Reads a 3x4 transform: four groups of three big-endian numbers, twelve in all.
#[allow(non_snake_case)]
pub fn parse_M3x4_binary(input: &[u8]) -> (r: Result<(&[u8], Vec<u32>), RvmError>)
    ensures
        bin_view(r) == spec_be_floats(input@, 12),
{
    be_floats(input, 12)
}

/// Seven big-endian numbers: a pyramid's bottom, top and offset pairs, then its height.
#[allow(non_snake_case)]
pub fn parse_pyramid_binary(input: &[u8]) -> (r: Result<(&[u8], Pyramid), RvmError>)
    ensures
        bin_view(r) == map_floats(spec_be_floats(input@, 7), |v: Seq<u32>| pyramid_from(v)),
{
    let (rest, v) = be_floats(input, 7)?;
    Ok((
        rest,
        Pyramid { bottom: [v[0], v[1]], top: [v[2], v[3]], offset: [v[4], v[5]], height: v[6] },
    ))
}

/// Three big-endian numbers: a box's lengths.
#[allow(non_snake_case)]
pub fn parse_box_binary(input: &[u8]) -> (r: Result<(&[u8], Box), RvmError>)
    ensures
        bin_view(r) == map_floats(spec_be_floats(input@, 3), |v: Seq<u32>| box_from(v)),
{
    let (rest, v) = be_floats(input, 3)?;
    Ok((
        rest,
        Box { lengths: [v[0], v[1], v[2]] },
    ))
}

/// Four big-endian numbers: a rectangular torus's inner and outer radius, height and angle.
#[allow(non_snake_case)]
pub fn parse_rectangularTorus_binary(input: &[u8]) -> (r: Result<(&[u8], RectangularTorus), RvmError>)
    ensures
        bin_view(r) == map_floats(spec_be_floats(input@, 4), |v: Seq<u32>| rectangular_torus_from(v)),
{
    let (rest, v) = be_floats(input, 4)?;
    Ok((
        rest,
        RectangularTorus { inner_radius: v[0], outer_radius: v[1], height: v[2], angle: v[3] },
    ))
}

/// Three big-endian numbers: a circular torus's offset, radius and angle.
#[allow(non_snake_case)]
pub fn parse_circularTorus_binary(input: &[u8]) -> (r: Result<(&[u8], CircularTorus), RvmError>)
    ensures
        bin_view(r) == map_floats(spec_be_floats(input@, 3), |v: Seq<u32>| circular_torus_from(v)),
{
    let (rest, v) = be_floats(input, 3)?;
    Ok((
        rest,
        CircularTorus { offset: v[0], radius: v[1], angle: v[2] },
    ))
}

/// Two big-endian numbers: an elliptical dish's base radius and height.
#[allow(non_snake_case)]
pub fn parse_ellipticalDish_binary(input: &[u8]) -> (r: Result<(&[u8], EllipticalDish), RvmError>)
    ensures
        bin_view(r) == map_floats(spec_be_floats(input@, 2), |v: Seq<u32>| elliptical_dish_from(v)),
{
    let (rest, v) = be_floats(input, 2)?;
    Ok((
        rest,
        EllipticalDish { baseRadius: v[0], height: v[1] },
    ))
}

/// Two big-endian numbers: a spherical dish's base radius and height.
#[allow(non_snake_case)]
pub fn parse_sphericalDish_binary(input: &[u8]) -> (r: Result<(&[u8], SphericalDish), RvmError>)
    ensures
        bin_view(r) == map_floats(spec_be_floats(input@, 2), |v: Seq<u32>| spherical_dish_from(v)),
{
    let (rest, v) = be_floats(input, 2)?;
    Ok((
        rest,
        SphericalDish { baseRadius: v[0], height: v[1] },
    ))
}

/// Nine big-endian numbers: a snout's offset, bottom shear and top shear pairs, then its bottom radius, top radius and height.
#[allow(non_snake_case)]
pub fn parse_snout_binary(input: &[u8]) -> (r: Result<(&[u8], Snout), RvmError>)
    ensures
        bin_view(r) == map_floats(spec_be_floats(input@, 9), |v: Seq<u32>| snout_from(v)),
{
    let (rest, v) = be_floats(input, 9)?;
    Ok((
        rest,
        Snout {
            offset: [v[0], v[1]],
            bshear: [v[2], v[3]],
            tshear: [v[4], v[5]],
            radius_b: v[6],
            radius_t: v[7],
            height: v[8],
        },
    ))
}

/// Two big-endian numbers: a cylinder's radius and height.
#[allow(non_snake_case)]
pub fn parse_cylinder_binary(input: &[u8]) -> (r: Result<(&[u8], Cylinder), RvmError>)
    ensures
        bin_view(r) == map_floats(spec_be_floats(input@, 2), |v: Seq<u32>| cylinder_from(v)),
{
    let (rest, v) = be_floats(input, 2)?;
    Ok((
        rest,
        Cylinder { radius: v[0], height: v[1] },
    ))
}

/// One big-endian number: a sphere's diameter.
#[allow(non_snake_case)]
pub fn parse_sphere_binary(input: &[u8]) -> (r: Result<(&[u8], Sphere), RvmError>)
    ensures
        bin_view(r) == map_floats(spec_be_floats(input@, 1), |v: Seq<u32>| sphere_from(v)),
{
    let (rest, v) = be_floats(input, 1)?;
    Ok((
        rest,
        Sphere { diameter: v[0] },
    ))
}

/// Two big-endian numbers: a line's two ends.
#[allow(non_snake_case)]
pub fn parse_line_binary(input: &[u8]) -> (r: Result<(&[u8], Line), RvmError>)
    ensures
        bin_view(r) == map_floats(spec_be_floats(input@, 2), |v: Seq<u32>| line_from(v)),
{
    let (rest, v) = be_floats(input, 2)?;
    Ok((
        rest,
        Line { a: v[0], b: v[1] },
    ))
}

/// Six big-endian numbers, as one record of a facet group.
pub open spec fn spec_bbox6(s: Seq<u8>) -> Result<(Seq<u8>, [u32; 6]), RvmError> {
    match spec_be_floats(s, 6) {
        Err(e) => Err(e),
        Ok((r, v)) => Ok((r, [v[0], v[1], v[2], v[3], v[4], v[5]])),
    }
}

/// `k` records of six numbers each.
pub open spec fn facet_records(s: Seq<u8>, k: nat) -> Result<(Seq<u8>, Seq<[u32; 6]>), RvmError>
    decreases k,
{
    if k == 0 {
        Ok((s, Seq::empty()))
    } else {
        match facet_records(s, (k - 1) as nat) {
            Err(e) => Err(e),
            Ok((r, v)) => match spec_bbox6(r) {
                Err(e) => Err(e),
                Ok((r2, b)) => Ok((r2, v.push(b))),
            },
        }
    }
}

/// `k` contours, each a count (after zero bytes) and that many records; the records
/// of all of them in order.
pub open spec fn facet_contours(s: Seq<u8>, k: nat) -> Result<(Seq<u8>, Seq<[u32; 6]>), RvmError>
    decreases k,
{
    if k == 0 {
        Ok((s, Seq::empty()))
    } else {
        match facet_contours(s, (k - 1) as nat) {
            Err(e) => Err(e),
            Ok((r, v)) => match spec_zbyte(r) {
                Err(e) => Err(e),
                Ok((r2, t)) => match facet_records(r2, t as nat) {
                    Err(e) => Err(e),
                    Ok((r3, w)) => Ok((r3, v + w)),
                },
            },
        }
    }
}

/// `k` polygons, each a count (after zero bytes) and that many contours; the records
/// of all of them in order.
pub open spec fn facet_polygons(s: Seq<u8>, k: nat) -> Result<(Seq<u8>, Seq<[u32; 6]>), RvmError>
    decreases k,
{
    if k == 0 {
        Ok((s, Seq::empty()))
    } else {
        match facet_polygons(s, (k - 1) as nat) {
            Err(e) => Err(e),
            Ok((r, v)) => match spec_zbyte(r) {
                Err(e) => Err(e),
                Ok((r2, t)) => match facet_contours(r2, t as nat) {
                    Err(e) => Err(e),
                    Ok((r3, w)) => Ok((r3, v + w)),
                },
            },
        }
    }
}

/// A facet group: a polygon count (after zero bytes) and that many polygons; its
/// records are those of `arr` followed by those read.
pub open spec fn spec_facetgroup(s: Seq<u8>, arr: Seq<[u32; 6]>) -> Result<
    (Seq<u8>, Seq<[u32; 6]>),
    RvmError,
> {
    match spec_zbyte(s) {
        Err(e) => Err(e),
        Ok((s1, times)) => match facet_polygons(s1, times as nat) {
            Err(e) => Err(e),
            Ok((s2, d)) => Ok((s2, arr + d)),
        },
    }
}

proof fn lemma_records_err(s: Seq<u8>, m: nat, n: nat)
    requires
        m <= n,
        facet_records(s, m) is Err,
    ensures
        facet_records(s, n) == facet_records(s, m),
    decreases n - m,
{
    if m < n {
        lemma_records_err(s, m, (n - 1) as nat);
    }
}

proof fn lemma_contours_err(s: Seq<u8>, m: nat, n: nat)
    requires
        m <= n,
        facet_contours(s, m) is Err,
    ensures
        facet_contours(s, n) == facet_contours(s, m),
    decreases n - m,
{
    if m < n {
        lemma_contours_err(s, m, (n - 1) as nat);
    }
}

proof fn lemma_polygons_err(s: Seq<u8>, m: nat, n: nat)
    requires
        m <= n,
        facet_polygons(s, m) is Err,
    ensures
        facet_polygons(s, n) == facet_polygons(s, m),
    decreases n - m,
{
    if m < n {
        lemma_polygons_err(s, m, (n - 1) as nat);
    }
}

/// Reads `k` records onto the end of `arr`.
fn read_records<'a>(input: &'a [u8], k: u8, arr: &mut Vec<[u32; 6]>) -> (r: Result<&'a [u8], RvmError>)
    ensures
        match r {
            Ok(rest) => facet_records(input@, k as nat) == Ok::<(Seq<u8>, Seq<[u32; 6]>), RvmError>(
                (rest@, final(arr)@.skip(old(arr)@.len() as int)),
            ),
            Err(e) => facet_records(input@, k as nat) == Err::<(Seq<u8>, Seq<[u32; 6]>), RvmError>(e),
        },
        final(arr)@.len() >= old(arr)@.len(),
        final(arr)@.take(old(arr)@.len() as int) == old(arr)@,
{
    let ghost start = arr@;
    let mut rest = input;
    let mut i: u8 = 0;
    assert(arr@.skip(start.len() as int) =~= Seq::<[u32; 6]>::empty());
    assert(arr@.take(start.len() as int) =~= start);
    while i < k
        invariant
            0 <= i <= k,
            arr@.len() >= start.len(),
            arr@.take(start.len() as int) == start,
            start == old(arr)@,
            facet_records(input@, i as nat) == Ok::<(Seq<u8>, Seq<[u32; 6]>), RvmError>(
                (rest@, arr@.skip(start.len() as int)),
            ),
        decreases k - i,
    {
        let (r2, x) = match parse_bboxLocal_binary(rest) {
            Ok(p) => p,
            Err(e) => {
                proof {
                    lemma_records_err(input@, (i + 1) as nat, k as nat);
                }
                return Err(e);
            },
        };
        let ghost before = arr@;
        proof {
            assert(x == [x@[0], x@[1], x@[2], x@[3], x@[4], x@[5]]);
        }
        arr.push(x);
        proof {
            assert(arr@.skip(start.len() as int) =~= before.skip(start.len() as int).push(x));
            assert(arr@.take(start.len() as int) =~= before.take(start.len() as int));
        }
        rest = r2;
        i = i + 1;
    }
    Ok(rest)
}

/// Reads `k` contours, appending their records to `arr`.
fn read_contours<'a>(input: &'a [u8], k: u8, arr: &mut Vec<[u32; 6]>) -> (r: Result<&'a [u8], RvmError>)
    ensures
        match r {
            Ok(rest) => facet_contours(input@, k as nat) == Ok::<(Seq<u8>, Seq<[u32; 6]>), RvmError>(
                (rest@, final(arr)@.skip(old(arr)@.len() as int)),
            ),
            Err(e) => facet_contours(input@, k as nat) == Err::<(Seq<u8>, Seq<[u32; 6]>), RvmError>(e),
        },
        final(arr)@.len() >= old(arr)@.len(),
        final(arr)@.take(old(arr)@.len() as int) == old(arr)@,
{
    let ghost start = arr@;
    let mut rest = input;
    let mut i: u8 = 0;
    assert(arr@.skip(start.len() as int) =~= Seq::<[u32; 6]>::empty());
    assert(arr@.take(start.len() as int) =~= start);
    while i < k
        invariant
            0 <= i <= k,
            arr@.len() >= start.len(),
            arr@.take(start.len() as int) == start,
            start == old(arr)@,
            facet_contours(input@, i as nat) == Ok::<(Seq<u8>, Seq<[u32; 6]>), RvmError>(
                (rest@, arr@.skip(start.len() as int)),
            ),
        decreases k - i,
    {
        let (r2, t) = match zbyte(rest) {
            Ok(p) => p,
            Err(e) => {
                proof {
                    lemma_contours_err(input@, (i + 1) as nat, k as nat);
                }
                return Err(e);
            },
        };
        let ghost before = arr@;
        let r3 = match read_records(r2, t, arr) {
            Ok(r3) => r3,
            Err(e) => {
                proof {
                    lemma_contours_err(input@, (i + 1) as nat, k as nat);
                }
                return Err(e);
            },
        };
        proof {
            let w = arr@.skip(before.len() as int);
            assert(arr@.skip(start.len() as int) =~= before.skip(start.len() as int) + w);
            assert(arr@.take(start.len() as int) =~= before.take(start.len() as int));
        }
        rest = r3;
        i = i + 1;
    }
    Ok(rest)
}

/// Reads `k` polygons, appending their records to `arr`.
fn read_polygons<'a>(input: &'a [u8], k: u8, arr: &mut Vec<[u32; 6]>) -> (r: Result<&'a [u8], RvmError>)
    ensures
        match r {
            Ok(rest) => facet_polygons(input@, k as nat) == Ok::<(Seq<u8>, Seq<[u32; 6]>), RvmError>(
                (rest@, final(arr)@.skip(old(arr)@.len() as int)),
            ),
            Err(e) => facet_polygons(input@, k as nat) == Err::<(Seq<u8>, Seq<[u32; 6]>), RvmError>(e),
        },
        final(arr)@.len() >= old(arr)@.len(),
        final(arr)@.take(old(arr)@.len() as int) == old(arr)@,
{
    let ghost start = arr@;
    let mut rest = input;
    let mut i: u8 = 0;
    assert(arr@.skip(start.len() as int) =~= Seq::<[u32; 6]>::empty());
    assert(arr@.take(start.len() as int) =~= start);
    while i < k
        invariant
            0 <= i <= k,
            arr@.len() >= start.len(),
            arr@.take(start.len() as int) == start,
            start == old(arr)@,
            facet_polygons(input@, i as nat) == Ok::<(Seq<u8>, Seq<[u32; 6]>), RvmError>(
                (rest@, arr@.skip(start.len() as int)),
            ),
        decreases k - i,
    {
        let (r2, t) = match zbyte(rest) {
            Ok(p) => p,
            Err(e) => {
                proof {
                    lemma_polygons_err(input@, (i + 1) as nat, k as nat);
                }
                return Err(e);
            },
        };
        let ghost before = arr@;
        let r3 = match read_contours(r2, t, arr) {
            Ok(r3) => r3,
            Err(e) => {
                proof {
                    lemma_polygons_err(input@, (i + 1) as nat, k as nat);
                }
                return Err(e);
            },
        };
        proof {
            let w = arr@.skip(before.len() as int);
            assert(arr@.skip(start.len() as int) =~= before.skip(start.len() as int) + w);
            assert(arr@.take(start.len() as int) =~= before.take(start.len() as int));
        }
        rest = r3;
        i = i + 1;
    }
    Ok(rest)
}

/// Reads a facet group, whose records go after those of `arr`.
pub fn parse_facetgroup_binary(input: &[u8], arr: Vec<[u32; 6]>) -> (r: Result<(&[u8], FacetGroup), RvmError>)
    ensures
        match r {
            Ok((rest, f)) => spec_facetgroup(input@, arr@) == Ok::<(Seq<u8>, Seq<[u32; 6]>), RvmError>(
                (rest@, f.data@),
            ),
            Err(e) => spec_facetgroup(input@, arr@) == Err::<(Seq<u8>, Seq<[u32; 6]>), RvmError>(e),
        },
{
    let mut arr = arr;
    let ghost start = arr@;
    let (rest, times) = zbyte(input)?;
    let rest = read_polygons(rest, times, &mut arr)?;
    proof {
        assert(arr@ =~= start + arr@.skip(start.len() as int));
    }
    Ok((rest, FacetGroup { data: arr }))
}

/// A text of `parse_string`: the bytes up to the first 0, then the zero bytes that
/// pad it to a multiple of four; the rest after the padding, and the text.
pub open spec fn spec_parse_string(s: Seq<u8>) -> Result<(Seq<u8>, Seq<u8>), RvmError> {
    let n = nonzero_end(s, 0);
    let pad = (4 - n % 4) % 4;
    if s.len() - n < pad {
        Err(RvmError::Eof)
    } else {
        Ok((s.skip(n + pad), s.take(n)))
    }
}

/// Reads a text padded to a multiple of four bytes. Padding that runs past the input
/// gives `Eof` rather than a panic.
pub fn parse_string(input: &[u8]) -> (r: Result<(&[u8], &[u8]), RvmError>)
    ensures
        bin_view(r) == spec_parse_string(input@),
{
    let (rest, result) = take_nonzeros(input);
    proof {
        lemma_nonzero_end_bounds(input@, 0);
    }
    let m: usize = result.len() % 4;
    let mut sum: usize = 0;
    while (m + sum) % 4 != 0
        invariant
            m == result@.len() % 4,
            m == 0 ==> sum == 0,
            m != 0 ==> m + sum <= 4,
        decreases 4 - sum,
    {
        sum = sum + 1;
    }
    if rest.len() < sum {
        return Err(RvmError::Eof);
    }
    let (_, after) = rest.split_at(sum);
    proof {
        assert(after@ =~= input@.skip(result@.len() + sum));
    }
    Ok((after, result))
}

/// The zero bytes counted from `i` lie within `s`.
pub proof fn lemma_zero_end_bounds(s: Seq<u8>, i: int)
    requires
        0 <= i <= s.len(),
    ensures
        i <= zero_end(s, i) <= s.len(),
    decreases s.len() - i,
{
    if 0 <= i < s.len() && s[i] == 0 {
        lemma_zero_end_bounds(s, i + 1);
    }
}

/// The non-zero bytes counted from `i` lie within `s`.
pub proof fn lemma_nonzero_end_bounds(s: Seq<u8>, i: int)
    requires
        0 <= i <= s.len(),
    ensures
        i <= nonzero_end(s, i) <= s.len(),
    decreases s.len() - i,
{
    if 0 <= i < s.len() && s[i] != 0 {
        lemma_nonzero_end_bounds(s, i + 1);
    }
}

/// The shape kind that a primitive's type byte stands for in the binary format: the
/// numbers 1 to 11, in the order of `PrimShape`.
pub open spec fn bin_prim_kind(t: u8) -> Option<PrimShape> {
    if t == 1 {
        Some(PrimShape::PyramidShape)
    } else if t == 2 {
        Some(PrimShape::BoxShape)
    } else if t == 3 {
        Some(PrimShape::RectangularTorusShape)
    } else if t == 4 {
        Some(PrimShape::CircularTorusShape)
    } else if t == 5 {
        Some(PrimShape::EllipticalDishShape)
    } else if t == 6 {
        Some(PrimShape::SphericalDishShape)
    } else if t == 7 {
        Some(PrimShape::SnoutShape)
    } else if t == 8 {
        Some(PrimShape::CylinderShape)
    } else if t == 9 {
        Some(PrimShape::SphereShape)
    } else if t == 10 {
        Some(PrimShape::LineShape)
    } else if t == 11 {
        Some(PrimShape::FacetGroupShape)
    } else {
        None
    }
}

/// The shape kind that a binary primitive's type byte stands for.
pub fn bin_prim_kind_of(t: u8) -> (r: Option<PrimShape>)
    ensures
        r == bin_prim_kind(t),
{
    match t {
        1 => Some(PrimShape::PyramidShape),
        2 => Some(PrimShape::BoxShape),
        3 => Some(PrimShape::RectangularTorusShape),
        4 => Some(PrimShape::CircularTorusShape),
        5 => Some(PrimShape::EllipticalDishShape),
        6 => Some(PrimShape::SphericalDishShape),
        7 => Some(PrimShape::SnoutShape),
        8 => Some(PrimShape::CylinderShape),
        9 => Some(PrimShape::SphereShape),
        10 => Some(PrimShape::LineShape),
        11 => Some(PrimShape::FacetGroupShape),
        _ => None,
    }
}

/// A primitive after its keyword: the block head, the type byte (after zero bytes), the
/// 3x4 transform, the local bounding box, then the shape's numbers (for a facet group,
/// its counted records).
#[verifier::opaque]
pub open spec fn spec_prim_binary(s: Seq<u8>) -> Result<(Seq<u8>, PrimView), RvmError> {
    match spec_block_head(s) {
        Err(e) => Err(e),
        Ok((s1, _)) => match spec_zbyte(s1) {
            Err(e) => Err(e),
            Ok((s2, ty)) => match spec_be_floats(s2, 12) {
                Err(e) => Err(e),
                Ok((s3, m)) => match spec_be_floats(s3, 6) {
                    Err(e) => Err(e),
                    Ok((s4, bb)) => match bin_prim_kind(ty) {
                        None => Err(RvmError::UnknownPrimitive),
                        Some(k) => if k == PrimShape::FacetGroupShape {
                            match spec_facetgroup(s4, Seq::empty()) {
                                Err(e) => Err(e),
                                Ok((s5, d)) => Ok(
                                    (
                                        s5,
                                        PrimView {
                                            kind: kind_name(k),
                                            m3x4: m,
                                            bbox: bb,
                                            group: PrimShapesView::FacetGroupShape(d),
                                        },
                                    ),
                                ),
                            }
                        } else {
                            match spec_be_floats(s4, arity(k)) {
                                Err(e) => Err(e),
                                Ok((s5, v)) => Ok(
                                    (
                                        s5,
                                        PrimView {
                                            kind: kind_name(k),
                                            m3x4: m,
                                            bbox: bb,
                                            group: shape_from(k, v),
                                        },
                                    ),
                                ),
                            }
                        },
                    },
                },
            },
        },
    }
}

/// The numbers a binary primitive carries, where all of them can be read and its type
/// byte stands for a shape other than a facet group: the type byte, the 3x4 transform,
/// the local bounding box and the shape's numbers.
pub open spec fn bin_prim_numbers(s: Seq<u8>) -> Option<(u8, Seq<u32>, Seq<u32>, Seq<u32>)> {
    match spec_block_head(s) {
        Err(_) => None,
        Ok((s1, _)) => match spec_zbyte(s1) {
            Err(_) => None,
            Ok((s2, ty)) => match spec_be_floats(s2, 12) {
                Err(_) => None,
                Ok((s3, m)) => match spec_be_floats(s3, 6) {
                    Err(_) => None,
                    Ok((s4, bb)) => match bin_prim_kind(ty) {
                        None => None,
                        Some(k) => if k == PrimShape::FacetGroupShape {
                            None
                        } else {
                            match spec_be_floats(s4, arity(k)) {
                                Err(_) => None,
                                Ok((_, v)) => Some((ty, m, bb, v)),
                            }
                        },
                    },
                },
            },
        },
    }
}

/// The two formats number the shapes alike: the whole number `k` (1 to 10) as a text
/// type number and the byte `k` as a binary type byte stand for the same shape.
pub proof fn law_prim_kinds_agree(k: u8)
    requires
        1 <= k <= 10,
    ensures
        text_prim_kind(byte_float_bits(k)) == bin_prim_kind(k),
        bin_prim_kind(k) is Some,
        bin_prim_kind(k) != Some(PrimShape::FacetGroupShape),
{
    if k == 1 {
    } else if k == 2 {
    } else if k == 3 {
    } else if k == 4 {
    } else if k == 5 {
    } else if k == 6 {
    } else if k == 7 {
    } else if k == 8 {
    } else if k == 9 {
    } else {
    }
}

/// The text and binary readers build the same primitive from the same numbers: a text
/// primitive whose type number is the whole number `k` (1 to 10) and a binary primitive
/// whose type byte is `k`, with the same transform, bounding box and shape numbers,
/// are read as one and the same primitive.
pub proof fn law_text_and_binary_prims_agree(
    s: Seq<u8>,
    b: Seq<u8>,
    k: u8,
    m: Seq<u32>,
    bb: Seq<u32>,
    v: Seq<u32>,
)
    requires
        1 <= k <= 10,
        text_prim_numbers(s) == Some((byte_float_bits(k), m, bb, v)),
        bin_prim_numbers(b) == Some((k, m, bb, v)),
    ensures
        spec_parse_prim(s) matches Ok((_, p)) && spec_prim_binary(b) matches Ok((_, q)) && p == q,
{
    reveal(spec_parse_prim);
    reveal(spec_prim_binary);
    law_prim_kinds_agree(k);
}

/// Reads a primitive that follows its keyword. A type byte that stands for no shape
/// gives `UnknownPrimitive`, and input that ends inside the shape's numbers gives `Eof`,
/// for every kind: these inputs are answered with errors, never with a panic.
#[allow(non_snake_case)]
pub fn parse_prim_binayy(input: &[u8]) -> (r: Result<(&[u8], PRIM), RvmError>)
    ensures
        bin_view(r) == spec_prim_binary(input@),
{
    reveal(spec_prim_binary);
    let (rest, _) = block_head(input)?;
    let (rest, types) = zbyte(rest)?;
    let (rest, M3x4) = parse_M3x4_binary(rest)?;
    let (rest, bboxLocal) = parse_bboxLocal_binary(rest)?;
    let k = match bin_prim_kind_of(types) {
        Some(k) => k,
        None => return Err(RvmError::UnknownPrimitive),
    };
    let (rest, group) = match k {
        PrimShape::PyramidShape => {
            let (r, s) = parse_pyramid_binary(rest)?;
            (r, PrimShapes::PyramidShape(s))
        },
        PrimShape::BoxShape => {
            let (r, s) = parse_box_binary(rest)?;
            (r, PrimShapes::BoxShape(s))
        },
        PrimShape::RectangularTorusShape => {
            let (r, s) = parse_rectangularTorus_binary(rest)?;
            (r, PrimShapes::RectangularTorusShape(s))
        },
        PrimShape::CircularTorusShape => {
            let (r, s) = parse_circularTorus_binary(rest)?;
            (r, PrimShapes::CircularTorusShape(s))
        },
        PrimShape::EllipticalDishShape => {
            let (r, s) = parse_ellipticalDish_binary(rest)?;
            (r, PrimShapes::EllipticalDishShape(s))
        },
        PrimShape::SphericalDishShape => {
            let (r, s) = parse_sphericalDish_binary(rest)?;
            (r, PrimShapes::SphericalDishShape(s))
        },
        PrimShape::SnoutShape => {
            let (r, s) = parse_snout_binary(rest)?;
            (r, PrimShapes::SnoutShape(s))
        },
        PrimShape::CylinderShape => {
            let (r, s) = parse_cylinder_binary(rest)?;
            (r, PrimShapes::CylinderShape(s))
        },
        PrimShape::SphereShape => {
            let (r, s) = parse_sphere_binary(rest)?;
            (r, PrimShapes::SphereShape(s))
        },
        PrimShape::LineShape => {
            let (r, s) = parse_line_binary(rest)?;
            (r, PrimShapes::LineShape(s))
        },
        PrimShape::FacetGroupShape => {
            let arr: Vec<[u32; 6]> = Vec::new();
            let (r, f) = parse_facetgroup_binary(rest, arr)?;
            proof {
                assert(Seq::<[u32; 6]>::empty() + f.data@ =~= f.data@);
            }
            (r, PrimShapes::FacetGroupShape(f))
        },
    };
    Ok((rest, PRIM { kind: kind_string(k), M_3x4: M3x4, bboxLocal, group }))
}

/// Reading one byte after zero bytes leaves a proper suffix.
pub proof fn lemma_zbyte_len(s: Seq<u8>)
    ensures
        spec_zbyte(s) matches Ok((r, _)) ==> r.len() < s.len(),
{
    lemma_zero_end_bounds(s, 0);
}

/// The head of a block leaves a suffix.
pub proof fn lemma_block_head_len(s: Seq<u8>)
    ensures
        spec_block_head(s) matches Ok((r, _)) ==> r.len() <= s.len(),
{
    lemma_zero_end_bounds(s, 0);
    lemma_nonzero_end_bounds(skip_zeros(s), 0);
    let s1 = spec_take_nonzero(skip_zeros(s)).0;
    lemma_zbyte_len(s1);
    if let Ok((s2, _)) = spec_zbyte(s1) {
        lemma_zbyte_len(s2);
    }
}

/// A keyword leaves a proper suffix.
pub proof fn lemma_head_name_len(s: Seq<u8>)
    ensures
        spec_head_name(s) matches Ok((r, _)) ==> r.len() < s.len(),
{
    lemma_zbyte_len(s);
    if let Ok((s1, _)) = spec_zbyte(s) {
        lemma_zbyte_len(s1);
        if let Ok((s2, _)) = spec_zbyte(s1) {
            lemma_zbyte_len(s2);
            if let Ok((s3, _)) = spec_zbyte(s2) {
                lemma_zbyte_len(s3);
            }
        }
    }
}

/// A group start leaves a suffix.
pub proof fn lemma_cntb_binary_len(s: Seq<u8>)
    ensures
        spec_cntb_binary(s) matches Ok((r, _)) ==> r.len() <= s.len(),
{
    reveal(spec_cntb_binary);
    lemma_block_head_len(s);
    if let Ok((s1, _)) = spec_block_head(s) {
        lemma_zbyte_len(s1);
        if let Ok((s2, size)) = spec_zbyte(s1) {
            if size < 64 && s2.len() >= 4 * size {
                if let Ok((s3, _)) = spec_be_floats(s2.skip(4 * size), 3) {
                    lemma_zbyte_len(s3);
                }
            }
        }
    }
}

/// Records read for a facet group leave a suffix.
pub proof fn lemma_records_len(s: Seq<u8>, k: nat)
    ensures
        facet_records(s, k) matches Ok((r, _)) ==> r.len() <= s.len(),
    decreases k,
{
    if k > 0 {
        lemma_records_len(s, (k - 1) as nat);
    }
}

/// Contours read for a facet group leave a suffix.
pub proof fn lemma_contours_len(s: Seq<u8>, k: nat)
    ensures
        facet_contours(s, k) matches Ok((r, _)) ==> r.len() <= s.len(),
    decreases k,
{
    if k > 0 {
        lemma_contours_len(s, (k - 1) as nat);
        if let Ok((r, _)) = facet_contours(s, (k - 1) as nat) {
            lemma_zbyte_len(r);
            if let Ok((r2, t)) = spec_zbyte(r) {
                lemma_records_len(r2, t as nat);
            }
        }
    }
}

/// Polygons read for a facet group leave a suffix.
pub proof fn lemma_polygons_len(s: Seq<u8>, k: nat)
    ensures
        facet_polygons(s, k) matches Ok((r, _)) ==> r.len() <= s.len(),
    decreases k,
{
    if k > 0 {
        lemma_polygons_len(s, (k - 1) as nat);
        if let Ok((r, _)) = facet_polygons(s, (k - 1) as nat) {
            lemma_zbyte_len(r);
            if let Ok((r2, t)) = spec_zbyte(r) {
                lemma_contours_len(r2, t as nat);
            }
        }
    }
}

/// A primitive leaves a suffix.
pub proof fn lemma_prim_binary_len(s: Seq<u8>)
    ensures
        spec_prim_binary(s) matches Ok((r, _)) ==> r.len() <= s.len(),
{
    reveal(spec_prim_binary);
    lemma_block_head_len(s);
    if let Ok((s1, _)) = spec_block_head(s) {
        lemma_zbyte_len(s1);
        if let Ok((s2, _)) = spec_zbyte(s1) {
            if let Ok((s3, _)) = spec_be_floats(s2, 12) {
                if let Ok((s4, _)) = spec_be_floats(s3, 6) {
                    lemma_zbyte_len(s4);
                    if let Ok((s5, times)) = spec_zbyte(s4) {
                        lemma_polygons_len(s5, times as nat);
                    }
                }
            }
        }
    }
}

/// Reading blocks of a binary model into the tree whose nodes are `nodes`, the current
/// node being the one at `cur`: each block starts with a keyword. A group start becomes
/// a new last child of the current node, which it then replaces, and one more group
/// is counted open (the node is added before that count is checked); a group end needs
/// an open group, becomes a new last child, and the current node's parent becomes
/// current; a primitive becomes a new last child. Any other keyword ends the run after
/// that keyword.
pub open spec fn kinds_binary(nodes: Seq<(nat, GroupView)>, cur: int, s: Seq<u8>, sum: u8) -> KindsRun
    decreases s.len(),
{
    match spec_head_name(s) {
        Err(e) => KindsRun { nodes, result: Err(e) },
        Ok((r, k)) => {
            proof {
                lemma_head_name_len(s);
                lemma_cntb_binary_len(r);
                lemma_block_head_len(r);
                lemma_prim_binary_len(r);
            }
            if k == cntb_word() {
                match spec_cntb_binary(r) {
                    Err(e) => KindsRun { nodes, result: Err(e) },
                    Ok((r2, c)) => {
                        let n2 = with_child(nodes, cur, GroupView::CNTB(c));
                        if sum == 255 {
                            KindsRun { nodes: n2, result: Err(RvmError::CountOverflow) }
                        } else {
                            kinds_binary(n2, subtree_end(nodes, cur), r2, (sum + 1) as u8)
                        }
                    },
                }
            } else if k == cnte_word() {
                match spec_cnte_binary(r) {
                    Err(e) => KindsRun { nodes, result: Err(e) },
                    Ok((r2, _)) => if sum == 0 {
                        KindsRun { nodes, result: Err(RvmError::CountUnderflow) }
                    } else {
                        let n2 = with_child(nodes, cur, GroupView::CNTE);
                        if nodes[cur].0 == 0 {
                            KindsRun { nodes: n2, result: Err(RvmError::NoParent) }
                        } else {
                            kinds_binary(n2, parent_pos(n2, cur), r2, (sum - 1) as u8)
                        }
                    },
                }
            } else if k == prim_word() {
                match spec_prim_binary(r) {
                    Err(e) => KindsRun { nodes, result: Err(e) },
                    Ok((r2, p)) => kinds_binary(with_child(nodes, cur, GroupView::PRIM(p)), cur, r2, sum),
                }
            } else {
                KindsRun { nodes, result: Ok((r, sum)) }
            }
        },
    }
}

/// One block of a binary model read into a tree.
pub enum BinaryStep<'a> {
    Next(&'a [u8], NodeId, u8),
    Done(&'a [u8], u8),
    Fail(RvmError),
}

/// What reading the rest from the tree `t` after one block comes to.
pub open spec fn after_binary_step(t: ModelTree, step: BinaryStep) -> KindsRun {
    match step {
        BinaryStep::Next(rest, cur, sum) => kinds_binary(tree_nodes(t), pos_of(t, cur), rest@, sum),
        BinaryStep::Done(rest, sum) => KindsRun { nodes: tree_nodes(t), result: Ok((rest@, sum)) },
        BinaryStep::Fail(e) => KindsRun { nodes: tree_nodes(t), result: Err(e) },
    }
}

fn is_kind(k: [u8; 4], a: u8, b: u8, c: u8, d: u8) -> (r: bool)
    ensures
        r == (k@ == seq![a, b, c, d]),
{
    if k[0] == a && k[1] == b && k[2] == c && k[3] == d {
        assert(k@ =~= seq![a, b, c, d]);
        true
    } else {
        false
    }
}

/// Reads one block of a binary model into `tree` at the node `cur`.
fn kinds_binary_step<'a>(input: &'a [u8], tree: &mut ModelTree, cur: NodeId, sum: u8) -> (r: BinaryStep<'a>)
    requires
        tree_ok(*old(tree)),
        tree_ids(*old(tree)).contains(cur),
    ensures
        tree_ok(*final(tree)),
        keeps_nodes(*old(tree), *final(tree)),
        kinds_binary(tree_nodes(*old(tree)), pos_of(*old(tree), cur), input@, sum) == after_binary_step(
            *final(tree),
            r,
        ),
        r matches BinaryStep::Next(rest, c, _) ==> {
            &&& tree_ids(*final(tree)).contains(c)
            &&& rest@.len() < input@.len()
        },
{
    let ghost t0 = *tree;
    let (r1, kind) = match parse_head_name(input) {
        Ok(x) => x,
        Err(e) => return BinaryStep::Fail(e),
    };
    proof {
        lemma_head_name_len(input@);
        lemma_cntb_binary_len(r1@);
        lemma_block_head_len(r1@);
        lemma_prim_binary_len(r1@);
    }
    if is_kind(kind, 67, 78, 84, 66) {
        let (r2, cntb) = match parse_cntb_binary(r1) {
            Ok(x) => x,
            Err(e) => return BinaryStep::Fail(e),
        };
        let ghost g = Group::CNTB(cntb)@;
        let id = tree_append(tree, cur, Group::CNTB(cntb));
        proof {
            lemma_after_append(t0, *tree, cur, id, g);
            lemma_append_keeps(t0, *tree, cur, id, g);
        }
        if sum == 255 {
            return BinaryStep::Fail(RvmError::CountOverflow);
        }
        BinaryStep::Next(r2, id, sum + 1)
    } else if is_kind(kind, 67, 78, 84, 69) {
        let (r2, _) = match parse_cnte_binary(r1) {
            Ok(x) => x,
            Err(e) => return BinaryStep::Fail(e),
        };
        if sum == 0 {
            return BinaryStep::Fail(RvmError::CountUnderflow);
        }
        let id = tree_append(tree, cur, Group::CNTE(CNTE));
        proof {
            lemma_after_append(t0, *tree, cur, id, GroupView::CNTE);
            lemma_append_keeps(t0, *tree, cur, id, GroupView::CNTE);
        }
        match tree_parent(tree, cur) {
            None => BinaryStep::Fail(RvmError::NoParent),
            Some(p) => {
                proof {
                    lemma_parent_found(*tree, cur);
                }
                BinaryStep::Next(r2, p, sum - 1)
            },
        }
    } else if is_kind(kind, 80, 82, 73, 77) {
        let (r2, prim) = match parse_prim_binayy(r1) {
            Ok(x) => x,
            Err(e) => return BinaryStep::Fail(e),
        };
        let ghost g = Group::PRIM(prim)@;
        let id = tree_append(tree, cur, Group::PRIM(prim));
        proof {
            lemma_after_append(t0, *tree, cur, id, g);
            lemma_append_keeps(t0, *tree, cur, id, g);
        }
        BinaryStep::Next(r2, cur, sum)
    } else {
        BinaryStep::Done(r1, sum)
    }
}

/// Reads the blocks of a binary model from `input` into `tree`, starting at the node
/// `root`, with `sum` groups counted open; gives back the rest of the input after the
/// keyword that ends the run, and the count of open groups then. Every node the tree
/// had stays, under its id. A group end with no group counted open gives
/// `CountUnderflow`, a group start past 255 open groups `CountOverflow`, a group end at
/// the root `NoParent`, and a block that cannot be read its error: the run stops with an
/// error, never with a panic, and the nodes added until then stay in the tree.
pub fn parse_kind_binary<'a>(input: &'a [u8], tree: &mut ModelTree, root: NodeId, sum: u8) -> (r: Result<
    (&'a [u8], u8),
    RvmError,
>)
    requires
        tree_ok(*old(tree)),
        tree_ids(*old(tree)).contains(root),
    ensures
        tree_ok(*final(tree)),
        keeps_nodes(*old(tree), *final(tree)),
        tree_nodes(*final(tree)) == kinds_binary(
            tree_nodes(*old(tree)),
            pos_of(*old(tree), root),
            input@,
            sum,
        ).nodes,
        bin_view(r) == kinds_binary(tree_nodes(*old(tree)), pos_of(*old(tree), root), input@, sum).result,
{
    let ghost run = kinds_binary(tree_nodes(*tree), pos_of(*tree, root), input@, sum);
    let mut cur = root;
    let mut rest = input;
    let mut sum = sum;
    #[verifier::loop_isolation(false)]
    loop
        invariant
            tree_ok(*tree),
            keeps_nodes(*old(tree), *tree),
            tree_ids(*tree).contains(cur),
            run == kinds_binary(tree_nodes(*tree), pos_of(*tree, cur), rest@, sum),
        decreases rest@.len(),
    {
        let ghost before = *tree;
        let step = kinds_binary_step(rest, tree, cur, sum);
        proof {
            lemma_keeps_trans(*old(tree), before, *tree);
        }
        match step {
            BinaryStep::Next(r, c, s) => {
                rest = r;
                cur = c;
                sum = s;
            },
            BinaryStep::Done(r, s) => return Ok((r, s)),
            BinaryStep::Fail(e) => return Err(e),
        }
    }
}

/// A whole binary model: the header, the model block, then the blocks that fill the
/// tree whose root holds the header and whose first child holds the model block,
/// starting at the root with no group open. The tree's nodes, or why the model could
/// not be read.
pub open spec fn spec_read_binary_model(s: Seq<u8>) -> Result<Seq<(nat, GroupView)>, RvmError> {
    match spec_head_binary(s) {
        Err(e) => Err(e),
        Ok((s1, h)) => match spec_modl_binary(s1) {
            Err(e) => Err(e),
            Ok((s2, m)) => {
                let run = kinds_binary(
                    seq![(0nat, GroupView::Head(h)), (1nat, GroupView::MODL(m))],
                    0,
                    s2,
                    0,
                );
                match run.result {
                    Ok(_) => Ok(run.nodes),
                    Err(e) => Err(e),
                }
            },
        },
    }
}

/// Reads a whole binary model into a tree.
pub fn read_binary_model(file: &[u8]) -> (r: Result<ModelTree, RvmError>)
    ensures
        match r {
            Ok(t) => tree_ok(t) && spec_read_binary_model(file@) == Ok::<
                Seq<(nat, GroupView)>,
                RvmError,
            >(tree_nodes(t)),
            Err(e) => spec_read_binary_model(file@) == Err::<Seq<(nat, GroupView)>, RvmError>(e),
        },
{
    let (input, head) = parse_head_binary(file)?;
    let ghost hv = head@;
    let (mut tree, root) = ModelTree::with_root(Group::Head(head));
    assert(tree_ids(tree)[0] == root);
    let (input, modl) = parse_modl_binary(input)?;
    let ghost mv = modl@;
    let ghost t1 = tree;
    let id = tree_append(&mut tree, root, Group::MODL(modl));
    proof {
        lemma_after_append(t1, tree, root, id, GroupView::MODL(mv));
        assert(tree_nodes(tree) =~= seq![(0nat, GroupView::Head(hv)), (1nat, GroupView::MODL(mv))]);
    }
    let (_, _) = parse_kind_binary(input, &mut tree, root, 0)?;
    Ok(tree)
}

/// Facet records fail only for want of bytes.
proof fn lemma_records_errors(s: Seq<u8>, k: nat)
    ensures
        facet_records(s, k) matches Err(e) ==> e == RvmError::Eof,
    decreases k,
{
    if k > 0 {
        lemma_records_errors(s, (k - 1) as nat);
    }
}

/// Facet contours fail only for want of bytes.
proof fn lemma_contours_errors(s: Seq<u8>, k: nat)
    ensures
        facet_contours(s, k) matches Err(e) ==> e == RvmError::Eof,
    decreases k,
{
    if k > 0 {
        lemma_contours_errors(s, (k - 1) as nat);
        if let Ok((r, _)) = facet_contours(s, (k - 1) as nat) {
            if let Ok((r2, t)) = spec_zbyte(r) {
                lemma_records_errors(r2, t as nat);
            }
        }
    }
}

/// Facet polygons fail only for want of bytes.
proof fn lemma_polygons_errors(s: Seq<u8>, k: nat)
    ensures
        facet_polygons(s, k) matches Err(e) ==> e == RvmError::Eof,
    decreases k,
{
    if k > 0 {
        lemma_polygons_errors(s, (k - 1) as nat);
        if let Ok((r, _)) = facet_polygons(s, (k - 1) as nat) {
            if let Ok((r2, t)) = spec_zbyte(r) {
                lemma_contours_errors(r2, t as nat);
            }
        }
    }
}

/// The blocks of a binary model fail only in the ways their fields do.
pub proof fn lemma_binary_block_errors(s: Seq<u8>)
    ensures
        !(spec_head_name(s) matches Err(RvmError::NoParent)),
        !(spec_cntb_binary(s) matches Err(RvmError::NoParent)),
        !(spec_cnte_binary(s) matches Err(RvmError::NoParent)),
        !(spec_prim_binary(s) matches Err(RvmError::NoParent)),
        !(spec_head_binary(s) matches Err(RvmError::NoParent)),
        !(spec_modl_binary(s) matches Err(RvmError::NoParent)),
{
    reveal(spec_cntb_binary);
    reveal(spec_prim_binary);
    reveal(spec_head_binary);
    reveal(spec_modl_binary);
    if let Ok((s1, _)) = spec_block_head(s) {
        if let Ok((s2, _)) = spec_zbyte(s1) {
            if let Ok((s3, _)) = spec_be_floats(s2, 12) {
                if let Ok((s4, _)) = spec_be_floats(s3, 6) {
                    if let Ok((s5, times)) = spec_zbyte(s4) {
                        lemma_polygons_errors(s5, times as nat);
                    }
                }
            }
        }
    }
}

/// A run of binary blocks that starts at a node on the last path of the tree only adds
/// nodes at the end: the nodes it started with stay in front, in order.
pub proof fn law_binary_run_grows_at_end(nodes: Seq<(nat, GroupView)>, cur: int, s: Seq<u8>, sum: u8)
    requires
        depths_wf(nodes),
        0 <= cur < nodes.len(),
        on_last_path(nodes, cur),
    ensures
        kinds_binary(nodes, cur, s, sum).nodes.len() >= nodes.len(),
        kinds_binary(nodes, cur, s, sum).nodes.take(nodes.len() as int) == nodes,
    decreases s.len(),
{
    let fin = kinds_binary(nodes, cur, s, sum).nodes;
    match spec_head_name(s) {
        Err(_) => {
            assert(fin.take(nodes.len() as int) =~= nodes);
        },
        Ok((r, k)) => {
            lemma_head_name_len(s);
            lemma_cntb_binary_len(r);
            lemma_block_head_len(r);
            lemma_prim_binary_len(r);
            if k == cntb_word() {
                match spec_cntb_binary(r) {
                    Err(_) => {
                        assert(fin.take(nodes.len() as int) =~= nodes);
                    },
                    Ok((r2, c)) => {
                        let g = GroupView::CNTB(c);
                        lemma_last_path_child(nodes, cur, g);
                        let n2 = with_child(nodes, cur, g);
                        assert(n2.take(nodes.len() as int) =~= nodes);
                        if sum != 255 {
                            law_binary_run_grows_at_end(n2, nodes.len() as int, r2, (sum + 1) as u8);
                            assert(fin.take(nodes.len() as int) =~= fin.take(n2.len() as int).take(
                                nodes.len() as int,
                            ));
                        }
                    },
                }
            } else if k == cnte_word() {
                match spec_cnte_binary(r) {
                    Err(_) => {
                        assert(fin.take(nodes.len() as int) =~= nodes);
                    },
                    Ok((r2, _)) => {
                        if sum == 0 {
                            assert(fin.take(nodes.len() as int) =~= nodes);
                        } else {
                            let g = GroupView::CNTE;
                            lemma_last_path_child(nodes, cur, g);
                            let n2 = with_child(nodes, cur, g);
                            assert(n2.take(nodes.len() as int) =~= nodes);
                            if nodes[cur].0 != 0 {
                                assert(n2[cur] == nodes[cur]);
                                lemma_last_path_parent(n2, cur);
                                law_binary_run_grows_at_end(n2, parent_pos(n2, cur), r2, (sum - 1) as u8);
                                assert(fin.take(nodes.len() as int) =~= fin.take(n2.len() as int).take(
                                    nodes.len() as int,
                                ));
                            }
                        }
                    },
                }
            } else if k == prim_word() {
                match spec_prim_binary(r) {
                    Err(_) => {
                        assert(fin.take(nodes.len() as int) =~= nodes);
                    },
                    Ok((r2, p)) => {
                        let g = GroupView::PRIM(p);
                        lemma_last_path_child(nodes, cur, g);
                        let n2 = with_child(nodes, cur, g);
                        law_binary_run_grows_at_end(n2, cur, r2, sum);
                        assert(fin.take(nodes.len() as int) =~= fin.take(n2.len() as int).take(
                            nodes.len() as int,
                        ));
                        assert(n2.take(nodes.len() as int) =~= nodes);
                    },
                }
            } else {
                assert(fin.take(nodes.len() as int) =~= nodes);
            }
        },
    }
}

/// The count of open groups tracks the nesting: a run of binary blocks that starts
/// with no more groups counted open than the current node's depth never reaches a
/// group end at the root, and when it ends normally, its count is the starting count
/// plus the group starts it added minus the group ends it added.
pub proof fn law_binary_run_balance(nodes: Seq<(nat, GroupView)>, cur: int, s: Seq<u8>, sum: u8)
    requires
        depths_wf(nodes),
        0 <= cur < nodes.len(),
        sum <= nodes[cur].0,
    ensures
        !(kinds_binary(nodes, cur, s, sum).result matches Err(RvmError::NoParent)),
        kinds_binary(nodes, cur, s, sum).result matches Ok((_, s2)) ==> s2 == sum + open_groups(
            kinds_binary(nodes, cur, s, sum).nodes,
        ) - open_groups(nodes),
    decreases s.len(),
{
    lemma_binary_block_errors(s);
    match spec_head_name(s) {
        Err(_) => {},
        Ok((r, k)) => {
            lemma_head_name_len(s);
            lemma_cntb_binary_len(r);
            lemma_block_head_len(r);
            lemma_prim_binary_len(r);
            lemma_binary_block_errors(r);
            if k == cntb_word() {
                match spec_cntb_binary(r) {
                    Err(_) => {},
                    Ok((r2, c)) => {
                        let g = GroupView::CNTB(c);
                        lemma_append_wf(nodes, cur, g);
                        let e = subtree_end(nodes, cur);
                        let n2 = with_child(nodes, cur, g);
                        nodes.insert_ensures(e, ((nodes[cur].0 + 1) as nat, g));
                        lemma_open_groups_insert(nodes, e, ((nodes[cur].0 + 1) as nat, g));
                        if sum != 255 {
                            law_binary_run_balance(n2, e, r2, (sum + 1) as u8);
                        }
                    },
                }
            } else if k == cnte_word() {
                match spec_cnte_binary(r) {
                    Err(_) => {},
                    Ok((r2, _)) => {
                        if sum != 0 {
                            let g = GroupView::CNTE;
                            lemma_append_wf(nodes, cur, g);
                            let e = subtree_end(nodes, cur);
                            let n2 = with_child(nodes, cur, g);
                            nodes.insert_ensures(e, ((nodes[cur].0 + 1) as nat, g));
                            lemma_open_groups_insert(nodes, e, ((nodes[cur].0 + 1) as nat, g));
                            assert(n2[cur] == nodes[cur]);
                            let t = (nodes[cur].0 - 1) as nat;
                            lemma_last_exists(n2, cur, t);
                            lemma_last_at_depth(n2, cur, t);
                            law_binary_run_balance(n2, parent_pos(n2, cur), r2, (sum - 1) as u8);
                        }
                    },
                }
            } else if k == prim_word() {
                match spec_prim_binary(r) {
                    Err(_) => {},
                    Ok((r2, p)) => {
                        let g = GroupView::PRIM(p);
                        lemma_append_wf(nodes, cur, g);
                        let e = subtree_end(nodes, cur);
                        let n2 = with_child(nodes, cur, g);
                        nodes.insert_ensures(e, ((nodes[cur].0 + 1) as nat, g));
                        lemma_open_groups_insert(nodes, e, ((nodes[cur].0 + 1) as nat, g));
                        law_binary_run_balance(n2, cur, r2, sum);
                    },
                }
            } else {
            }
        },
    }
}

/// A binary model has its header at the root and its model block as the root's first
/// child, ahead of every node the blocks added; and reading it never reaches a group
/// end at the root, since the count of open groups starts at 0 there.
pub proof fn law_binary_model_shape(s: Seq<u8>)
    ensures
        spec_read_binary_model(s) matches Ok(nodes) ==> {
            &&& spec_head_binary(s) matches Ok((s1, h))
            &&& spec_modl_binary(s1) matches Ok((_, m))
            &&& nodes.len() >= 2
            &&& nodes[0] == (0nat, GroupView::Head(h))
            &&& nodes[1] == (1nat, GroupView::MODL(m))
        },
        !(spec_read_binary_model(s) matches Err(RvmError::NoParent)),
{
    lemma_binary_block_errors(s);
    if let Ok((s1, h)) = spec_head_binary(s) {
        lemma_binary_block_errors(s1);
        if let Ok((s2, m)) = spec_modl_binary(s1) {
            let nodes = seq![(0nat, GroupView::Head(h)), (1nat, GroupView::MODL(m))];
            assert(depth_step(nodes, 1));
            assert(depths_wf(nodes));
            lemma_first_at_most_none(nodes, 1, 0);
            law_binary_run_grows_at_end(nodes, 0, s2, 0);
            law_binary_run_balance(nodes, 0, s2, 0);
            let fin = kinds_binary(nodes, 0, s2, 0).nodes;
            assert(fin.take(2)[0] == fin[0]);
            assert(fin.take(2)[1] == fin[1]);
        }
    }
}

/// Where a run of binary blocks puts each node: every node it adds is a child of the
/// group still open when it is read, so a node added after the start node (at depth
/// `d`) stands at depth `d + 1` plus the group starts minus the group ends added before
/// it. After a group end the next block goes to the closed group's parent, at every
/// depth.
pub proof fn law_binary_run_depths(nodes: Seq<(nat, GroupView)>, cur: int, s: Seq<u8>, sum: u8)
    requires
        depths_wf(nodes),
        0 <= cur < nodes.len(),
        on_last_path(nodes, cur),
    ensures
        forall|k: int|
            nodes.len() <= k < kinds_binary(nodes, cur, s, sum).nodes.len() ==> #[trigger] kinds_binary(
                nodes,
                cur,
                s,
                sum,
            ).nodes[k].0 == nodes[cur].0 + 1 + open_groups(
                kinds_binary(nodes, cur, s, sum).nodes.subrange(nodes.len() as int, k),
            ),
    decreases s.len(),
{
    let fin = kinds_binary(nodes, cur, s, sum).nodes;
    let len = nodes.len() as int;
    let d = nodes[cur].0;
    law_binary_run_grows_at_end(nodes, cur, s, sum);
    match spec_head_name(s) {
        Err(_) => {},
        Ok((r, k0)) => {
            lemma_head_name_len(s);
            lemma_cntb_binary_len(r);
            lemma_block_head_len(r);
            lemma_prim_binary_len(r);
            if k0 == cntb_word() {
                match spec_cntb_binary(r) {
                    Err(_) => {},
                    Ok((r2, c)) => {
                        let g = GroupView::CNTB(c);
                        lemma_last_path_child(nodes, cur, g);
                        let n2 = with_child(nodes, cur, g);
                        if sum != 255 {
                            law_binary_run_grows_at_end(n2, len, r2, (sum + 1) as u8);
                            law_binary_run_depths(n2, len, r2, (sum + 1) as u8);
                            assert(fin[len] == fin.take(n2.len() as int)[len]);
                        }
                        assert forall|k: int| len <= k < fin.len() implies #[trigger] fin[k].0 == d + 1
                            + open_groups(fin.subrange(len, k)) by {
                            if k > len {
                                lemma_open_groups_first(fin, len, k);
                            } else {
                                assert(fin.subrange(len, k) =~= Seq::<(nat, GroupView)>::empty());
                            }
                        }
                    },
                }
            } else if k0 == cnte_word() {
                match spec_cnte_binary(r) {
                    Err(_) => {},
                    Ok((r2, _)) => {
                        if sum != 0 {
                            let g = GroupView::CNTE;
                            lemma_last_path_child(nodes, cur, g);
                            let n2 = with_child(nodes, cur, g);
                            if d == 0 {
                                assert forall|k: int| len <= k < fin.len() implies #[trigger] fin[k].0 == d + 1
                                    + open_groups(fin.subrange(len, k)) by {
                                    assert(fin.subrange(len, k) =~= Seq::<(nat, GroupView)>::empty());
                                }
                            } else {
                                assert(n2[cur] == nodes[cur]);
                                lemma_last_path_parent(n2, cur);
                                let pp = parent_pos(n2, cur);
                                law_binary_run_grows_at_end(n2, pp, r2, (sum - 1) as u8);
                                law_binary_run_depths(n2, pp, r2, (sum - 1) as u8);
                                assert(fin[len] == fin.take(n2.len() as int)[len]);
                                assert forall|k: int| len <= k < fin.len() implies #[trigger] fin[k].0 == d + 1
                                    + open_groups(fin.subrange(len, k)) by {
                                    if k > len {
                                        lemma_open_groups_first(fin, len, k);
                                    } else {
                                        assert(fin.subrange(len, k) =~= Seq::<(nat, GroupView)>::empty());
                                    }
                                }
                            }
                        }
                    },
                }
            } else if k0 == prim_word() {
                match spec_prim_binary(r) {
                    Err(_) => {},
                    Ok((r2, p)) => {
                        let g = GroupView::PRIM(p);
                        lemma_last_path_child(nodes, cur, g);
                        let n2 = with_child(nodes, cur, g);
                        law_binary_run_grows_at_end(n2, cur, r2, sum);
                        law_binary_run_depths(n2, cur, r2, sum);
                        assert(n2[cur] == nodes[cur]);
                        assert(fin[len] == fin.take(n2.len() as int)[len]);
                        assert forall|k: int| len <= k < fin.len() implies #[trigger] fin[k].0 == d + 1
                            + open_groups(fin.subrange(len, k)) by {
                            if k > len {
                                lemma_open_groups_first(fin, len, k);
                            } else {
                                assert(fin.subrange(len, k) =~= Seq::<(nat, GroupView)>::empty());
                            }
                        }
                    },
                }
            } else {
            }
        },
    }
}

/// Reading `n` big-endian numbers from the bytes after the first `4 * i` gives the `n`
/// words that start at word `i`.
proof fn lemma_be_floats_words(s: Seq<u8>, i: nat, n: nat)
    requires
        s.len() >= 4 * i,
    ensures
        spec_be_floats(s.skip(4 * i as int), n) matches Ok((r, v)) ==> r == s.skip(4 * (i + n) as int)
            && v == be_words(s, i as int, n),
        spec_be_floats(s.skip(4 * i as int), n) is Ok <==> s.len() >= 4 * (i + n),
{
    let t = s.skip(4 * i as int);
    if t.len() >= 4 * n {
        let v = Seq::new(n, |j: int| be_u32_of(t.subrange(4 * j, 4 * j + 4)));
        assert forall|j: int| 0 <= j < n implies v[j] == be_words(s, i as int, n)[j] by {
            assert(t.subrange(4 * j, 4 * j + 4) =~= s.subrange(4 * (i + j), 4 * (i + j) + 4));
        }
        assert(v =~= be_words(s, i as int, n));
        assert(t.skip(4 * n as int) =~= s.skip(4 * (i + n) as int));
    }
}

/// A binary primitive is what its bytes say: after the block head, its type byte counts
/// to its shape (1 to 11), named after that shape; its transform and bounding box are
/// the 12 and 6 big-endian words after the type byte, in file order, for every kind; and
/// but for a facet group, the shape's numbers, field after field, are the words that
/// follow, and the rest of the input starts right after them.
pub proof fn law_binary_prim_fields(s: Seq<u8>)
    ensures
        spec_prim_binary(s) matches Ok((rest, p)) ==> {
            &&& spec_block_head(s) matches Ok((s1, _))
            &&& spec_zbyte(s1) matches Ok((s2, ty))
            &&& ty == shape_number(p.group)
            &&& s2.len() >= 72
            &&& p.m3x4 == be_words(s2, 0, 12)
            &&& p.bbox == be_words(s2, 12, 6)
            &&& p.kind == shape_name(p.group)
            &&& ty <= 10 ==> {
                &&& s2.len() >= 72 + 4 * shape_numbers(p.group).len()
                &&& shape_numbers(p.group) == be_words(s2, 18, shape_numbers(p.group).len())
                &&& rest == s2.skip(72 + 4 * shape_numbers(p.group).len() as int)
            }
        },
{
    reveal(spec_prim_binary);
    if let Ok((s1, _)) = spec_block_head(s) {
        if let Ok((s2, ty)) = spec_zbyte(s1) {
            lemma_be_floats_words(s2, 0, 12);
            assert(s2.skip(0) =~= s2);
            if s2.len() >= 48 {
                lemma_be_floats_words(s2, 12, 6);
                if s2.len() >= 72 {
                    if let Some(k) = bin_prim_kind(ty) {
                        if k != PrimShape::FacetGroupShape {
                            lemma_be_floats_words(s2, 18, arity(k));
                            if let Ok((_, v)) = spec_be_floats(s2.skip(72), arity(k)) {
                                law_shape_from_numbers(k, v);
                            }
                        }
                    }
                }
            }
        }
    }
}

/// A binary group start is what its bytes say: after the block head, a name length of
/// fewer than 64 words, the name (that many words of text), its translation (the next
/// three big-endian words, in file order) and its material (the whole number of the
/// byte after zero bytes); the rest of the input starts right after that byte.
pub proof fn law_binary_cntb_fields(s: Seq<u8>)
    ensures
        spec_cntb_binary(s) matches Ok((rest, c)) ==> {
            &&& spec_block_head(s) matches Ok((s1, _))
            &&& spec_zbyte(s1) matches Ok((s2, size))
            &&& size < 64
            &&& s2.len() >= 4 * size + 12
            &&& c.name == text(s2.take(4 * size))
            &&& c.translation == be_words(s2, size as int, 3)
            &&& spec_zbyte(s2.skip(4 * size + 12)) matches Ok((r, m))
            &&& rest == r
            &&& c.material == byte_float_bits(m)
        },
{
    reveal(spec_cntb_binary);
    if let Ok((s1, _)) = spec_block_head(s) {
        if let Ok((s2, size)) = spec_zbyte(s1) {
            if size < 64 && s2.len() >= 4 * size {
                lemma_be_floats_words(s2, size as nat, 3);
            }
        }
    }
}

} // verus!
