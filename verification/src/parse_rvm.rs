//! The blocks of the text format: versions, coordinates, group starts and ends, and
//! primitives.
use vstd::prelude::*;
use vstd::string::*;

use crate::error::RvmError;
use crate::lex::{
    floats, multispace0, spec_float, spec_floats, spec_take_until, spec_ws_float, take_until,
    text, text_view, ws, ws_float, float, lemma_float_shrinks, lemma_ws_len, lemma_floats_len,
    lemma_take_until_len, lemma_floats_err,
};
use crate::names::{CNTB, CntbView, CNTE, PRIM, PrimView};
use crate::numbers::{byte_float_bits, u8_float_bits};
use crate::shapes::{
    arity, kind_name, kind_string, shape_from, shape_name, shape_number, shape_numbers,
    law_shape_from_numbers, PrimShape, PrimShapes, tuple_pyramid, tuple_box,
    tuple_rectangularTorus, tuple_CircularTorus, tuple_EllipticalDish, tuple_SphericalDish,
    tuple_Snout, tuple_Cylinder, tuple_Sphere, tuple_Line,
};

verus! {

/// A version: two numbers, each after optional blanks.
pub fn parse_version(input: &str) -> (r: Result<(&str, Vec<u32>), RvmError>)
    ensures
        text_view(r) == spec_floats(input.spec_bytes(), 2),
{
    floats(input, 2)
}

/// A translation: three numbers, each after optional blanks.
pub fn parse_translation(input: &str) -> (r: Result<(&str, [u32; 3]), RvmError>)
    ensures
        text_view(r) == spec_floats(input.spec_bytes(), 3),
{
    let (rest, v) = floats(input, 3)?;
    let a = [v[0], v[1], v[2]];
    assert(a@ =~= v@);
    Ok((rest, a))
}

/// One row of a transform: four numbers, each after optional blanks.
pub fn parse_4float(input: &str) -> (r: Result<(&str, [u32; 4]), RvmError>)
    ensures
        text_view(r) == spec_floats(input.spec_bytes(), 4),
{
    let (rest, v) = floats(input, 4)?;
    let a = [v[0], v[1], v[2], v[3]];
    assert(a@ =~= v@);
    Ok((rest, a))
}

/// A 3x4 transform: three rows of four numbers, each number after optional blanks,
/// row after row.
#[allow(non_snake_case)]
pub fn parse_M3x4(input: &str) -> (r: Result<(&str, Vec<u32>), RvmError>)
    ensures
        text_view(r) == spec_floats(input.spec_bytes(), 12),
{
    floats(input, 12)
}

/// A local bounding box: six numbers, each after optional blanks.
#[allow(non_snake_case)]
pub fn parse_bboxLocal(input: &str) -> (r: Result<(&str, [u32; 6]), RvmError>)
    ensures
        text_view(r) == spec_floats(input.spec_bytes(), 6),
{
    let (rest, v) = floats(input, 6)?;
    let a = [v[0], v[1], v[2], v[3], v[4], v[5]];
    assert(a@ =~= v@);
    Ok((rest, a))
}

/// A group start after its keyword: a version, then the name up to the carriage return,
/// the translation and the material number; the count of open groups goes up by one.
#[verifier::opaque]
pub open spec fn spec_parse_cntb(s: Seq<u8>, sum: u8) -> Result<(Seq<u8>, (u8, CntbView)), RvmError> {
    match spec_floats(s, 2) {
        Err(e) => Err(e),
        Ok((s1, _)) => match spec_take_until(ws(s1), 13u8) {
            Err(e) => Err(e),
            Ok((s2, name)) => match spec_floats(s2, 3) {
                Err(e) => Err(e),
                Ok((s3, t)) => match spec_ws_float(s3) {
                    Err(e) => Err(e),
                    Ok((s4, m)) => if sum == 255 {
                        Err(RvmError::CountOverflow)
                    } else {
                        Ok(
                            (
                                s4,
                                (
                                    (sum + 1) as u8,
                                    CntbView { name: text(name), translation: t, material: m },
                                ),
                            ),
                        )
                    },
                },
            },
        },
    }
}

/// Reads a group start that follows its keyword, and counts one more open group. A
/// count already at 255 gives `CountOverflow` rather than a panic.
pub fn parse_cntb(input: &str, sum: u8) -> (r: Result<(&str, (u8, CNTB)), RvmError>)
    ensures
        text_view(r) == spec_parse_cntb(input.spec_bytes(), sum),
{
    reveal(spec_parse_cntb);
    let (rest, _) = parse_version(input)?;
    let (rest, _) = multispace0(rest);
    let (rest, name) = take_until(rest, 13)?;
    let (rest, translation) = parse_translation(rest)?;
    let (rest, _) = multispace0(rest);
    let (rest, material) = float(rest)?;
    if sum == 255 {
        return Err(RvmError::CountOverflow);
    }
    let c = CNTB { name: name.to_owned(), translation, material };
    Ok((rest, (sum + 1, c)))
}

/// A group end after its keyword: blanks and a version; the count of open groups goes
/// down by one.
#[verifier::opaque]
pub open spec fn spec_parse_cnte(s: Seq<u8>, sum: u8) -> Result<(Seq<u8>, (u8, CNTE)), RvmError> {
    match spec_floats(ws(s), 2) {
        Err(e) => Err(e),
        Ok((s1, _)) => if sum == 0 {
            Err(RvmError::CountUnderflow)
        } else {
            Ok((s1, ((sum - 1) as u8, CNTE)))
        },
    }
}

/// Reads a group end that follows its keyword, and counts one open group less. A count
/// of 0 gives `CountUnderflow` rather than a panic.
pub fn parse_cnte(input: &str, sum: u8) -> (r: Result<(&str, (u8, CNTE)), RvmError>)
    ensures
        text_view(r) == spec_parse_cnte(input.spec_bytes(), sum),
{
    reveal(spec_parse_cnte);
    let (rest, _) = multispace0(input);
    let (rest, _) = parse_version(rest)?;
    if sum == 0 {
        return Err(RvmError::CountUnderflow);
    }
    Ok((rest, (sum - 1, CNTE)))
}

/// The shape kind that a primitive's type number stands for in the text format: the
/// numbers 1 to 10, in the order of `PrimShape`.
pub open spec fn text_prim_kind(t: u32) -> Option<PrimShape> {
    if t == byte_float_bits(1) {
        Some(PrimShape::PyramidShape)
    } else if t == byte_float_bits(2) {
        Some(PrimShape::BoxShape)
    } else if t == byte_float_bits(3) {
        Some(PrimShape::RectangularTorusShape)
    } else if t == byte_float_bits(4) {
        Some(PrimShape::CircularTorusShape)
    } else if t == byte_float_bits(5) {
        Some(PrimShape::EllipticalDishShape)
    } else if t == byte_float_bits(6) {
        Some(PrimShape::SphericalDishShape)
    } else if t == byte_float_bits(7) {
        Some(PrimShape::SnoutShape)
    } else if t == byte_float_bits(8) {
        Some(PrimShape::CylinderShape)
    } else if t == byte_float_bits(9) {
        Some(PrimShape::SphereShape)
    } else if t == byte_float_bits(10) {
        Some(PrimShape::LineShape)
    } else {
        None
    }
}

/// The shape kind that a text primitive's type number (its bit pattern) stands for.
pub fn text_prim_kind_of(t: u32) -> (r: Option<PrimShape>)
    ensures
        r == text_prim_kind(t),
{
    if t == u8_float_bits(1) {
        Some(PrimShape::PyramidShape)
    } else if t == u8_float_bits(2) {
        Some(PrimShape::BoxShape)
    } else if t == u8_float_bits(3) {
        Some(PrimShape::RectangularTorusShape)
    } else if t == u8_float_bits(4) {
        Some(PrimShape::CircularTorusShape)
    } else if t == u8_float_bits(5) {
        Some(PrimShape::EllipticalDishShape)
    } else if t == u8_float_bits(6) {
        Some(PrimShape::SphericalDishShape)
    } else if t == u8_float_bits(7) {
        Some(PrimShape::SnoutShape)
    } else if t == u8_float_bits(8) {
        Some(PrimShape::CylinderShape)
    } else if t == u8_float_bits(9) {
        Some(PrimShape::SphereShape)
    } else if t == u8_float_bits(10) {
        Some(PrimShape::LineShape)
    } else {
        None
    }
}

/// A primitive after its keyword: a version, the type number, the 3x4 transform, the
/// local bounding box, then as many numbers as the shape of that type has.
#[verifier::opaque]
pub open spec fn spec_parse_prim(s: Seq<u8>) -> Result<(Seq<u8>, PrimView), RvmError> {
    match spec_floats(s, 2) {
        Err(e) => Err(e),
        Ok((s1, _)) => match spec_ws_float(s1) {
            Err(e) => Err(e),
            Ok((s2, t)) => match spec_floats(s2, 12) {
                Err(e) => Err(e),
                Ok((s3, m)) => match spec_floats(s3, 6) {
                    Err(e) => Err(e),
                    Ok((s4, bb)) => match text_prim_kind(t) {
                        None => Err(RvmError::UnknownPrimitive),
                        Some(k) => match spec_floats(s4, arity(k)) {
                            Err(e) => Err(e),
                            Ok((s5, v)) => Ok(
                                (
                                    s5,
                                    PrimView {
                                        kind: kind_name(k),
                                        m3x4: m,
                                        bbox: bb,
                                        group: shape_from(k, v),
                                    },
                                ),
                            ),
                        },
                    },
                },
            },
        },
    }
}

/// The numbers a text primitive carries, where all of them can be read and its type
/// number stands for a shape: the type number, the 3x4 transform, the local bounding box
/// and the shape's numbers.
pub open spec fn text_prim_numbers(s: Seq<u8>) -> Option<(u32, Seq<u32>, Seq<u32>, Seq<u32>)> {
    match spec_floats(s, 2) {
        Err(_) => None,
        Ok((s1, _)) => match spec_ws_float(s1) {
            Err(_) => None,
            Ok((s2, t)) => match spec_floats(s2, 12) {
                Err(_) => None,
                Ok((s3, m)) => match spec_floats(s3, 6) {
                    Err(_) => None,
                    Ok((s4, bb)) => match text_prim_kind(t) {
                        None => None,
                        Some(k) => match spec_floats(s4, arity(k)) {
                            Err(_) => None,
                            Ok((_, v)) => Some((t, m, bb, v)),
                        },
                    },
                },
            },
        },
    }
}

/// Reads a primitive that follows its keyword. A type number that stands for no shape
/// gives `UnknownPrimitive`, and a shape whose numbers cannot be read gives that error,
/// rather than a panic.
#[allow(non_snake_case)]
pub fn parse_prim(input: &str) -> (r: Result<(&str, PRIM), RvmError>)
    ensures
        text_view(r) == spec_parse_prim(input.spec_bytes()),
{
    reveal(spec_parse_prim);
    let (rest, _) = parse_version(input)?;
    let (rest, types) = ws_float(rest)?;
    let (rest, M3x4) = parse_M3x4(rest)?;
    let (rest, bboxLocal) = parse_bboxLocal(rest)?;
    let k = match text_prim_kind_of(types) {
        Some(k) => k,
        None => return Err(RvmError::UnknownPrimitive),
    };
    let (rest, group) = match k {
        PrimShape::PyramidShape => {
            let (r, s) = tuple_pyramid(rest)?;
            (r, PrimShapes::PyramidShape(s))
        },
        PrimShape::BoxShape => {
            let (r, s) = tuple_box(rest)?;
            (r, PrimShapes::BoxShape(s))
        },
        PrimShape::RectangularTorusShape => {
            let (r, s) = tuple_rectangularTorus(rest)?;
            (r, PrimShapes::RectangularTorusShape(s))
        },
        PrimShape::CircularTorusShape => {
            let (r, s) = tuple_CircularTorus(rest)?;
            (r, PrimShapes::CircularTorusShape(s))
        },
        PrimShape::EllipticalDishShape => {
            let (r, s) = tuple_EllipticalDish(rest)?;
            (r, PrimShapes::EllipticalDishShape(s))
        },
        PrimShape::SphericalDishShape => {
            let (r, s) = tuple_SphericalDish(rest)?;
            (r, PrimShapes::SphericalDishShape(s))
        },
        PrimShape::SnoutShape => {
            let (r, s) = tuple_Snout(rest)?;
            (r, PrimShapes::SnoutShape(s))
        },
        PrimShape::CylinderShape => {
            let (r, s) = tuple_Cylinder(rest)?;
            (r, PrimShapes::CylinderShape(s))
        },
        PrimShape::SphereShape => {
            let (r, s) = tuple_Sphere(rest)?;
            (r, PrimShapes::SphereShape(s))
        },
        _ => {
            let (r, s) = tuple_Line(rest)?;
            (r, PrimShapes::LineShape(s))
        },
    };
    Ok((rest, PRIM { kind: kind_string(k), M_3x4: M3x4, bboxLocal, group }))
}

/// The numbers after the first of a blank-separated list: each needs blanks before it;
/// the list ends, with the input as it was before those blanks, where no number
/// follows; a number whose exponent has no digits fails the whole list, and so does a
/// position where no blank separates the next item.
pub open spec fn spec_separated_tail(s: Seq<u8>, acc: Seq<u32>) -> Result<
    (Seq<u8>, Seq<u32>),
    RvmError,
>
    decreases s.len(),
{
    let s1 = ws(s);
    if s1.len() >= s.len() {
        Err(RvmError::SeparatedList)
    } else {
        match spec_float(s1) {
            Err(RvmError::FloatCut) => Err(RvmError::FloatCut),
            Err(_) => Ok((s, acc)),
            Ok((s2, x)) => {
                proof {
                    lemma_float_shrinks(s1);
                }
                spec_separated_tail(s2, acc.push(x))
            },
        }
    }
}

/// A blank-separated list of numbers, possibly empty.
pub open spec fn spec_separated(s: Seq<u8>) -> Result<(Seq<u8>, Seq<u32>), RvmError> {
    match spec_float(s) {
        Err(RvmError::FloatCut) => Err(RvmError::FloatCut),
        Err(_) => Ok((s, Seq::empty())),
        Ok((s1, x)) => spec_separated_tail(s1, seq![x]),
    }
}

/// Reads a blank-separated list of numbers.
pub fn parse_separated(input: &str) -> (r: Result<(&str, Vec<u32>), RvmError>)
    ensures
        text_view(r) == spec_separated(input.spec_bytes()),
{
    let mut out: Vec<u32> = Vec::new();
    let mut cur = match float(input) {
        Err(RvmError::FloatCut) => return Err(RvmError::FloatCut),
        Err(_) => return Ok((input, out)),
        Ok((r, x)) => {
            out.push(x);
            r
        },
    };
    assert(out@ =~= seq![out@[0]]);
    loop
        invariant
            spec_separated(input.spec_bytes()) == spec_separated_tail(cur.spec_bytes(), out@),
        decreases cur.spec_bytes().len(),
    {
        let (after, _) = multispace0(cur);
        proof {
            lemma_ws_len(cur.spec_bytes());
        }
        if after.as_bytes().len() >= cur.as_bytes().len() {
            return Err(RvmError::SeparatedList);
        }
        match float(after) {
            Err(RvmError::FloatCut) => return Err(RvmError::FloatCut),
            Err(_) => return Ok((cur, out)),
            Ok((r, x)) => {
                proof {
                    lemma_float_shrinks(after.spec_bytes());
                }
                out.push(x);
                cur = r;
            },
        }
    }
}

/// A group start that was read leaves a suffix.
pub proof fn lemma_cntb_len(s: Seq<u8>, sum: u8)
    ensures
        spec_parse_cntb(s, sum) matches Ok((r, _)) ==> r.len() <= s.len(),
{
    reveal(spec_parse_cntb);
    lemma_floats_len(s, 2);
    if let Ok((s1, _)) = spec_floats(s, 2) {
        lemma_ws_len(s1);
        lemma_take_until_len(ws(s1), 13u8);
        if let Ok((s2, _)) = spec_take_until(ws(s1), 13u8) {
            lemma_floats_len(s2, 3);
            if let Ok((s3, _)) = spec_floats(s2, 3) {
                lemma_ws_len(s3);
                lemma_float_shrinks(ws(s3));
            }
        }
    }
}

/// A group end that was read leaves a suffix.
pub proof fn lemma_cnte_len(s: Seq<u8>, sum: u8)
    ensures
        spec_parse_cnte(s, sum) matches Ok((r, _)) ==> r.len() <= s.len(),
{
    reveal(spec_parse_cnte);
    lemma_ws_len(s);
    lemma_floats_len(ws(s), 2);
}

/// A primitive that was read leaves a suffix.
pub proof fn lemma_prim_len(s: Seq<u8>)
    ensures
        spec_parse_prim(s) matches Ok((r, _)) ==> r.len() <= s.len(),
{
    reveal(spec_parse_prim);
    lemma_floats_len(s, 2);
    if let Ok((s1, _)) = spec_floats(s, 2) {
        lemma_ws_len(s1);
        lemma_float_shrinks(ws(s1));
        if let Ok((s2, _)) = spec_ws_float(s1) {
            lemma_floats_len(s2, 12);
            if let Ok((s3, _)) = spec_floats(s2, 12) {
                lemma_floats_len(s3, 6);
                if let Ok((s4, _)) = spec_floats(s3, 6) {
                    match text_prim_kind(spec_ws_float(s1).unwrap().1) {
                        Some(k) => lemma_floats_len(s4, arity(k)),
                        None => {},
                    }
                }
            }
        }
    }
}


/// The ways a group start, group end or primitive can fail are those of their fields.
pub proof fn lemma_block_errors(s: Seq<u8>, sum: u8)
    ensures
        !(spec_parse_cntb(s, sum) matches Err(RvmError::NoParent)),
        !(spec_parse_cnte(s, sum) matches Err(RvmError::NoParent)),
        !(spec_parse_prim(s) matches Err(RvmError::NoParent)),
{
    reveal(spec_parse_cntb);
    reveal(spec_parse_cnte);
    reveal(spec_parse_prim);
    lemma_floats_err(s, 2);
    lemma_floats_err(ws(s), 2);
    if let Ok((s1, _)) = spec_floats(s, 2) {
        if let Ok((s2, _)) = spec_take_until(ws(s1), 13u8) {
            lemma_floats_err(s2, 3);
        }
        if let Ok((s2, t)) = spec_ws_float(s1) {
            lemma_floats_err(s2, 12);
            if let Ok((s3, _)) = spec_floats(s2, 12) {
                lemma_floats_err(s3, 6);
                if let Ok((s4, _)) = spec_floats(s3, 6) {
                    if let Some(k) = text_prim_kind(t) {
                        lemma_floats_err(s4, arity(k));
                    }
                }
            }
        }
    }
}

/// Reading `n` numbers gives `n` numbers.
proof fn lemma_floats_count(s: Seq<u8>, n: nat)
    ensures
        spec_floats(s, n) matches Ok((_, v)) ==> v.len() == n,
    decreases n,
{
    if n > 0 {
        lemma_floats_count(s, (n - 1) as nat);
    }
}

/// A text group start is what its text says, whatever the count of open groups: its
/// name is the field before the carriage return, its translation the three numbers
/// after it, its material the number after those; the count goes up by exactly one.
pub proof fn law_text_cntb_fields(s: Seq<u8>, sum: u8)
    ensures
        spec_parse_cntb(s, sum) matches Ok((rest, (sum2, c))) ==> {
            &&& sum < 255
            &&& sum2 == sum + 1
            &&& spec_floats(s, 2) matches Ok((s1, _))
            &&& spec_take_until(ws(s1), 13u8) matches Ok((s2, name))
            &&& spec_floats(s2, 3) matches Ok((s3, t))
            &&& spec_ws_float(s3) matches Ok((s4, x))
            &&& rest == s4
            &&& c.name == text(name)
            &&& c.translation == t
            &&& c.material == x
        },
{
    reveal(spec_parse_cntb);
}

/// Reading a text group start at two counts of open groups reads the same block: both
/// succeed or neither does (but for a full count), with the same rest and the same
/// group start.
pub proof fn law_text_cntb_count_apart(s: Seq<u8>, a: u8, b: u8)
    requires
        a < 255,
        b < 255,
    ensures
        spec_parse_cntb(s, a) is Ok <==> spec_parse_cntb(s, b) is Ok,
        spec_parse_cntb(s, a) matches Ok((ra, (_, ca))) ==> spec_parse_cntb(s, b) matches Ok((rb, (_, cb)))
            && ra == rb && ca == cb,
{
    reveal(spec_parse_cntb);
}

/// A text group end reads its version pair and counts exactly one group less.
pub proof fn law_text_cnte_fields(s: Seq<u8>, sum: u8)
    ensures
        spec_parse_cnte(s, sum) matches Ok((rest, (sum2, _))) ==> {
            &&& sum > 0
            &&& sum2 == sum - 1
            &&& spec_floats(ws(s), 2) matches Ok((r, _))
            &&& rest == r
        },
{
    reveal(spec_parse_cnte);
}

/// A text primitive is what its text says: its transform and bounding box are the 12
/// and 6 numbers after the type number; its shape is the one the type number counts to
/// (a whole number from 1 to 10), named after that shape; and the shape's numbers, field
/// after field, are the numbers that follow.
pub proof fn law_text_prim_fields(s: Seq<u8>)
    ensures
        spec_parse_prim(s) matches Ok((rest, p)) ==> {
            &&& spec_floats(s, 2) matches Ok((s1, _))
            &&& spec_ws_float(s1) matches Ok((s2, t))
            &&& spec_floats(s2, 12) matches Ok((s3, m))
            &&& spec_floats(s3, 6) matches Ok((s4, bb))
            &&& 1 <= shape_number(p.group) <= 10
            &&& t == byte_float_bits(shape_number(p.group))
            &&& p.m3x4 == m
            &&& p.bbox == bb
            &&& p.kind == shape_name(p.group)
            &&& spec_floats(s4, shape_numbers(p.group).len()) == Ok::<(Seq<u8>, Seq<u32>), RvmError>(
                (rest, shape_numbers(p.group)),
            )
        },
{
    reveal(spec_parse_prim);
    if let Ok((s1, _)) = spec_floats(s, 2) {
        if let Ok((s2, t)) = spec_ws_float(s1) {
            if let Ok((s3, _)) = spec_floats(s2, 12) {
                if let Ok((s4, _)) = spec_floats(s3, 6) {
                    if let Some(k) = text_prim_kind(t) {
                        if let Ok((_, v)) = spec_floats(s4, arity(k)) {
                            lemma_floats_count(s4, arity(k));
                            law_shape_from_numbers(k, v);
                        }
                    }
                }
            }
        }
    }
}

} // verus!
