use vstd::prelude::*;
use vstd::string::*;

use crate::error::RvmError;
use crate::lex::{floats, spec_floats, text_view};

verus! {

/// The shape of a primitive, with its dimensions. Each number is held as the bit
/// pattern of its IEEE-754 single-precision value.
#[derive(Debug, Clone, PartialEq)]
pub enum PrimShapes {
    PyramidShape(Pyramid),
    BoxShape(Box),
    RectangularTorusShape(RectangularTorus),
    CircularTorusShape(CircularTorus),
    EllipticalDishShape(EllipticalDish),
    SphericalDishShape(SphericalDish),
    SnoutShape(Snout),
    CylinderShape(Cylinder),
    SphereShape(Sphere),
    LineShape(Line),
    FacetGroupShape(FacetGroup),
}

/// The kind of a primitive's shape, without its dimensions.
#[derive(Debug, Clone, Copy, PartialEq, Eq, Structural)]
pub enum PrimShape {
    PyramidShape,
    BoxShape,
    RectangularTorusShape,
    CircularTorusShape,
    EllipticalDishShape,
    SphericalDishShape,
    SnoutShape,
    CylinderShape,
    SphereShape,
    LineShape,
    FacetGroupShape,
}

#[derive(Debug, Clone, Copy, PartialEq)]
pub struct Pyramid {
    pub bottom: [u32; 2],
    pub top: [u32; 2],
    pub offset: [u32; 2],
    pub height: u32,
}

#[derive(Debug, Clone, Copy, PartialEq)]
pub struct Box {
    pub lengths: [u32; 3],
}

#[derive(Debug, Clone, Copy, PartialEq)]
pub struct RectangularTorus {
    pub inner_radius: u32,
    pub outer_radius: u32,
    pub height: u32,
    pub angle: u32,
}

#[derive(Debug, Clone, Copy, PartialEq)]
pub struct CircularTorus {
    pub offset: u32,
    pub radius: u32,
    pub angle: u32,
}

#[allow(non_snake_case)]
#[derive(Debug, Clone, Copy, PartialEq)]
pub struct EllipticalDish {
    pub baseRadius: u32,
    pub height: u32,
}

#[allow(non_snake_case)]
#[derive(Debug, Clone, Copy, PartialEq)]
pub struct SphericalDish {
    pub baseRadius: u32,
    pub height: u32,
}

#[derive(Debug, Clone, Copy, PartialEq)]
pub struct Snout {
    pub offset: [u32; 2],
    pub bshear: [u32; 2],
    pub tshear: [u32; 2],
    pub radius_b: u32,
    pub radius_t: u32,
    pub height: u32,
}

#[derive(Debug, Clone, Copy, PartialEq)]
pub struct Cylinder {
    pub radius: u32,
    pub height: u32,
}

#[derive(Debug, Clone, Copy, PartialEq)]
pub struct Sphere {
    pub diameter: u32,
}

#[derive(Debug, Clone, Copy, PartialEq)]
pub struct Line {
    pub a: u32,
    pub b: u32,
}

/// A facet group: the corner records of its polygons, six numbers each, in file order.
#[derive(Debug, Clone, PartialEq)]
pub struct FacetGroup {
    pub data: Vec<[u32; 6]>,
}

pub enum PrimShapesView {
    PyramidShape(Pyramid),
    BoxShape(Box),
    RectangularTorusShape(RectangularTorus),
    CircularTorusShape(CircularTorus),
    EllipticalDishShape(EllipticalDish),
    SphericalDishShape(SphericalDish),
    SnoutShape(Snout),
    CylinderShape(Cylinder),
    SphereShape(Sphere),
    LineShape(Line),
    FacetGroupShape(Seq<[u32; 6]>),
}

impl View for PrimShapes {
    type V = PrimShapesView;

    open spec fn view(&self) -> PrimShapesView {
        match self {
            PrimShapes::PyramidShape(s) => PrimShapesView::PyramidShape(*s),
            PrimShapes::BoxShape(s) => PrimShapesView::BoxShape(*s),
            PrimShapes::RectangularTorusShape(s) => PrimShapesView::RectangularTorusShape(*s),
            PrimShapes::CircularTorusShape(s) => PrimShapesView::CircularTorusShape(*s),
            PrimShapes::EllipticalDishShape(s) => PrimShapesView::EllipticalDishShape(*s),
            PrimShapes::SphericalDishShape(s) => PrimShapesView::SphericalDishShape(*s),
            PrimShapes::SnoutShape(s) => PrimShapesView::SnoutShape(*s),
            PrimShapes::CylinderShape(s) => PrimShapesView::CylinderShape(*s),
            PrimShapes::SphereShape(s) => PrimShapesView::SphereShape(*s),
            PrimShapes::LineShape(s) => PrimShapesView::LineShape(*s),
            PrimShapes::FacetGroupShape(f) => PrimShapesView::FacetGroupShape(f.data@),
        }
    }
}

/// How many numbers describe a shape of the given kind (a facet group has a
/// variable-length description and is given 0 here).
pub open spec fn arity(k: PrimShape) -> nat {
    match k {
        PrimShape::PyramidShape => 7,
        PrimShape::BoxShape => 3,
        PrimShape::RectangularTorusShape => 4,
        PrimShape::CircularTorusShape => 3,
        PrimShape::EllipticalDishShape => 2,
        PrimShape::SphericalDishShape => 2,
        PrimShape::SnoutShape => 9,
        PrimShape::CylinderShape => 2,
        PrimShape::SphereShape => 1,
        PrimShape::LineShape => 2,
        PrimShape::FacetGroupShape => 0,
    }
}

impl View for Pyramid {
    type V = Pyramid;

    open spec fn view(&self) -> Pyramid {
        *self
    }
}

impl View for Box {
    type V = Box;

    open spec fn view(&self) -> Box {
        *self
    }
}

impl View for RectangularTorus {
    type V = RectangularTorus;

    open spec fn view(&self) -> RectangularTorus {
        *self
    }
}

impl View for CircularTorus {
    type V = CircularTorus;

    open spec fn view(&self) -> CircularTorus {
        *self
    }
}

impl View for EllipticalDish {
    type V = EllipticalDish;

    open spec fn view(&self) -> EllipticalDish {
        *self
    }
}

impl View for SphericalDish {
    type V = SphericalDish;

    open spec fn view(&self) -> SphericalDish {
        *self
    }
}

impl View for Snout {
    type V = Snout;

    open spec fn view(&self) -> Snout {
        *self
    }
}

impl View for Cylinder {
    type V = Cylinder;

    open spec fn view(&self) -> Cylinder {
        *self
    }
}

impl View for Sphere {
    type V = Sphere;

    open spec fn view(&self) -> Sphere {
        *self
    }
}

impl View for Line {
    type V = Line;

    open spec fn view(&self) -> Line {
        *self
    }
}

/// A pyramid from its seven numbers in file order.
pub open spec fn pyramid_from(v: Seq<u32>) -> Pyramid {
    Pyramid { bottom: [v[0], v[1]], top: [v[2], v[3]], offset: [v[4], v[5]], height: v[6] }
}

/// A box from its three lengths.
pub open spec fn box_from(v: Seq<u32>) -> Box {
    Box { lengths: [v[0], v[1], v[2]] }
}

/// A rectangular torus from its four numbers in file order.
pub open spec fn rectangular_torus_from(v: Seq<u32>) -> RectangularTorus {
    RectangularTorus { inner_radius: v[0], outer_radius: v[1], height: v[2], angle: v[3] }
}

/// A circular torus from its three numbers in file order.
pub open spec fn circular_torus_from(v: Seq<u32>) -> CircularTorus {
    CircularTorus { offset: v[0], radius: v[1], angle: v[2] }
}

/// An elliptical dish from its two numbers in file order.
pub open spec fn elliptical_dish_from(v: Seq<u32>) -> EllipticalDish {
    EllipticalDish { baseRadius: v[0], height: v[1] }
}

/// A spherical dish from its two numbers in file order.
pub open spec fn spherical_dish_from(v: Seq<u32>) -> SphericalDish {
    SphericalDish { baseRadius: v[0], height: v[1] }
}

/// A snout from its nine numbers in file order.
pub open spec fn snout_from(v: Seq<u32>) -> Snout {
    Snout {
        offset: [v[0], v[1]],
        bshear: [v[2], v[3]],
        tshear: [v[4], v[5]],
        radius_b: v[6],
        radius_t: v[7],
        height: v[8],
    }
}

/// A cylinder from its two numbers in file order.
pub open spec fn cylinder_from(v: Seq<u32>) -> Cylinder {
    Cylinder { radius: v[0], height: v[1] }
}

/// A sphere from its diameter.
pub open spec fn sphere_from(v: Seq<u32>) -> Sphere {
    Sphere { diameter: v[0] }
}

/// A line from its two numbers in file order.
pub open spec fn line_from(v: Seq<u32>) -> Line {
    Line { a: v[0], b: v[1] }
}

/// The shape of kind `k` whose numbers, in the order the file gives them, are `v`.
pub open spec fn shape_from(k: PrimShape, v: Seq<u32>) -> PrimShapesView {
    match k {
        PrimShape::PyramidShape => PrimShapesView::PyramidShape(pyramid_from(v)),
        PrimShape::BoxShape => PrimShapesView::BoxShape(box_from(v)),
        PrimShape::RectangularTorusShape => PrimShapesView::RectangularTorusShape(rectangular_torus_from(v)),
        PrimShape::CircularTorusShape => PrimShapesView::CircularTorusShape(circular_torus_from(v)),
        PrimShape::EllipticalDishShape => PrimShapesView::EllipticalDishShape(elliptical_dish_from(v)),
        PrimShape::SphericalDishShape => PrimShapesView::SphericalDishShape(spherical_dish_from(v)),
        PrimShape::SnoutShape => PrimShapesView::SnoutShape(snout_from(v)),
        PrimShape::CylinderShape => PrimShapesView::CylinderShape(cylinder_from(v)),
        PrimShape::SphereShape => PrimShapesView::SphereShape(sphere_from(v)),
        PrimShape::LineShape => PrimShapesView::LineShape(line_from(v)),
        PrimShape::FacetGroupShape => PrimShapesView::FacetGroupShape(Seq::empty()),
    }
}

/// The name that a primitive of kind `k` is recorded under.
pub open spec fn kind_name(k: PrimShape) -> Seq<char> {
    match k {
        PrimShape::PyramidShape => "Pyramid"@,
        PrimShape::BoxShape => "Box"@,
        PrimShape::RectangularTorusShape => "RectangularTorus"@,
        PrimShape::CircularTorusShape => "CircularTorus"@,
        PrimShape::EllipticalDishShape => "EllipticalDish"@,
        PrimShape::SphericalDishShape => "SphericalDish"@,
        PrimShape::SnoutShape => "Snout"@,
        PrimShape::CylinderShape => "Cylinder"@,
        PrimShape::SphereShape => "Sphere"@,
        PrimShape::LineShape => "Line"@,
        PrimShape::FacetGroupShape => "FacetGroup"@,
    }
}

/// Builds the shape of kind `k` from its numbers in file order.
pub fn shape_of(k: PrimShape, v: &Vec<u32>) -> (r: PrimShapes)
    requires
        k != PrimShape::FacetGroupShape,
        v@.len() == arity(k),
    ensures
        r@ == shape_from(k, v@),
{
    match k {
        PrimShape::PyramidShape => PrimShapes::PyramidShape(
            Pyramid { bottom: [v[0], v[1]], top: [v[2], v[3]], offset: [v[4], v[5]], height: v[6] },
        ),
        PrimShape::BoxShape => PrimShapes::BoxShape(Box { lengths: [v[0], v[1], v[2]] }),
        PrimShape::RectangularTorusShape => PrimShapes::RectangularTorusShape(
            RectangularTorus { inner_radius: v[0], outer_radius: v[1], height: v[2], angle: v[3] },
        ),
        PrimShape::CircularTorusShape => PrimShapes::CircularTorusShape(
            CircularTorus { offset: v[0], radius: v[1], angle: v[2] },
        ),
        PrimShape::EllipticalDishShape => PrimShapes::EllipticalDishShape(
            EllipticalDish { baseRadius: v[0], height: v[1] },
        ),
        PrimShape::SphericalDishShape => PrimShapes::SphericalDishShape(
            SphericalDish { baseRadius: v[0], height: v[1] },
        ),
        PrimShape::SnoutShape => PrimShapes::SnoutShape(
            Snout {
                offset: [v[0], v[1]],
                bshear: [v[2], v[3]],
                tshear: [v[4], v[5]],
                radius_b: v[6],
                radius_t: v[7],
                height: v[8],
            },
        ),
        PrimShape::CylinderShape => PrimShapes::CylinderShape(Cylinder { radius: v[0], height: v[1] }),
        PrimShape::SphereShape => PrimShapes::SphereShape(Sphere { diameter: v[0] }),
        PrimShape::LineShape => PrimShapes::LineShape(Line { a: v[0], b: v[1] }),
        PrimShape::FacetGroupShape => PrimShapes::FacetGroupShape(FacetGroup { data: Vec::new() }),
    }
}

/// The name that a primitive of kind `k` is recorded under.
pub fn kind_string(k: PrimShape) -> (r: String)
    ensures
        r@ == kind_name(k),
{
    let s: &str = match k {
        PrimShape::PyramidShape => "Pyramid",
        PrimShape::BoxShape => "Box",
        PrimShape::RectangularTorusShape => "RectangularTorus",
        PrimShape::CircularTorusShape => "CircularTorus",
        PrimShape::EllipticalDishShape => "EllipticalDish",
        PrimShape::SphericalDishShape => "SphericalDish",
        PrimShape::SnoutShape => "Snout",
        PrimShape::CylinderShape => "Cylinder",
        PrimShape::SphereShape => "Sphere",
        PrimShape::LineShape => "Line",
        PrimShape::FacetGroupShape => "FacetGroup",
    };
    s.to_owned()
}

/// The outcome of reading numbers, with the numbers turned into a value by `f`.
pub open spec fn map_floats<T>(
    r: Result<(Seq<u8>, Seq<u32>), RvmError>,
    f: spec_fn(Seq<u32>) -> T,
) -> Result<(Seq<u8>, T), RvmError> {
    match r {
        Ok((rest, v)) => Ok((rest, f(v))),
        Err(e) => Err(e),
    }
}

/// Seven numbers, each after optional blanks: a pyramid's bottom, top and offset pairs, then its height.
#[allow(non_snake_case)]
pub fn tuple_pyramid(input: &str) -> (r: Result<(&str, Pyramid), RvmError>)
    ensures
        text_view(r) == map_floats(spec_floats(input.spec_bytes(), 7), |v: Seq<u32>| pyramid_from(v)),
{
    let (rest, v) = floats(input, 7)?;
    Ok((
        rest,
        Pyramid { bottom: [v[0], v[1]], top: [v[2], v[3]], offset: [v[4], v[5]], height: v[6] },
    ))
}

/// Three numbers, each after optional blanks: a box's lengths.
#[allow(non_snake_case)]
pub fn tuple_box(input: &str) -> (r: Result<(&str, Box), RvmError>)
    ensures
        text_view(r) == map_floats(spec_floats(input.spec_bytes(), 3), |v: Seq<u32>| box_from(v)),
{
    let (rest, v) = floats(input, 3)?;
    Ok((
        rest,
        Box { lengths: [v[0], v[1], v[2]] },
    ))
}

/// Four numbers, each after optional blanks: a rectangular torus's inner and outer radius, height and angle.
#[allow(non_snake_case)]
pub fn tuple_rectangularTorus(input: &str) -> (r: Result<(&str, RectangularTorus), RvmError>)
    ensures
        text_view(r) == map_floats(spec_floats(input.spec_bytes(), 4), |v: Seq<u32>| rectangular_torus_from(v)),
{
    let (rest, v) = floats(input, 4)?;
    Ok((
        rest,
        RectangularTorus { inner_radius: v[0], outer_radius: v[1], height: v[2], angle: v[3] },
    ))
}

/// Three numbers, each after optional blanks: a circular torus's offset, radius and angle.
#[allow(non_snake_case)]
pub fn tuple_CircularTorus(input: &str) -> (r: Result<(&str, CircularTorus), RvmError>)
    ensures
        text_view(r) == map_floats(spec_floats(input.spec_bytes(), 3), |v: Seq<u32>| circular_torus_from(v)),
{
    let (rest, v) = floats(input, 3)?;
    Ok((
        rest,
        CircularTorus { offset: v[0], radius: v[1], angle: v[2] },
    ))
}

/// Two numbers, each after optional blanks: an elliptical dish's base radius and height.
#[allow(non_snake_case)]
pub fn tuple_EllipticalDish(input: &str) -> (r: Result<(&str, EllipticalDish), RvmError>)
    ensures
        text_view(r) == map_floats(spec_floats(input.spec_bytes(), 2), |v: Seq<u32>| elliptical_dish_from(v)),
{
    let (rest, v) = floats(input, 2)?;
    Ok((
        rest,
        EllipticalDish { baseRadius: v[0], height: v[1] },
    ))
}

/// Two numbers, each after optional blanks: a spherical dish's base radius and height.
#[allow(non_snake_case)]
pub fn tuple_SphericalDish(input: &str) -> (r: Result<(&str, SphericalDish), RvmError>)
    ensures
        text_view(r) == map_floats(spec_floats(input.spec_bytes(), 2), |v: Seq<u32>| spherical_dish_from(v)),
{
    let (rest, v) = floats(input, 2)?;
    Ok((
        rest,
        SphericalDish { baseRadius: v[0], height: v[1] },
    ))
}

/// Nine numbers, each after optional blanks: a snout's offset, bottom shear and top shear pairs, then its bottom radius, top radius and height.
#[allow(non_snake_case)]
pub fn tuple_Snout(input: &str) -> (r: Result<(&str, Snout), RvmError>)
    ensures
        text_view(r) == map_floats(spec_floats(input.spec_bytes(), 9), |v: Seq<u32>| snout_from(v)),
{
    let (rest, v) = floats(input, 9)?;
    Ok((
        rest,
        Snout {
            offset: [v[0], v[1]],
            bshear: [v[2], v[3]],
            tshear: [v[4], v[5]],
            radius_b: v[6],
            radius_t: v[7],
            height: v[8],
        },
    ))
}

/// Two numbers, each after optional blanks: a cylinder's radius and height.
#[allow(non_snake_case)]
pub fn tuple_Cylinder(input: &str) -> (r: Result<(&str, Cylinder), RvmError>)
    ensures
        text_view(r) == map_floats(spec_floats(input.spec_bytes(), 2), |v: Seq<u32>| cylinder_from(v)),
{
    let (rest, v) = floats(input, 2)?;
    Ok((
        rest,
        Cylinder { radius: v[0], height: v[1] },
    ))
}

/// One number after optional blanks: a sphere's diameter.
#[allow(non_snake_case)]
pub fn tuple_Sphere(input: &str) -> (r: Result<(&str, Sphere), RvmError>)
    ensures
        text_view(r) == map_floats(spec_floats(input.spec_bytes(), 1), |v: Seq<u32>| sphere_from(v)),
{
    let (rest, v) = floats(input, 1)?;
    Ok((
        rest,
        Sphere { diameter: v[0] },
    ))
}

/// Two numbers, each after optional blanks: a line's two ends.
#[allow(non_snake_case)]
pub fn tuple_Line(input: &str) -> (r: Result<(&str, Line), RvmError>)
    ensures
        text_view(r) == map_floats(spec_floats(input.spec_bytes(), 2), |v: Seq<u32>| line_from(v)),
{
    let (rest, v) = floats(input, 2)?;
    Ok((
        rest,
        Line { a: v[0], b: v[1] },
    ))
}

/// The name of a shape's variant, without its `Shape` suffix.
pub open spec fn shape_name(g: PrimShapesView) -> Seq<char> {
    match g {
        PrimShapesView::PyramidShape(_) => "Pyramid"@,
        PrimShapesView::BoxShape(_) => "Box"@,
        PrimShapesView::RectangularTorusShape(_) => "RectangularTorus"@,
        PrimShapesView::CircularTorusShape(_) => "CircularTorus"@,
        PrimShapesView::EllipticalDishShape(_) => "EllipticalDish"@,
        PrimShapesView::SphericalDishShape(_) => "SphericalDish"@,
        PrimShapesView::SnoutShape(_) => "Snout"@,
        PrimShapesView::CylinderShape(_) => "Cylinder"@,
        PrimShapesView::SphereShape(_) => "Sphere"@,
        PrimShapesView::LineShape(_) => "Line"@,
        PrimShapesView::FacetGroupShape(_) => "FacetGroup"@,
    }
}

/// The number that stands for a shape's variant in both formats: its place, from 1, in
/// the list of variants.
pub open spec fn shape_number(g: PrimShapesView) -> u8 {
    match g {
        PrimShapesView::PyramidShape(_) => 1,
        PrimShapesView::BoxShape(_) => 2,
        PrimShapesView::RectangularTorusShape(_) => 3,
        PrimShapesView::CircularTorusShape(_) => 4,
        PrimShapesView::EllipticalDishShape(_) => 5,
        PrimShapesView::SphericalDishShape(_) => 6,
        PrimShapesView::SnoutShape(_) => 7,
        PrimShapesView::CylinderShape(_) => 8,
        PrimShapesView::SphereShape(_) => 9,
        PrimShapesView::LineShape(_) => 10,
        PrimShapesView::FacetGroupShape(_) => 11,
    }
}

/// A shape's numbers, field after field in the order the fields are declared, each
/// pair in order (no numbers for a facet group).
pub open spec fn shape_numbers(g: PrimShapesView) -> Seq<u32> {
    match g {
        PrimShapesView::PyramidShape(p) => seq![
            p.bottom[0],
            p.bottom[1],
            p.top[0],
            p.top[1],
            p.offset[0],
            p.offset[1],
            p.height,
        ],
        PrimShapesView::BoxShape(b) => seq![b.lengths[0], b.lengths[1], b.lengths[2]],
        PrimShapesView::RectangularTorusShape(r) => seq![r.inner_radius, r.outer_radius, r.height, r.angle],
        PrimShapesView::CircularTorusShape(c) => seq![c.offset, c.radius, c.angle],
        PrimShapesView::EllipticalDishShape(e) => seq![e.baseRadius, e.height],
        PrimShapesView::SphericalDishShape(e) => seq![e.baseRadius, e.height],
        PrimShapesView::SnoutShape(n) => seq![
            n.offset[0],
            n.offset[1],
            n.bshear[0],
            n.bshear[1],
            n.tshear[0],
            n.tshear[1],
            n.radius_b,
            n.radius_t,
            n.height,
        ],
        PrimShapesView::CylinderShape(c) => seq![c.radius, c.height],
        PrimShapesView::SphereShape(p) => seq![p.diameter],
        PrimShapesView::LineShape(l) => seq![l.a, l.b],
        PrimShapesView::FacetGroupShape(_) => Seq::empty(),
    }
}

/// A shape built from numbers in file order holds them field after field, in the order
/// the fields are declared; it has the kind it was built for, and that kind's name.
pub proof fn law_shape_from_numbers(k: PrimShape, v: Seq<u32>)
    requires
        k != PrimShape::FacetGroupShape,
        v.len() == arity(k),
    ensures
        shape_numbers(shape_from(k, v)) == v,
        kind_name(k) == shape_name(shape_from(k, v)),
{
    assert(shape_numbers(shape_from(k, v)) =~= v);
}

} // verus!
