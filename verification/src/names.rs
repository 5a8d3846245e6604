use vstd::prelude::*;

use crate::shapes::{PrimShapes, PrimShapesView};

verus! {

/// The header block of a model file.
#[allow(non_camel_case_types)]
#[derive(Debug, PartialEq)]
pub struct HEAD {
    pub info: String,
    pub note: String,
    pub data: String,
    pub user: String,
    pub encoding: String,
}

pub struct HeadView {
    pub info: Seq<char>,
    pub note: Seq<char>,
    pub data: Seq<char>,
    pub user: Seq<char>,
    pub encoding: Seq<char>,
}

impl View for HEAD {
    type V = HeadView;

    open spec fn view(&self) -> HeadView {
        HeadView {
            info: self.info@,
            note: self.note@,
            data: self.data@,
            user: self.user@,
            encoding: self.encoding@,
        }
    }
}

/// The model block: the project and the model's name.
#[allow(non_camel_case_types)]
#[derive(Debug, PartialEq)]
pub struct MODL {
    pub project: String,
    pub name: String,
}

pub struct ModlView {
    pub project: Seq<char>,
    pub name: Seq<char>,
}

impl View for MODL {
    type V = ModlView;

    open spec fn view(&self) -> ModlView {
        ModlView { project: self.project@, name: self.name@ }
    }
}

/// The start of a group block. Each number is held as the bit pattern of its
/// IEEE-754 single-precision value.
#[allow(non_camel_case_types)]
#[derive(Debug, Clone, PartialEq)]
pub struct CNTB {
    pub name: String,
    pub translation: [u32; 3],
    pub material: u32,
}

pub struct CntbView {
    pub name: Seq<char>,
    pub translation: Seq<u32>,
    pub material: u32,
}

impl View for CNTB {
    type V = CntbView;

    open spec fn view(&self) -> CntbView {
        CntbView { name: self.name@, translation: self.translation@, material: self.material }
    }
}

/// A primitive: its kind's name, its 3x4 transform, its local bounding box and its shape.
/// Each number is held as the bit pattern of its IEEE-754 single-precision value.
#[allow(non_camel_case_types, non_snake_case)]
#[derive(Debug, Clone, PartialEq)]
pub struct PRIM {
    pub kind: String,
    pub M_3x4: Vec<u32>,
    pub bboxLocal: [u32; 6],
    pub group: PrimShapes,
}

pub struct PrimView {
    pub kind: Seq<char>,
    pub m3x4: Seq<u32>,
    pub bbox: Seq<u32>,
    pub group: PrimShapesView,
}

impl View for PRIM {
    type V = PrimView;

    open spec fn view(&self) -> PrimView {
        PrimView { kind: self.kind@, m3x4: self.M_3x4@, bbox: self.bboxLocal@, group: self.group@ }
    }
}

/// The end of a group block.
#[allow(non_camel_case_types)]
#[derive(Debug, PartialEq)]
pub struct CNTE;

impl View for CNTE {
    type V = CNTE;

    open spec fn view(&self) -> CNTE {
        *self
    }
}

/// One node of a model tree.
#[derive(Debug, PartialEq)]
pub enum Group {
    CNTB(CNTB),
    PRIM(PRIM),
    CNTE(CNTE),
    Head(HEAD),
    MODL(MODL),
}

pub enum GroupView {
    CNTB(CntbView),
    PRIM(PrimView),
    CNTE,
    Head(HeadView),
    MODL(ModlView),
}

impl View for Group {
    type V = GroupView;

    open spec fn view(&self) -> GroupView {
        match self {
            Group::CNTB(c) => GroupView::CNTB(c@),
            Group::PRIM(p) => GroupView::PRIM(p@),
            Group::CNTE(_) => GroupView::CNTE,
            Group::Head(h) => GroupView::Head(h@),
            Group::MODL(m) => GroupView::MODL(m@),
        }
    }
}

} // verus!
