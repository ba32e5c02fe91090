//! The document tree and its mathematical model.

use vstd::prelude::*;

verus! {

/// A list: items at one indentation, a deeper run of items nested as a group.
#[derive(Debug, PartialEq, Eq)]
pub enum NestedList {
    More(Vec<NestedList>),
    Line(String),
}

/// A block of content.
#[derive(Debug, PartialEq, Eq)]
pub enum Content {
    Paragraph(Vec<String>),
    Unordered(Vec<NestedList>),
    Ordered(Vec<NestedList>),
    Quote(Vec<String>),
    Horizontal,
}

/// A header and what stands under it: content blocks and deeper sections, in order.
#[derive(Debug, PartialEq, Eq)]
pub struct Section {
    pub level: usize,
    pub header: String,
    pub content: Vec<Part>,
}

/// A section, or a run of content blocks outside any deeper section.
#[derive(Debug, PartialEq, Eq)]
pub enum Part {
    Section(Section),
    Content(Vec<Content>),
}

/// The mathematical value of a `NestedList`.
pub enum ListModel {
    More(Seq<ListModel>),
    Line(Seq<char>),
}

/// The mathematical value of a `Content`.
pub enum ContentModel {
    Paragraph(Seq<Seq<char>>),
    Unordered(Seq<ListModel>),
    Ordered(Seq<ListModel>),
    Quote(Seq<Seq<char>>),
    Horizontal,
}

/// The mathematical value of a `Part`; a section is level, header and content.
pub enum PartModel {
    Section(nat, Seq<char>, Seq<PartModel>),
    Content(Seq<ContentModel>),
}

pub open spec fn strings_view(v: Seq<String>) -> Seq<Seq<char>> {
    v.map_values(|s: String| s@)
}

impl View for NestedList {
    type V = ListModel;

    open spec fn view(&self) -> ListModel
        decreases self,
    {
        match self {
            NestedList::More(v) => ListModel::More(
                Seq::new(
                    v.len() as nat,
                    |i: int|
                        if 0 <= i < v.len() {
                            v[i].view()
                        } else {
                            ListModel::Line(seq![])
                        },
                ),
            ),
            NestedList::Line(s) => ListModel::Line(s@),
        }
    }
}

pub open spec fn lists_view(v: Seq<NestedList>) -> Seq<ListModel> {
    v.map_values(|x: NestedList| x@)
}

impl View for Content {
    type V = ContentModel;

    open spec fn view(&self) -> ContentModel {
        match self {
            Content::Paragraph(v) => ContentModel::Paragraph(strings_view(v@)),
            Content::Unordered(v) => ContentModel::Unordered(lists_view(v@)),
            Content::Ordered(v) => ContentModel::Ordered(lists_view(v@)),
            Content::Quote(v) => ContentModel::Quote(strings_view(v@)),
            Content::Horizontal => ContentModel::Horizontal,
        }
    }
}

pub open spec fn contents_view(v: Seq<Content>) -> Seq<ContentModel> {
    v.map_values(|x: Content| x@)
}

/// The mathematical value of a part.
pub open spec fn part_model(p: Part) -> PartModel
    decreases p,
{
    match p {
        Part::Section(sec) => PartModel::Section(
            sec.level as nat,
            sec.header@,
            Seq::new(
                sec.content.len() as nat,
                |i: int|
                    if 0 <= i < sec.content.len() {
                        part_model(sec.content[i])
                    } else {
                        PartModel::Content(seq![])
                    },
            ),
        ),
        Part::Content(v) => PartModel::Content(contents_view(v@)),
    }
}

impl View for Part {
    type V = PartModel;

    open spec fn view(&self) -> PartModel {
        part_model(*self)
    }
}

pub open spec fn parts_view(v: Seq<Part>) -> Seq<PartModel> {
    v.map_values(|x: Part| x@)
}

} // verus!
