//! The font at a glance, and outline coordinates rounded to even integers.
//!
//! Every element named `point` of an outline carries its coordinates in the
//! attributes `x` and `y`. Rounding replaces each of the two by the even
//! integer nearest to it; a separate walk then checks the result.

use vstd::prelude::*;
use vstd::string::StringExecFns;
use crate::decimal::{
    decimal_text, integer_text, integer_to_text, is_even_text, lemma_rounded_is_even, number_to_text,
    rounded_text,
};
use crate::dictionary::keys_of;
use crate::outline::{
    child_well_formed, parsed_outline, read_outline, well_formed, write_outline, written_outline, Child,
    ChildView, Outline, OutlineError, OutlineView,
};
use crate::text::{concatenate, push_line, push_text, same_text};

pub use crate::decimal::{is_even, round_to_even};

verus! {

/// The name of the elements that carry coordinates.
pub const POINT: &'static str = "point";

/// The name of the attribute that holds the horizontal coordinate.
pub const X: &'static str = "x";

/// The name of the attribute that holds the vertical coordinate.
pub const Y: &'static str = "y";

/// Whether an attribute of this name holds a coordinate.
pub open spec fn is_coordinate(name: Seq<char>) -> bool {
    name == X@ || name == Y@
}

/// One attribute after rounding: its value rounded where it is a coordinate.
pub open spec fn rounded_attribute(attribute: (Seq<char>, Seq<char>)) -> (Seq<char>, Seq<char>) {
    if is_coordinate(attribute.0) {
        (attribute.0, rounded_text(attribute.1))
    } else {
        attribute
    }
}

/// The attributes of a point after rounding.
pub open spec fn rounded_attributes(attributes: Seq<(Seq<char>, Seq<char>)>) -> Seq<(Seq<char>, Seq<char>)> {
    attributes.map_values(|a: (Seq<char>, Seq<char>)| rounded_attribute(a))
}

/// A tree after rounding: the coordinates of every point in it are rounded,
/// and nothing else is changed.
pub open spec fn rounded_outline(tree: OutlineView) -> OutlineView
    decreases tree,
{
    OutlineView {
        prefix: tree.prefix,
        namespace: tree.namespace,
        namespaces: tree.namespaces,
        name: tree.name,
        attributes: if tree.name == POINT@ {
            rounded_attributes(tree.attributes)
        } else {
            tree.attributes
        },
        children: Seq::new(
            tree.children.len(),
            |i: int|
                if 0 <= i < tree.children.len() {
                    rounded_child(tree.children[i])
                } else {
                    ChildView::Text(Seq::empty())
                },
        ),
    }
}

/// A child after rounding: an element is rounded, any other child is kept.
pub open spec fn rounded_child(child: ChildView) -> ChildView
    decreases child,
{
    match child {
        ChildView::Outline(tree) => ChildView::Outline(rounded_outline(tree)),
        other => other,
    }
}

/// The value of the first attribute of this name, if there is one.
pub open spec fn first_value(attributes: Seq<(Seq<char>, Seq<char>)>, name: Seq<char>) -> Option<Seq<char>>
    decreases attributes.len(),
{
    if attributes.len() == 0 {
        None
    } else if attributes[0].0 == name {
        Some(attributes[0].1)
    } else {
        first_value(attributes.skip(1), name)
    }
}

/// The element passes the check: it is no point, or it lacks one of the two
/// coordinates, or both of its coordinates are even integers.
pub open spec fn point_is_even(tree: OutlineView) -> bool {
    tree.name == POINT@ ==> match (first_value(tree.attributes, X@), first_value(tree.attributes, Y@)) {
        (Some(x), Some(y)) => is_even_text(x) && is_even_text(y),
        _ => true,
    }
}

/// Every element of the tree passes the check.
pub open spec fn all_points_even(tree: OutlineView) -> bool
    decreases tree,
{
    &&& point_is_even(tree)
    &&& forall|i: int| 0 <= i < tree.children.len() ==> child_points_even(#[trigger] tree.children[i])
}

/// Every element at or below the child passes the check.
pub open spec fn child_points_even(child: ChildView) -> bool
    decreases child,
{
    match child {
        ChildView::Outline(tree) => all_points_even(tree),
        _ => true,
    }
}

/// Rounds the value of every attribute that holds a coordinate.
fn round_attributes(attributes: &mut Vec<(String, String)>)
    ensures
        final(attributes).deep_view() == rounded_attributes(old(attributes).deep_view()),
{
    let ghost before = attributes.deep_view();
    let n = attributes.len();
    let mut i: usize = 0;
    while i < n
        invariant
            i <= n,
            n == attributes.len(),
            before.len() == n,
            forall|j: int| 0 <= j < i ==> (#[trigger] attributes.deep_view()[j]) == rounded_attribute(before[j]),
            forall|j: int| i <= j < n ==> (#[trigger] attributes.deep_view()[j]) == before[j],
        decreases n - i,
    {
        let ghost now = attributes.deep_view();
        let ghost raw = attributes@;
        assert(now[i as int] == before[i as int]);
        assert(now[i as int] == (raw[i as int].0@, raw[i as int].1@));
        if same_text(attributes[i].0.as_str(), X) || same_text(attributes[i].0.as_str(), Y) {
            let value = round_to_even(attributes[i].1.as_str());
            let key = attributes[i].0.clone();
            attributes.set(i, (key, value));
            assert forall|j: int| 0 <= j < n implies (#[trigger] attributes.deep_view()[j]) == if j == i {
                rounded_attribute(before[j])
            } else {
                now[j]
            } by {
                if j != i {
                    assert(attributes@[j] == raw[j]);
                    assert(now[j] == (raw[j].0@, raw[j].1@));
                } else {
                    assert(attributes@[j] == (key, value));
                }
            }
        }
        i += 1;
    }
    assert(attributes.deep_view() =~= rounded_attributes(before));
}

/// Rounds the coordinates of every point in the tree, to whatever depth it
/// stands. An attribute that is no coordinate, an element that is no point
/// and a child that is no element are left as they are.
pub fn round_element_points(element: &mut Outline)
    ensures
        final(element).deep_view() == rounded_outline(old(element).deep_view()),
    decreases *old(element),
{
    let ghost before = *element;
    if same_text(element.name.as_str(), POINT) {
        round_attributes(&mut element.attributes);
    }
    let n = element.children.len();
    let mut i: usize = 0;
    while i < n
        invariant
            i <= n,
            n == element.children.len(),
            n == before.children.len(),
            before == *old(element),
            element.prefix == before.prefix,
            element.namespace == before.namespace,
            element.namespaces == before.namespaces,
            element.name == before.name,
            element.attributes.deep_view() == rounded_outline(before.deep_view()).attributes,
            forall|j: int|
                0 <= j < i ==> (#[trigger] element.children[j]).model() == rounded_child(
                    before.children[j].model(),
                ),
            forall|j: int| i <= j < n ==> (#[trigger] element.children[j]) == before.children[j],
        decreases n - i,
    {
        match &mut element.children[i] {
            Child::Outline(inner) => {
                round_element_points(inner);
            },
            _ => {},
        }
        i += 1;
    }
    assert(element.deep_view().children =~= rounded_outline(before.deep_view()).children);
}

/// The value of the first attribute named `name`, if there is one.
fn attribute_value<'a>(attributes: &'a Vec<(String, String)>, name: &str) -> (value: Option<&'a String>)
    ensures
        match value {
            Some(v) => first_value(attributes.deep_view(), name@) == Some(v@),
            None => first_value(attributes.deep_view(), name@) is None,
        },
{
    let ghost all = attributes.deep_view();
    let mut i: usize = 0;
    assert(all.skip(0) =~= all);
    while i < attributes.len()
        invariant
            i <= attributes.len(),
            all == attributes.deep_view(),
            first_value(all, name@) == first_value(all.skip(i as int), name@),
        decreases attributes.len() - i,
    {
        proof {
            assert(all.skip(i as int)[0] == (attributes[i as int].0@, attributes[i as int].1@));
            assert(all.skip(i as int).skip(1) =~= all.skip(i + 1));
        }
        if same_text(attributes[i].0.as_str(), name) {
            return Some(&attributes[i].1);
        }
        i += 1;
    }
    None
}

/// Checks that the coordinates of every point in the tree are even
/// integers. A point that lacks one of the two coordinates is not judged.
pub fn verify_even_points(element: &Outline) -> (even: bool)
    ensures
        even == all_points_even(element.deep_view()),
    decreases element,
{
    let ghost tree = element.deep_view();
    if same_text(element.name.as_str(), POINT) {
        match (attribute_value(&element.attributes, X), attribute_value(&element.attributes, Y)) {
            (Some(x), Some(y)) => {
                if !is_even(x.as_str()) || !is_even(y.as_str()) {
                    return false;
                }
            },
            _ => {},
        }
    }
    let n = element.children.len();
    let mut i: usize = 0;
    while i < n
        invariant
            i <= n,
            n == element.children.len(),
            tree == element.deep_view(),
            point_is_even(tree),
            forall|j: int| 0 <= j < i ==> child_points_even(#[trigger] tree.children[j]),
        decreases n - i,
    {
        assert(tree.children[i as int] == element.children[i as int].model());
        match &element.children[i] {
            Child::Outline(inner) => {
                if !verify_even_points(inner) {
                    return false;
                }
            },
            _ => {},
        }
        i += 1;
    }
    true
}

/// An outline after rounding: its text, and whether the check found the
/// coordinates of all its points even.
#[derive(Clone, Debug, PartialEq, Eq)]
pub struct RoundedOutline {
    pub text: String,
    pub all_even: bool,
}

/// Rounds the coordinates of every point of the outline written in `text`
/// and writes the outline again, indented.
///
/// The check is made on the rounded tree, not on the text written from it.
pub fn round_points_to_even(text: &str) -> (r: Result<RoundedOutline, OutlineError>)
    ensures
        match parsed_outline(text@) {
            None => r matches Err(OutlineError::Parse(_)),
            Some(tree) => match written_outline(rounded_outline(tree)) {
                None => r matches Err(OutlineError::Write(_)),
                Some(written) => {
                    &&& r matches Ok(rounded)
                    &&& rounded.text@ == written
                    &&& rounded.all_even
                },
            },
        },
{
    let mut element = match read_outline(text) {
        Ok(element) => element,
        Err(e) => {
            return Err(e);
        },
    };
    let ghost tree = element.deep_view();
    round_element_points(&mut element);
    proof {
        lemma_rounding_keeps_well_formed(tree);
    }
    let written = match write_outline(&element) {
        Ok(written) => written,
        Err(e) => {
            return Err(e);
        },
    };
    proof {
        lemma_rounded_points_are_even(tree);
    }
    Ok(RoundedOutline { text: written, all_even: verify_even_points(&element) })
}

/// Rounding keeps a well-formed tree well formed: it changes no name.
pub proof fn lemma_rounding_keeps_well_formed(tree: OutlineView)
    requires
        well_formed(tree),
    ensures
        well_formed(rounded_outline(tree)),
    decreases tree,
{
    let rounded = rounded_outline(tree);
    assert(keys_of(rounded.attributes) =~= keys_of(tree.attributes));
    assert forall|i: int| 0 <= i < rounded.children.len() implies child_well_formed(
        #[trigger] rounded.children[i],
    ) by {
        assert(child_well_formed(tree.children[i]));
        match tree.children[i] {
            ChildView::Outline(inner) => {
                lemma_rounding_keeps_well_formed(inner);
            },
            _ => {},
        }
    }
}

/// In rounded attributes the first value of a coordinate is the rounded
/// first value that the coordinate had.
pub proof fn lemma_first_rounded(attributes: Seq<(Seq<char>, Seq<char>)>, name: Seq<char>)
    requires
        is_coordinate(name),
    ensures
        first_value(rounded_attributes(attributes), name) == match first_value(attributes, name) {
            Some(value) => Some(rounded_text(value)),
            None => None,
        },
    decreases attributes.len(),
{
    if attributes.len() > 0 {
        assert(rounded_attributes(attributes)[0] == rounded_attribute(attributes[0]));
        if attributes[0].0 != name {
            assert(rounded_attributes(attributes).skip(1) =~= rounded_attributes(attributes.skip(1)));
            lemma_first_rounded(attributes.skip(1), name);
        }
    }
}

/// After rounding, the coordinates of every point are even integers: the
/// check cannot fail on a rounded tree.
pub proof fn lemma_rounded_points_are_even(tree: OutlineView)
    ensures
        all_points_even(rounded_outline(tree)),
    decreases tree,
{
    let rounded = rounded_outline(tree);
    if tree.name == POINT@ {
        lemma_first_rounded(tree.attributes, X@);
        lemma_first_rounded(tree.attributes, Y@);
        match (first_value(tree.attributes, X@), first_value(tree.attributes, Y@)) {
            (Some(x), Some(y)) => {
                lemma_rounded_is_even(x);
                lemma_rounded_is_even(y);
            },
            _ => {},
        }
    }
    assert forall|i: int| 0 <= i < rounded.children.len() implies child_points_even(
        #[trigger] rounded.children[i],
    ) by {
        match tree.children[i] {
            ChildView::Outline(inner) => {
                lemma_rounded_points_are_even(inner);
            },
            _ => {},
        }
    }
}

/// Rounding a tree that is already rounded changes nothing.
pub proof fn lemma_rounding_is_idempotent(tree: OutlineView)
    ensures
        rounded_outline(rounded_outline(tree)) == rounded_outline(tree),
    decreases tree,
{
    let once = rounded_outline(tree);
    let twice = rounded_outline(once);
    if tree.name == POINT@ {
        assert forall|i: int| 0 <= i < tree.attributes.len() implies rounded_attributes(
            rounded_attributes(tree.attributes),
        )[i] == rounded_attributes(tree.attributes)[i] by {
            lemma_rounded_is_even(tree.attributes[i].1);
        }
        assert(twice.attributes =~= once.attributes);
    }
    assert forall|i: int| 0 <= i < tree.children.len() implies twice.children[i] == once.children[i] by {
        match tree.children[i] {
            ChildView::Outline(inner) => {
                lemma_rounding_is_idempotent(inner);
            },
            _ => {},
        }
    }
    assert(twice.children =~= once.children);
}

/// What a font says of itself, as far as the summary shows it.
#[derive(Clone, Debug, PartialEq, Eq)]
pub struct FontFacts {
    pub family_name: Option<String>,
    pub style_name: Option<String>,
    pub version_major: Option<i32>,
    pub version_minor: Option<u32>,
    /// The number of glyphs in the first layer, where the font has a layer.
    pub first_layer_glyphs: Option<usize>,
}

/// The summary of a font, every gap filled.
#[derive(Clone, Debug, PartialEq, Eq)]
pub struct BasicInfo {
    pub family_name: String,
    pub style_name: String,
    pub version_major: i32,
    pub version_minor: u32,
    pub glyph_count: usize,
}

/// What stands in the summary for a name that the font does not give.
pub const NOT_AVAILABLE: &'static str = "N/A";

/// The text shown for a name: the name, or `N/A` where the font gives none.
pub open spec fn shown_text(name: Option<String>) -> Seq<char> {
    match name {
        Some(name) => name@,
        None => NOT_AVAILABLE@,
    }
}

/// The text shown for a name.
fn show_text(name: &Option<String>) -> (shown: String)
    ensures
        shown@ == shown_text(*name),
{
    match name {
        Some(name) => name.clone(),
        None => String::from_str(NOT_AVAILABLE),
    }
}

/// Summarises a font: a name that is missing is shown as `N/A`, a number
/// that is missing as 0.
pub fn display_basic_info(font: &FontFacts) -> (info: BasicInfo)
    ensures
        info.family_name@ == shown_text(font.family_name),
        info.style_name@ == shown_text(font.style_name),
        info.version_major == match font.version_major {
            Some(major) => major,
            None => 0,
        },
        info.version_minor == match font.version_minor {
            Some(minor) => minor,
            None => 0,
        },
        info.glyph_count == match font.first_layer_glyphs {
            Some(count) => count,
            None => 0,
        },
{
    BasicInfo {
        family_name: show_text(&font.family_name),
        style_name: show_text(&font.style_name),
        version_major: match font.version_major {
            Some(major) => major,
            None => 0,
        },
        version_minor: match font.version_minor {
            Some(minor) => minor,
            None => 0,
        },
        glyph_count: match font.first_layer_glyphs {
            Some(count) => count,
            None => 0,
        },
    }
}

/// The lines of the summary of a font, as they are printed.
pub open spec fn basic_info_lines(info: BasicInfo) -> Seq<Seq<char>> {
    seq![
        "    .     *     .           .     "@,
        "   .-----.                        "@,
        " _/___@_@_\\_              .      "@,
        "(___________)      *              "@,
        "                                  "@,
        "Lil' UFO"@,
        ""@,
        "Font Information:"@,
        "Family Name: "@ + info.family_name@,
        "Style Name: "@ + info.style_name@,
        "Version Major: "@ + integer_text(info.version_major as int),
        "Version Minor: "@ + decimal_text(info.version_minor as nat),
        "Number of Glyphs: "@ + decimal_text(info.glyph_count as nat),
    ]
}

impl BasicInfo {
    /// The lines of the summary, as they are printed.
    pub fn lines(&self) -> (lines: Vec<String>)
        ensures
            lines.deep_view() == basic_info_lines(*self),
    {
        let mut lines: Vec<String> = Vec::new();
        push_line(&mut lines, "    .     *     .           .     ");
        push_line(&mut lines, "   .-----.                        ");
        push_line(&mut lines, " _/___@_@_\\_              .      ");
        push_line(&mut lines, "(___________)      *              ");
        push_line(&mut lines, "                                  ");
        push_line(&mut lines, "Lil' UFO");
        push_line(&mut lines, "");
        push_line(&mut lines, "Font Information:");
        push_text(&mut lines, concatenate("Family Name: ", self.family_name.as_str()));
        push_text(&mut lines, concatenate("Style Name: ", self.style_name.as_str()));
        push_text(&mut lines, concatenate("Version Major: ", integer_to_text(self.version_major as i128).as_str()));
        push_text(&mut lines, concatenate("Version Minor: ", number_to_text(self.version_minor as u128).as_str()));
        push_text(&mut lines, concatenate("Number of Glyphs: ", number_to_text(self.glyph_count as u128).as_str()));
        assert(lines.deep_view() =~= basic_info_lines(*self));
        lines
    }
}

/// What is said of a file after rounding: its path, and whether the check
/// found the coordinates of all its points even.
pub open spec fn verdict_text(path: Seq<char>, all_even: bool) -> Seq<char> {
    if all_even {
        path + ": All points rounded to even integers"@
    } else {
        path + ": Warning - Not all points are even integers"@
    }
}

impl RoundedOutline {
    /// What is said of the file at `path` after rounding.
    pub fn verdict(&self, path: &str) -> (text: String)
        ensures
            text@ == verdict_text(path@, self.all_even),
    {
        if self.all_even {
            concatenate(path, ": All points rounded to even integers")
        } else {
            concatenate(path, ": Warning - Not all points are even integers")
        }
    }
}

} // verus!
