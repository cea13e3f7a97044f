//! Kerning groups and kerning pairs.
//!
//! A font keeps two dictionaries. The groups dictionary maps the key of a
//! group to the glyph names that belong to it; the kerning dictionary maps a
//! first key to a dictionary from second keys to kerning values. The side of a
//! group is told by the prefix of its key alone: `public.kern1.` for a group
//! that stands first in a pair, `public.kern2.` for one that stands second.

use vstd::prelude::*;
use vstd::string::StringExecFns;
use crate::dictionary::{
    arrangement, keys_of, lemma_arrangement, lemma_arrangement_exists, lemma_update_view, strictly_ascending,
    Dictionary,
};
use crate::property_list::{
    entries_of, lemma_ascending_entries_arrange, lemma_entries_of_arrange, lemma_map_of_insert, map_of,
    map_of_entries, parsed_entries, read_dictionary, PlistError, PlistValue, PlistView,
};
use crate::decimal::{integer_text, integer_to_text};
use crate::text::{concatenate, join, joined, push_line, push_text, same_text, strip_prefix};

verus! {

/// The prefix of the key of a group that stands first in a pair.
pub const FIRST_GROUP_PREFIX: &'static str = "public.kern1.";

/// The prefix of the key of a group that stands second in a pair.
pub const SECOND_GROUP_PREFIX: &'static str = "public.kern2.";

/// The mark that begins a reference to a group in a kerning pair.
pub const GROUP_MARK: &'static str = "@";

/// The groups of a font: from the key of a group to its members.
pub type Groups = Dictionary<Vec<String>>;

/// The kerning of a font: from a first key to the second keys kerned against
/// it, each with its value.
pub type Kerning<V> = Dictionary<Dictionary<V>>;

/// The side of a kerning group.
#[derive(Clone, Copy, Debug, PartialEq, Eq, Structural)]
pub enum Side {
    Left,
    Right,
}

/// Why an edit of the kerning data was refused.
#[derive(Clone, Debug, PartialEq, Eq)]
pub enum KerningError {
    /// The side is neither `left` nor `right`; holds the side as it was given.
    InvalidSide(String),
    /// A glyph name or a key is no valid name; holds the offending name.
    InvalidName(String),
    /// The group to edit does not exist; holds its name without the prefix.
    GroupNotFound(String),
    /// The first half of a pair refers to a group that does not exist; holds
    /// the reference as it was given.
    FirstGroupNotFound(String),
    /// The second half of a pair refers to a group that does not exist; holds
    /// the reference as it was given.
    SecondGroupNotFound(String),
}

/// A `KerningError` with its text as a sequence of characters.
pub enum Failure {
    InvalidSide(Seq<char>),
    InvalidName(Seq<char>),
    GroupNotFound(Seq<char>),
    FirstGroupNotFound(Seq<char>),
    SecondGroupNotFound(Seq<char>),
}

/// The two classes of refusal.
#[derive(Clone, Copy, Debug, PartialEq, Eq, Structural)]
pub enum ErrorKind {
    InvalidArgument,
    NotFound,
}

impl View for KerningError {
    type V = Failure;

    open spec fn view(&self) -> Failure {
        match self {
            KerningError::InvalidSide(s) => Failure::InvalidSide(s@),
            KerningError::InvalidName(s) => Failure::InvalidName(s@),
            KerningError::GroupNotFound(s) => Failure::GroupNotFound(s@),
            KerningError::FirstGroupNotFound(s) => Failure::FirstGroupNotFound(s@),
            KerningError::SecondGroupNotFound(s) => Failure::SecondGroupNotFound(s@),
        }
    }
}

impl KerningError {
    /// The class of the refusal.
    pub fn kind(&self) -> (kind: ErrorKind)
        ensures
            kind == match self@ {
                Failure::InvalidSide(_) | Failure::InvalidName(_) => ErrorKind::InvalidArgument,
                _ => ErrorKind::NotFound,
            },
    {
        match self {
            KerningError::InvalidSide(_) | KerningError::InvalidName(_) => ErrorKind::InvalidArgument,
            _ => ErrorKind::NotFound,
        }
    }

    /// A sentence that names the offending value.
    pub fn message(&self) -> (text: String)
        ensures
            text@ == match self@ {
                Failure::InvalidSide(s) => "group_side must be either 'left' or 'right', not '"@ + s + "'"@,
                Failure::InvalidName(s) => "'"@ + s + "' is not a valid name"@,
                Failure::GroupNotFound(s) => "Kerning group '"@ + s + "' does not exist"@,
                Failure::FirstGroupNotFound(s) => "First group '"@ + s + "' does not exist"@,
                Failure::SecondGroupNotFound(s) => "Second group '"@ + s + "' does not exist"@,
            },
    {
        match self {
            KerningError::InvalidSide(s) => concatenate(
                concatenate("group_side must be either 'left' or 'right', not '", s.as_str()).as_str(),
                "'",
            ),
            KerningError::InvalidName(s) => concatenate(
                concatenate("'", s.as_str()).as_str(),
                "' is not a valid name",
            ),
            KerningError::GroupNotFound(s) => concatenate(
                concatenate("Kerning group '", s.as_str()).as_str(),
                "' does not exist",
            ),
            KerningError::FirstGroupNotFound(s) => concatenate(
                concatenate("First group '", s.as_str()).as_str(),
                "' does not exist",
            ),
            KerningError::SecondGroupNotFound(s) => concatenate(
                concatenate("Second group '", s.as_str()).as_str(),
                "' does not exist",
            ),
        }
    }
}

/// The side that `text` names, if it names one.
pub open spec fn side_of(text: Seq<char>) -> Option<Side> {
    if text == "left"@ {
        Some(Side::Left)
    } else if text == "right"@ {
        Some(Side::Right)
    } else {
        None
    }
}

/// The prefix that the keys of the groups of `side` carry.
pub open spec fn prefix_of(side: Side) -> Seq<char> {
    match side {
        Side::Left => FIRST_GROUP_PREFIX@,
        Side::Right => SECOND_GROUP_PREFIX@,
    }
}

/// The key under which the group `name` of `side` is stored.
pub open spec fn group_key_of(side: Side, name: Seq<char>) -> Seq<char> {
    prefix_of(side) + name
}

/// A control character: one of U+0000 to U+001F, U+007F, U+0080 to U+009F.
pub open spec fn is_control(c: char) -> bool {
    c as u32 <= 0x1f || c as u32 == 0x7f || 0x80 <= c as u32 <= 0x9f
}

/// A valid name is not empty and holds no control character.
pub open spec fn valid_name(name: Seq<char>) -> bool {
    name.len() > 0 && forall|i: int| 0 <= i < name.len() ==> !is_control(#[trigger] name[i])
}

/// `norad::Name::new` accepts a string as a name exactly if it is not empty
/// and none of its characters is a control character; this reports whether it
/// accepted `name`.
#[verifier::external_body]
fn name_is_valid(name: &str) -> (ok: bool)
    ensures
        ok == valid_name(name@),
{
    norad::Name::new(name).is_ok()
}

/// Reads a side.
pub fn parse_side(text: &str) -> (side: Option<Side>)
    ensures
        side == side_of(text@),
{
    if same_text(text, "left") {
        Some(Side::Left)
    } else if same_text(text, "right") {
        Some(Side::Right)
    } else {
        None
    }
}

/// The key under which the group `name` of `side` is stored.
pub fn group_key(side: Side, name: &str) -> (key: String)
    ensures
        key@ == group_key_of(side, name@),
{
    match side {
        Side::Left => concatenate(FIRST_GROUP_PREFIX, name),
        Side::Right => concatenate(SECOND_GROUP_PREFIX, name),
    }
}

/// One group of a listing: its name without the prefix, and its members.
#[derive(Clone, Debug, PartialEq, Eq)]
pub struct GroupLine {
    pub name: String,
    pub members: Vec<String>,
}

impl DeepView for GroupLine {
    type V = (Seq<char>, Seq<Seq<char>>);

    open spec fn deep_view(&self) -> (Seq<char>, Seq<Seq<char>>) {
        (self.name@, self.members.deep_view())
    }
}

/// The groups of a groups dictionary, those of the left side apart from
/// those of the right side, each part in the order of the dictionary.
#[derive(Clone, Debug, PartialEq, Eq)]
pub struct GroupsListing {
    pub left: Vec<GroupLine>,
    pub right: Vec<GroupLine>,
}

/// What there is to say of a font's groups file.
#[derive(Clone, Debug, PartialEq, Eq)]
pub enum GroupsReport {
    /// The font has no groups file.
    NoFile,
    Listing(GroupsListing),
}

/// The strings among `items`, in their order.
pub open spec fn strings_among(items: Seq<PlistView>) -> Seq<Seq<char>>
    decreases items.len(),
{
    if items.len() == 0 {
        Seq::empty()
    } else {
        let rest = strings_among(items.drop_last());
        match items.last() {
            PlistView::String(s) => rest.push(s),
            _ => rest,
        }
    }
}

/// The groups among `entries` whose key begins with `prefix` and whose value
/// is an array, in their order: the key without the prefix, and the strings
/// of the array.
pub open spec fn groups_with_prefix(entries: Seq<(Seq<char>, PlistView)>, prefix: Seq<char>) -> Seq<
    (Seq<char>, Seq<Seq<char>>),
>
    decreases entries.len(),
{
    if entries.len() == 0 {
        Seq::empty()
    } else {
        let rest = groups_with_prefix(entries.drop_last(), prefix);
        let key = entries.last().0;
        match entries.last().1 {
            PlistView::Array(items) if prefix.is_prefix_of(key) => rest.push(
                (key.skip(prefix.len() as int), strings_among(items)),
            ),
            _ => rest,
        }
    }
}

/// The strings among `items`, in their order.
fn collect_strings(items: &Vec<PlistValue>) -> (out: Vec<String>)
    ensures
        PlistValue::Array(*items).deep_view() matches PlistView::Array(views) && out.deep_view()
            == strings_among(views),
{
    let ghost views = PlistValue::Array(*items).deep_view()->Array_0;
    let mut out: Vec<String> = Vec::new();
    let mut i: usize = 0;
    assert(out.deep_view() =~= strings_among(views.take(0)));
    while i < items.len()
        invariant
            i <= items.len(),
            PlistValue::Array(*items).deep_view() == PlistView::Array(views),
            views.len() == items.len(),
            out.deep_view() == strings_among(views.take(i as int)),
        decreases items.len() - i,
    {
        proof {
            assert(views.take(i + 1).drop_last() =~= views.take(i as int));
            assert(views.take(i + 1).last() == items[i as int].deep_view());
        }
        let ghost before = out.deep_view();
        match &items[i] {
            PlistValue::String(s) => {
                out.push(s.clone());
                assert(out.deep_view() =~= before.push(s@));
            },
            _ => {},
        }
        i += 1;
    }
    assert(views.take(items.len() as int) == views);
    out
}

/// The groups of `groups` whose key begins with `prefix`.
fn collect_groups(groups: &Dictionary<PlistValue>, prefix: &str) -> (out: Vec<GroupLine>)
    ensures
        out.deep_view() == groups_with_prefix(entries_of(*groups), prefix@),
{
    let ghost entries = entries_of(*groups);
    let mut out: Vec<GroupLine> = Vec::new();
    let n = groups.len();
    let mut i: usize = 0;
    assert(out.deep_view() =~= groups_with_prefix(entries.take(0), prefix@));
    while i < n
        invariant
            i <= n,
            n == groups.entries().len(),
            entries == entries_of(*groups),
            out.deep_view() == groups_with_prefix(entries.take(i as int), prefix@),
        decreases n - i,
    {
        proof {
            assert(entries.take(i + 1).drop_last() =~= entries.take(i as int));
            assert(entries.take(i + 1).last() == entries[i as int]);
        }
        let ghost before = out.deep_view();
        match groups.value_at(i) {
            PlistValue::Array(items) => {
                match strip_prefix(groups.key_at(i).as_str(), prefix) {
                    Some(name) => {
                        let line = GroupLine { name, members: collect_strings(items) };
                        out.push(line);
                        assert(out.deep_view() =~= before.push(line.deep_view()));
                    },
                    None => {},
                }
            },
            _ => {},
        }
        i += 1;
    }
    assert(entries.take(n as int) == entries);
    out
}

/// Lists the groups of a groups dictionary by side.
///
/// A key with neither prefix is left out, and so is a key whose value is no
/// array. A member that is no string is left out of its group.
pub fn list_groups(groups: &Dictionary<PlistValue>) -> (listing: GroupsListing)
    ensures
        listing.left.deep_view() == groups_with_prefix(entries_of(*groups), FIRST_GROUP_PREFIX@),
        listing.right.deep_view() == groups_with_prefix(entries_of(*groups), SECOND_GROUP_PREFIX@),
{
    GroupsListing {
        left: collect_groups(groups, FIRST_GROUP_PREFIX),
        right: collect_groups(groups, SECOND_GROUP_PREFIX),
    }
}

/// Reports on the groups file of a font, given the text of the file, or
/// `None` where the font has no such file.
///
/// The groups are listed in the order of their keys.
pub fn display_kerning_groups(text: Option<&str>) -> (r: Result<GroupsReport, PlistError>)
    ensures
        match text {
            None => r matches Ok(GroupsReport::NoFile),
            Some(t) => match parsed_entries(t@) {
                None => r is Err,
                Some(entries) => {
                    &&& r matches Ok(GroupsReport::Listing(listing))
                    &&& listing.left.deep_view() == groups_with_prefix(
                        arrangement(map_of_entries(entries)),
                        FIRST_GROUP_PREFIX@,
                    )
                    &&& listing.right.deep_view() == groups_with_prefix(
                        arrangement(map_of_entries(entries)),
                        SECOND_GROUP_PREFIX@,
                    )
                },
            },
        },
{
    match text {
        None => Ok(GroupsReport::NoFile),
        Some(t) => match read_dictionary(t) {
            Err(e) => Err(e),
            Ok(groups) => Ok(GroupsReport::Listing(list_groups(&groups))),
        },
    }
}

/// One kerning pair of a listing: the two halves as they are shown, and the
/// value.
#[derive(Clone, Debug, PartialEq, Eq)]
pub struct PairLine {
    pub first: String,
    pub second: String,
    pub value: i128,
}

impl DeepView for PairLine {
    type V = (Seq<char>, Seq<char>, int);

    open spec fn deep_view(&self) -> (Seq<char>, Seq<char>, int) {
        (self.first@, self.second@, self.value as int)
    }
}

/// What there is to say of a font's kerning file.
#[derive(Clone, Debug, PartialEq, Eq)]
pub enum KerningReport {
    /// The font has no kerning file.
    NoFile,
    Listing(Vec<PairLine>),
}

/// How a key stored in a kerning dictionary is shown: the key of a group
/// with `prefix` as `@` and the name of the group, any other key as it is.
pub open spec fn shown_name(key: Seq<char>, prefix: Seq<char>) -> Seq<char> {
    if prefix.is_prefix_of(key) {
        "@"@ + key.skip(prefix.len() as int)
    } else {
        key
    }
}

/// The pairs that `first` forms with the entries of `seconds` whose value is
/// an integer, in their order.
pub open spec fn pairs_of_first(first: Seq<char>, seconds: Seq<(Seq<char>, PlistView)>) -> Seq<
    (Seq<char>, Seq<char>, int),
>
    decreases seconds.len(),
{
    if seconds.len() == 0 {
        Seq::empty()
    } else {
        let rest = pairs_of_first(first, seconds.drop_last());
        match seconds.last().1 {
            PlistView::Integer(value) => rest.push(
                (first, shown_name(seconds.last().0, SECOND_GROUP_PREFIX@), value),
            ),
            _ => rest,
        }
    }
}

/// The pairs among `entries`, in their order: for every entry whose value is
/// a dictionary, the pairs that its key forms with the entries of that
/// dictionary.
pub open spec fn pairs_among(entries: Seq<(Seq<char>, PlistView)>) -> Seq<(Seq<char>, Seq<char>, int)>
    decreases entries.len(),
{
    if entries.len() == 0 {
        Seq::empty()
    } else {
        let rest = pairs_among(entries.drop_last());
        match entries.last().1 {
            PlistView::Dictionary(seconds) => rest + pairs_of_first(
                shown_name(entries.last().0, FIRST_GROUP_PREFIX@),
                seconds,
            ),
            _ => rest,
        }
    }
}

/// How `key` is shown, `prefix` being the prefix of the groups of its side.
pub fn show_name(key: &str, prefix: &str) -> (shown: String)
    ensures
        shown@ == shown_name(key@, prefix@),
{
    match strip_prefix(key, prefix) {
        Some(name) => concatenate("@", name.as_str()),
        None => String::from_str(key),
    }
}

/// Appends to `out` the pairs that `first` forms with the entries of
/// `seconds` whose value is an integer.
fn collect_pairs(first: &str, seconds: &Vec<(String, PlistValue)>, out: &mut Vec<PairLine>)
    ensures
        PlistValue::Dictionary(*seconds).deep_view() matches PlistView::Dictionary(views)
            && final(out).deep_view() == old(out).deep_view() + pairs_of_first(first@, views),
{
    let ghost views = PlistValue::Dictionary(*seconds).deep_view()->Dictionary_0;
    let ghost start = out.deep_view();
    assert(PlistValue::Dictionary(*seconds).deep_view() matches PlistView::Dictionary(v) && v.len()
        == seconds.len());
    let mut i: usize = 0;
    assert(out.deep_view() =~= start + pairs_of_first(first@, views.take(0)));
    while i < seconds.len()
        invariant
            i <= seconds.len(),
            PlistValue::Dictionary(*seconds).deep_view() == PlistView::Dictionary(views),
            views.len() == seconds.len(),
            out.deep_view() == start + pairs_of_first(first@, views.take(i as int)),
        decreases seconds.len() - i,
    {
        proof {
            assert(views.take(i + 1).drop_last() =~= views.take(i as int));
            assert(views.take(i + 1).last() == (seconds[i as int].0@, seconds[i as int].1.deep_view()));
        }
        let ghost before = out.deep_view();
        match &seconds[i].1 {
            PlistValue::Integer(value) => {
                let line = PairLine {
                    first: String::from_str(first),
                    second: show_name(seconds[i].0.as_str(), SECOND_GROUP_PREFIX),
                    value: *value,
                };
                out.push(line);
                assert(out.deep_view() =~= before.push(line.deep_view()));
            },
            _ => {},
        }
        i += 1;
    }
    assert(views.take(seconds.len() as int) == views);
}

/// Lists the kerning pairs of a kerning dictionary, in its order.
///
/// A first key whose value is no dictionary is left out, and so is a second
/// key whose value is no integer.
pub fn list_pairs(kerning: &Dictionary<PlistValue>) -> (pairs: Vec<PairLine>)
    ensures
        pairs.deep_view() == pairs_among(entries_of(*kerning)),
{
    let ghost entries = entries_of(*kerning);
    let mut out: Vec<PairLine> = Vec::new();
    let n = kerning.len();
    let mut i: usize = 0;
    assert(out.deep_view() =~= pairs_among(entries.take(0)));
    while i < n
        invariant
            i <= n,
            n == kerning.entries().len(),
            entries == entries_of(*kerning),
            out.deep_view() == pairs_among(entries.take(i as int)),
        decreases n - i,
    {
        proof {
            assert(entries.take(i + 1).drop_last() =~= entries.take(i as int));
            assert(entries.take(i + 1).last() == entries[i as int]);
        }
        match kerning.value_at(i) {
            PlistValue::Dictionary(seconds) => {
                let first = show_name(kerning.key_at(i).as_str(), FIRST_GROUP_PREFIX);
                collect_pairs(first.as_str(), seconds, &mut out);
            },
            _ => {},
        }
        i += 1;
    }
    assert(entries.take(n as int) == entries);
    out
}

/// Reports on the kerning file of a font, given the text of the file, or
/// `None` where the font has no such file.
///
/// The pairs are listed in the order of their first keys, those of one first
/// key in the order of the file.
pub fn display_kerning(text: Option<&str>) -> (r: Result<KerningReport, PlistError>)
    ensures
        match text {
            None => r matches Ok(KerningReport::NoFile),
            Some(t) => match parsed_entries(t@) {
                None => r is Err,
                Some(entries) => r matches Ok(KerningReport::Listing(pairs)) && pairs.deep_view()
                    == pairs_among(arrangement(map_of_entries(entries))),
            },
        },
{
    match text {
        None => Ok(KerningReport::NoFile),
        Some(t) => match read_dictionary(t) {
            Err(e) => Err(e),
            Ok(kerning) => Ok(KerningReport::Listing(list_pairs(&kerning))),
        },
    }
}

/// One half of a kerning pair as a caller writes it: a glyph by its name, or
/// a group by `@` and its name.
#[derive(Clone, Debug, PartialEq, Eq)]
pub enum Reference {
    Glyph(String),
    Group(String),
}

/// A `Reference` with its name as a sequence of characters.
pub enum ReferenceView {
    Glyph(Seq<char>),
    Group(Seq<char>),
}

impl View for Reference {
    type V = ReferenceView;

    open spec fn view(&self) -> ReferenceView {
        match self {
            Reference::Glyph(name) => ReferenceView::Glyph(name@),
            Reference::Group(name) => ReferenceView::Group(name@),
        }
    }
}

/// What `text` refers to: the group named after the mark where `text` begins
/// with the mark, else the glyph `text`.
pub open spec fn reference_of(text: Seq<char>) -> ReferenceView {
    if GROUP_MARK@.is_prefix_of(text) {
        ReferenceView::Group(text.skip(GROUP_MARK@.len() as int))
    } else {
        ReferenceView::Glyph(text)
    }
}

/// The key that stands for `reference` in the kerning dictionary, on `side`
/// of a pair: the key of the group, or the name of the glyph.
pub open spec fn key_of(reference: ReferenceView, side: Side) -> Seq<char> {
    match reference {
        ReferenceView::Group(name) => group_key_of(side, name),
        ReferenceView::Glyph(name) => name,
    }
}

/// Reads one half of a kerning pair.
pub fn parse_reference(text: &str) -> (reference: Reference)
    ensures
        reference@ == reference_of(text@),
{
    match strip_prefix(text, GROUP_MARK) {
        Some(name) => Reference::Group(name),
        None => Reference::Glyph(String::from_str(text)),
    }
}

impl Reference {
    /// The key that stands for the reference on `side` of a pair.
    pub fn key(&self, side: Side) -> (key: String)
        ensures
            key@ == key_of(self@, side),
    {
        match self {
            Reference::Group(name) => group_key(side, name.as_str()),
            Reference::Glyph(name) => name.clone(),
        }
    }
}

/// The kerning of a font as a map from first keys to maps from second keys
/// to values.
pub open spec fn kerning_model<V>(kerning: Kerning<V>) -> Map<Seq<char>, Map<Seq<char>, V>> {
    kerning@.map_values(|seconds: Dictionary<V>| seconds@)
}

/// The invariant of a kerning dictionary: it is a well-formed dictionary of
/// well-formed dictionaries.
pub open spec fn kerning_wf<V>(kerning: Kerning<V>) -> bool {
    &&& kerning.wf()
    &&& forall|i: int| 0 <= i < kerning.entries().len() ==> (#[trigger] kerning.entries()[i]).1.wf()
}

/// The kerning that results from kerning `first` against `second` by
/// `value`, or why the pair is refused.
///
/// A half that refers to a group must name a group that exists on its side:
/// `group_keys` holds the keys of the groups. Every key must be a valid
/// name. The first half is judged before the second.
pub open spec fn added_pair<V>(
    group_keys: Set<Seq<char>>,
    kerning: Map<Seq<char>, Map<Seq<char>, V>>,
    first: Seq<char>,
    second: Seq<char>,
    value: V,
) -> Result<Map<Seq<char>, Map<Seq<char>, V>>, Failure> {
    let first_key = key_of(reference_of(first), Side::Left);
    let second_key = key_of(reference_of(second), Side::Right);
    if reference_of(first) is Group && !valid_name(first_key) {
        Err(Failure::InvalidName(first_key))
    } else if reference_of(first) is Group && !group_keys.contains(first_key) {
        Err(Failure::FirstGroupNotFound(first))
    } else if reference_of(second) is Group && !valid_name(second_key) {
        Err(Failure::InvalidName(second_key))
    } else if reference_of(second) is Group && !group_keys.contains(second_key) {
        Err(Failure::SecondGroupNotFound(second))
    } else if !valid_name(first_key) {
        Err(Failure::InvalidName(first_key))
    } else if !valid_name(second_key) {
        Err(Failure::InvalidName(second_key))
    } else {
        let seconds = if kerning.contains_key(first_key) {
            kerning[first_key]
        } else {
            Map::empty()
        };
        Ok(kerning.insert(first_key, seconds.insert(second_key, value)))
    }
}

/// Kerns `first` against `second` by `value`.
///
/// Each half is the name of a glyph, or `@` and the name of a group. A group
/// must exist in `groups` on the side on which it is used; a glyph is not
/// looked up anywhere. Where the pair is refused, `kerning` stays as it was.
pub fn add_kerning_pair<V>(
    groups: &Groups,
    kerning: &mut Kerning<V>,
    first: &str,
    second: &str,
    value: V,
) -> (r: Result<(), KerningError>)
    requires
        groups.wf(),
        kerning_wf(*old(kerning)),
    ensures
        kerning_wf(*final(kerning)),
        match added_pair(groups@.dom(), kerning_model(*old(kerning)), first@, second@, value) {
            Ok(after) => r is Ok && kerning_model(*final(kerning)) == after,
            Err(failure) => r matches Err(e) && e@ == failure && *final(kerning) == *old(kerning),
        },
{
    let first_reference = parse_reference(first);
    let first_key = first_reference.key(Side::Left);
    if let Reference::Group(_) = first_reference {
        if !name_is_valid(first_key.as_str()) {
            return Err(KerningError::InvalidName(first_key));
        }
        if !groups.contains_key(first_key.as_str()) {
            return Err(KerningError::FirstGroupNotFound(String::from_str(first)));
        }
    }
    let second_reference = parse_reference(second);
    let second_key = second_reference.key(Side::Right);
    if let Reference::Group(_) = second_reference {
        if !name_is_valid(second_key.as_str()) {
            return Err(KerningError::InvalidName(second_key));
        }
        if !groups.contains_key(second_key.as_str()) {
            return Err(KerningError::SecondGroupNotFound(String::from_str(second)));
        }
    }
    if !name_is_valid(first_key.as_str()) {
        return Err(KerningError::InvalidName(first_key));
    }
    if !name_is_valid(second_key.as_str()) {
        return Err(KerningError::InvalidName(second_key));
    }
    let ghost before = *kerning;
    match kerning.position(first_key.as_str()) {
        Ok(i) => {
            let ghost seconds_before = before.entries()[i as int].1;
            let seconds = kerning.value_at_mut(i);
            seconds.insert(second_key, value);
            proof {
                let seconds_after = kerning.entries()[i as int].1;
                before.lemma_entry_in_view(i as int);
                lemma_update_view(before, *kerning, i as int, seconds_after);
                assert(kerning_model(*kerning) =~= kerning_model(before).insert(
                    first_key@,
                    seconds_before@.insert(second_key@, value),
                ));
            }
        },
        Err(_) => {
            let mut seconds: Dictionary<V> = Dictionary::new();
            seconds.insert(second_key, value);
            kerning.insert(first_key, seconds);
            proof {
                assert(kerning_model(*kerning) =~= kerning_model(before).insert(
                    first_key@,
                    Map::<Seq<char>, V>::empty().insert(second_key@, value),
                ));
                assert forall|j: int| 0 <= j < kerning.entries().len() implies (
                #[trigger] kerning.entries()[j]).1.wf() by {
                    let p = before.position_of(first_key@)->Err_0;
                    if j < p {
                        assert(kerning.entries()[j] == before.entries()[j]);
                    } else if j > p {
                        assert(kerning.entries()[j] == before.entries()[j - 1]);
                    }
                }
            }
        },
    }
    Ok(())
}

/// The groups of a font as a map from the key of a group to its members.
pub open spec fn groups_model(groups: Groups) -> Map<Seq<char>, Seq<Seq<char>>> {
    groups@.map_values(|members: Vec<String>| members.deep_view())
}

/// The first of `names` that is no valid name, if there is one.
pub open spec fn first_invalid(names: Seq<Seq<char>>) -> Option<Seq<char>>
    decreases names.len(),
{
    if names.len() == 0 {
        None
    } else if !valid_name(names[0]) {
        Some(names[0])
    } else {
        first_invalid(names.skip(1))
    }
}

/// The names of `names`, each once, in the strict order of names.
pub open spec fn ascending_names(names: Set<Seq<char>>) -> Seq<Seq<char>> {
    keys_of(arrangement(Map::new(|name: Seq<char>| names.contains(name), |name: Seq<char>| ())))
}

/// The members of a group after `added` has been appended to `existing`:
/// the names of both, each once, in the strict order of names.
pub open spec fn merged_members(existing: Seq<Seq<char>>, added: Seq<Seq<char>>) -> Seq<Seq<char>> {
    ascending_names((existing + added).to_set())
}

/// The groups that result from adding the group `name` of the side that
/// `side` names, with `members`, or why the group is refused.
///
/// A group of that key that exists already is overwritten. The members are
/// stored as they are given, in their order, duplicates included.
pub open spec fn added_group(
    groups: Map<Seq<char>, Seq<Seq<char>>>,
    name: Seq<char>,
    side: Seq<char>,
    members: Seq<Seq<char>>,
) -> Result<Map<Seq<char>, Seq<Seq<char>>>, Failure> {
    match side_of(side) {
        None => Err(Failure::InvalidSide(side)),
        Some(side) => match first_invalid(members) {
            Some(member) => Err(Failure::InvalidName(member)),
            None => if !valid_name(group_key_of(side, name)) {
                Err(Failure::InvalidName(group_key_of(side, name)))
            } else {
                Ok(groups.insert(group_key_of(side, name), members))
            },
        },
    }
}

/// The groups that result from editing the group `name` of the side that
/// `side` names, or why the edit is refused.
///
/// The group must exist. Without `append` its members become `members`, as
/// they are given. With `append` they become the members it had together
/// with `members`, each once, in the strict order of names.
pub open spec fn edited_group(
    groups: Map<Seq<char>, Seq<Seq<char>>>,
    name: Seq<char>,
    side: Seq<char>,
    members: Seq<Seq<char>>,
    append: bool,
) -> Result<Map<Seq<char>, Seq<Seq<char>>>, Failure> {
    match side_of(side) {
        None => Err(Failure::InvalidSide(side)),
        Some(side) => {
            let key = group_key_of(side, name);
            if !valid_name(key) {
                Err(Failure::InvalidName(key))
            } else if !groups.contains_key(key) {
                Err(Failure::GroupNotFound(name))
            } else {
                match first_invalid(members) {
                    Some(member) => Err(Failure::InvalidName(member)),
                    None => Ok(
                        groups.insert(
                            key,
                            if append {
                                merged_members(groups[key], members)
                            } else {
                                members
                            },
                        ),
                    ),
                }
            }
        },
    }
}

/// The members of a group after an append are in the strict order of names,
/// so that none occurs twice, and they are the names that the group had or
/// that were appended, no more and no less.
pub proof fn lemma_merged_members(existing: Seq<Seq<char>>, added: Seq<Seq<char>>)
    ensures
        strictly_ascending(merged_members(existing, added)),
        forall|name: Seq<char>|
            merged_members(existing, added).contains(name) <==> existing.contains(name) || added.contains(
                name,
            ),
{
    let both = existing + added;
    let names = both.to_set();
    let map = Map::new(|name: Seq<char>| names.contains(name), |name: Seq<char>| ());
    vstd::seq_lib::seq_to_set_is_finite(both);
    assert(map.dom() =~= names);
    lemma_arrangement_exists(map);
    let entries = arrangement(map);
    let merged = merged_members(existing, added);
    assert(merged == keys_of(entries));
    assert forall|name: Seq<char>|
        merged.contains(name) <==> existing.contains(name) || added.contains(name) by {
        if merged.contains(name) {
            let i = choose|i: int| 0 <= i < merged.len() && merged[i] == name;
            assert(map.contains_pair(entries[i].0, entries[i].1));
            assert(both.contains(name));
            let j = choose|j: int| 0 <= j < both.len() && both[j] == name;
            if j < existing.len() {
                assert(existing[j] == name);
            } else {
                assert(added[j - existing.len()] == name);
            }
        }
        if existing.contains(name) {
            let j = choose|j: int| 0 <= j < existing.len() && existing[j] == name;
            assert(both[j] == name);
        }
        if added.contains(name) {
            let j = choose|j: int| 0 <= j < added.len() && added[j] == name;
            assert(both[existing.len() + j] == name);
        }
        if both.contains(name) {
            assert(map.contains_key(name));
            let i = choose|i: int| 0 <= i < entries.len() && (#[trigger] entries[i]).0 == name;
            assert(merged[i] == name);
        }
    }
}

/// The members of a group after an append are the one sequence that is in
/// the strict order of names and holds the names that the group had or that
/// were appended, no more and no less.
pub proof fn lemma_merged_members_unique(existing: Seq<Seq<char>>, added: Seq<Seq<char>>, members: Seq<Seq<char>>)
    requires
        strictly_ascending(members),
        forall|name: Seq<char>| members.contains(name) <==> existing.contains(name) || added.contains(name),
    ensures
        merged_members(existing, added) == members,
{
    let both = existing + added;
    let names = both.to_set();
    let map = Map::new(|name: Seq<char>| names.contains(name), |name: Seq<char>| ());
    let entries = members.map_values(|name: Seq<char>| (name, ()));
    assert(keys_of(entries) =~= members);
    assert forall|name: Seq<char>| both.contains(name) <==> existing.contains(name) || added.contains(name) by {
        if existing.contains(name) {
            let j = choose|j: int| 0 <= j < existing.len() && existing[j] == name;
            assert(both[j] == name);
        }
        if added.contains(name) {
            let j = choose|j: int| 0 <= j < added.len() && added[j] == name;
            assert(both[existing.len() + j] == name);
        }
        if both.contains(name) {
            let j = choose|j: int| 0 <= j < both.len() && both[j] == name;
            if j < existing.len() {
                assert(existing[j] == name);
            } else {
                assert(added[j - existing.len()] == name);
            }
        }
    }
    assert forall|i: int| 0 <= i < entries.len() implies map.contains_pair(
        (#[trigger] entries[i]).0,
        entries[i].1,
    ) by {
        assert(members[i] == entries[i].0);
        assert(members.contains(entries[i].0));
    }
    assert forall|name: Seq<char>| #[trigger] map.contains_key(name) implies exists|i: int|
        0 <= i < entries.len() && (#[trigger] entries[i]).0 == name by {
        assert(members.contains(name));
        let i = choose|i: int| 0 <= i < members.len() && members[i] == name;
        assert(entries[i].0 == name);
    }
    lemma_arrangement(entries, map);
}

/// Copies `members`, or returns the first of them that is no valid name.
fn checked_members(members: &[String]) -> (r: Result<Vec<String>, KerningError>)
    ensures
        match first_invalid(members.deep_view()) {
            Some(member) => r matches Err(e) && e@ == Failure::InvalidName(member),
            None => r matches Ok(copy) && copy.deep_view() == members.deep_view(),
        },
{
    let ghost names = members.deep_view();
    let mut copy: Vec<String> = Vec::new();
    let mut i: usize = 0;
    assert(names.skip(0) =~= names);
    while i < members.len()
        invariant
            i <= members.len(),
            names == members.deep_view(),
            first_invalid(names) == first_invalid(names.skip(i as int)),
            copy.deep_view() == names.take(i as int),
        decreases members.len() - i,
    {
        proof {
            assert(names.skip(i as int)[0] == members[i as int]@);
            assert(names.skip(i as int).skip(1) =~= names.skip(i + 1));
        }
        if !name_is_valid(members[i].as_str()) {
            return Err(KerningError::InvalidName(members[i].clone()));
        }
        let ghost before = copy.deep_view();
        copy.push(members[i].clone());
        assert(copy.deep_view() =~= before.push(members[i as int]@));
        assert(names.take(i + 1) =~= names.take(i as int).push(names[i as int]));
        i += 1;
    }
    assert(names.take(members.len() as int) == names);
    Ok(copy)
}

/// `set` with every name of `names` stored as a key.
fn with_names(set: Dictionary<()>, names: &Vec<String>) -> (out: Dictionary<()>)
    requires
        set.wf(),
    ensures
        out.wf(),
        forall|name: Seq<char>| #[trigger]
            out@.contains_key(name) <==> set@.contains_key(name) || names.deep_view().contains(name),
{
    let ghost all = names.deep_view();
    let mut out = set;
    let mut i: usize = 0;
    while i < names.len()
        invariant
            i <= names.len(),
            all == names.deep_view(),
            out.wf(),
            forall|name: Seq<char>|
                out@.contains_key(name) <==> set@.contains_key(name) || all.take(i as int).contains(name),
        decreases names.len() - i,
    {
        out.insert(names[i].clone(), ());
        proof {
            let now = all.take(i + 1);
            assert(now =~= all.take(i as int).push(all[i as int]));
            assert forall|name: Seq<char>| out@.contains_key(name) <==> set@.contains_key(name)
                || now.contains(name) by {
                if all.take(i as int).contains(name) {
                    let j = choose|j: int| 0 <= j < i && all.take(i as int)[j] == name;
                    assert(now[j] == name);
                }
                if name == all[i as int] {
                    assert(now[i as int] == name);
                }
                if now.contains(name) {
                    let j = choose|j: int| 0 <= j < i + 1 && now[j] == name;
                    if j < i {
                        assert(all.take(i as int)[j] == name);
                    }
                }
            }
        }
        i += 1;
    }
    assert(all.take(names.len() as int) == all);
    out
}

/// The keys of `set`, in its order.
fn names_of(set: &Dictionary<()>) -> (names: Vec<String>)
    ensures
        names.deep_view() == set.keys(),
{
    let mut names: Vec<String> = Vec::new();
    let n = set.len();
    let mut i: usize = 0;
    while i < n
        invariant
            i <= n,
            n == set.entries().len(),
            names.deep_view() == set.keys().take(i as int),
        decreases n - i,
    {
        let ghost before = names.deep_view();
        names.push(set.key_at(i).clone());
        assert(names.deep_view() =~= before.push(set.keys()[i as int]));
        assert(set.keys().take(i + 1) =~= set.keys().take(i as int).push(set.keys()[i as int]));
        i += 1;
    }
    assert(set.keys().take(n as int) =~= set.keys());
    names
}

/// The names of `existing` and of `added`, each once, in the strict order of
/// names.
pub fn merge_members(existing: &Vec<String>, added: &Vec<String>) -> (merged: Vec<String>)
    ensures
        merged.deep_view() == merged_members(existing.deep_view(), added.deep_view()),
        strictly_ascending(merged.deep_view()),
        forall|name: Seq<char>|
            merged.deep_view().contains(name) <==> existing.deep_view().contains(name)
                || added.deep_view().contains(name),
{
    let half = with_names(Dictionary::new(), existing);
    let set = with_names(half, added);
    let merged = names_of(&set);
    proof {
        assert forall|name: Seq<char>|
            merged.deep_view().contains(name) <==> existing.deep_view().contains(name)
                || added.deep_view().contains(name) by {
            assert(half@.contains_key(name) <==> existing.deep_view().contains(name));
            assert(set@.contains_key(name) <==> half@.contains_key(name) || added.deep_view().contains(name));
            if merged.deep_view().contains(name) {
                let j = choose|j: int| 0 <= j < set.keys().len() && set.keys()[j] == name;
                assert(set.entries()[j].0 == name);
            }
            if set@.contains_key(name) {
                let j = set.index_of(name);
                assert(set.keys()[j] == name);
            }
        }
        lemma_merged_members_unique(existing.deep_view(), added.deep_view(), merged.deep_view());
    }
    merged
}

/// Adds the group `group_name` of the side `group_side`, with `members`.
///
/// `group_side` is `left` or `right`. A group of that name and side that
/// exists already is overwritten. The members are stored as they are given.
/// Where the group is refused, `groups` stays as it was.
pub fn add_kerning_group(groups: &mut Groups, group_name: &str, group_side: &str, members: &[String]) -> (r:
    Result<(), KerningError>)
    requires
        old(groups).wf(),
    ensures
        final(groups).wf(),
        match added_group(groups_model(*old(groups)), group_name@, group_side@, members.deep_view()) {
            Ok(after) => r is Ok && groups_model(*final(groups)) == after,
            Err(failure) => r matches Err(e) && e@ == failure && *final(groups) == *old(groups),
        },
{
    let side = match parse_side(group_side) {
        Some(side) => side,
        None => {
            return Err(KerningError::InvalidSide(String::from_str(group_side)));
        },
    };
    let key = group_key(side, group_name);
    let copy = match checked_members(members) {
        Ok(copy) => copy,
        Err(e) => {
            return Err(e);
        },
    };
    if !name_is_valid(key.as_str()) {
        return Err(KerningError::InvalidName(key));
    }
    let ghost before = *groups;
    groups.insert(key, copy);
    assert(groups_model(*groups) =~= groups_model(before).insert(key@, members.deep_view()));
    Ok(())
}

/// Edits the group `group_name` of the side `group_side`, which must exist.
///
/// Without `append` the members of the group become `members`, as they are
/// given. With `append` they become the members that the group had together
/// with `members`, each once, in the strict order of names. Where the edit
/// is refused, `groups` stays as it was.
pub fn edit_kerning_group(
    groups: &mut Groups,
    group_name: &str,
    group_side: &str,
    members: &[String],
    append: bool,
) -> (r: Result<(), KerningError>)
    requires
        old(groups).wf(),
    ensures
        final(groups).wf(),
        match edited_group(groups_model(*old(groups)), group_name@, group_side@, members.deep_view(), append) {
            Ok(after) => r is Ok && groups_model(*final(groups)) == after,
            Err(failure) => r matches Err(e) && e@ == failure && *final(groups) == *old(groups),
        },
{
    let side = match parse_side(group_side) {
        Some(side) => side,
        None => {
            return Err(KerningError::InvalidSide(String::from_str(group_side)));
        },
    };
    let key = group_key(side, group_name);
    if !name_is_valid(key.as_str()) {
        return Err(KerningError::InvalidName(key));
    }
    let existing = match groups.get(key.as_str()) {
        Some(existing) => existing,
        None => {
            return Err(KerningError::GroupNotFound(String::from_str(group_name)));
        },
    };
    let copy = match checked_members(members) {
        Ok(copy) => copy,
        Err(e) => {
            return Err(e);
        },
    };
    let stored = if append {
        merge_members(existing, &copy)
    } else {
        copy
    };
    let ghost before = *groups;
    groups.insert(key, stored);
    assert(groups_model(*groups) =~= groups_model(before).insert(key@, stored.deep_view()));
    Ok(())
}

/// The members of a group as a property list holds them: an array of
/// strings.
pub open spec fn members_as_array(members: Seq<Seq<char>>) -> PlistView {
    PlistView::Array(members.map_values(|member: Seq<char>| PlistView::String(member)))
}

/// The groups of a font as the groups file holds them: every group an array
/// of strings under its key, the keys in their order.
pub open spec fn groups_as_entries(groups: Groups) -> Seq<(Seq<char>, PlistView)> {
    groups.entries().map_values(|e: (Seq<char>, Vec<String>)| (e.0, members_as_array(e.1.deep_view())))
}

/// The members of a group as an array of strings.
fn members_to_array(members: &Vec<String>) -> (array: PlistValue)
    ensures
        array.deep_view() == members_as_array(members.deep_view()),
{
    let mut items: Vec<PlistValue> = Vec::new();
    let mut i: usize = 0;
    while i < members.len()
        invariant
            i <= members.len(),
            items.len() == i,
            forall|j: int| 0 <= j < i ==> (#[trigger] items[j]).model() == PlistView::String(members[j]@),
        decreases members.len() - i,
    {
        items.push(PlistValue::String(members[i].clone()));
        i += 1;
    }
    let array = PlistValue::Array(items);
    assert(array.deep_view()->Array_0 =~= members.deep_view().map_values(
        |member: Seq<char>| PlistView::String(member),
    ));
    array
}

/// The groups of a font as the dictionary that the groups file holds.
pub fn groups_to_plist(groups: &Groups) -> (plist: Dictionary<PlistValue>)
    requires
        groups.wf(),
    ensures
        plist.wf(),
        entries_of(plist) == groups_as_entries(*groups),
{
    let ghost entries = groups_as_entries(*groups);
    let mut plist: Dictionary<PlistValue> = Dictionary::new();
    let n = groups.len();
    let mut i: usize = 0;
    assert(map_of(plist) =~= map_of_entries(entries.take(0)));
    while i < n
        invariant
            i <= n,
            n == groups.entries().len(),
            entries == groups_as_entries(*groups),
            plist.wf(),
            map_of(plist) == map_of_entries(entries.take(i as int)),
        decreases n - i,
    {
        let key = groups.key_at(i).clone();
        let value = members_to_array(groups.value_at(i));
        let ghost before = plist;
        proof {
            let now = entries.take(i + 1);
            assert(now.drop_last() =~= entries.take(i as int));
            assert(now.last() == (key@, value.deep_view()));
        }
        plist.insert(key, value);
        proof {
            lemma_map_of_insert(before, plist, key@, value);
        }
        i += 1;
    }
    proof {
        assert(entries.take(n as int) == entries);
        assert(keys_of(entries) =~= groups.keys());
        lemma_ascending_entries_arrange(entries);
        lemma_entries_of_arrange(plist);
    }
    plist
}

/// The strings among an array of strings are its strings.
pub proof fn lemma_strings_among_members(members: Seq<Seq<char>>)
    ensures
        strings_among(members.map_values(|member: Seq<char>| PlistView::String(member))) == members,
    decreases members.len(),
{
    let items = members.map_values(|member: Seq<char>| PlistView::String(member));
    if members.len() > 0 {
        lemma_strings_among_members(members.drop_last());
        assert(items.drop_last() =~= members.drop_last().map_values(
            |member: Seq<char>| PlistView::String(member),
        ));
        assert(members =~= members.drop_last().push(members.last()));
    } else {
        assert(strings_among(items) =~= members);
    }
}

/// An entry whose key begins with `prefix` and whose value is an array is
/// listed among the groups of that prefix, under its key without the prefix.
pub proof fn lemma_group_is_listed(entries: Seq<(Seq<char>, PlistView)>, prefix: Seq<char>, i: int)
    requires
        0 <= i < entries.len(),
        prefix.is_prefix_of(entries[i].0),
        entries[i].1 is Array,
    ensures
        groups_with_prefix(entries, prefix).contains(
            (entries[i].0.skip(prefix.len() as int), strings_among(entries[i].1->Array_0)),
        ),
    decreases entries.len(),
{
    let line = (entries[i].0.skip(prefix.len() as int), strings_among(entries[i].1->Array_0));
    let front = groups_with_prefix(entries.drop_last(), prefix);
    let all = groups_with_prefix(entries, prefix);
    if i == entries.len() - 1 {
        assert(all == front.push(line));
        assert(all[all.len() - 1] == line);
    } else {
        assert(entries.drop_last()[i] == entries[i]);
        lemma_group_is_listed(entries.drop_last(), prefix, i);
        let j = choose|j: int| 0 <= j < front.len() && front[j] == line;
        assert(all[j] == line);
    }
}

/// Every group that is listed among the groups of `prefix` stands in the
/// entries under a key that begins with `prefix`, with an array as its
/// value: no group is listed on a side on which it does not stand.
pub proof fn lemma_listed_group_is_stored(
    entries: Seq<(Seq<char>, PlistView)>,
    prefix: Seq<char>,
    line: (Seq<char>, Seq<Seq<char>>),
)
    requires
        groups_with_prefix(entries, prefix).contains(line),
    ensures
        exists|i: int|
            0 <= i < entries.len() && (#[trigger] entries[i]).0 == prefix + line.0 && entries[i].1 is Array
                && strings_among(entries[i].1->Array_0) == line.1,
    decreases entries.len(),
{
    let all = groups_with_prefix(entries, prefix);
    let m = choose|m: int| 0 <= m < all.len() && all[m] == line;
    if entries.len() > 0 {
        let front = groups_with_prefix(entries.drop_last(), prefix);
        let last = entries.len() - 1;
        if m < front.len() {
            assert(front[m] == line);
            lemma_listed_group_is_stored(entries.drop_last(), prefix, line);
            let i = choose|i: int|
                0 <= i < entries.drop_last().len() && (#[trigger] entries.drop_last()[i]).0 == prefix + line.0
                    && entries.drop_last()[i].1 is Array && strings_among(entries.drop_last()[i].1->Array_0)
                    == line.1;
            assert(entries[i] == entries.drop_last()[i]);
        } else {
            let key = entries[last].0;
            assert(prefix.is_prefix_of(key));
            assert(key =~= prefix + key.skip(prefix.len() as int));
            assert(entries[last].0 == prefix + line.0);
        }
    }
}

/// A group that was added is listed afterwards: where adding the group
/// `name` on the side that `side` names, with `members`, turns the groups
/// `before` into the groups of `after`, the listing of `after` shows `name`
/// with `members` among the groups of that side.
pub proof fn lemma_added_group_is_listed(
    before: Map<Seq<char>, Seq<Seq<char>>>,
    after: Groups,
    name: Seq<char>,
    side: Seq<char>,
    members: Seq<Seq<char>>,
)
    requires
        after.wf(),
        added_group(before, name, side, members) == Ok::<Map<Seq<char>, Seq<Seq<char>>>, Failure>(
            groups_model(after),
        ),
    ensures
        side_of(side) matches Some(s) && groups_with_prefix(groups_as_entries(after), prefix_of(s)).contains(
            (name, members),
        ),
{
    let s = side_of(side)->Some_0;
    let prefix = prefix_of(s);
    let key = group_key_of(s, name);
    assert(groups_model(after) == before.insert(key, members));
    assert(groups_model(after).contains_key(key));
    assert(after@.contains_key(key));
    let i = after.index_of(key);
    after.lemma_entry_in_view(i);
    let entries = groups_as_entries(after);
    assert(entries[i] == (key, members_as_array(after.entries()[i].1.deep_view())));
    assert(groups_model(after)[key] == members);
    assert(after.entries()[i].1.deep_view() == members);
    assert(prefix.is_prefix_of(key));
    assert(key.skip(prefix.len() as int) =~= name);
    lemma_strings_among_members(members);
    lemma_group_is_listed(entries, prefix, i);
}

/// The second halves kerned against one first half, as the kerning file
/// holds them: every value an integer under its key.
pub open spec fn seconds_as_entries(seconds: Seq<(Seq<char>, i32)>) -> Seq<(Seq<char>, PlistView)> {
    seconds.map_values(|e: (Seq<char>, i32)| (e.0, PlistView::Integer(e.1 as int)))
}

/// The kerning of a font as the kerning file holds it, where every value is
/// a whole number: under every first key a dictionary from second keys to
/// integers, the keys in their order.
pub open spec fn kerning_as_entries(kerning: Kerning<i32>) -> Seq<(Seq<char>, PlistView)> {
    kerning.entries().map_values(
        |e: (Seq<char>, Dictionary<i32>)| (e.0, PlistView::Dictionary(seconds_as_entries(e.1.entries()))),
    )
}

/// The second halves kerned against one first half as a dictionary of
/// integers.
fn seconds_to_plist(seconds: &Dictionary<i32>) -> (plist: PlistValue)
    ensures
        plist.deep_view() == PlistView::Dictionary(seconds_as_entries(seconds.entries())),
{
    let mut entries: Vec<(String, PlistValue)> = Vec::new();
    let n = seconds.len();
    let mut i: usize = 0;
    while i < n
        invariant
            i <= n,
            n == seconds.entries().len(),
            entries.len() == i,
            forall|j: int|
                0 <= j < i ==> (#[trigger] entries[j]).0@ == seconds.entries()[j].0 && entries[j].1.model()
                    == PlistView::Integer(seconds.entries()[j].1 as int),
        decreases n - i,
    {
        let value: i32 = *seconds.value_at(i);
        entries.push((seconds.key_at(i).clone(), PlistValue::Integer(value as i128)));
        i += 1;
    }
    let plist = PlistValue::Dictionary(entries);
    assert(plist.deep_view()->Dictionary_0 =~= seconds_as_entries(seconds.entries()));
    plist
}

/// The kerning of a font, every value a whole number, as the dictionary
/// that the kerning file holds.
pub fn kerning_to_plist(kerning: &Kerning<i32>) -> (plist: Dictionary<PlistValue>)
    requires
        kerning.wf(),
    ensures
        plist.wf(),
        entries_of(plist) == kerning_as_entries(*kerning),
{
    let ghost entries = kerning_as_entries(*kerning);
    let mut plist: Dictionary<PlistValue> = Dictionary::new();
    let n = kerning.len();
    let mut i: usize = 0;
    assert(map_of(plist) =~= map_of_entries(entries.take(0)));
    while i < n
        invariant
            i <= n,
            n == kerning.entries().len(),
            entries == kerning_as_entries(*kerning),
            plist.wf(),
            map_of(plist) == map_of_entries(entries.take(i as int)),
        decreases n - i,
    {
        let key = kerning.key_at(i).clone();
        let value = seconds_to_plist(kerning.value_at(i));
        let ghost before = plist;
        proof {
            let now = entries.take(i + 1);
            assert(now.drop_last() =~= entries.take(i as int));
            assert(now.last() == (key@, value.deep_view()));
        }
        plist.insert(key, value);
        proof {
            lemma_map_of_insert(before, plist, key@, value);
        }
        i += 1;
    }
    proof {
        assert(entries.take(n as int) == entries);
        assert(keys_of(entries) =~= kerning.keys());
        lemma_ascending_entries_arrange(entries);
        lemma_entries_of_arrange(plist);
    }
    plist
}

/// An integer stored under a second key is listed among the pairs of a
/// first half.
pub proof fn lemma_second_is_listed(first: Seq<char>, seconds: Seq<(Seq<char>, PlistView)>, j: int)
    requires
        0 <= j < seconds.len(),
        seconds[j].1 is Integer,
    ensures
        pairs_of_first(first, seconds).contains(
            (first, shown_name(seconds[j].0, SECOND_GROUP_PREFIX@), seconds[j].1->Integer_0),
        ),
    decreases seconds.len(),
{
    let line = (first, shown_name(seconds[j].0, SECOND_GROUP_PREFIX@), seconds[j].1->Integer_0);
    let front = pairs_of_first(first, seconds.drop_last());
    let all = pairs_of_first(first, seconds);
    if j == seconds.len() - 1 {
        assert(all == front.push(line));
        assert(all[all.len() - 1] == line);
    } else {
        assert(seconds.drop_last()[j] == seconds[j]);
        lemma_second_is_listed(first, seconds.drop_last(), j);
        let m = choose|m: int| 0 <= m < front.len() && front[m] == line;
        assert(all[m] == line);
    }
}

/// An integer stored under a second key in the dictionary of a first key is
/// listed among the pairs, both keys as they are shown.
pub proof fn lemma_pair_is_listed(entries: Seq<(Seq<char>, PlistView)>, i: int, j: int)
    requires
        0 <= i < entries.len(),
        entries[i].1 matches PlistView::Dictionary(seconds) && 0 <= j < seconds.len() && seconds[j].1 is Integer,
    ensures
        pairs_among(entries).contains(
            (
                shown_name(entries[i].0, FIRST_GROUP_PREFIX@),
                shown_name(entries[i].1->Dictionary_0[j].0, SECOND_GROUP_PREFIX@),
                entries[i].1->Dictionary_0[j].1->Integer_0,
            ),
        ),
    decreases entries.len(),
{
    let seconds = entries[i].1->Dictionary_0;
    let first = shown_name(entries[i].0, FIRST_GROUP_PREFIX@);
    let line = (first, shown_name(seconds[j].0, SECOND_GROUP_PREFIX@), seconds[j].1->Integer_0);
    let front = pairs_among(entries.drop_last());
    let all = pairs_among(entries);
    if i == entries.len() - 1 {
        lemma_second_is_listed(first, seconds, j);
        let own = pairs_of_first(first, seconds);
        let m = choose|m: int| 0 <= m < own.len() && own[m] == line;
        assert(all == front + own);
        assert(all[front.len() + m] == line);
    } else {
        assert(entries.drop_last()[i] == entries[i]);
        lemma_pair_is_listed(entries.drop_last(), i, j);
        let m = choose|m: int| 0 <= m < front.len() && front[m] == line;
        assert(all[m] == line);
    }
}

/// A pair that was added is listed afterwards: where kerning `first`
/// against `second` by `value` turns the kerning `before` into the kerning of
/// `after`, the listing of `after` shows the pair with `value`, each half as
/// its key is shown.
pub proof fn lemma_added_pair_is_listed(
    group_keys: Set<Seq<char>>,
    before: Map<Seq<char>, Map<Seq<char>, i32>>,
    after: Kerning<i32>,
    first: Seq<char>,
    second: Seq<char>,
    value: i32,
)
    requires
        kerning_wf(after),
        added_pair(group_keys, before, first, second, value) == Ok::<
            Map<Seq<char>, Map<Seq<char>, i32>>,
            Failure,
        >(kerning_model(after)),
    ensures
        pairs_among(kerning_as_entries(after)).contains(
            (
                shown_name(key_of(reference_of(first), Side::Left), FIRST_GROUP_PREFIX@),
                shown_name(key_of(reference_of(second), Side::Right), SECOND_GROUP_PREFIX@),
                value as int,
            ),
        ),
{
    let first_key = key_of(reference_of(first), Side::Left);
    let second_key = key_of(reference_of(second), Side::Right);
    let model = kerning_model(after);
    assert(model.contains_key(first_key));
    assert(model[first_key].contains_pair(second_key, value));
    assert(after@.contains_key(first_key));
    let i = after.index_of(first_key);
    after.lemma_entry_in_view(i);
    let seconds = after.entries()[i].1;
    assert(seconds@ == model[first_key]);
    assert(seconds.wf());
    assert(seconds@.contains_key(second_key));
    let j = seconds.index_of(second_key);
    seconds.lemma_entry_in_view(j);
    let entries = kerning_as_entries(after);
    assert(entries[i] == (first_key, PlistView::Dictionary(seconds_as_entries(seconds.entries()))));
    assert(seconds_as_entries(seconds.entries())[j] == (second_key, PlistView::Integer(value as int)));
    lemma_pair_is_listed(entries, i, j);
}

/// A reference to a group is shown as it was written: the key that stands
/// for `@` and a name is shown as `@` and that name.
pub proof fn lemma_group_reference_is_shown(reference: Seq<char>, side: Side)
    requires
        reference_of(reference) is Group,
    ensures
        shown_name(key_of(reference_of(reference), side), prefix_of(side)) == reference,
{
    let name = reference.skip(GROUP_MARK@.len() as int);
    let prefix = prefix_of(side);
    let key = prefix + name;
    assert(prefix.is_prefix_of(key));
    assert(key.skip(prefix.len() as int) =~= name);
    assert(GROUP_MARK@ + name =~= reference);
}

/// The line that shows a group: `@`, its name, an arrow and its members
/// with commas between them.
pub open spec fn group_line_text(line: (Seq<char>, Seq<Seq<char>>)) -> Seq<char> {
    "@"@ + line.0 + " → "@ + joined(line.1, ", "@)
}

/// The line that shows a pair: its two halves and, after an arrow, its
/// value.
pub open spec fn pair_line_text(line: (Seq<char>, Seq<char>, int)) -> Seq<char> {
    line.0 + " "@ + line.1 + " → "@ + integer_text(line.2)
}

/// The lines of a report on the groups of a font.
pub open spec fn groups_report_lines(report: GroupsReport) -> Seq<Seq<char>> {
    match report {
        GroupsReport::NoFile => seq!["No groups.plist found in UFO"@],
        GroupsReport::Listing(listing) => seq![
            "Kerning Groups:"@,
            "---------------"@,
            ""@,
            "Left Groups (prefix: public.kern1):"@,
        ] + listing.left.deep_view().map_values(|line: (Seq<char>, Seq<Seq<char>>)| group_line_text(line))
            + seq![""@, "Right Groups (prefix: public.kern2):"@] + listing.right.deep_view().map_values(
            |line: (Seq<char>, Seq<Seq<char>>)| group_line_text(line),
        ),
    }
}

/// The lines of a report on the kerning of a font.
pub open spec fn kerning_report_lines(report: KerningReport) -> Seq<Seq<char>> {
    match report {
        KerningReport::NoFile => seq!["No kerning.plist found in UFO"@],
        KerningReport::Listing(pairs) => seq!["Kerning Pairs:"@, "--------------"@]
            + pairs.deep_view().map_values(|line: (Seq<char>, Seq<char>, int)| pair_line_text(line)),
    }
}

impl GroupLine {
    /// The line that shows the group.
    pub fn text(&self) -> (text: String)
        ensures
            text@ == group_line_text(self.deep_view()),
    {
        let mut text = concatenate("@", self.name.as_str());
        text.append(" → ");
        let members = join(&self.members, ", ");
        text.append(members.as_str());
        text
    }
}

impl PairLine {
    /// The line that shows the pair.
    pub fn text(&self) -> (text: String)
        ensures
            text@ == pair_line_text(self.deep_view()),
    {
        let mut text = concatenate(self.first.as_str(), " ");
        text.append(self.second.as_str());
        text.append(" → ");
        let value = integer_to_text(self.value);
        text.append(value.as_str());
        text
    }
}

/// Appends the lines that show `groups` to `lines`.
fn push_group_lines(lines: &mut Vec<String>, groups: &Vec<GroupLine>)
    ensures
        final(lines).deep_view() == old(lines).deep_view() + groups.deep_view().map_values(
            |line: (Seq<char>, Seq<Seq<char>>)| group_line_text(line),
        ),
{
    let ghost start = lines.deep_view();
    let ghost shown = groups.deep_view().map_values(|line: (Seq<char>, Seq<Seq<char>>)| group_line_text(line));
    let mut i: usize = 0;
    assert(lines.deep_view() =~= start + shown.take(0));
    while i < groups.len()
        invariant
            i <= groups.len(),
            shown == groups.deep_view().map_values(|line: (Seq<char>, Seq<Seq<char>>)| group_line_text(line)),
            lines.deep_view() == start + shown.take(i as int),
        decreases groups.len() - i,
    {
        push_text(lines, groups[i].text());
        assert(start + shown.take(i + 1) =~= (start + shown.take(i as int)).push(shown[i as int]));
        i += 1;
    }
    assert(shown.take(groups.len() as int) =~= shown);
}

impl GroupsReport {
    /// The lines of the report, as they are printed.
    pub fn lines(&self) -> (lines: Vec<String>)
        ensures
            lines.deep_view() == groups_report_lines(*self),
    {
        let mut lines: Vec<String> = Vec::new();
        match self {
            GroupsReport::NoFile => {
                push_line(&mut lines, "No groups.plist found in UFO");
                assert(lines.deep_view() =~= groups_report_lines(*self));
            },
            GroupsReport::Listing(listing) => {
                push_line(&mut lines, "Kerning Groups:");
                push_line(&mut lines, "---------------");
                push_line(&mut lines, "");
                push_line(&mut lines, "Left Groups (prefix: public.kern1):");
                let ghost head = lines.deep_view();
                assert(head =~= seq![
                    "Kerning Groups:"@,
                    "---------------"@,
                    ""@,
                    "Left Groups (prefix: public.kern1):"@,
                ]);
                push_group_lines(&mut lines, &listing.left);
                let ghost left = lines.deep_view();
                push_line(&mut lines, "");
                push_line(&mut lines, "Right Groups (prefix: public.kern2):");
                assert(lines.deep_view() =~= left + seq![""@, "Right Groups (prefix: public.kern2):"@]);
                push_group_lines(&mut lines, &listing.right);
            },
        }
        lines
    }
}

impl KerningReport {
    /// The lines of the report, as they are printed.
    pub fn lines(&self) -> (lines: Vec<String>)
        ensures
            lines.deep_view() == kerning_report_lines(*self),
    {
        let mut lines: Vec<String> = Vec::new();
        match self {
            KerningReport::NoFile => {
                push_line(&mut lines, "No kerning.plist found in UFO");
                assert(lines.deep_view() =~= kerning_report_lines(*self));
            },
            KerningReport::Listing(pairs) => {
                push_line(&mut lines, "Kerning Pairs:");
                push_line(&mut lines, "--------------");
                let ghost head = lines.deep_view();
                assert(head =~= seq!["Kerning Pairs:"@, "--------------"@]);
                let ghost shown = pairs.deep_view().map_values(
                    |line: (Seq<char>, Seq<char>, int)| pair_line_text(line),
                );
                let mut i: usize = 0;
                assert(lines.deep_view() =~= head + shown.take(0));
                while i < pairs.len()
                    invariant
                        i <= pairs.len(),
                        shown == pairs.deep_view().map_values(
                            |line: (Seq<char>, Seq<char>, int)| pair_line_text(line),
                        ),
                        lines.deep_view() == head + shown.take(i as int),
                    decreases pairs.len() - i,
                {
                    push_text(&mut lines, pairs[i].text());
                    assert(head + shown.take(i + 1) =~= (head + shown.take(i as int)).push(shown[i as int]));
                    i += 1;
                }
                assert(shown.take(pairs.len() as int) =~= shown);
            },
        }
        lines
    }
}

/// No key carries the prefixes of both sides: a group stands on one side
/// only.
pub proof fn lemma_sides_are_apart(key: Seq<char>)
    ensures
        !(FIRST_GROUP_PREFIX@.is_prefix_of(key) && SECOND_GROUP_PREFIX@.is_prefix_of(key)),
{
    reveal_strlit("public.kern1.");
    reveal_strlit("public.kern2.");
    if FIRST_GROUP_PREFIX@.is_prefix_of(key) && SECOND_GROUP_PREFIX@.is_prefix_of(key) {
        assert(key.subrange(0, 13)[11] == '1');
        assert(key.subrange(0, 13)[11] == '2');
    }
}

/// The key of a group is a valid name exactly if the name of the group
/// holds no control character; the name may be empty.
pub proof fn lemma_group_key_is_valid(side: Side, name: Seq<char>)
    ensures
        valid_name(group_key_of(side, name)) <==> forall|i: int|
            0 <= i < name.len() ==> !is_control(#[trigger] name[i]),
{
    reveal_strlit("public.kern1.");
    reveal_strlit("public.kern2.");
    let prefix = prefix_of(side);
    let key = group_key_of(side, name);
    assert(prefix.len() == 13);
    assert forall|i: int| 0 <= i < 13 implies !is_control(#[trigger] prefix[i]) by {}
    if valid_name(key) {
        assert forall|i: int| 0 <= i < name.len() implies !is_control(#[trigger] name[i]) by {
            assert(key[13 + i] == name[i]);
        }
    }
    if forall|i: int| 0 <= i < name.len() ==> !is_control(#[trigger] name[i]) {
        assert forall|i: int| 0 <= i < key.len() implies !is_control(#[trigger] key[i]) by {
            if i < 13 {
                assert(key[i] == prefix[i]);
            } else {
                assert(key[i] == name[i - 13]);
            }
        }
    }
}

} // verus!
