use lilufo::commands::{
    execute_add_kerning_group, execute_add_kerning_pair, execute_edit_kerning_group, execute_show_kerning,
    execute_show_kerning_groups,
};
use lilufo::dictionary::Dictionary;
use lilufo::kerning::{
    add_kerning_group, add_kerning_pair, display_kerning, display_kerning_groups, edit_kerning_group, group_key,
    groups_to_plist, kerning_to_plist, list_groups, list_pairs, merge_members, parse_reference, parse_side,
    show_name, ErrorKind, GroupLine, Groups, GroupsReport, Kerning, KerningError, KerningReport, PairLine,
    Reference, Side,
};
use lilufo::order::{compare_names, NameOrder};
use lilufo::property_list::{read_dictionary, PlistValue};
use lilufo::text::{concatenate, join, same_text, split_list, strip_prefix};

fn names(items: &[&str]) -> Vec<String> {
    items.iter().map(|s| s.to_string()).collect()
}

fn group_line(name: &str, members: &[&str]) -> GroupLine {
    GroupLine { name: name.to_string(), members: names(members) }
}

fn pair_line(first: &str, second: &str, value: i128) -> PairLine {
    PairLine { first: first.to_string(), second: second.to_string(), value }
}

fn keys<V>(dictionary: &Dictionary<V>) -> Vec<String> {
    (0..dictionary.len()).map(|i| dictionary.key_at(i).clone()).collect()
}

#[test]
fn an_added_group_is_listed_on_its_side() {
    let mut groups: Groups = Dictionary::new();
    assert_eq!(add_kerning_group(&mut groups, "O_group", "left", &names(&["O", "Q", "C"])), Ok(()));
    assert_eq!(add_kerning_group(&mut groups, "A_group", "right", &names(&["A", "Aacute"])), Ok(()));
    assert_eq!(groups.get("public.kern1.O_group"), Some(&names(&["O", "Q", "C"])));
    assert_eq!(groups.get("public.kern2.A_group"), Some(&names(&["A", "Aacute"])));
    let listing = list_groups(&groups_to_plist(&groups));
    assert_eq!(listing.left, vec![group_line("O_group", &["O", "Q", "C"])]);
    assert_eq!(listing.right, vec![group_line("A_group", &["A", "Aacute"])]);
}

#[test]
fn adding_a_group_keeps_order_and_duplicates() {
    let mut groups: Groups = Dictionary::new();
    assert_eq!(add_kerning_group(&mut groups, "G", "left", &names(&["B", "A", "B"])), Ok(()));
    assert_eq!(groups.get("public.kern1.G"), Some(&names(&["B", "A", "B"])));
}

#[test]
fn adding_a_group_overwrites_a_group_of_that_key() {
    let mut groups: Groups = Dictionary::new();
    assert_eq!(add_kerning_group(&mut groups, "G", "left", &names(&["A"])), Ok(()));
    assert_eq!(add_kerning_group(&mut groups, "G", "left", &names(&["B", "C"])), Ok(()));
    assert_eq!(groups.len(), 1);
    assert_eq!(groups.get("public.kern1.G"), Some(&names(&["B", "C"])));
}

#[test]
fn a_side_that_is_neither_left_nor_right_is_refused() {
    let mut groups: Groups = Dictionary::new();
    let refused = add_kerning_group(&mut groups, "G", "center", &names(&["A"]));
    assert_eq!(refused, Err(KerningError::InvalidSide("center".to_string())));
    assert_eq!(groups.len(), 0);
    let refused = refused.unwrap_err();
    assert_eq!(refused.kind(), ErrorKind::InvalidArgument);
    assert_eq!(refused.message(), "group_side must be either 'left' or 'right', not 'center'");
    assert_eq!(
        edit_kerning_group(&mut groups, "G", "Left", &names(&["A"]), false),
        Err(KerningError::InvalidSide("Left".to_string()))
    );
}

#[test]
fn a_member_that_is_no_valid_name_is_refused() {
    let mut groups: Groups = Dictionary::new();
    assert_eq!(
        add_kerning_group(&mut groups, "G", "left", &names(&["A", "", "B"])),
        Err(KerningError::InvalidName("".to_string()))
    );
    assert_eq!(
        add_kerning_group(&mut groups, "G", "left", &names(&["A", "b\u{7}c", ""])),
        Err(KerningError::InvalidName("b\u{7}c".to_string()))
    );
    assert_eq!(
        add_kerning_group(&mut groups, "G", "left", &names(&["A\u{7f}"])),
        Err(KerningError::InvalidName("A\u{7f}".to_string()))
    );
    assert_eq!(
        add_kerning_group(&mut groups, "G", "left", &names(&["A\u{85}"])),
        Err(KerningError::InvalidName("A\u{85}".to_string()))
    );
    assert_eq!(groups.len(), 0);
    assert_eq!(add_kerning_group(&mut groups, "G", "left", &names(&["A b", "é", "\u{a0}"])), Ok(()));
    assert_eq!(
        KerningError::InvalidName("x".to_string()).message(),
        "'x' is not a valid name"
    );
}

#[test]
fn a_group_name_with_a_control_character_is_refused() {
    let mut groups: Groups = Dictionary::new();
    assert_eq!(
        add_kerning_group(&mut groups, "G\n", "right", &names(&["A"])),
        Err(KerningError::InvalidName("public.kern2.G\n".to_string()))
    );
    assert_eq!(add_kerning_group(&mut groups, "", "right", &names(&["A"])), Ok(()));
    assert_eq!(keys(&groups), names(&["public.kern2."]));
}

#[test]
fn appending_to_a_group_sorts_and_removes_duplicates() {
    let mut groups: Groups = Dictionary::new();
    assert_eq!(add_kerning_group(&mut groups, "G", "left", &names(&["A", "C"])), Ok(()));
    assert_eq!(edit_kerning_group(&mut groups, "G", "left", &names(&["B", "A"]), true), Ok(()));
    assert_eq!(groups.get("public.kern1.G"), Some(&names(&["A", "B", "C"])));
}

#[test]
fn appending_sorts_the_members_that_were_there() {
    let mut groups: Groups = Dictionary::new();
    assert_eq!(add_kerning_group(&mut groups, "G", "left", &names(&["z", "a", "z", "Z"])), Ok(()));
    assert_eq!(edit_kerning_group(&mut groups, "G", "left", &names(&[]), true), Ok(()));
    assert_eq!(groups.get("public.kern1.G"), Some(&names(&["Z", "a", "z"])));
}

#[test]
fn replacing_the_members_of_a_group_keeps_their_order() {
    let mut groups: Groups = Dictionary::new();
    assert_eq!(add_kerning_group(&mut groups, "G", "left", &names(&["A", "C"])), Ok(()));
    assert_eq!(edit_kerning_group(&mut groups, "G", "left", &names(&["B", "A"]), false), Ok(()));
    assert_eq!(groups.get("public.kern1.G"), Some(&names(&["B", "A"])));
    assert_eq!(edit_kerning_group(&mut groups, "G", "left", &names(&["B", "B"]), false), Ok(()));
    assert_eq!(groups.get("public.kern1.G"), Some(&names(&["B", "B"])));
}

#[test]
fn editing_a_group_that_does_not_exist_is_refused() {
    let mut groups: Groups = Dictionary::new();
    assert_eq!(add_kerning_group(&mut groups, "G", "left", &names(&["A"])), Ok(()));
    let refused = edit_kerning_group(&mut groups, "G", "right", &names(&["B"]), false);
    assert_eq!(refused, Err(KerningError::GroupNotFound("G".to_string())));
    let refused = refused.unwrap_err();
    assert_eq!(refused.kind(), ErrorKind::NotFound);
    assert_eq!(refused.message(), "Kerning group 'G' does not exist");
    assert_eq!(
        edit_kerning_group(&mut groups, "H", "left", &names(&[""]), true),
        Err(KerningError::GroupNotFound("H".to_string()))
    );
    assert_eq!(groups.get("public.kern1.G"), Some(&names(&["A"])));
}

#[test]
fn editing_refuses_a_member_that_is_no_valid_name() {
    let mut groups: Groups = Dictionary::new();
    assert_eq!(add_kerning_group(&mut groups, "G", "left", &names(&["A"])), Ok(()));
    assert_eq!(
        edit_kerning_group(&mut groups, "G", "left", &names(&["B", "\u{1}"]), true),
        Err(KerningError::InvalidName("\u{1}".to_string()))
    );
    assert_eq!(groups.get("public.kern1.G"), Some(&names(&["A"])));
}

#[test]
fn merges_members() {
    assert_eq!(merge_members(&names(&["A", "C"]), &names(&["B", "A"])), names(&["A", "B", "C"]));
    assert_eq!(merge_members(&names(&[]), &names(&[])), names(&[]));
    assert_eq!(merge_members(&names(&["b", "a", "b"]), &names(&["a"])), names(&["a", "b"]));
    assert_eq!(merge_members(&names(&["é", "z", "Z", "a.alt", "a"]), &names(&[])), names(&["Z", "a", "a.alt", "z", "é"]));
}

#[test]
fn a_pair_of_groups_needs_both_groups() {
    let mut groups: Groups = Dictionary::new();
    let mut kerning: Kerning<i32> = Dictionary::new();
    let refused = add_kerning_pair(&groups, &mut kerning, "@Left", "@Right", -50);
    assert_eq!(refused, Err(KerningError::FirstGroupNotFound("@Left".to_string())));
    assert_eq!(refused.unwrap_err().message(), "First group '@Left' does not exist");
    assert_eq!(kerning.len(), 0);

    assert_eq!(add_kerning_group(&mut groups, "Left", "right", &names(&["A"])), Ok(()));
    assert_eq!(
        add_kerning_pair(&groups, &mut kerning, "@Left", "@Right", -50),
        Err(KerningError::FirstGroupNotFound("@Left".to_string()))
    );

    assert_eq!(add_kerning_group(&mut groups, "Left", "left", &names(&["A"])), Ok(()));
    let refused = add_kerning_pair(&groups, &mut kerning, "@Left", "@Right", -50);
    assert_eq!(refused, Err(KerningError::SecondGroupNotFound("@Right".to_string())));
    let refused = refused.unwrap_err();
    assert_eq!(refused.kind(), ErrorKind::NotFound);
    assert_eq!(refused.message(), "Second group '@Right' does not exist");
    assert_eq!(kerning.len(), 0);

    assert_eq!(add_kerning_group(&mut groups, "Right", "right", &names(&["V"])), Ok(()));
    assert_eq!(add_kerning_pair(&groups, &mut kerning, "@Left", "@Right", -50), Ok(()));
    assert_eq!(keys(&kerning), names(&["public.kern1.Left"]));
    assert_eq!(kerning.get("public.kern1.Left").unwrap().get("public.kern2.Right"), Some(&-50));
    let pairs = list_pairs(&kerning_to_plist(&kerning));
    assert_eq!(pairs, vec![pair_line("@Left", "@Right", -50)]);
    assert_eq!(pairs[0].text(), "@Left @Right → -50");
}

#[test]
fn a_pair_of_glyphs_is_stored_without_a_look_at_the_glyphs() {
    let groups: Groups = Dictionary::new();
    let mut kerning: Kerning<i32> = Dictionary::new();
    assert_eq!(add_kerning_pair(&groups, &mut kerning, "T", "a", -100), Ok(()));
    assert_eq!(add_kerning_pair(&groups, &mut kerning, "T", "o", -90), Ok(()));
    assert_eq!(add_kerning_pair(&groups, &mut kerning, "A", "V", -70), Ok(()));
    assert_eq!(add_kerning_pair(&groups, &mut kerning, "T", "a", 12), Ok(()));
    assert_eq!(keys(&kerning), names(&["A", "T"]));
    let seconds = kerning.get("T").unwrap();
    assert_eq!(keys(seconds), names(&["a", "o"]));
    assert_eq!(seconds.get("a"), Some(&12));
    assert_eq!(seconds.get("o"), Some(&-90));
    let pairs = list_pairs(&kerning_to_plist(&kerning));
    assert_eq!(pairs, vec![pair_line("A", "V", -70), pair_line("T", "a", 12), pair_line("T", "o", -90)]);
}

#[test]
fn a_pair_with_a_half_that_is_no_valid_name_is_refused() {
    let groups: Groups = Dictionary::new();
    let mut kerning: Kerning<i32> = Dictionary::new();
    assert_eq!(
        add_kerning_pair(&groups, &mut kerning, "", "a", 1),
        Err(KerningError::InvalidName("".to_string()))
    );
    assert_eq!(
        add_kerning_pair(&groups, &mut kerning, "T", "a\u{0}", 1),
        Err(KerningError::InvalidName("a\u{0}".to_string()))
    );
    assert_eq!(
        add_kerning_pair(&groups, &mut kerning, "@G\t", "a", 1),
        Err(KerningError::InvalidName("public.kern1.G\t".to_string()))
    );
    assert_eq!(
        add_kerning_pair(&groups, &mut kerning, "T", "@", 1),
        Err(KerningError::SecondGroupNotFound("@".to_string()))
    );
    assert_eq!(kerning.len(), 0);
}

#[test]
fn a_pair_may_hold_any_kind_of_value() {
    let groups: Groups = Dictionary::new();
    let mut kerning: Kerning<f64> = Dictionary::new();
    assert_eq!(add_kerning_pair(&groups, &mut kerning, "T", "a", -100.5), Ok(()));
    assert_eq!(kerning.get("T").unwrap().get("a"), Some(&-100.5));
}

#[test]
fn the_commands_do_what_the_library_does() {
    let mut groups: Groups = Dictionary::new();
    let mut kerning: Kerning<i32> = Dictionary::new();
    assert_eq!(execute_add_kerning_group(&mut groups, "L", "left", &names(&["A", "C"])), Ok(()));
    assert_eq!(execute_add_kerning_group(&mut groups, "R", "right", &names(&["V"])), Ok(()));
    assert_eq!(execute_edit_kerning_group(&mut groups, "L", "left", &names(&["B"]), true), Ok(()));
    assert_eq!(groups.get("public.kern1.L"), Some(&names(&["A", "B", "C"])));
    assert_eq!(execute_add_kerning_pair(&groups, &mut kerning, "@L", "@R", -50), Ok(()));
    assert_eq!(
        execute_add_kerning_pair(&groups, &mut kerning, "@R", "@R", -50),
        Err(KerningError::FirstGroupNotFound("@R".to_string()))
    );
    assert_eq!(execute_show_kerning_groups(None), Ok(GroupsReport::NoFile));
    assert_eq!(execute_show_kerning(None), Ok(KerningReport::NoFile));
}

const GROUPS_PLIST: &str = "<?xml version=\"1.0\" encoding=\"UTF-8\"?>\n<!DOCTYPE plist PUBLIC \"-//Apple//DTD PLIST 1.0//EN\" \"http://www.apple.com/DTDs/PropertyList-1.0.dtd\">\n<plist version=\"1.0\">\n<dict>\n<key>public.kern2.A</key>\n<array><string>A</string><string>Aacute</string></array>\n<key>public.kern1.O</key>\n<array><string>O</string><integer>3</integer><string>Q</string></array>\n<key>other</key>\n<array><string>x</string></array>\n<key>public.kern1.odd</key>\n<string>no array</string>\n<key>public.kern1.D</key>\n<array></array>\n</dict>\n</plist>\n";

const KERNING_PLIST: &str = "<?xml version=\"1.0\" encoding=\"UTF-8\"?>\n<plist version=\"1.0\">\n<dict>\n<key>public.kern1.O</key>\n<dict><key>public.kern2.A</key><integer>-50</integer><key>T</key><real>-10.5</real><key>public.kern1.X</key><integer>7</integer></dict>\n<key>T</key>\n<dict><key>o</key><integer>-90</integer><key>a</key><integer>-100</integer></dict>\n<key>A</key>\n<string>no dictionary</string>\n<key>public.kern2.V</key>\n<dict><key>V</key><integer>18446744073709551615</integer></dict>\n</dict>\n</plist>\n";

#[test]
fn lists_the_groups_of_a_groups_file() {
    let report = display_kerning_groups(Some(GROUPS_PLIST)).unwrap();
    let listing = match &report {
        GroupsReport::Listing(listing) => listing,
        GroupsReport::NoFile => panic!("the file is there"),
    };
    assert_eq!(listing.left, vec![group_line("D", &[]), group_line("O", &["O", "Q"])]);
    assert_eq!(listing.right, vec![group_line("A", &["A", "Aacute"])]);
    assert_eq!(
        report.lines(),
        names(&[
            "Kerning Groups:",
            "---------------",
            "",
            "Left Groups (prefix: public.kern1):",
            "@D → ",
            "@O → O, Q",
            "",
            "Right Groups (prefix: public.kern2):",
            "@A → A, Aacute",
        ])
    );
    assert_eq!(execute_show_kerning_groups(Some(GROUPS_PLIST)), Ok(report));
}

#[test]
fn a_font_without_a_groups_file_has_nothing_to_list() {
    let report = display_kerning_groups(None).unwrap();
    assert_eq!(report, GroupsReport::NoFile);
    assert_eq!(report.lines(), names(&["No groups.plist found in UFO"]));
    let report = display_kerning(None).unwrap();
    assert_eq!(report, KerningReport::NoFile);
    assert_eq!(report.lines(), names(&["No kerning.plist found in UFO"]));
}

#[test]
fn a_malformed_property_list_is_refused() {
    assert!(display_kerning_groups(Some("<plist><dict><key>a</key></dict>")).is_err());
    assert!(display_kerning_groups(Some("")).is_err());
    assert!(display_kerning(Some("<plist version=\"1.0\"><array></array></plist>")).is_err());
    assert!(read_dictionary("not a property list").is_err());
}

#[test]
fn lists_the_pairs_of_a_kerning_file() {
    let report = display_kerning(Some(KERNING_PLIST)).unwrap();
    let pairs = match &report {
        KerningReport::Listing(pairs) => pairs,
        KerningReport::NoFile => panic!("the file is there"),
    };
    assert_eq!(
        pairs,
        &vec![
            pair_line("T", "o", -90),
            pair_line("T", "a", -100),
            pair_line("@O", "@A", -50),
            pair_line("@O", "public.kern1.X", 7),
            pair_line("public.kern2.V", "V", 18446744073709551615),
        ]
    );
    assert_eq!(
        report.lines(),
        names(&[
            "Kerning Pairs:",
            "--------------",
            "T o → -90",
            "T a → -100",
            "@O @A → -50",
            "@O public.kern1.X → 7",
            "public.kern2.V V → 18446744073709551615",
        ])
    );
    assert_eq!(execute_show_kerning(Some(KERNING_PLIST)), Ok(report));
}

#[test]
fn reads_a_property_list_into_values() {
    let dictionary = read_dictionary(GROUPS_PLIST).unwrap();
    assert_eq!(
        keys(&dictionary),
        names(&["other", "public.kern1.D", "public.kern1.O", "public.kern1.odd", "public.kern2.A"])
    );
    assert_eq!(
        dictionary.get("public.kern1.O"),
        Some(&PlistValue::Array(vec![
            PlistValue::String("O".to_string()),
            PlistValue::Integer(3),
            PlistValue::String("Q".to_string()),
        ]))
    );
    assert_eq!(dictionary.get("public.kern1.odd"), Some(&PlistValue::String("no array".to_string())));
    let kerning = read_dictionary(KERNING_PLIST).unwrap();
    assert_eq!(
        kerning.get("public.kern1.O"),
        Some(&PlistValue::Dictionary(vec![
            ("public.kern2.A".to_string(), PlistValue::Integer(-50)),
            ("T".to_string(), PlistValue::Other),
            ("public.kern1.X".to_string(), PlistValue::Integer(7)),
        ]))
    );
}

#[test]
fn lists_groups_that_are_written_by_hand() {
    let mut groups: Dictionary<PlistValue> = Dictionary::new();
    groups.insert(
        "public.kern1.B".to_string(),
        PlistValue::Array(vec![PlistValue::String("B".to_string()), PlistValue::Other]),
    );
    groups.insert("public.kern1.A".to_string(), PlistValue::Array(vec![]));
    groups.insert("public.kern2.A".to_string(), PlistValue::Integer(1));
    groups.insert("public.kern1".to_string(), PlistValue::Array(vec![]));
    let listing = list_groups(&groups);
    assert_eq!(listing.left, vec![group_line("A", &[]), group_line("B", &["B"])]);
    assert_eq!(listing.right, vec![]);
    assert_eq!(group_line("B", &["B", "C", "D"]).text(), "@B → B, C, D");
}

#[test]
fn shows_keys_as_references() {
    assert_eq!(show_name("public.kern1.O", "public.kern1."), "@O");
    assert_eq!(show_name("public.kern2.O", "public.kern1."), "public.kern2.O");
    assert_eq!(show_name("O", "public.kern1."), "O");
    assert_eq!(show_name("public.kern1.", "public.kern1."), "@");
    assert_eq!(parse_reference("@O"), Reference::Group("O".to_string()));
    assert_eq!(parse_reference("O"), Reference::Glyph("O".to_string()));
    assert_eq!(parse_reference("@"), Reference::Group("".to_string()));
    assert_eq!(parse_reference("O@"), Reference::Glyph("O@".to_string()));
    assert_eq!(parse_reference("@O").key(Side::Left), "public.kern1.O");
    assert_eq!(parse_reference("@O").key(Side::Right), "public.kern2.O");
    assert_eq!(parse_reference("O").key(Side::Right), "O");
}

#[test]
fn reads_sides_and_makes_keys() {
    assert_eq!(parse_side("left"), Some(Side::Left));
    assert_eq!(parse_side("right"), Some(Side::Right));
    assert_eq!(parse_side("Left"), None);
    assert_eq!(parse_side(""), None);
    assert_eq!(parse_side("left "), None);
    assert_eq!(group_key(Side::Left, "O"), "public.kern1.O");
    assert_eq!(group_key(Side::Right, "O"), "public.kern2.O");
}

#[test]
fn a_dictionary_keeps_its_keys_in_order() {
    let mut dictionary: Dictionary<u8> = Dictionary::new();
    assert_eq!(dictionary.len(), 0);
    assert_eq!(dictionary.position("a"), Err(0));
    dictionary.insert("m".to_string(), 1);
    dictionary.insert("b".to_string(), 2);
    dictionary.insert("z".to_string(), 3);
    dictionary.insert("ma".to_string(), 4);
    dictionary.insert("b".to_string(), 5);
    assert_eq!(keys(&dictionary), names(&["b", "m", "ma", "z"]));
    assert_eq!(dictionary.len(), 4);
    assert_eq!(dictionary.get("b"), Some(&5));
    assert_eq!(dictionary.get("c"), None);
    assert!(dictionary.contains_key("ma"));
    assert!(!dictionary.contains_key("mb"));
    assert_eq!(dictionary.position("m"), Ok(1));
    assert_eq!(dictionary.position("a"), Err(0));
    assert_eq!(dictionary.position("n"), Err(3));
    assert_eq!(dictionary.position("zz"), Err(4));
    assert_eq!(dictionary.value_at(2), &4);
    *dictionary.value_at_mut(2) = 9;
    assert_eq!(dictionary.get("ma"), Some(&9));
}

#[test]
fn names_are_ordered_by_their_bytes() {
    assert_eq!(compare_names("a", "b"), NameOrder::Before);
    assert_eq!(compare_names("b", "a"), NameOrder::After);
    assert_eq!(compare_names("a", "a"), NameOrder::Same);
    assert_eq!(compare_names("a", "ab"), NameOrder::Before);
    assert_eq!(compare_names("", "a"), NameOrder::Before);
    assert_eq!(compare_names("", ""), NameOrder::Same);
    assert_eq!(compare_names("Z", "a"), NameOrder::Before);
    assert_eq!(compare_names("z", "é"), NameOrder::Before);
    assert_eq!(compare_names("é", "😀"), NameOrder::Before);
    assert_eq!(compare_names("\u{ffff}", "\u{10000}"), NameOrder::Before);
}

#[test]
fn works_on_text() {
    assert_eq!(concatenate("ab", "cd"), "abcd");
    assert_eq!(concatenate("", ""), "");
    assert!(same_text("é", "é"));
    assert!(!same_text("e", "é"));
    assert!(!same_text("a", "ab"));
    assert_eq!(strip_prefix("public.kern1.O", "public.kern1."), Some("O".to_string()));
    assert_eq!(strip_prefix("public.kern1", "public.kern1."), None);
    assert_eq!(strip_prefix("éa", "é"), Some("a".to_string()));
    assert_eq!(strip_prefix("a", ""), Some("a".to_string()));
    assert_eq!(join(&names(&["a", "b", "c"]), ", "), "a, b, c");
    assert_eq!(join(&names(&["a"]), ", "), "a");
    assert_eq!(join(&names(&[]), ", "), "");
}

#[test]
fn splits_a_list_at_its_commas() {
    assert_eq!(split_list("O,Q,C,G"), names(&["O", "Q", "C", "G"]));
    assert_eq!(split_list(" O , Q,C "), names(&["O", "Q", "C"]));
    assert_eq!(split_list("O"), names(&["O"]));
    assert_eq!(split_list(""), names(&[""]));
    assert_eq!(split_list(","), names(&["", ""]));
    assert_eq!(split_list("a,,b,"), names(&["a", "", "b", ""]));
    assert_eq!(split_list("  a b  "), names(&["a b"]));
    assert_eq!(split_list("   "), names(&[""]));
    assert_eq!(split_list("\u{a0}x\u{3000},\ty\n"), names(&["x", "y"]));
    assert_eq!(split_list("\u{200b}x"), names(&["\u{200b}x"]));
    for text in ["", ",", " a , b ", "x,\u{2003}y\u{85}", "\u{1680}", "a\u{feff}"] {
        let expected: Vec<String> = text.split(',').map(|s| s.trim().to_string()).collect();
        assert_eq!(split_list(text), expected);
    }
}
