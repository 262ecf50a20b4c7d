use marked_text::ParseError;
use marked_text::SelRegion;
use marked_text::Selection;
use marked_text::TestState;

#[test]
fn can_parse_single_cursor() {
    let text = r#"foo<$0>bar"#;

    let state = TestState::parse(text).unwrap();
    assert_eq!(1, state.selection.len());
    assert_eq!("foobar", state.contents);
}

#[test]
fn can_parse_multiple_cursors() {
    let text = r#"foo<$0>b<$1>ar"#;

    let state = TestState::parse(text).unwrap();
    assert_eq!(2, state.selection.len());
    assert_eq!("foobar", state.contents);
}

#[test]
fn can_parse_single_selection() {
    let text = r#"foo<$0>bar</$0>"#;

    let state = TestState::parse(text).unwrap();
    assert_eq!(1, state.selection.len());
    assert_eq!("foobar", state.contents);
}

#[test]
fn can_format_into_string() {
    let text = r#"fo<$0>o<$1>bar</$1>"#;

    let state = TestState::parse(text).unwrap();
    assert_eq!("foobar", state.contents);

    assert_eq!(text, state.render());
}

#[test]
fn single_selection_region_boundaries() {
    let state = TestState::parse("foo<$0>bar</$0>").unwrap();
    assert_eq!("foobar", state.contents);
    assert_eq!(1, state.selection.len());
    let region = &state.selection.regions()[0];
    assert_eq!(3, region.start());
    assert_eq!(6, region.end());
    assert!(!region.is_caret());
}

#[test]
fn mixed_interleaving_regions() {
    let state = TestState::parse("fo<$0>o<$1>bar</$1>").unwrap();
    assert_eq!("foobar", state.contents);
    assert_eq!(2, state.selection.len());
    let caret = &state.selection.regions()[0];
    assert_eq!(2, caret.start());
    assert!(caret.is_caret());
    let range = &state.selection.regions()[1];
    assert_eq!(3, range.start());
    assert_eq!(6, range.end());
    assert!(!range.is_caret());
}

#[test]
fn duplicate_start_marker_is_fatal() {
    let result = TestState::parse("<$0>a<$0>b");
    assert_eq!(Err(ParseError::DuplicateStart), result.map(|_| ()));
}

#[test]
fn duplicate_end_marker_is_fatal() {
    let result = TestState::parse("a</$0>b</$0>");
    assert_eq!(Err(ParseError::DuplicateEnd), result.map(|_| ()));
}

#[test]
fn orphan_end_marker_is_ignored() {
    let state = TestState::parse("a</$0>b").unwrap();
    assert_eq!("ab", state.contents);
    assert_eq!(0, state.selection.len());
}

#[test]
fn caret_at_start_and_end() {
    let state = TestState::parse("<$0>ab<$1>").unwrap();
    assert_eq!("ab", state.contents);
    assert_eq!(2, state.selection.len());
    assert_eq!(0, state.selection.regions()[0].start());
    assert_eq!(2, state.selection.regions()[1].start());
    assert_eq!("<$0>ab<$1>", state.render());
}

#[test]
fn empty_input_parses_to_empty_state() {
    let state = TestState::parse("").unwrap();
    assert_eq!("", state.contents);
    assert_eq!(0, state.selection.len());
    assert_eq!("", state.render());
}

#[test]
fn multi_digit_identifier_forms_range() {
    let state = TestState::parse("a<$10>bc</$10>d").unwrap();
    assert_eq!("abcd", state.contents);
    assert_eq!(1, state.selection.len());
    assert_eq!(1, state.selection.regions()[0].start());
    assert_eq!(3, state.selection.regions()[0].end());
}

#[test]
fn leading_zeros_denote_the_same_identifier() {
    // `<$00>` and `</$0>` both denote identifier zero, so they pair up.
    let state = TestState::parse("<$00>x</$0>").unwrap();
    assert_eq!("x", state.contents);
    assert_eq!(1, state.selection.len());
    assert_eq!(0, state.selection.regions()[0].start());
    assert_eq!(1, state.selection.regions()[0].end());
    // ... and two spellings of one identifier on the same side collide.
    let result = TestState::parse("<$00>x<$0>");
    assert_eq!(Err(ParseError::DuplicateStart), result.map(|_| ()));
}

#[test]
fn malformed_markers_are_literal_content() {
    let state = TestState::parse("a<$>b<$1c</$>d<$x>e").unwrap();
    assert_eq!("a<$>b<$1c</$>d<$x>e", state.contents);
    assert_eq!(0, state.selection.len());
}

#[test]
fn render_assigns_identifiers_by_position() {
    // Identifiers out of position order are renumbered on render.
    let state = TestState::parse("fo<$1>o<$0>bar").unwrap();
    assert_eq!("foobar", state.contents);
    assert_eq!(2, state.selection.len());
    assert_eq!("fo<$0>o<$1>bar", state.render());
}

#[test]
fn reparse_of_render_is_structural_identity() {
    let state = TestState::parse("fo<$1>o<$0>bar</$0>").unwrap();
    let rendered = state.render();
    let again = TestState::parse(&rendered).unwrap();
    assert_eq!(state.contents, again.contents);
    assert_eq!(state.selection.len(), again.selection.len());
    for k in 0..state.selection.len() {
        let a = &state.selection.regions()[k];
        let b = &again.selection.regions()[k];
        assert_eq!(a.start(), b.start());
        assert_eq!(a.end(), b.end());
    }
    assert_eq!(rendered, again.render());
}

#[test]
fn eq_str_compares_by_rendering() {
    let text = "fo<$0>o<$1>bar</$1>";
    let state = TestState::parse(text).unwrap();
    assert!(state.eq_str(text));
    assert!(!state.eq_str("foobar"));
    assert!(!state.eq_str("fo<$0>o<$1>bar"));
}

#[test]
fn selection_keeps_regions_sorted_by_start() {
    let mut selection = Selection::new();
    selection.add_region(SelRegion::caret(5));
    selection.add_region(SelRegion::new(1, 3));
    selection.add_region(SelRegion::caret(4));
    assert_eq!(3, selection.len());
    assert_eq!(1, selection.regions()[0].start());
    assert_eq!(4, selection.regions()[1].start());
    assert_eq!(5, selection.regions()[2].start());
}

#[test]
fn render_inserts_markers_for_built_state() {
    let mut selection = Selection::new();
    selection.add_region(SelRegion::caret(2));
    selection.add_region(SelRegion::new(3, 6));
    let state = TestState { contents: String::from("foobar"), selection };
    assert_eq!("fo<$0>o<$1>bar</$1>", state.render());
}

#[test]
fn end_marker_before_start_gives_inverted_range() {
    let state = TestState::parse("</$0>ab<$0>").unwrap();
    assert_eq!("ab", state.contents);
    assert_eq!(1, state.selection.len());
    assert_eq!(2, state.selection.regions()[0].start());
    assert_eq!(0, state.selection.regions()[0].end());
}

#[test]
fn adjacent_markers_share_an_offset() {
    let state = TestState::parse("f<$0><$1>oo").unwrap();
    assert_eq!("foo", state.contents);
    assert_eq!(2, state.selection.len());
    assert_eq!(1, state.selection.regions()[0].start());
    assert_eq!(1, state.selection.regions()[1].start());
    assert_eq!("f<$0><$1>oo", state.render());
}

#[test]
fn unicode_content_uses_char_offsets() {
    let state = TestState::parse("à<$0>é</$0>ö").unwrap();
    assert_eq!("àéö", state.contents);
    assert_eq!(1, state.selection.len());
    assert_eq!(1, state.selection.regions()[0].start());
    assert_eq!(2, state.selection.regions()[0].end());
    assert_eq!("à<$0>é</$0>ö", state.render());
}
