use ualfmt::Whitespace;

#[test]
fn quantizes_space_runs() {
    assert_eq!(Whitespace::from_text(b""), Whitespace::Empty);
    assert_eq!(Whitespace::from_text(b" "), Whitespace::OneSpace);
    assert_eq!(Whitespace::from_text(b"  "), Whitespace::TwoSpaces);
    assert_eq!(Whitespace::from_text(b"     "), Whitespace::TwoSpaces);
    assert_eq!(Whitespace::from_text(b"\r"), Whitespace::OneSpace);
}

#[test]
fn quantizes_tabs() {
    assert_eq!(Whitespace::from_text(b"\t"), Whitespace::Tab);
    assert_eq!(Whitespace::from_text(b" \t"), Whitespace::Tab);
    assert_eq!(Whitespace::from_text(b"\t\t"), Whitespace::Tab);
    // A tab that is not trailing does not count as indentation.
    assert_eq!(Whitespace::from_text(b"\t "), Whitespace::TwoSpaces);
}

#[test]
fn quantizes_newline_runs() {
    assert_eq!(Whitespace::from_text(b"\n"), Whitespace::Newline);
    assert_eq!(Whitespace::from_text(b"\n\t"), Whitespace::NewlineTab);
    assert_eq!(Whitespace::from_text(b"\n\n"), Whitespace::TwoNewlines);
    assert_eq!(Whitespace::from_text(b"\n\n\t"), Whitespace::TwoNewlinesTab);
    assert_eq!(Whitespace::from_text(b"\n\n\n\n"), Whitespace::TwoNewlines);
    // Only tab characters after the last newline count as indentation.
    assert_eq!(Whitespace::from_text(b"\n  "), Whitespace::Newline);
    assert_eq!(Whitespace::from_text(b"\n\t "), Whitespace::NewlineTab);
    assert_eq!(Whitespace::from_text(b" \n \t"), Whitespace::NewlineTab);
}

#[test]
fn text_is_fixed_literal() {
    assert_eq!(Whitespace::Empty.text(), b"".to_vec());
    assert_eq!(Whitespace::OneSpace.text(), b" ".to_vec());
    assert_eq!(Whitespace::TwoSpaces.text(), b"  ".to_vec());
    assert_eq!(Whitespace::Tab.text(), b"\t".to_vec());
    assert_eq!(Whitespace::Newline.text(), b"\n".to_vec());
    assert_eq!(Whitespace::NewlineTab.text(), b"\n\t".to_vec());
    assert_eq!(Whitespace::TwoNewlines.text(), b"\n\n".to_vec());
    assert_eq!(Whitespace::TwoNewlinesTab.text(), b"\n\n\t".to_vec());
}

#[test]
fn quantize_is_left_inverse_of_text() {
    let all = [
        Whitespace::Empty,
        Whitespace::OneSpace,
        Whitespace::TwoSpaces,
        Whitespace::Tab,
        Whitespace::Newline,
        Whitespace::NewlineTab,
        Whitespace::TwoNewlines,
        Whitespace::TwoNewlinesTab,
    ];
    for w in all {
        assert_eq!(Whitespace::from_text(&w.text()), w);
    }
}

#[test]
fn is_spaces_matches_space_family() {
    assert!(Whitespace::Empty.is_spaces());
    assert!(Whitespace::OneSpace.is_spaces());
    assert!(Whitespace::TwoSpaces.is_spaces());
    assert!(!Whitespace::Tab.is_spaces());
    assert!(!Whitespace::Newline.is_spaces());
    assert!(!Whitespace::TwoNewlinesTab.is_spaces());
}

#[test]
fn set_indentation_toggles_families() {
    let mut w = Whitespace::Newline;
    w.set_indentation(true);
    assert_eq!(w, Whitespace::NewlineTab);
    w.set_indentation(false);
    assert_eq!(w, Whitespace::Newline);

    let mut w = Whitespace::TwoNewlines;
    w.set_indentation(true);
    assert_eq!(w, Whitespace::TwoNewlinesTab);
    w.set_indentation(false);
    assert_eq!(w, Whitespace::TwoNewlines);
}

#[test]
fn set_indentation_on_spaces() {
    let mut w = Whitespace::Empty;
    w.set_indentation(true);
    assert_eq!(w, Whitespace::Tab);

    let mut w = Whitespace::OneSpace;
    w.set_indentation(true);
    assert_eq!(w, Whitespace::Tab);

    let mut w = Whitespace::TwoSpaces;
    w.set_indentation(true);
    assert_eq!(w, Whitespace::Tab);

    let mut w = Whitespace::TwoSpaces;
    w.set_indentation(false);
    assert_eq!(w, Whitespace::OneSpace);

    let mut w = Whitespace::Tab;
    w.set_indentation(false);
    assert_eq!(w, Whitespace::Empty);

    let mut w = Whitespace::OneSpace;
    w.set_indentation(false);
    assert_eq!(w, Whitespace::OneSpace);
}

#[test]
fn indentation_levels() {
    assert_eq!(Whitespace::Empty.indentation(), None);
    assert_eq!(Whitespace::OneSpace.indentation(), None);
    assert_eq!(Whitespace::TwoSpaces.indentation(), None);
    assert_eq!(Whitespace::Newline.indentation(), Some(0));
    assert_eq!(Whitespace::TwoNewlines.indentation(), Some(0));
    assert_eq!(Whitespace::Tab.indentation(), Some(1));
    assert_eq!(Whitespace::NewlineTab.indentation(), Some(1));
    assert_eq!(Whitespace::TwoNewlinesTab.indentation(), Some(1));
}
