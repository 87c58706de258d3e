use slideshow::presentation::{Font, Presentation, Slide, Style, StyleError};

#[test]
pub fn style_conflicting_fonts() {
    Style::new(vec![
        Font::new("some-font".into(), "/some/path/1".into(), 500, false),
        Font::new("some-font".into(), "/some/path/2".into(), 500, false),
    ])
    .expect_err("Expected error from identical font definitions");
}

#[test]
pub fn duplicate_font_names_the_descriptor_that_comes_twice() {
    let error = Style::new(vec![
        Font::new("first".into(), "/a".into(), 400, false),
        Font::new("second".into(), "/b".into(), 500, true),
        Font::new("third".into(), "/c".into(), 600, false),
        Font::new("second".into(), "/d".into(), 500, true),
        Font::new("first".into(), "/e".into(), 400, false),
    ])
    .expect_err("two fonts share a descriptor");

    let twice = Style::new(vec![
        Font::new("second".into(), "/x".into(), 500, true),
        Font::new("second".into(), "/y".into(), 500, true),
    ])
    .expect_err("two fonts share a descriptor");
    assert_eq!(error, twice);

    let other = Style::new(vec![
        Font::new("first".into(), "/x".into(), 400, false),
        Font::new("first".into(), "/y".into(), 400, false),
    ])
    .expect_err("two fonts share a descriptor");
    assert_ne!(error, other);
    assert!(matches!(error, StyleError::DuplicateFont(_)));
}

#[test]
pub fn fonts_that_differ_in_one_part_of_the_descriptor_make_a_style() {
    let style = Style::new(vec![
        Font::new("font".into(), "/a".into(), 400, false),
        Font::new("font".into(), "/a".into(), 400, true),
        Font::new("font".into(), "/a".into(), 500, false),
        Font::new("other".into(), "/a".into(), 400, false),
    ])
    .unwrap();

    let paths: Vec<&String> = style.fonts().iter().map(|font| font.path()).collect();
    assert_eq!(4, paths.len());
}

#[test]
pub fn fonts_come_out_in_the_order_given() {
    let style = Style::new(vec![
        Font::new("b".into(), "/second".into(), 1, false),
        Font::new("a".into(), "/first".into(), 1, false),
        Font::new("c".into(), "/third".into(), 1, false),
    ])
    .unwrap();

    let fonts = style.fonts();
    assert_eq!(3, fonts.len());
    assert_eq!("/second", fonts[0].path());
    assert_eq!("/first", fonts[1].path());
    assert_eq!("/third", fonts[2].path());
    assert_eq!(&Font::new("a".into(), "/first".into(), 1, false), fonts[1]);
}

#[test]
pub fn the_empty_style_has_no_fonts() {
    assert!(Style::empty().fonts().is_empty());
    assert_eq!(Style::empty(), Style::new(vec![]).unwrap());
}

#[test]
pub fn a_presentation_hands_out_its_style() {
    let presentation = Presentation::new(
        "title".into(),
        vec![Slide::new("one".into())],
        Style::new(vec![Font::new("a".into(), "/a".into(), 1, false)]).unwrap(),
    );

    assert_eq!(
        &Style::new(vec![Font::new("a".into(), "/a".into(), 1, false)]).unwrap(),
        presentation.style()
    );
    assert_eq!("/a", presentation.style().fonts()[0].path());
}

#[test]
pub fn styles_with_the_same_fonts_are_equal_in_any_order() {
    let one = Style::new(vec![
        Font::new("a".into(), "/a".into(), 1, false),
        Font::new("b".into(), "/b".into(), 2, true),
        Font::new("c".into(), "/c".into(), 3, false),
    ])
    .unwrap();
    let other = Style::new(vec![
        Font::new("c".into(), "/c".into(), 3, false),
        Font::new("a".into(), "/a".into(), 1, false),
        Font::new("b".into(), "/b".into(), 2, true),
    ])
    .unwrap();

    assert_eq!(one, other);
    assert_eq!(other, one);
}

#[test]
pub fn styles_with_other_fonts_are_not_equal() {
    let one = Style::new(vec![
        Font::new("a".into(), "/a".into(), 1, false),
        Font::new("b".into(), "/b".into(), 2, true),
    ])
    .unwrap();
    let other_path = Style::new(vec![
        Font::new("a".into(), "/a".into(), 1, false),
        Font::new("b".into(), "/other".into(), 2, true),
    ])
    .unwrap();
    let fewer = Style::new(vec![Font::new("a".into(), "/a".into(), 1, false)]).unwrap();

    assert_ne!(one, other_path);
    assert_ne!(one, fewer);
    assert_ne!(fewer, one);
    assert_ne!(one, Style::empty());
}
