use plugin_host::style::{Children, HeadElement, Style, StyleContext, StyleProps};
use plugin_host::widgets::{
    can_cut, highlighted, key_action, max_len, parse_number, split_selection, Handler, Input,
    InputProps, KeyAction, KeyCode, NumbericInput, Widget,
};

fn props() -> StyleProps {
    StyleProps { href: None, media: None, nonce: None, title: None, children: Children::Empty }
}

#[test]
fn attributes_are_those_that_are_set() {
    assert!(props().attributes().is_empty());
    let all = StyleProps {
        href: Some("a.css".to_string()),
        media: Some("print".to_string()),
        nonce: Some("n".to_string()),
        title: Some("t".to_string()),
        children: Children::Empty,
    };
    assert_eq!(
        all.attributes(),
        vec![
            ("href", "a.css".to_string()),
            ("media", "print".to_string()),
            ("nonce", "n".to_string()),
            ("title", "t".to_string()),
        ]
    );
    let some = StyleProps { media: Some("print".to_string()), title: Some("t".to_string()), ..props() };
    assert_eq!(some.attributes(), vec![("media", "print".to_string()), ("title", "t".to_string())]);
}

#[test]
fn contents_are_a_single_piece_of_text() {
    let text = StyleProps { children: Children::Text("body {}".to_string()), ..props() };
    assert_eq!(text.style_contents(), Some("body {}".to_string()));
    assert_eq!(props().style_contents(), None);
    assert_eq!(StyleProps { children: Children::Other, ..props() }.style_contents(), None);
    assert_eq!(StyleProps { children: Children::Failed, ..props() }.style_contents(), None);
}

#[test]
fn a_style_with_an_href_is_put_in_once() {
    let mut context = StyleContext::new();
    let linked = StyleProps {
        href: Some("a.css".to_string()),
        children: Children::Text("body {}".to_string()),
        ..props()
    };
    assert_eq!(
        Style(&linked, &mut context),
        Some(HeadElement {
            name: "style",
            attributes: vec![("href", "a.css".to_string())],
            contents: Some("body {}".to_string()),
        })
    );
    assert_eq!(Style(&linked, &mut context), None);
    let other = StyleProps { href: Some("b.css".to_string()), ..props() };
    assert!(Style(&other, &mut context).is_some());
    // A style without an `href` is put in every time.
    assert!(Style(&props(), &mut context).is_some());
    assert!(Style(&props(), &mut context).is_some());
    assert!(!context.should_insert("a.css"));
    assert!(context.should_insert("c.css"));
    assert!(!context.should_insert("c.css"));
}

fn input(kind: Option<&'static str>) -> InputProps<'static> {
    InputProps { kind, value: None, size: None, width: None, height: None, min: None, max: None }
}

#[test]
fn the_type_picks_the_widget() {
    let chosen = |kind| {
        let rendered = Input(&input(kind));
        (rendered.widget, rendered.handler)
    };
    assert_eq!(chosen(Some("checkbox")), (Widget::CheckBox, Handler::OnInput));
    assert_eq!(chosen(Some("range")), (Widget::Slider, Handler::OnInput));
    assert_eq!(chosen(Some("button")), (Widget::Button, Handler::OnClick));
    assert_eq!(chosen(Some("number")), (Widget::NumbericInput, Handler::OnClick));
    assert_eq!(chosen(Some("text")), (Widget::TextBox, Handler::OnInput));
    assert_eq!(chosen(Some("Number")), (Widget::TextBox, Handler::OnInput));
    assert_eq!(chosen(None), (Widget::TextBox, Handler::OnInput));
}

#[test]
fn a_widget_is_given_what_it_can_use() {
    let full = |kind| InputProps {
        kind,
        value: Some("5"),
        size: Some("3"),
        width: Some("10px"),
        height: Some("3px"),
        min: Some("0"),
        max: Some("9"),
    };
    let slider = Input(&full(Some("range")));
    assert_eq!((slider.min, slider.max, slider.size), (Some("0"), Some("9"), None));
    assert_eq!((slider.value, slider.width, slider.height), (Some("5"), Some("10px"), Some("3px")));
    let number = Input(&full(Some("number")));
    assert_eq!((number.min, number.max, number.size), (None, None, Some("3")));
    let text = Input(&full(None));
    assert_eq!((text.min, text.max, text.size), (None, None, Some("3")));
    for kind in ["checkbox", "button"] {
        let plain = Input(&full(Some(kind)));
        assert_eq!((plain.min, plain.max, plain.size), (None, None, None));
        assert_eq!(plain.value, Some("5"));
    }
}

#[test]
fn numbers_are_read_as_the_standard_library_reads_them() {
    for text in ["0", "7", "+7", "-7", "007", "2147483647", "2147483648", "-2147483648",
        "-2147483649", "", "+", "-", "1a", " 1", "1 ", "--1", "99999999999999999999999999"]
    {
        let expected = text.parse::<i32>().ok().map(|n| n as i128);
        assert_eq!(parse_number(text, i32::MIN as i128, i32::MAX as i128), expected, "{:?}", text);
    }
    for text in ["0", "+5", "-0", "-5", "18446744073709551615", "18446744073709551616", "x"] {
        let expected = text.parse::<u64>().ok().map(|n| n as i128);
        assert_eq!(parse_number(text, 0, u64::MAX as i128), expected, "{:?}", text);
    }
    assert_eq!(max_len(Some("12")), 12);
    assert_eq!(max_len(Some("-1")), usize::MAX);
    assert_eq!(max_len(Some("many")), usize::MAX);
    assert_eq!(max_len(None), usize::MAX);
}

#[test]
fn a_numeric_input_has_a_border_where_there_is_room() {
    let layout = NumbericInput(&input(Some("number")));
    assert_eq!(layout.width, "10px");
    assert_eq!(layout.height, "3px");
    assert_eq!(layout.border, "solid");
    assert_eq!(layout.text, "");
    assert_eq!(layout.max_len, usize::MAX);

    let narrow = InputProps { width: Some("2px"), value: Some("41"), size: Some("3"), ..input(None) };
    let layout = NumbericInput(&narrow);
    assert_eq!(layout.border, "none");
    assert_eq!(layout.text, "41");
    assert_eq!(layout.max_len, 3);

    let low = InputProps { height: Some("-5px"), ..input(None) };
    assert_eq!(NumbericInput(&low).border, "none");
    for width in ["3px", "2", "2em", "px", "2 px", "1.5px"] {
        let wide = InputProps { width: Some(width), ..input(None) };
        assert_eq!(NumbericInput(&wide).border, "solid", "{:?}", width);
    }
}

#[test]
fn keys_edit_or_change_the_number() {
    assert_eq!(key_action(KeyCode::LeftArrow, "ArrowLeft"), KeyAction::Edit);
    assert_eq!(key_action(KeyCode::RightArrow, "ArrowRight"), KeyAction::Edit);
    assert_eq!(key_action(KeyCode::Backspace, "Backspace"), KeyAction::Edit);
    assert_eq!(key_action(KeyCode::Period, "."), KeyAction::Edit);
    assert_eq!(key_action(KeyCode::Other, "7"), KeyAction::Edit);
    assert_eq!(key_action(KeyCode::Other, "٣"), KeyAction::Edit);
    assert_eq!(key_action(KeyCode::Other, ""), KeyAction::Edit);
    assert_eq!(key_action(KeyCode::UpArrow, "ArrowUp"), KeyAction::Increment);
    assert_eq!(key_action(KeyCode::DownArrow, "ArrowDown"), KeyAction::Decrement);
    assert_eq!(key_action(KeyCode::Other, "a"), KeyAction::Ignore);
    assert_eq!(key_action(KeyCode::Other, "1a"), KeyAction::Ignore);
    assert_eq!(highlighted(""), "");
    assert_eq!(highlighted("12"), "12|");
}

#[test]
fn a_text_is_cut_at_the_two_places_of_the_cursor() {
    assert!(can_cut("12345", 1, 3));
    assert_eq!(split_selection("12345", 1, 3), ("1", "23", "45"));
    assert_eq!(split_selection("12345", 0, 0), ("", "", "12345"));
    assert_eq!(split_selection("12345", 5, 5), ("12345", "", ""));
    assert_eq!(split_selection("12345", 0, 5), ("", "12345", ""));
    assert_eq!(split_selection("", 0, 0), ("", "", ""));
    assert_eq!(split_selection("1\u{e9}2", 1, 3), ("1", "\u{e9}", "2"));
    let (_, selected, _) = split_selection("12345", 1, 3);
    assert_eq!(highlighted(selected), "23|");
    let (_, nothing, _) = split_selection("12345", 2, 2);
    assert_eq!(highlighted(nothing), "");
}

#[test]
fn a_text_is_not_cut_inside_a_character_or_backwards() {
    assert!(!can_cut("1\u{e9}2", 2, 3));
    assert!(!can_cut("1\u{e9}2", 1, 2));
    assert!(!can_cut("12345", 3, 1));
    assert!(!can_cut("12345", 1, 6));
    assert!(can_cut("1\u{e9}2", 1, 4));
}
