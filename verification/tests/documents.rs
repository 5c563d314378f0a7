use dungeon_note::{
    parse, parse_int, parse_number, parse_string, Document, DocumentUpdate, Element,
    ElementPrecursor, Entries, Grammar, ParseError, Stale, TextBlock, TextChunk,
};

fn grammar() -> Grammar {
    Grammar::new().unwrap()
}

fn paragraph(s: &str) -> TextBlock {
    TextBlock::Paragraph { chunks: vec![TextChunk::Text(s.to_string())] }
}

fn header(start: &str) -> String {
    format!("{:!<80}\n", start)
}

fn only(document: &Document) -> &Element {
    assert_eq!(document.elements.len(), 1);
    document.elements.value_at(0)
}

#[test]
fn a_header_without_properties_gives_the_default_text_box() {
    let document = parse(&grammar(), "!!!!Text!!!!", 7).unwrap();
    assert_eq!(document.created, 7);
    assert_eq!(
        only(&document),
        &Element::TextBox { x: -3500, y: 300, width: 7000, data: vec![], raw_content: "".to_string() }
    );
}

#[test]
fn a_file_without_header_is_one_text_box() {
    let document = parse(&grammar(), "hello\nworld", 0).unwrap();
    assert_eq!(
        only(&document),
        &Element::TextBox {
            x: -3500,
            y: 300,
            width: 7000,
            data: vec![paragraph("hello world")],
            raw_content: "hello\nworld\n".to_string()
        }
    );
}

#[test]
fn the_empty_file_is_one_empty_text_box() {
    let document = parse(&grammar(), "", 0).unwrap();
    assert_eq!(
        only(&document),
        &Element::TextBox { x: -3500, y: 300, width: 7000, data: vec![], raw_content: "".to_string() }
    );
}

#[test]
fn text_before_the_first_header_is_a_text_box_of_its_own() {
    let document = parse(&grammar(), "intro\n!!!line!x1:1!y1:2!x2:3!y2:4!!!\n", 0).unwrap();
    assert_eq!(document.elements.len(), 2);
    assert_eq!(
        document.elements.value_at(0),
        &Element::TextBox {
            x: -3500,
            y: 300,
            width: 7000,
            data: vec![paragraph("intro")],
            raw_content: "intro\n".to_string()
        }
    );
    assert_eq!(document.elements.value_at(1), &Element::Line { x1: 10, y1: 20, x2: 30, y2: 40 });
    assert!(document.elements.key_at(0).starts_with("0_"));
    assert!(document.elements.key_at(1).starts_with("1_"));
}

#[test]
fn headers_only() {
    let text = "!!!rect!!!\n!!!Rectangle!x:1.5!z:3!color:red!!!\n!!!LINE!X1:0!Y1:-0.5!x2:+2!y2:.25!!!   ";
    let document = parse(&grammar(), text, 0).unwrap();
    assert_eq!(document.elements.len(), 3);
    assert_eq!(
        document.elements.value_at(0),
        &Element::Rect { x: -4000, y: 0, width: 8000, height: 6000, z: -1, color: "#00827c".to_string() }
    );
    assert_eq!(
        document.elements.value_at(1),
        &Element::Rect { x: 15, y: 0, width: 8000, height: 6000, z: 3, color: "red".to_string() }
    );
    assert_eq!(document.elements.value_at(2), &Element::Line { x1: 0, y1: -5, x2: 20, y2: 3 });
}

#[test]
fn of_two_properties_with_one_key_the_later_stays() {
    let document = parse(&grammar(), "!!!text!x:1!X:2!!!", 0).unwrap();
    assert_eq!(
        only(&document),
        &Element::TextBox { x: 20, y: 300, width: 7000, data: vec![], raw_content: "".to_string() }
    );
}

#[test]
fn a_line_needs_its_coordinates() {
    assert_eq!(parse(&grammar(), "!!!line!x1:1!y1:2!x2:3!!!", 0).err(), Some(ParseError::MissingProperty));
}

#[test]
fn a_value_that_is_no_number_is_refused() {
    assert_eq!(parse(&grammar(), "!!!text!x:wide!!!", 0).err(), Some(ParseError::InvalidPropertyValue));
    assert_eq!(parse(&grammar(), "!!!text!x:5 !!!", 0).err(), Some(ParseError::InvalidPropertyValue));
    assert_eq!(parse(&grammar(), "!!!rect!z:1.5!!!", 0).err(), Some(ParseError::InvalidPropertyValue));
    assert_eq!(
        parse(&grammar(), "!!!rect!z:2147483648!!!", 0).err(),
        Some(ParseError::InvalidPropertyValue)
    );
}

#[test]
fn an_error_in_a_header_comes_before_a_formula_that_fails() {
    let text = "$\\frac{$\n!!!line!!!\n";
    assert_eq!(parse(&grammar(), text, 0).err(), Some(ParseError::MissingProperty));
    assert_eq!(parse(&grammar(), "$\\frac{$\n", 0).err(), Some(ParseError::MathRenderFailure));
}

#[test]
fn typed_properties() {
    let mut properties = Entries::new();
    properties.insert("x".to_string(), "12.34".to_string());
    properties.insert("z".to_string(), "-7".to_string());
    properties.insert("color".to_string(), "#fff".to_string());
    let precursor =
        ElementPrecursor { startline: 0, endline: 0, type_: "rect".to_string(), properties };
    assert_eq!(parse_number(&precursor, "x", None), Ok(123));
    assert_eq!(parse_number(&precursor, "y", Some(5)), Ok(5));
    assert_eq!(parse_number(&precursor, "y", None), Err(ParseError::MissingProperty));
    assert_eq!(parse_number(&precursor, "color", None), Err(ParseError::InvalidPropertyValue));
    assert_eq!(parse_int(&precursor, "z", None), Ok(-7));
    assert_eq!(parse_int(&precursor, "x", None), Err(ParseError::InvalidPropertyValue));
    assert_eq!(parse_int(&precursor, "depth", Some(-1)), Ok(-1));
    assert_eq!(parse_int(&precursor, "depth", None), Err(ParseError::MissingProperty));
    assert_eq!(parse_string(&precursor, "color", None), Ok("#fff".to_string()));
    assert_eq!(parse_string(&precursor, "name", Some("n".to_string())), Ok("n".to_string()));
    assert_eq!(parse_string(&precursor, "name", None), Err(ParseError::MissingProperty));
}

#[test]
fn an_unknown_element_type_is_refused() {
    let precursor = ElementPrecursor {
        startline: 0,
        endline: 0,
        type_: "circle".to_string(),
        properties: Entries::new(),
    };
    assert_eq!(
        dungeon_note::document::frame(&precursor, String::new()),
        Err(ParseError::UnknownElementType)
    );
}

#[test]
fn elements_are_written_with_a_header_of_eighty_characters() {
    let line = Element::Line { x1: 10, y1: -25, x2: 0, y2: 12345 };
    assert_eq!(line.write_repr(), header("!!!!Line!x1:1.0!y1:-2.5!x2:0.0!y2:1234.5"));
    let rect = Element::Rect { x: -4000, y: 0, width: 8000, height: 6000, z: -1, color: "#00827c".to_string() };
    assert_eq!(
        rect.write_repr(),
        header("!!!!Rect!x:-400.0!y:0.0!width:800.0!height:600.0!z:-1!color:#00827c")
    );
    let text = Element::TextBox { x: -550, y: 300, width: 7000, data: vec![], raw_content: "a\nb\n".to_string() };
    assert_eq!(text.write_repr(), header("!!!!Text!x:-55.0!y:30.0!width:700.0") + "a\nb\n");
    assert_eq!(text.write_repr().lines().next().unwrap().chars().count(), 80);
}

#[test]
fn a_header_longer_than_eighty_characters_is_not_cut() {
    let color = "c".repeat(100);
    let rect = Element::Rect { x: 0, y: 0, width: 0, height: 0, z: 0, color: color.clone() };
    assert_eq!(
        rect.write_repr(),
        format!("!!!!Rect!x:0.0!y:0.0!width:0.0!height:0.0!z:0!color:{}\n", color)
    );
    let wide = Element::Rect { x: 0, y: 0, width: 0, height: 0, z: 0, color: "\u{e9}".to_string() };
    assert_eq!(wide.write_repr().chars().count(), 81);
}

#[test]
fn an_untouched_file_is_written_as_it_was_read() {
    let text = header("!!!!Text!x:-55.0!y:30.0!width:700.0")
        + "# Title\n\nsome *text* here\n"
        + &header("!!!!Line!x1:1.0!y1:2.0!x2:3.0!y2:4.0")
        + &header("!!!!Text!x:370.0!y:150.0!width:300.0")
        + "- a\n- b\n";
    let document = parse(&grammar(), &text, 0).unwrap();
    assert_eq!(document.elements.len(), 3);
    assert_eq!(document.file_text(), text);
}

#[test]
fn parsing_twice_gives_the_same_document() {
    let text = "intro\n!!!rect!x:5!!!\n!!!text!!!\n- a\n";
    let first = parse(&grammar(), text, 3).unwrap();
    let second = parse(&grammar(), text, 3).unwrap();
    assert_eq!(first.elements.len(), second.elements.len());
    for at in 0..first.elements.len() {
        assert_eq!(first.elements.key_at(at), second.elements.key_at(at));
        assert_eq!(first.elements.value_at(at), second.elements.value_at(at));
    }
}

#[test]
fn keys_follow_the_place_the_lines_and_the_header() {
    let g = grammar();
    let base = parse(&g, "!!!text!x:1!y:2!!!\nbody\n", 0).unwrap();
    let reordered = parse(&g, "!!!text!y:2!x:1!!!\nother\n", 0).unwrap();
    let moved = parse(&g, "!!!text!x:1!y:3!!!\nbody\n", 0).unwrap();
    let longer = parse(&g, "!!!text!x:1!y:2!!!\nbody\nmore\n", 0).unwrap();
    assert_eq!(base.elements.key_at(0), reordered.elements.key_at(0));
    assert_ne!(base.elements.key_at(0), moved.elements.key_at(0));
    assert_ne!(base.elements.key_at(0), longer.elements.key_at(0));
    assert_eq!(base.elements.key_at(0), "0_bbe0cc76339bcee3");
}

#[test]
fn a_stale_update_changes_nothing() {
    let mut document = parse(&grammar(), "hello", 100).unwrap();
    let key = document.elements.key_at(0).to_string();
    let update = DocumentUpdate {
        id: key.clone(),
        element: Element::Line { x1: 0, y1: 0, x2: 0, y2: 0 },
        doc_created: 99,
    };
    assert_eq!(document.apply_update(update), Err(Stale));
    assert_eq!(document.elements.len(), 1);
    assert_eq!(
        document.elements.get(&key),
        Some(&Element::TextBox {
            x: -3500,
            y: 300,
            width: 7000,
            data: vec![paragraph("hello")],
            raw_content: "hello\n".to_string()
        })
    );
}

#[test]
fn an_update_of_a_text_box_keeps_the_text_of_the_file() {
    let mut document = parse(&grammar(), "hello", 100).unwrap();
    let key = document.elements.key_at(0).to_string();
    let update = DocumentUpdate {
        id: key.clone(),
        element: Element::TextBox {
            x: 10,
            y: 20,
            width: 30,
            data: vec![paragraph("edited")],
            raw_content: "".to_string(),
        },
        doc_created: 100,
    };
    assert_eq!(document.apply_update(update), Ok(()));
    assert_eq!(
        document.elements.get(&key),
        Some(&Element::TextBox {
            x: 10,
            y: 20,
            width: 30,
            data: vec![paragraph("edited")],
            raw_content: "hello\n".to_string()
        })
    );
    assert_eq!(document.file_text(), header("!!!!Text!x:1.0!y:2.0!width:3.0") + "hello\n");
}

#[test]
fn an_update_puts_other_elements_as_they_come() {
    let mut document = parse(&grammar(), "hello", 100).unwrap();
    let key = document.elements.key_at(0).to_string();
    let line = DocumentUpdate {
        id: key.clone(),
        element: Element::Line { x1: 1, y1: 2, x2: 3, y2: 4 },
        doc_created: 101,
    };
    assert_eq!(document.apply_update(line), Ok(()));
    assert_eq!(document.elements.get(&key), Some(&Element::Line { x1: 1, y1: 2, x2: 3, y2: 4 }));
    let fresh = DocumentUpdate {
        id: "zz".to_string(),
        element: Element::TextBox {
            x: 0,
            y: 0,
            width: 0,
            data: vec![],
            raw_content: "given".to_string(),
        },
        doc_created: 100,
    };
    assert_eq!(document.apply_update(fresh), Ok(()));
    assert_eq!(document.elements.len(), 2);
    assert_eq!(document.elements.key_at(1), "zz");
    assert_eq!(
        document.elements.get("zz"),
        Some(&Element::TextBox { x: 0, y: 0, width: 0, data: vec![], raw_content: "given".to_string() })
    );
}

#[test]
fn entries_stand_in_the_order_of_their_keys() {
    let mut entries = Entries::new();
    for key in ["2_b", "10_a", "1_c", "", "1", "2_b"] {
        entries.insert(key.to_string(), key.len());
    }
    let keys: Vec<&str> = (0..entries.len()).map(|at| entries.key_at(at)).collect();
    assert_eq!(keys, vec!["", "1", "10_a", "1_c", "2_b"]);
    assert_eq!(entries.get("10_a"), Some(&4));
    assert_eq!(entries.get("3"), None);
    entries.insert("1".to_string(), 9);
    assert_eq!(entries.get("1"), Some(&9));
    assert_eq!(entries.len(), 5);
}

#[test]
fn a_long_file_is_read() {
    let mut text = String::new();
    for i in 0..300 {
        text.push_str(&format!("!!!text!x:{}!!!\n", i));
        for j in 0..20 {
            text.push_str(&format!("{}- item {} with *emphasis* and `code`\n", "  ".repeat(j % 5), j));
        }
    }
    let document = parse(&grammar(), &text, 0).unwrap();
    assert_eq!(document.elements.len(), 300);
}

#[test]
fn the_watcher_passes_over_the_servers_own_writes() {
    let mut guard = dungeon_note::WriteGuard::new();
    assert!(!guard.passes_over(0));
    guard.begin_write(5_000);
    assert!(guard.passes_over(5_000));
    assert!(guard.passes_over(14_999));
    assert!(!guard.passes_over(15_000));
    guard.end_write(6_000);
    assert!(guard.passes_over(6_999));
    assert!(!guard.passes_over(7_000));
    guard.begin_write(u64::MAX - 1);
    assert!(guard.passes_over(u64::MAX - 1));
    assert!(!guard.passes_over(u64::MAX));
}

#[test]
fn keys_are_ordered_as_strings_are() {
    let keys = ["", "a", "ab", "b", "B", "10_a", "1_c", "2_b", "\u{e9}", "e\u{301}", "zz", "z", "~", "\u{10ffff}"];
    let mut entries = Entries::new();
    for key in keys {
        entries.insert(key.to_string(), ());
    }
    let mut expected: Vec<&str> = keys.to_vec();
    expected.sort();
    let found: Vec<&str> = (0..entries.len()).map(|at| entries.key_at(at)).collect();
    assert_eq!(found, expected);
}

#[test]
fn a_file_in_the_form_that_is_written_is_read_back_as_it_was() {
    let g = grammar();
    let first = parse(&g, "!!!rect!x:1.25!color:blue!!!\n!!!text!!!\nbody\n!!!line!x1:0!y1:0!x2:1!y2:1!!!", 0)
        .unwrap();
    let written = first.file_text();
    let second = parse(&g, &written, 0).unwrap();
    assert_eq!(second.file_text(), written);
    assert_eq!(second.elements.len(), 3);
    for at in 0..3 {
        assert_eq!(first.elements.value_at(at), second.elements.value_at(at));
    }
}
