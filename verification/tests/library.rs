use infoprober::{parse, Document, Entry, InvalidData, ParseError, ParseErrorKind, Section, Value};

fn kind_of(src: &str) -> (usize, ParseErrorKind) {
    let e = parse(src).unwrap_err();
    (e.line, e.kind)
}

#[test]
fn every_error_kind_has_an_input() {
    assert_eq!(kind_of("stray\n"), (1, ParseErrorKind::UnexpectedLine));
    assert_eq!(kind_of(":s\nfoo\n:end\n"), (2, ParseErrorKind::MissingColon));
    assert_eq!(kind_of(":s\n  :v\n:end\n"), (1, ParseErrorKind::UnterminatedSection));
    assert_eq!(kind_of(":s\n   x\n  \t :v\n:end\n"), (2, ParseErrorKind::MissingColon));
    assert_eq!(kind_of(":s\n\t :v\n:end\n"), (1, ParseErrorKind::UnterminatedSection));
    assert_eq!(kind_of(":s\n ok :1\n}\n:end\n"), (3, ParseErrorKind::UnexpectedCloseBrace));
    assert_eq!(kind_of("\n\n:s\n a :1\n"), (3, ParseErrorKind::UnterminatedSection));
    assert_eq!(kind_of(":s\n m :{\n  a :1\n"), (2, ParseErrorKind::UnterminatedMap));
}

#[test]
fn colon_lines_end_the_block() {
    // once trimmed, an entry line starts with a character that is not
    // whitespace, so its key is never empty; a line starting with ':' ends
    // the block, reported where the block was opened
    assert_eq!(kind_of(":ver\n :1\n:end\n"), (1, ParseErrorKind::UnterminatedSection));
    assert_eq!(kind_of(":s\n x :1\n \u{0c} :2\n:end\n"), (1, ParseErrorKind::UnterminatedSection));
    assert_eq!(kind_of(":a\n k :1\n:b\n"), (1, ParseErrorKind::UnterminatedSection));
    assert_eq!(kind_of(":s\n m :{\n  :1\n }\n:end\n"), (2, ParseErrorKind::UnterminatedMap));
    assert_eq!(kind_of(":s\n m :{\n  a :1\n:end\n"), (2, ParseErrorKind::UnterminatedMap));
    // a key that is not ASCII whitespace is kept
    let doc = parse(":s\n\u{a0} :1\n:end\n").unwrap();
    assert_eq!(doc.get("s", "\u{a0}").and_then(|v| v.as_str()), Some("1"));
}

#[test]
fn block_names_must_be_real() {
    assert_eq!(kind_of(":\n:end\n"), (1, ParseErrorKind::UnexpectedLine));
    assert_eq!(kind_of(": \n"), (1, ParseErrorKind::UnexpectedLine));
    assert_eq!(kind_of(":end\n"), (1, ParseErrorKind::UnexpectedLine));
    assert_eq!(kind_of(":  end\n"), (1, ParseErrorKind::UnexpectedLine));
    let doc = parse(":  spaced\n:end\n").unwrap();
    assert_eq!(doc.sections[0].name, "spaced");
}

fn nested(levels: usize) -> String {
    let mut s = String::from(":s\n");
    for _ in 0..levels {
        s.push_str("k :{\n");
    }
    for _ in 0..levels {
        s.push_str("}\n");
    }
    s.push_str(":end\n");
    s
}

#[test]
fn nesting_limit() {
    assert!(parse(&nested(64)).is_ok());
    let e = parse(&nested(65)).unwrap_err();
    assert_eq!((e.line, e.kind), (66, ParseErrorKind::TooDeep));
}

#[test]
fn byte_order_mark_is_skipped() {
    let doc = parse("\u{feff}name=demo\n:a\n k :v\n:end\n").unwrap();
    assert_eq!(doc.meta[0].0, "name");
    assert_eq!(doc.get("a", "k").and_then(|v| v.as_str()), Some("v"));
}

#[test]
fn header_lines_split_at_first_equals() {
    let doc = parse("a = b=c\nempty=\n").unwrap();
    assert_eq!(doc.meta.len(), 2);
    assert_eq!(doc.meta[0].0, "a");
    assert_eq!(doc.meta[0].1, "b=c");
    assert_eq!(doc.meta[1].1, "");
    assert_eq!(doc.sections.len(), 0);
}

#[test]
fn keys_may_hold_spaces_and_paths() {
    let doc = parse(":s\n  my key   :  x y \n  .config/a.png :eDP-1\n:end\n").unwrap();
    let s = doc.section("s").unwrap();
    assert_eq!(s.get_str("my key"), Some("x y"));
    assert_eq!(s.get_str(".config/a.png"), Some("eDP-1"));
}

#[test]
fn duplicates_return_first_match() {
    let doc = parse(":s\n a :1\n a :2\n:end\n:s\n b :3\n:end\n").unwrap();
    assert_eq!(doc.get("s", "a").and_then(|v| v.as_str()), Some("1"));
    assert_eq!(doc.get("s", "b"), None);
    assert_eq!(doc.sections.len(), 2);
}

#[test]
fn typed_values() {
    assert_eq!(Value::text("true").as_bool(), Some(true));
    assert_eq!(Value::text("false").as_bool(), Some(false));
    assert_eq!(Value::text("yes").as_bool(), None);
    assert_eq!(Value::from(Vec::new()).as_bool(), None);
    assert_eq!(Value::text("42").parse::<u8>(), Some(42));
    assert_eq!(Value::text("x").parse::<u8>(), None);
    assert_eq!(Value::from(Vec::new()).parse::<u8>(), None);
    assert_eq!(Value::text("a").as_map(), None);
    assert_eq!(Value::text("a").get("k"), None);
    let m = Value::from(vec![Entry::new("k", Value::text("v"))]);
    assert_eq!(m.as_str(), None);
    assert_eq!(m.get("k").and_then(|v| v.as_str()), Some("v"));
    assert_eq!(m.get("z"), None);
}

#[test]
fn set_replaces_in_place_or_appends() {
    let mut s = Section::new("s");
    s.push("a", Value::text("1"));
    s.push("b", Value::text("2"));
    s.set("a", Value::text("9"));
    assert_eq!(s.entries.len(), 2);
    assert_eq!(s.entries[0].key, "a");
    assert_eq!(s.get_str("a"), Some("9"));
    s.set("c", Value::text("3"));
    assert_eq!(s.entries.len(), 3);
    assert_eq!(s.entries[2].key, "c");
    assert_eq!(s.get_str("b"), Some("2"));
}

#[test]
fn remove_takes_the_first_match() {
    let mut s = Section::new("s");
    s.push("a", Value::text("1"));
    s.push("a", Value::text("2"));
    let v = s.remove("a").unwrap();
    assert_eq!(v.as_str(), Some("1"));
    assert_eq!(s.get_str("a"), Some("2"));
    assert!(s.remove("zzz").is_none());
    assert_eq!(s.entries.len(), 1);
}

#[test]
fn get_mut_edits_the_value() {
    let mut s = Section::new("s");
    s.push("w", Value::from(vec![Entry::new("bat", Value::text("true"))]));
    if let Some(Value::Nested(w)) = s.get_mut("w") {
        for e in w.iter_mut() {
            if e.key == "bat" {
                e.value = Value::text("false");
            }
        }
    }
    assert_eq!(s.get("w").and_then(|w| w.get("bat")).and_then(|v| v.as_bool()), Some(false));
    assert!(s.get_mut("none").is_none());
}

#[test]
fn sections_are_found_or_created() {
    let mut doc = Document::new();
    doc.section_or_insert("a").push("x", Value::text("1"));
    doc.section_or_insert("b");
    doc.section_or_insert("a").push("y", Value::text("2"));
    assert_eq!(doc.sections.len(), 2);
    assert_eq!(doc.sections[1].name, "b");
    assert_eq!(doc.get("a", "y").and_then(|v| v.as_str()), Some("2"));
    doc.section_mut("b").unwrap().set("z", Value::text("3"));
    assert_eq!(doc.get("b", "z").and_then(|v| v.as_str()), Some("3"));
    assert!(doc.section_mut("c").is_none());
    assert!(doc.section("c").is_none());
}

#[test]
fn build_and_render_from_scratch() {
    let mut doc = Document::new();
    doc.meta.push(("name".into(), "demo".into()));
    let ver = doc.section_or_insert("ver");
    ver.push("app", Value::text("1.0.0"));
    ver.push("build", Value::from(42.to_string()));
    let set = doc.section_or_insert("set");
    set.push("dnd", Value::text("true"));
    set.push(
        "monitors",
        Value::from(vec![Entry::new("main", Value::text("DP-1")), Entry::new("side", Value::text("DP-2"))]),
    );
    let expected = "name=demo\n\n:ver\n    app :1.0.0\n    build :42\n:end\n\n:set\n    dnd :true\n    monitors :{\n        main :DP-1\n        side :DP-2\n    }\n:end\n";
    assert_eq!(doc.render(), expected);
    assert!(doc.validate().is_ok());
    assert_eq!(parse(expected).unwrap(), doc);
}

#[test]
fn render_into_appends() {
    let mut doc = Document::new();
    doc.section_or_insert("a").push("k", Value::text("v"));
    let mut buf = String::from("prefix|");
    doc.render_into(&mut buf);
    assert_eq!(buf, "prefix|:a\n    k :v\n:end\n");
    assert_eq!(Document::new().render(), "");
}

#[test]
fn estimated_len_counts_bytes() {
    let mut doc = Document::new();
    doc.section_or_insert("é").push("ключ", Value::text("värde"));
    assert_eq!(doc.estimated_len(), doc.render().len() + 1);
    doc.meta.push(("n".into(), "v".into()));
    assert_eq!(doc.estimated_len(), doc.render().len());
    assert_eq!(Document::new().estimated_len(), 0);
}

#[test]
fn validate_names_the_first_problem() {
    let mut doc = Document::new();
    doc.meta.push(("a=b".into(), "v".into()));
    assert_eq!(doc.validate(), Err(InvalidData("bad header line")));
    let mut doc = Document::new();
    doc.meta.push((":x".into(), "v".into()));
    assert_eq!(doc.validate(), Err(InvalidData("bad header line")));
    let mut doc = Document::new();
    doc.meta.push(("k".into(), " v".into()));
    assert_eq!(doc.validate(), Err(InvalidData("bad header line")));

    let mut doc = Document::new();
    doc.section_or_insert("end");
    assert_eq!(doc.validate(), Err(InvalidData("bad section name")));
    let mut doc = Document::new();
    doc.section_or_insert("a b");
    assert_eq!(doc.validate(), Err(InvalidData("bad section name")));
    let mut doc = Document::new();
    doc.section_or_insert("");
    assert_eq!(doc.validate(), Err(InvalidData("bad section name")));

    let mut doc = Document::new();
    doc.section_or_insert("s").push(" k", Value::text("v"));
    assert_eq!(doc.validate(), Err(InvalidData("bad key")));
    let mut doc = Document::new();
    doc.section_or_insert("s").push("k", Value::text("{"));
    assert_eq!(doc.validate(), Err(InvalidData("bad value")));
    let mut doc = Document::new();
    doc.section_or_insert("s").push("k", Value::text("a\nb"));
    assert_eq!(doc.validate(), Err(InvalidData("bad value")));
    let mut doc = Document::new();
    doc.section_or_insert("s").push("m", Value::from(vec![Entry::new("", Value::text("x"))]));
    doc.section_or_insert("s").push("k", Value::text("{"));
    assert_eq!(doc.validate(), Err(InvalidData("bad key")));
    assert!(Document::new().validate().is_ok());
}

#[test]
fn error_texts() {
    let e = ParseError { line: 12, kind: ParseErrorKind::MissingColon };
    assert_eq!(e.describe(), "line 12: entry is missing ':'");
    let e = ParseError { line: 0, kind: ParseErrorKind::TooDeep };
    assert_eq!(e.describe(), "line 0: maps are nested too deeply");
    assert_eq!(ParseErrorKind::UnterminatedSection.message(), "section is missing ':end'");
    assert_eq!(ParseErrorKind::UnterminatedMap.message(), "map is missing '}'");
    assert_eq!(InvalidData("bad key").describe(), "invalid probe data: bad key");
}

#[test]
fn written_documents_read_back() {
    let mut doc = Document::new();
    doc.meta.push(("title".into(), "x: y = z".into()));
    let s = doc.section_or_insert("s");
    s.push("url", Value::text("http://x.y"));
    s.push("empty", Value::text(""));
    s.push("}", Value::text("brace key"));
    s.push("deep", Value::from(vec![Entry::new("inner", Value::from(vec![Entry::new("a", Value::text("1"))]))]));
    doc.section_or_insert("t");
    assert!(doc.validate().is_ok());
    let text = doc.render();
    let back = parse(&text).unwrap();
    assert_eq!(back, doc);
    assert_eq!(back.render(), text);
}

#[test]
fn into_owned_keeps_everything() {
    let doc = parse(":s\n a :1\n m :{\n  b :2\n }\n:end\n").unwrap();
    let copy = parse(":s\n a :1\n m :{\n  b :2\n }\n:end\n").unwrap();
    assert_eq!(doc.into_owned(), copy);
    let e = Entry::new("k", Value::text("v"));
    assert_eq!(e.into_owned(), Entry::new("k", Value::text("v")));
    assert_eq!(Section::new("s").into_owned(), Section::new("s"));
    assert_eq!(Value::text("t").into_owned(), Value::text("t"));
}

#[test]
fn clones_and_defaults() {
    let doc = parse("k=v\n:s\n a :1\n m :{\n  b :2\n }\n:end\n").unwrap();
    let copy = doc.clone();
    assert_eq!(copy, doc);
    assert_eq!(copy.sections[0].clone(), doc.sections[0]);
    assert_eq!(doc.sections[0].entries[1].clone(), doc.sections[0].entries[1]);
    assert_eq!(Document::default(), Document::new());
    assert_eq!(Section::default(), Section::new(""));
}

#[test]
fn lookup_after_set_and_push() {
    let mut s = Section::new("s");
    s.push("a", Value::text("1"));
    s.push("b", Value::text("2"));
    s.set("b", Value::text("3"));
    assert_eq!(s.get_str("b"), Some("3"));
    assert_eq!(s.get_str("a"), Some("1"));
    s.push("b", Value::text("4"));
    assert_eq!(s.get_str("b"), Some("3"));
    s.push("c", Value::text("5"));
    assert_eq!(s.get_str("c"), Some("5"));
    s.remove("a");
    assert_eq!(s.get_str("b"), Some("3"));
    assert_eq!(s.get_str("a"), None);
}

#[test]
fn inline_comments_stay_in_values() {
    let doc = parse(":s\n key :value // note\n:end\n").unwrap();
    assert_eq!(doc.get("s", "key").and_then(|v| v.as_str()), Some("value // note"));
}

#[test]
fn validate_refuses_a_header_key_lost_on_reading() {
    let mut doc = Document::new();
    doc.meta.push(("\u{feff}a".into(), "b".into()));
    assert_eq!(doc.validate(), Err(InvalidData("bad header line")));
    let back = parse(&doc.render()).unwrap();
    assert_eq!(back.meta[0].0, "a");
    let mut later = Document::new();
    later.meta.push(("x".into(), "y".into()));
    later.meta.push(("\u{feff}a".into(), "b".into()));
    assert!(later.validate().is_ok());
    assert_eq!(parse(&later.render()).unwrap(), later);
}

fn deep_value(levels: usize) -> Value {
    let mut inner = Value::text("x");
    for _ in 0..levels {
        inner = Value::from(vec![Entry::new("k", inner)]);
    }
    inner
}

#[test]
fn validate_refuses_maps_too_deep_to_read() {
    let mut doc = Document::new();
    doc.section_or_insert("s").push("top", deep_value(65));
    assert_eq!(doc.validate(), Err(InvalidData("maps nested too deeply")));
    let e = parse(&doc.render()).unwrap_err();
    assert_eq!(e.kind, ParseErrorKind::TooDeep);

    let mut ok = Document::new();
    ok.section_or_insert("s").push("top", deep_value(64));
    assert!(ok.validate().is_ok());
    assert_eq!(parse(&ok.render()).unwrap(), ok);
}

#[test]
fn parsed_documents_read_back_even_when_validate_refuses_them() {
    let src = "=v\n:a b\n k :1\n:end\n";
    let doc = parse(src).unwrap();
    assert_eq!(doc.meta[0], (String::new(), "v".to_string()));
    assert_eq!(doc.sections[0].name, "a b");
    assert!(doc.validate().is_err());
    let text = doc.render();
    let back = parse(&text).unwrap();
    assert_eq!(back, doc);
    assert_eq!(back.render(), text);
}

#[test]
fn editing_keeps_a_valid_document_valid() {
    let mut doc = parse("name=demo\n:a\n k :v\n:end\n").unwrap();
    assert!(doc.validate().is_ok());
    doc.section_or_insert("a").set("k", Value::text("w"));
    doc.section_or_insert("b").set("n", Value::from("1"));
    doc.section_or_insert("b").set("m", Value::from(vec![Entry::new("x", Value::text("y"))]));
    assert!(doc.validate().is_ok());
    assert_eq!(parse(&doc.render()).unwrap(), doc);
}

#[test]
fn text_values_from_str() {
    assert_eq!(Value::from("abc"), Value::text("abc"));
    assert_eq!(Value::from("abc").as_str(), Some("abc"));
    assert_eq!(Value::from(""), Value::text(""));
}

#[test]
fn whitespace_and_comment_lines_do_not_change_the_document() {
    let plain = parse("k=v\n:s\na :1\nm :{\nb :2\n}\n:end\n").unwrap();
    let spaced = parse("  k=v  \r\n:s\t\r\n\t\ta :1 \r\n  m :{\r\n    b :2\r\n  }\r\n :end\r\n").unwrap();
    assert_eq!(plain, spaced);
    let commented = parse("k=v\n// c\n:s\na :1\n\nm :{\n  // c\nb :2\n}\n:end\n// c\n").unwrap();
    assert_eq!(plain, commented);
    // errors keep their line numbers when only whitespace changes
    assert_eq!(parse(":s\n x\n").unwrap_err(), parse("  :s  \r\n\t x\r\n").unwrap_err());
}
