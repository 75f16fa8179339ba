use xml_events::{emit_chunk, emit_events, end_tag, start_parsing, start_parsing_cow, start_tag, text, Event, Tokenizer};

#[test]
fn start_tag_line() {
    let mut out = String::new();
    let attrs = vec![("x".to_string(), "1".to_string()), ("y".to_string(), "2".to_string())];
    start_tag(&mut out, "a", &attrs);
    assert_eq!(
        out,
        "{\"type\":\"start_element\",\"name\":\"a\",\"attributes\":{\"x\":\"1\",\"y\":\"2\"}}\n"
    );
}

#[test]
fn start_tag_line_without_attributes() {
    let mut out = String::from("before\n");
    start_tag(&mut out, "b", &vec![]);
    assert_eq!(
        out,
        "before\n{\"type\":\"start_element\",\"name\":\"b\",\"attributes\":{}}\n"
    );
}

#[test]
fn end_tag_line() {
    let mut out = String::new();
    end_tag(&mut out, "a");
    assert_eq!(out, "{\"type\":\"end_element\",\"name\":\"a\"}\n");
}

#[test]
fn text_line() {
    let mut out = String::new();
    text(&mut out, "hi there");
    assert_eq!(out, "{\"type\":\"text\",\"content\":\"hi there\"}\n");
}

#[test]
fn lines_escape_quotes_backslashes_and_control_characters() {
    let mut out = String::new();
    text(&mut out, "say \"hi\" \\ \u{1}\u{1f}\n");
    assert_eq!(
        out,
        "{\"type\":\"text\",\"content\":\"say \\\"hi\\\" \\\\ \\u0001\\u001f\\u000a\"}\n"
    );
}

#[test]
fn one_line_per_event() {
    let mut out = String::new();
    let events = vec![
        Event::StartElement { name: "a".to_string(), attributes: vec![] },
        Event::Text { content: "t".to_string() },
        Event::EndElement { name: "a".to_string() },
    ];
    emit_events(&mut out, &events);
    assert_eq!(out.lines().count(), 3);
    assert!(out.ends_with('\n'));
}

#[test]
fn whole_document_output() {
    let mut out = String::new();
    start_parsing_cow("<a x=\"1\"><b/>hi</a>", true, &mut out);
    let expected = [
        "{\"type\":\"start_element\",\"name\":\"a\",\"attributes\":{\"x\":\"1\"}}\n",
        "{\"type\":\"start_element\",\"name\":\"b\",\"attributes\":{}}\n",
        "{\"type\":\"end_element\",\"name\":\"b\"}\n",
        "{\"type\":\"text\",\"content\":\"hi\"}\n",
        "{\"type\":\"end_element\",\"name\":\"a\"}\n",
    ]
    .concat();
    assert_eq!(out, expected);
}

#[test]
fn output_matches_emitted_events() {
    let input = "<r k='v'>one<s/>two</r>";
    let mut direct = String::new();
    start_parsing_cow(input, true, &mut direct);
    let mut via_events = String::new();
    emit_events(&mut via_events, &start_parsing(input, true));
    assert_eq!(direct, via_events);
}

#[test]
fn rerun_output_is_byte_identical() {
    let input = "<doc>\n  <item id=\"1\">x</item>\n  <item id=\"2\"/>\n</doc>";
    let mut first = String::new();
    start_parsing_cow(input, true, &mut first);
    let mut second = String::new();
    start_parsing_cow(input, true, &mut second);
    assert_eq!(first, second);
    let mut chunked = String::new();
    let mut tokenizer = Tokenizer::new(true);
    for line in input.split_inclusive('\n') {
        emit_chunk(&mut tokenizer, line, &mut chunked);
    }
    assert_eq!(first, chunked);
}

#[test]
fn empty_input_writes_nothing() {
    let mut out = String::new();
    start_parsing_cow("", true, &mut out);
    assert_eq!(out, "");
    start_parsing_cow("<a", true, &mut out);
    assert_eq!(out, "");
}
