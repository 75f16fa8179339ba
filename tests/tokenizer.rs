use xml_events::{process_tag, start_parsing, Event, Tokenizer};

fn start(name: &str, attrs: &[(&str, &str)]) -> Event {
    Event::StartElement {
        name: name.to_string(),
        attributes: attrs
            .iter()
            .map(|(k, v)| (k.to_string(), v.to_string()))
            .collect(),
    }
}

fn end(name: &str) -> Event {
    Event::EndElement { name: name.to_string() }
}

fn text(content: &str) -> Event {
    Event::Text { content: content.to_string() }
}

#[test]
fn nested_elements_with_attribute_and_text() {
    let events = start_parsing("<a x=\"1\"><b/>hi</a>", true);
    assert_eq!(
        events,
        vec![start("a", &[("x", "1")]), start("b", &[]), end("b"), text("hi"), end("a")]
    );
}

#[test]
fn whitespace_only_text_is_suppressed() {
    let events = start_parsing("<p>  </p>", true);
    assert_eq!(events, vec![start("p", &[]), end("p")]);
}

#[test]
fn unterminated_tag_gives_nothing() {
    assert_eq!(start_parsing("<a", true), vec![]);
    assert_eq!(start_parsing("<a", false), vec![]);
}

#[test]
fn empty_input_gives_nothing() {
    assert_eq!(start_parsing("", true), vec![]);
    assert_eq!(start_parsing("", false), vec![]);
}

#[test]
fn text_without_tags_gives_nothing() {
    assert_eq!(start_parsing("just some text", true), vec![]);
    assert_eq!(start_parsing("   \n  ", false), vec![]);
    assert_eq!(start_parsing("a > b", true), vec![]);
}

#[test]
fn self_closing_tag_with_attribute() {
    let events = start_parsing("<img src=\"v\"/>", true);
    assert_eq!(events, vec![start("img", &[("src", "v")]), end("img")]);
}

#[test]
fn self_closing_tag_with_space_before_slash() {
    let events = start_parsing("<br />", true);
    assert_eq!(events, vec![start("br", &[]), end("br")]);
}

#[test]
fn layout_whitespace_between_tags_is_silent() {
    let events = start_parsing("<a>\n\t \r\n</a>", false);
    assert_eq!(events, vec![start("a", &[]), end("a")]);
    let events = start_parsing("<a>\u{3000}\u{a0}</a>", true);
    assert_eq!(events, vec![start("a", &[]), end("a")]);
}

#[test]
fn text_is_trimmed() {
    let events = start_parsing("<a>  some text \n</a>", false);
    assert_eq!(events, vec![start("a", &[]), text("some text"), end("a")]);
}

#[test]
fn layout_characters_are_dropped_when_stripping() {
    let events = start_parsing("<a>x\ny\tz</a>", true);
    assert_eq!(events, vec![start("a", &[]), text("xyz"), end("a")]);
    let events = start_parsing("<a>x\ny\tz</a>", false);
    assert_eq!(events, vec![start("a", &[]), text("x\ny\tz"), end("a")]);
}

#[test]
fn attribute_token_without_equals_is_dropped() {
    let events = start_parsing("<input disabled name='n' checked>", true);
    assert_eq!(events, vec![start("input", &[("name", "n")])]);
}

#[test]
fn later_attribute_value_wins() {
    let events = start_parsing("<a x=1 y=2 x=3>", true);
    assert_eq!(events, vec![start("a", &[("x", "3"), ("y", "2")])]);
}

#[test]
fn unmatched_quotes_are_kept() {
    let events = start_parsing("<a x=\"1' y='2 z=\"\">", true);
    assert_eq!(events, vec![start("a", &[("x", "\"1'"), ("y", "'2"), ("z", "")])]);
}

#[test]
fn value_keeps_text_after_first_equals() {
    let events = start_parsing("<a href=\"?q=1\">", true);
    assert_eq!(events, vec![start("a", &[("href", "?q=1")])]);
}

#[test]
fn end_tag_name_is_trimmed() {
    let events = start_parsing("<a></a  >", true);
    assert_eq!(events, vec![start("a", &[]), end("a")]);
}

#[test]
fn empty_tags_give_nothing() {
    assert_eq!(start_parsing("<><  ></><  />", true), vec![]);
}

#[test]
fn processing_instruction_and_comment_are_skipped() {
    let events = start_parsing("<?xml version=\"1.0\"?><!-- note --><r/>", true);
    assert_eq!(events, vec![start("r", &[]), end("r")]);
}

#[test]
fn trailing_text_is_discarded() {
    let events = start_parsing("<a>tail", true);
    assert_eq!(events, vec![start("a", &[])]);
}

#[test]
fn closing_bracket_outside_tag_is_text() {
    let events = start_parsing("<a>1 > 0</a>", true);
    assert_eq!(events, vec![start("a", &[]), text("1 > 0"), end("a")]);
}

#[test]
fn open_bracket_inside_tag_is_dropped() {
    let events = start_parsing("<a<b>", true);
    assert_eq!(events, vec![start("ab", &[])]);
}

#[test]
fn nested_tags_come_out_balanced() {
    let events = start_parsing("<r><a><b></b></a><c></c></r>", true);
    assert_eq!(
        events,
        vec![
            start("r", &[]),
            start("a", &[]),
            start("b", &[]),
            end("b"),
            end("a"),
            start("c", &[]),
            end("c"),
            end("r"),
        ]
    );
    let mut open: Vec<String> = Vec::new();
    for e in &events {
        match e {
            Event::StartElement { name, .. } => open.push(name.clone()),
            Event::EndElement { name } => assert_eq!(open.pop().as_ref(), Some(name)),
            Event::Text { .. } => {}
        }
    }
    assert!(open.is_empty());
}

#[test]
fn unicode_characters_pass_through() {
    let events = start_parsing("<żółw kształt=\"€\">zażółć</żółw>", true);
    assert_eq!(
        events,
        vec![start("żółw", &[("kształt", "€")]), text("zażółć"), end("żółw")]
    );
}

#[test]
fn parsing_twice_gives_the_same_events() {
    let input = "<a x='1'>t<b/></a>";
    assert_eq!(start_parsing(input, true), start_parsing(input, true));
}

#[test]
fn feeding_in_chunks_gives_the_same_events() {
    let input = "<a x=\"1\"><b/>hi</a>";
    let whole = start_parsing(input, true);
    for cut in 0..input.len() {
        if !input.is_char_boundary(cut) {
            continue;
        }
        let mut tokenizer = Tokenizer::new(true);
        let mut events = Vec::new();
        tokenizer.feed_str(&input[..cut], &mut events);
        tokenizer.feed_str(&input[cut..], &mut events);
        assert_eq!(events, whole);
    }
}

#[test]
fn feeding_one_character_at_a_time() {
    let mut tokenizer = Tokenizer::new(true);
    let mut events = Vec::new();
    for c in "<p>x</p>".chars() {
        tokenizer.feed(c, &mut events);
    }
    assert_eq!(events, vec![start("p", &[]), text("x"), end("p")]);
}

#[test]
fn process_tag_classifies() {
    let mut events = Vec::new();
    process_tag(&"/div".chars().collect::<Vec<char>>(), &mut events);
    process_tag(&"img src=x /".chars().collect::<Vec<char>>(), &mut events);
    process_tag(&"div id=main".chars().collect::<Vec<char>>(), &mut events);
    process_tag(&"   ".chars().collect::<Vec<char>>(), &mut events);
    assert_eq!(
        events,
        vec![end("div"), start("img", &[("src", "x")]), end("img"), start("div", &[("id", "main")])]
    );
}
