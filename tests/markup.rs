use neohome::{class_list_of, compile_markup, HighlightEvent, MarkupCompiler, RenderError};

const ROOT_OPEN: &str = "<code class=\"tree-sitter-code\">";
const ROOT_CLOSE: &str = "</code>";

fn table() -> Vec<&'static str> {
    vec!["keyword", "variable", "number", "punctuation.delimiter", "function.method.call"]
}

fn src(start: usize, end: usize) -> HighlightEvent {
    HighlightEvent::Source { start, end }
}

fn strip_tags(markup: &str) -> String {
    let mut out = String::new();
    let mut in_tag = false;
    for c in markup.chars() {
        match c {
            '<' => in_tag = true,
            '>' => in_tag = false,
            _ if !in_tag => out.push(c),
            _ => {}
        }
    }
    out.replace("&lt;", "<").replace("&gt;", ">").replace("&quot;", "\"").replace("&amp;", "&")
}

#[test]
fn scenario_keyword_let() {
    let text = "let x = 1;";
    let names = table();
    let events = vec![
        HighlightEvent::HighlightStart(0),
        src(0, 3),
        HighlightEvent::HighlightEnd,
        src(3, 4),
        HighlightEvent::HighlightStart(1),
        src(4, 5),
        HighlightEvent::HighlightEnd,
        src(5, 8),
        HighlightEvent::HighlightStart(2),
        src(8, 9),
        HighlightEvent::HighlightEnd,
        HighlightEvent::HighlightStart(3),
        src(9, 10),
        HighlightEvent::HighlightEnd,
    ];
    let out = compile_markup(text, &names, &events).unwrap();
    assert_eq!(
        out,
        "<code class=\"tree-sitter-code\"><span class=\"ts-keyword\">let</span> \
         <span class=\"ts-variable\">x</span> = <span class=\"ts-number\">1</span>\
         <span class=\"ts-punctuation ts-delimiter\">;</span></code>"
    );
    assert!(out.contains("<span class=\"ts-keyword\">let</span>"));
    assert_eq!(strip_tags(&out), text);
}

#[test]
fn scenario_markup_in_text_is_escaped() {
    let text = "<b>";
    let names = table();
    let out = compile_markup(text, &names, &[src(0, 3)]).unwrap();
    assert_eq!(out, format!("{ROOT_OPEN}&lt;b&gt;{ROOT_CLOSE}"));
    assert!(!out.contains("<span"));
}

#[test]
fn scenario_empty_text() {
    let names = table();
    let out = compile_markup("", &names, &[]).unwrap();
    assert_eq!(out, "<code class=\"tree-sitter-code\"></code>");
}

#[test]
fn quotes_and_ampersands_are_escaped() {
    let text = "a&\"b'c>";
    let names = table();
    let out = compile_markup(text, &names, &[src(0, text.len())]).unwrap();
    assert_eq!(out, format!("{ROOT_OPEN}a&amp;&quot;b'c&gt;{ROOT_CLOSE}"));
    assert_eq!(strip_tags(&out), text);
}

#[test]
fn text_without_special_characters_is_kept() {
    let text = "plain words";
    let names = table();
    let out = compile_markup(text, &names, &[src(0, 5), src(5, 11)]).unwrap();
    assert_eq!(out, format!("{ROOT_OPEN}plain words{ROOT_CLOSE}"));
}

#[test]
fn class_list_segments() {
    assert_eq!(class_list_of("keyword"), "ts-keyword");
    assert_eq!(class_list_of("function.call"), "ts-function ts-call");
    assert_eq!(class_list_of("function.method.call"), "ts-function ts-method ts-call");
    assert_eq!(class_list_of(""), "ts-");
    assert_eq!(class_list_of("a..b"), "ts-a ts- ts-b");
}

#[test]
fn nested_regions_balance() {
    let text = "foo(bar)";
    let names = table();
    let events = vec![
        HighlightEvent::HighlightStart(4),
        src(0, 4),
        HighlightEvent::HighlightStart(1),
        src(4, 7),
        HighlightEvent::HighlightEnd,
        src(7, 8),
        HighlightEvent::HighlightEnd,
    ];
    let out = compile_markup(text, &names, &events).unwrap();
    assert_eq!(
        out,
        format!(
            "{ROOT_OPEN}<span class=\"ts-function ts-method ts-call\">foo(\
             <span class=\"ts-variable\">bar</span>)</span>{ROOT_CLOSE}"
        )
    );
    assert_eq!(out.matches("<span").count(), out.matches("</span>").count());
    assert_eq!(strip_tags(&out), text);
}

#[test]
fn multibyte_text_is_sliced_by_bytes() {
    let text = "é<ü";
    let names = table();
    let out = compile_markup(text, &names, &[src(0, 2), HighlightEvent::HighlightStart(0), src(2, 5), HighlightEvent::HighlightEnd])
        .unwrap();
    assert_eq!(out, format!("{ROOT_OPEN}é<span class=\"ts-keyword\">&lt;ü</span>{ROOT_CLOSE}"));
    assert_eq!(strip_tags(&out), text);
}

#[test]
fn span_inside_a_character_is_refused() {
    let names = table();
    assert_eq!(compile_markup("é", &names, &[src(0, 1)]), Err(RenderError::InvalidUtf8Slice));
}

#[test]
fn span_past_the_end_is_refused() {
    let names = table();
    assert_eq!(compile_markup("abc", &names, &[src(1, 4)]), Err(RenderError::InvalidUtf8Slice));
}

#[test]
fn reversed_span_is_refused() {
    let names = table();
    assert_eq!(compile_markup("abc", &names, &[src(2, 1)]), Err(RenderError::InvalidUtf8Slice));
}

#[test]
fn close_without_open_is_refused() {
    let names = table();
    assert_eq!(
        compile_markup("ab", &names, &[src(0, 1), HighlightEvent::HighlightEnd]),
        Err(RenderError::MalformedEventStream)
    );
}

#[test]
fn region_left_open_is_refused() {
    let names = table();
    assert_eq!(
        compile_markup("ab", &names, &[HighlightEvent::HighlightStart(0), src(0, 2)]),
        Err(RenderError::MalformedEventStream)
    );
}

#[test]
fn unknown_capture_is_refused() {
    let names = table();
    assert_eq!(
        compile_markup("ab", &names, &[HighlightEvent::HighlightStart(5), src(0, 2), HighlightEvent::HighlightEnd]),
        Err(RenderError::MalformedEventStream)
    );
}

#[test]
fn first_refusal_decides_the_error() {
    let names = table();
    assert_eq!(
        compile_markup("ab", &names, &[src(0, 9), HighlightEvent::HighlightEnd]),
        Err(RenderError::InvalidUtf8Slice)
    );
    assert_eq!(
        compile_markup("ab", &names, &[HighlightEvent::HighlightEnd, src(0, 9)]),
        Err(RenderError::MalformedEventStream)
    );
}

#[test]
fn same_input_gives_same_markup() {
    let text = "if (a < b) { return \"x\"; }";
    let names = table();
    let events = vec![HighlightEvent::HighlightStart(0), src(0, 2), HighlightEvent::HighlightEnd, src(2, text.len())];
    let first = compile_markup(text, &names, &events);
    let second = compile_markup(text, &names, &events);
    assert!(first.is_ok());
    assert_eq!(first, second);
}

#[test]
fn incremental_compiler_matches_batch() {
    let text = "let x";
    let names = table();
    let events = vec![HighlightEvent::HighlightStart(0), src(0, 3), HighlightEvent::HighlightEnd, src(3, 5)];
    let mut compiler = MarkupCompiler::new();
    for event in &events {
        assert_eq!(compiler.push_event(text, &names, *event), Ok(()));
    }
    assert_eq!(compiler.depth(), 0);
    assert_eq!(compiler.finish(), compile_markup(text, &names, &events));
}

#[test]
fn incremental_compiler_tracks_depth_and_survives_refusal() {
    let text = "ab";
    let names = table();
    let mut compiler = MarkupCompiler::new();
    assert_eq!(compiler.push_event(text, &names, HighlightEvent::HighlightStart(1)), Ok(()));
    assert_eq!(compiler.depth(), 1);
    assert_eq!(compiler.push_event(text, &names, src(0, 7)), Err(RenderError::InvalidUtf8Slice));
    assert_eq!(compiler.depth(), 1);
    assert_eq!(compiler.push_event(text, &names, src(0, 2)), Ok(()));
    assert_eq!(compiler.finish(), Err(RenderError::MalformedEventStream));
}

#[test]
fn empty_span_inside_a_character_is_refused() {
    let names = table();
    assert_eq!(compile_markup("é", &names, &[src(1, 1)]), Err(RenderError::InvalidUtf8Slice));
}

#[test]
fn empty_span_on_a_boundary_is_accepted() {
    let names = table();
    assert_eq!(compile_markup("é", &names, &[src(2, 2), src(0, 2)]), Ok(format!("{ROOT_OPEN}é{ROOT_CLOSE}")));
}
