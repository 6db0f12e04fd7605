use my_lang::input::{FileError, LineNum, MappedError, MappedSpan, Source, SourceContext};
use my_lang::parse::{BasicLexer, LexError, Loc, Located};
use std::fmt;

/// The text an error is shown with: its message, then each line it points at.
fn render<E: fmt::Display>(mapped: &MappedError<'_, E>) -> String {
    mapped.render(&mapped.inner.to_string())
}

struct LexMessage(LexError);

impl fmt::Display for LexMessage {
    fn fmt(&self, f: &mut fmt::Formatter<'_>) -> fmt::Result {
        f.write_str(&self.0.message())
    }
}

#[test]
#[should_panic(expected = "missing closing quote in string")]
fn mapped_error_missing_quote() {
    let mut ctx = SourceContext::new();

    let id = ctx.get_for_path("test_input.txt".to_string()).id;
    let src_text = r#"
"unterminated
second line
"#;
    ctx.set_file_text(id, Ok(src_text.to_string())).unwrap();

    let src = Source::File(id);
    let mut lex = BasicLexer::new(src_text, src);

    match lex.next() {
        Err(loc_err) => {
            let mapped = ctx.add_context(loc_err.map_owned(LexMessage));
            panic!("{}", render(&mapped));
        }
        Ok(_) => panic!("expected MissingStringClose"),
    }
}

#[test]
#[should_panic(expected = "invalid number ending with")]
fn mapped_error_weird_number_end() {
    let mut ctx = SourceContext::new();

    let id = ctx.get_for_path("test_input.txt".to_string()).id;
    let src_text = r#"
 123x more stuff
other_line
"#;
    ctx.set_file_text(id, Ok(src_text.to_string())).unwrap();

    let src = Source::File(id);
    let mut lex = BasicLexer::new(src_text, src);

    match lex.next() {
        Err(loc_err) => {
            let mapped = ctx.add_context(loc_err.map_owned(LexMessage));
            panic!("{}", render(&mapped));
        }
        Ok(_) => panic!("expected WeirdNumberEnd"),
    }
}

#[derive(Debug)]
struct FakeError;

impl fmt::Display for FakeError {
    fn fmt(&self, f: &mut fmt::Formatter<'_>) -> fmt::Result {
        f.write_str("demo numeric parse failure")
    }
}

#[test]
#[should_panic(expected = "demo numeric parse failure")]
fn mapped_error_nested_macro_print() {
    let mut ctx = SourceContext::new();

    // --- outer file: defines and invokes a macro ---
    let id = ctx.get_for_path("example.txt".to_string()).id;
    let text = "a + macro!(b + 1.2.3)\n";
    ctx.set_file_text(id, Ok(text.to_string())).unwrap();

    // locate "macro!(b + 1.2.3)" inside the outer file
    let outer_start = text.find("macro!(").unwrap();
    let outer_end = text.find(")\n").unwrap() + 1;
    let loc_outer = Loc { src: Source::File(id), start: outer_start, end: outer_end };

    // --- simulate macro body text ---
    let macro_text = "b + 1.2.3";
    let macro_id = ctx.add_macro(loc_outer, macro_text.to_string());

    // locate bad token "1.2.3" inside the macro body
    let bad_start = macro_text.find("1.2.3").unwrap();
    let bad_end = bad_start + "1.2.3".len();
    let loc_inner = Loc { src: Source::Macro(macro_id), start: bad_start, end: bad_end };

    let located_err = Located { value: FakeError, loc: loc_inner };

    // Build the mapped error (macro -> outer file)
    let mapped = ctx.add_context(located_err);

    panic!("{}", render(&mapped));
}

#[test]
fn combine_locs_outer_scope() {
    // Case 1: both spans in the outer file scope
    let mut ctx = SourceContext::new();

    let id = ctx.get_for_path("file.txt".to_string()).id;
    let text = "aaa bbb ccc";
    ctx.set_file_text(id, Ok(text.to_string())).unwrap();

    let loc_a = Loc { src: Source::File(id), start: 0, end: 3 }; // "aaa"
    let loc_b = Loc { src: Source::File(id), start: 4, end: 7 }; // "bbb"

    let combined = ctx.combine_locs(loc_a, loc_b).unwrap();
    // expect span covering "aaa bbb"
    assert_eq!(combined.src, Source::File(id));
    assert_eq!(combined.start, 0);
    assert_eq!(combined.end, 7);
}

#[test]
fn combine_locs_nested_macros_same_outer() {
    // Case 2: two different macros, both ultimately from the same outer call site
    let mut ctx = SourceContext::new();

    let id = ctx.get_for_path("file.txt".to_string()).id;
    let text = "macro1!(a) + macro2!(b)";
    ctx.set_file_text(id, Ok(text.to_string())).unwrap();

    // locate both macro invocations
    let m1_start = text.find("macro1!(").unwrap();
    let m1_end = m1_start + "macro1!(a)".len();
    let m2_start = text.find("macro2!(").unwrap();
    let m2_end = m2_start + "macro2!(b)".len();

    let loc_m1_outer = Loc { src: Source::File(id), start: m1_start, end: m1_end };
    let loc_m2_outer = Loc { src: Source::File(id), start: m2_start, end: m2_end };

    // each macro expands from those sites
    let macro1 = ctx.add_macro(loc_m1_outer, "a + 1".to_string());
    let macro2 = ctx.add_macro(loc_m2_outer, "b + 2".to_string());

    // pick spans *inside* each macro body
    let loc_a = Loc { src: Source::Macro(macro1), start: 0, end: 1 }; // "a"
    let loc_b = Loc { src: Source::Macro(macro2), start: 0, end: 1 }; // "b"

    // combine — should bubble up and produce a combined outer span covering both call sites
    let combined = ctx.combine_locs(loc_a, loc_b).unwrap();
    assert_eq!(combined.src, Source::File(id));
    assert_eq!(combined.start, m1_start);
    assert_eq!(combined.end, m2_end);
}

#[test]
fn combine_locs_within_nested_macro() {
    // Case 3: both spans inside the same macro (possibly nested)
    let mut ctx = SourceContext::new();

    // outer file has one macro call
    let id = ctx.get_for_path("outer.txt".to_string()).id;
    let outer_text = "macro!(inner!(x + y))";
    ctx.set_file_text(id, Ok(outer_text.to_string())).unwrap();

    let outer_start = outer_text.find("macro!(").unwrap();
    let outer_end = outer_text.find(')').unwrap() + 1;
    let loc_outer = Loc { src: Source::File(id), start: outer_start, end: outer_end };

    // outer macro expands to something with an inner macro call
    let macro1 = ctx.add_macro(loc_outer, "inner!(x + y)".to_string());
    let macro_text = "x + y";
    let inner_call_start = 7; // "inner!(" starts at byte 7
    let inner_call_end = inner_call_start + "inner!(x + y)".len();
    let loc_inner_call = Loc { src: Source::Macro(macro1), start: inner_call_start, end: inner_call_end };

    // inner macro expands to just "x + y"
    let macro2 = ctx.add_macro(loc_inner_call, macro_text.to_string());

    let loc_a = Loc { src: Source::Macro(macro2), start: 0, end: 1 }; // "x"
    let loc_b = Loc { src: Source::Macro(macro2), start: 4, end: 5 }; // "y"

    // combine — should succeed entirely within the inner macro
    let combined = ctx.combine_locs(loc_a, loc_b).unwrap();
    assert_eq!(combined.src, Source::Macro(macro2));
    assert_eq!(combined.start, 0);
    assert_eq!(combined.end, 5);
}

fn span_fields(s: &MappedSpan<'_>) -> (Source, LineNum, String, usize, usize) {
    (s.src, s.line, s.line_text.to_string(), s.col_start, s.col_end)
}

#[test]
fn add_context_maps_each_call_site() {
    let mut ctx = SourceContext::new();
    let id = ctx.get_for_path("example.txt".to_string()).id;
    let text = "first\na + macro!(b + 1.2.3)\n";
    ctx.set_file_text(id, Ok(text.to_string())).unwrap();
    let call = Loc { src: Source::File(id), start: 10, end: 27 };
    let m = ctx.add_macro(call, "b\n + 1.2.3".to_string());
    let err = Located { value: 7u8, loc: Loc { src: Source::Macro(m), start: 5, end: 10 } };
    let mapped = ctx.add_context(err);
    assert_eq!(mapped.inner, 7u8);
    assert_eq!(mapped.spans.len(), 2);
    assert_eq!(
        span_fields(&mapped.spans[0]),
        (Source::Macro(m), LineNum(2), " + 1.2.3".to_string(), 3, 8)
    );
    assert_eq!(
        span_fields(&mapped.spans[1]),
        (Source::File(id), LineNum(2), "a + macro!(b + 1.2.3)".to_string(), 4, 21)
    );
}

#[test]
fn add_context_clips_to_the_first_line() {
    let mut ctx = SourceContext::new();
    let id = ctx.get_for_path("f".to_string()).id;
    ctx.set_file_text(id, Ok("ab\ncd".to_string())).unwrap();
    let err = Located { value: (), loc: Loc { src: Source::File(id), start: 1, end: 5 } };
    let mapped = ctx.add_context(err);
    assert_eq!(mapped.spans.len(), 1);
    assert_eq!(span_fields(&mapped.spans[0]), (Source::File(id), LineNum(1), "ab".to_string(), 1, 2));
    assert_eq!(
        render(&ctx.add_context(Located { value: "oops", loc: Loc { src: Source::File(id), start: 3, end: 3 } })),
        format!("oops\n\nIn {:?}:\n --> line 2\n  | cd\n  | ^\n", Source::File(id))
    );
}

#[test]
fn files_are_registered_once_per_path() {
    let mut ctx = SourceContext::new();
    let a = ctx.get_for_path("a.txt".to_string()).id;
    let b = ctx.get_for_path("b.txt".to_string()).id;
    let a2 = ctx.get_for_path("a.txt".to_string()).id;
    assert_eq!(a, a2);
    assert_ne!(a, b);
    assert_eq!(ctx.files.len(), 2);
    assert!(ctx.get_file(a).unwrap().text.is_none());
    assert!(ctx.get_file(b).is_some());
}

#[test]
fn file_text_is_set_once() {
    let mut ctx = SourceContext::new();
    let id = ctx.get_for_path("a.txt".to_string()).id;
    assert!(ctx.set_file_text(id, Ok("x\ny".to_string())).is_ok());
    match ctx.set_file_text(id, Ok("other".to_string())) {
        Err(Ok(t)) => assert_eq!(t, "other"),
        _ => panic!("the second text must be handed back"),
    }
    let info = ctx.get_file(id).unwrap();
    assert_eq!(info.get_text(Loc { src: Source::File(id), start: 2, end: 3 }), "y");
    assert_eq!(info.get_line_map().line_num(2), LineNum(2));
}

#[test]
fn unreadable_files_keep_their_error() {
    let mut ctx = SourceContext::new();
    let id = ctx.get_for_path("gone.txt".to_string()).id;
    let err = FileError { path: "gone.txt".to_string(), inner: "not found".to_string() };
    assert!(ctx.set_file_text(id, Err(err)).is_ok());
    let info = ctx.get_file(id).unwrap();
    assert!(matches!(&info.text, Some(Err(e)) if e.inner == "not found"));
    assert!(info.line_map.is_none());
}

#[test]
fn depths_of_macros_are_recorded() {
    let mut ctx = SourceContext::new();
    let id = ctx.get_for_path("a".to_string()).id;
    ctx.set_file_text(id, Ok("m!(n!(x))".to_string())).unwrap();
    let m = ctx.add_macro(Loc { src: Source::File(id), start: 0, end: 9 }, "n!(x)".to_string());
    let n = ctx.add_macro(Loc { src: Source::Macro(m), start: 0, end: 5 }, "x".to_string());
    assert_eq!(ctx.get_depth(Loc { src: Source::Macro(n), start: 0, end: 1 }), 0);
    assert_eq!(ctx.get_depth(Loc { src: Source::File(id), start: 0, end: 1 }), 0);
    assert_eq!(ctx.get_macro(n).unwrap().src.src, Source::Macro(m));
    assert!(ctx.get_macro(my_lang::input::MacroId(9)).is_none());
}

#[test]
fn combine_is_symmetric_and_idempotent() {
    let mut ctx = SourceContext::new();
    let id = ctx.get_for_path("a".to_string()).id;
    let other = ctx.get_for_path("b".to_string()).id;
    let m = ctx.add_macro(Loc { src: Source::File(id), start: 5, end: 9 }, "q r".to_string());
    let x = Loc { src: Source::Macro(m), start: 2, end: 3 };
    let y = Loc { src: Source::File(id), start: 0, end: 1 };
    assert_eq!(ctx.combine_locs(x, y), ctx.combine_locs(y, x));
    assert_eq!(ctx.combine_locs(x, y), Some(Loc { src: Source::File(id), start: 0, end: 9 }));
    assert_eq!(ctx.combine_locs(x, x), Some(x));
    // different files never combine
    let z = Loc { src: Source::File(other), start: 0, end: 1 };
    assert_eq!(ctx.combine_locs(y, z), None);
    // a missing macro cannot be lifted
    let w = Loc { src: Source::Macro(my_lang::input::MacroId(40)), start: 0, end: 1 };
    assert_eq!(ctx.combine_locs(w, y), None);
    assert_eq!(ctx.combine_locs_slow(w, w), None);
    assert_eq!(ctx.combine_locs(w, w), Some(w));
}

#[test]
fn rendered_spans_name_each_source_once() {
    let mut ctx = SourceContext::new();
    let id = ctx.get_for_path("example.txt".to_string()).id;
    let text = "a + macro!(b + 1.2.3)\n";
    ctx.set_file_text(id, Ok(text.to_string())).unwrap();
    let m = ctx.add_macro(Loc { src: Source::File(id), start: 4, end: 21 }, "b + 1.2.3".to_string());
    let err = Located { value: "demo numeric parse failure", loc: Loc { src: Source::Macro(m), start: 4, end: 9 } };
    let mapped = ctx.add_context(err);
    assert_eq!(
        render(&mapped),
        "demo numeric parse failure\n\nIn Macro(MacroId(0)):\n --> line 1\n  | b + 1.2.3\n  |     ^^^^^\n\nIn File(FileId(0)):\n --> line 1\n  | a + macro!(b + 1.2.3)\n  |     ^^^^^^^^^^^^^^^^^\n"
    );
    // two spans in one source share its name
    let two = MappedError { inner: (), spans: vec![mapped.spans[1], mapped.spans[1]] };
    let shown = two.render_spans();
    assert_eq!(shown.matches("In File(FileId(0))").count(), 1);
    assert_eq!(shown.matches(" --> line 1").count(), 2);
}

#[test]
fn rendered_line_numbers_are_decimal() {
    let mut ctx = SourceContext::new();
    let id = ctx.get_for_path("long.txt".to_string()).id;
    let text = "\n".repeat(11) + "xyz";
    ctx.set_file_text(id, Ok(text.clone())).unwrap();
    let mapped = ctx.add_context(Located { value: 0, loc: Loc { src: Source::File(id), start: 12, end: 13 } });
    assert_eq!(mapped.spans[0].line, LineNum(12));
    assert_eq!(mapped.render_spans(), "\nIn File(FileId(0)):\n --> line 12\n  | xyz\n  |  ^\n");
}
