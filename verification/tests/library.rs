use fla::ast::Item;
use fla::ast::Key;
use fla::ast::Speech;
use fla::ast::Value;
use fla::builder::build_ast;
use fla::builder::clean_text;
use fla::builder::parse;
use fla::cst::PairCst;
use fla::cst::SegCst;
use fla::cst::ValueCst;
use fla::parser::parse_concrete;
use fla::render::build;
use fla::render::render_debug;
use fla::render::RenderError;

fn parse_ok(s: &str) -> Vec<Item> {
    match parse(s) {
        Ok(root) => root,
        Err(e) => panic!("parse failed at {}", e.pos),
    }
}

#[test]
fn scenario_build_single_pair() {
    let root = parse_ok("hello { n { a greeting } text line here }");
    let out = build(&root).unwrap();
    assert_eq!(
        out,
        "- hello #card #start_with_h\n    - ==n.== a greeting\n    - text line here\n"
    );
}

#[test]
fn scenario_format_sorts_pairs() {
    let root = parse_ok("zebra { v { run } }\napple { n { fruit } }");
    let out = fla::render::format(root);
    let apple = out.find("apple").unwrap();
    let zebra = out.find("zebra").unwrap();
    assert!(apple < zebra);
    assert_eq!(
        out,
        "apple {\n    n {\n        fruit\n    }\n}\n\nzebra {\n    v {\n        run\n    }\n}\n\n"
    );
}

#[test]
fn parse_structure_of_simple_pair() {
    let root = parse_ok("hello { n { a greeting } text line here }");
    assert_eq!(root.len(), 1);
    let Item::Pair(p) = &root[0];
    assert_eq!(p.key.len(), 1);
    match &p.key[0] {
        Key::Text(s) => assert_eq!(s, "hello"),
        Key::Cloze(_) => panic!("expected a text segment"),
    }
    assert_eq!(p.value.len(), 2);
    match &p.value[0] {
        Value::Node(n) => {
            assert!(matches!(n.speech, Speech::N));
            assert_eq!(n.text, "a greeting");
        }
        Value::Text(_) => panic!("expected a node"),
    }
    match &p.value[1] {
        Value::Text(t) => assert_eq!(t, "text line here"),
        Value::Node(_) => panic!("expected free text"),
    }
}

#[test]
fn cloze_key_segments() {
    let root = parse_ok("ab{{cd}}ef { }");
    let Item::Pair(p) = &root[0];
    assert_eq!(p.key.len(), 3);
    assert!(matches!(&p.key[0], Key::Text(s) if s == "ab"));
    assert!(matches!(&p.key[1], Key::Cloze(s) if s == "cd"));
    assert!(matches!(&p.key[2], Key::Text(s) if s == "ef"));
    let md = build(&root).unwrap();
    assert_eq!(md, "- ab {{cloze cd}} ef #card #start_with_a\n");
    let fmt = fla::render::format(root);
    assert_eq!(fmt, "ab {{cd}} ef {\n}\n\n");
}

#[test]
fn format_round_trip_is_idempotent() {
    let inputs = [
        "hello { n { a greeting } text line here }",
        "zebra { v { run } }\napple { n { fruit } }",
        "ab{{cd}}ef { }",
        "word {}",
        "k {\n  line one  \n\n  line two  \n}",
        "b {}\n{{a}} {}",
        "dup { one }\ndup { two }",
    ];
    for input in inputs {
        let once = fla::render::format(parse_ok(input));
        let again = fla::render::format(parse_ok(&once));
        assert_eq!(once, again, "not idempotent for {:?}", input);
    }
}

#[test]
fn format_ties_keep_source_order() {
    let root = parse_ok("dup { one }\ndup { two }");
    let out = fla::render::format(root);
    assert_eq!(out, "dup {\n    one\n}\n\ndup {\n    two\n}\n\n");
}

#[test]
fn format_text_segment_sorts_before_cloze() {
    let root = parse_ok("b {}\n{{a}} {}");
    let out = fla::render::format(root);
    assert_eq!(out, "b {\n}\n\n {{a}}  {\n}\n\n");
}

#[test]
fn empty_body_renders_header_only() {
    let root = parse_ok("word {}");
    let md = build(&root).unwrap();
    assert_eq!(md, "- word #card #start_with_w\n");
    let fmt = fla::render::format(root);
    assert_eq!(fmt, "word {\n}\n\n");
}

#[test]
fn multiline_blocks_trim_each_line_and_keep_blanks() {
    let root = parse_ok("k {\n  line one  \n\n  line two  \n}");
    let Item::Pair(p) = &root[0];
    assert_eq!(p.value.len(), 1);
    match &p.value[0] {
        Value::Text(t) => assert_eq!(t, "line one  \n\n  line two"),
        Value::Node(_) => panic!("expected free text"),
    }
    let md = build(&root).unwrap();
    assert_eq!(md, "- k #card #start_with_k\n    - line one\n      \n      line two\n");
    let fmt = fla::render::format(root);
    assert_eq!(fmt, "k {\n    line one\n    \n    line two\n}\n\n");
}

#[test]
fn speech_tokens_round_trip() {
    for (tok, sp) in [
        ("n", Speech::N),
        ("v", Speech::V),
        ("o", Speech::O),
        ("adj", Speech::Adj),
        ("adv", Speech::Adv),
        ("prep", Speech::Prep),
        ("pron", Speech::Pron),
    ] {
        assert_eq!(sp.as_str(), tok);
        let input = format!("k {{ {} {{ body }} }}", tok);
        let root = parse_ok(&input);
        let Item::Pair(p) = &root[0];
        match &p.value[0] {
            Value::Node(n) => assert_eq!(n.speech.as_str(), tok),
            Value::Text(_) => panic!("expected a node"),
        }
        let fmt = fla::render::format(root);
        assert_eq!(fmt, format!("k {{\n    {} {{\n        body\n    }}\n}}\n\n", tok));
    }
}

#[test]
fn token_prefix_words_are_plain_text() {
    let root = parse_ok("k { nothing else }");
    let Item::Pair(p) = &root[0];
    assert_eq!(p.value.len(), 1);
    assert!(matches!(&p.value[0], Value::Text(t) if t == "nothing else"));
    let root2 = parse_ok("k { adjective cool }");
    let Item::Pair(p2) = &root2[0];
    assert!(matches!(&p2.value[0], Value::Text(t) if t == "adjective cool"));
}

#[test]
fn whitespace_only_key_segment_is_dropped() {
    let root = parse_ok("  a{{  }}b  { }");
    let Item::Pair(p) = &root[0];
    assert_eq!(p.key.len(), 2);
    assert!(matches!(&p.key[0], Key::Text(s) if s == "a"));
    assert!(matches!(&p.key[1], Key::Text(s) if s == "b"));
}

#[test]
fn syntax_errors() {
    assert!(parse("{ }").is_err());
    assert!(parse("abc").is_err());
    assert!(parse("a { n { } ").is_err());
    assert!(parse("a } b").is_err());
    assert!(parse("a {{x} {}").is_err());
    let e = parse("abc").unwrap_err();
    assert!(e.pos <= 3);
}

#[test]
fn empty_and_whitespace_documents_parse_to_nothing() {
    assert!(parse_ok("").is_empty());
    assert!(parse_ok("  \n\t ").is_empty());
    let out = fla::render::format(parse_ok("  \n "));
    assert_eq!(out, "");
    assert_eq!(build(&parse_ok("")).unwrap(), "");
}

#[test]
fn build_reports_empty_key() {
    // the only cloze segment is whitespace, so the cleaned key is empty
    let root = parse_ok("{{ }} { }");
    let Item::Pair(p) = &root[0];
    assert!(p.key.is_empty());
    assert_eq!(build(&root).unwrap_err(), RenderError::EmptyKey);
}

#[test]
fn build_reports_empty_first_segment_text() {
    // such a pair cannot come out of the parser; a hand-built tree can hold it
    let root = vec![Item::Pair(fla::ast::Pair {
        key: vec![Key::Text(String::new())],
        value: vec![],
    })];
    assert_eq!(build(&root).unwrap_err(), RenderError::EmptyKeyText);
}

#[test]
fn build_reports_empty_node_text() {
    let root = parse_ok("a { n { } }");
    assert_eq!(build(&root).unwrap_err(), RenderError::EmptyBlock);
    // the canonical rewrite still renders such a node
    assert_eq!(fla::render::format(root), "a {\n    n {\n    }\n}\n\n");
}

#[test]
fn clean_text_trims_and_drops_whitespace() {
    assert_eq!(clean_text("  hi  "), Some("hi"));
    assert_eq!(clean_text("hi"), Some("hi"));
    assert_eq!(clean_text(" \t\r\n"), None);
    assert_eq!(clean_text(""), None);
}

#[test]
fn concrete_tree_keeps_raw_spans() {
    let cst = parse_concrete(" hello { n { x } }").unwrap();
    assert_eq!(cst.len(), 1);
    assert_eq!(cst[0].key.len(), 1);
    match &cst[0].key[0] {
        SegCst::Text(s) => assert_eq!(s, "hello "),
        SegCst::Cloze(_) => panic!("expected raw text"),
    }
    // the raw tree keeps even the whitespace runs between the values
    assert_eq!(cst[0].value.len(), 3);
    assert!(matches!(&cst[0].value[0], ValueCst::Text(s) if s == " "));
    match &cst[0].value[1] {
        ValueCst::Node(tok, txt) => {
            assert_eq!(tok, "n");
            assert_eq!(txt, " x ");
        }
        ValueCst::Text(_) => panic!("expected a node"),
    }
    assert!(matches!(&cst[0].value[2], ValueCst::Text(s) if s == " "));
}

#[test]
fn build_ast_refuses_unknown_tag_token() {
    let good = PairCst {
        key: vec![SegCst::Text(String::from("a"))],
        value: vec![ValueCst::Node(String::from("n"), String::from("t"))],
    };
    assert!(build_ast(&vec![good]).is_some());
    let bad = PairCst {
        key: vec![SegCst::Text(String::from("a"))],
        value: vec![ValueCst::Node(String::from("xyz"), String::from("t"))],
    };
    assert!(build_ast(&vec![bad]).is_none());
}

#[test]
fn debug_dump_is_deterministic_and_complete() {
    let root = parse_ok("hello { n { a greeting } text line here }");
    let once = render_debug(&root);
    let again = render_debug(&root);
    assert_eq!(once, again);
    assert_eq!(
        once,
        "pair\nkey text \"hello\"\nvalue node n \"a greeting\"\nvalue text \"text line here\"\nend\n"
    );
}

#[test]
fn debug_dump_escapes_payloads() {
    let root = parse_ok("k {\na\nb\n}");
    let dump = render_debug(&root);
    assert_eq!(dump, "pair\nkey text \"k\"\nvalue text \"a\\nb\"\nend\n");
}

#[test]
fn comments_are_not_part_of_the_grammar() {
    // a stray marker is ordinary key or value text, never dropped silently
    let root = parse_ok("k { # note }");
    let Item::Pair(p) = &root[0];
    assert!(matches!(&p.value[0], Value::Text(t) if t == "# note"));
}

