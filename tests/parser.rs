use recipe_parse::ast::{Block, Event, Item, ParserWarning};
use recipe_parse::parser::{build_ast, PullParser};
use recipe_parse::text::{Text, TextFragment};
use recipe_parse::token::{Extensions, Token, TokenKind};

/// A small lexer for the tests: the library takes tokens, not text.
fn lex(input: &str) -> Vec<Token> {
    let b = input.as_bytes();
    let mut out = Vec::new();
    let mut i = 0;
    while i < b.len() {
        let start = i;
        let c = b[i];
        let next = if i + 1 < b.len() { b[i + 1] } else { 0 };
        let kind = if c == b'\n' {
            i += 1;
            TokenKind::Newline
        } else if c == b' ' || c == b'\t' {
            while i < b.len() && (b[i] == b' ' || b[i] == b'\t') {
                i += 1;
            }
            TokenKind::Whitespace
        } else if c == b'-' && next == b'-' {
            while i < b.len() && b[i] != b'\n' {
                i += 1;
            }
            TokenKind::LineComment
        } else if c == b'[' && next == b'-' {
            i += 2;
            while i < b.len() && !(b[i] == b'-' && i + 1 < b.len() && b[i + 1] == b']') {
                i += 1;
            }
            i = (i + 2).min(b.len());
            TokenKind::BlockComment
        } else if c == b'>' && next == b'>' {
            i += 2;
            TokenKind::Meta
        } else if c == b'\\' && i + 1 < b.len() {
            i += 2;
            TokenKind::Escaped
        } else if c.is_ascii_digit() {
            while i < b.len() && b[i].is_ascii_digit() {
                i += 1;
            }
            if i + 1 < b.len() && b[i] == b'.' && b[i + 1].is_ascii_digit() {
                i += 1;
                while i < b.len() && b[i].is_ascii_digit() {
                    i += 1;
                }
                TokenKind::Float
            } else {
                TokenKind::Int
            }
        } else if c.is_ascii_alphabetic() || c == b'_' || c >= 0x80 {
            while i < b.len() && (b[i].is_ascii_alphanumeric() || b[i] == b'_' || b[i] >= 0x80) {
                i += 1;
            }
            TokenKind::Word
        } else {
            i += 1;
            match c {
                b'=' => TokenKind::Eq,
                b':' => TokenKind::Colon,
                b'|' => TokenKind::Or,
                b'*' => TokenKind::Star,
                b'%' => TokenKind::Percent,
                b'/' => TokenKind::Slash,
                b'-' => TokenKind::Minus,
                _ => TokenKind::Punctuation,
            }
        };
        out.push(Token::new(kind, start, i));
    }
    out
}

fn parser(input: &str, extensions: Extensions) -> PullParser<'_> {
    PullParser::new(input.as_bytes(), lex(input), extensions)
}

fn text_of(t: &Text) -> String {
    String::from_utf8(t.text()).unwrap()
}

#[test]
fn just_metadata() {
    let input = ">> entry: true\na test @step @salt{1%mg} more text\na test @step @salt{1%mg} more text\na test @step @salt{1%mg} more text\n>> entry2: uwu\na test @step @salt{1%mg} more text\n";
    let events = parser(input, Extensions::empty()).into_meta_iter();
    assert_eq!(
        events,
        vec![
            Event::Metadata {
                key: Text::from_bytes(b" entry".to_vec(), 2),
                value: Text::from_bytes(b" true".to_vec(), 10)
            },
            Event::Metadata {
                key: Text::from_bytes(b" entry2".to_vec(), 126),
                value: Text::from_bytes(b" uwu".to_vec(), 134)
            },
        ]
    );
}

#[test]
fn multiline_spaces() {
    let mut ext = Extensions::empty();
    ext.multiline_steps = true;
    let p = parser(
        "  This is a step           -- comment\n and this line continues  -- another comment",
        ext,
    );
    let (ast, warn, err) = build_ast(p.into_events()).into_tuple();

    // Only whitespace between line should be trimmed
    assert!(warn.is_empty());
    assert!(err.is_empty());
    assert_eq!(
        ast.unwrap().blocks,
        vec![Block::Step {
            is_text: false,
            items: vec![Item::Text({
                let mut t = Text::empty(0);
                t.append_str(b"  This is a step           ".to_vec(), 0);
                t.append_fragment(TextFragment::soft_break(b"\n".to_vec(), 37));
                t.append_str(b" and this line continues  ".to_vec(), 39);
                t
            })]
        }]
    );
}

#[test]
fn steps_without_multiline_are_one_per_line() {
    let p = parser("first step\nsecond step\n\n\nthird", Extensions::empty());
    let (ast, _, err) = build_ast(p.into_events()).into_tuple();
    assert!(err.is_empty());
    let blocks = ast.unwrap().blocks;
    assert_eq!(blocks.len(), 3);
    let texts: Vec<String> = blocks
        .iter()
        .map(|b| match b {
            Block::Step { items, .. } => match &items[0] {
                Item::Text(t) => text_of(t),
                _ => panic!("not text"),
            },
            _ => panic!("not a step"),
        })
        .collect();
    assert_eq!(texts, vec!["first step", "second step", "third"]);
}

#[test]
fn multiline_stops_at_blank_line_and_metadata() {
    let mut ext = Extensions::empty();
    ext.multiline_steps = true;
    let p = parser("one\ntwo\n\nthree\n>> k: v\n= Sec =\nfour", ext);
    let (ast, _, err) = build_ast(p.into_events()).into_tuple();
    assert!(err.is_empty());
    let blocks = ast.unwrap().blocks;
    assert_eq!(blocks.len(), 5);
    match &blocks[0] {
        Block::Step { items, .. } => match &items[0] {
            Item::Text(t) => assert_eq!(text_of(t), "one\ntwo"),
            _ => panic!("not text"),
        },
        _ => panic!("not a step"),
    }
    match &blocks[2] {
        Block::Metadata { key, value } => {
            assert_eq!(text_of(key), " k");
            assert_eq!(text_of(value), " v");
        }
        _ => panic!("not metadata"),
    }
    match &blocks[3] {
        Block::Section { name } => assert_eq!(text_of(name.as_ref().unwrap()), " Sec "),
        _ => panic!("not a section"),
    }
}

#[test]
fn blank_input_has_no_events() {
    let p = parser("\n  \n-- only a comment\n", Extensions::all());
    assert!(p.into_events().is_empty());
}

#[test]
fn step_events_are_balanced() {
    let p = parser("a step\n= S =\nanother", Extensions::empty());
    let events = p.into_events();
    let mut open = false;
    for e in &events {
        match e {
            Event::StartStep { .. } => {
                assert!(!open);
                open = true;
            }
            Event::EndStep { .. } => {
                assert!(open);
                open = false;
            }
            _ => {}
        }
    }
    assert!(!open);
}

#[test]
fn escapes_and_comments_in_text() {
    let p = parser("a \\@b [- x -] c", Extensions::empty());
    let (ast, _, _) = build_ast(p.into_events()).into_tuple();
    match &ast.unwrap().blocks[0] {
        Block::Step { items, .. } => match &items[0] {
            Item::Text(t) => assert_eq!(text_of(t), "a @b  c"),
            _ => panic!("not text"),
        },
        _ => panic!("not a step"),
    }
}

#[test]
fn plain_run_text_is_the_source() {
    let input = "some words, 12 and 3.5";
    let p = parser(input, Extensions::empty());
    let (ast, _, _) = build_ast(p.into_events()).into_tuple();
    match &ast.unwrap().blocks[0] {
        Block::Step { items, .. } => match &items[0] {
            Item::Text(t) => {
                assert_eq!(text_of(t), input);
                assert_eq!(t.fragments.len(), 1);
            }
            _ => panic!("not text"),
        },
        _ => panic!("not a step"),
    }
}

#[test]
fn empty_metadata_value_warns() {
    let p = parser(">> key:", Extensions::empty());
    let (ast, warn, err) = build_ast(p.into_events()).into_tuple();
    assert!(err.is_empty());
    assert_eq!(warn.len(), 1);
    assert!(matches!(warn[0], ParserWarning::EmptyMetadataValue { .. }));
    assert_eq!(ast.unwrap().blocks.len(), 1);
}

#[test]
fn metadata_without_colon_is_a_step() {
    let p = parser(">> no colon here", Extensions::empty());
    let (ast, _, _) = build_ast(p.into_events()).into_tuple();
    assert!(matches!(ast.unwrap().blocks[0], Block::Step { .. }));
}

#[test]
fn multiline_fragment_offsets() {
    let mut ext = Extensions::empty();
    ext.multiline_steps = true;
    let input = "  This is a step           -- comment\n and this line continues  -- another comment";
    let p = parser(input, ext);
    let (ast, _, _) = build_ast(p.into_events()).into_tuple();
    match &ast.unwrap().blocks[0] {
        Block::Step { items, .. } => match &items[0] {
            Item::Text(t) => {
                let offsets: Vec<usize> = t.fragments.iter().map(|f| f.offset).collect();
                // each fragment sits where its bytes start in the source
                assert_eq!(offsets, vec![0, 37, 38]);
                assert_eq!(t.fragments[1].kind, recipe_parse::text::FragmentKind::SoftBreak);
                assert_eq!(t.offset, 0);
            }
            _ => panic!("not text"),
        },
        _ => panic!("not a step"),
    }
}
