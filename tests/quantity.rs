use recipe_parse::ast::{Event, Located, Number, ParserError, ParserWarning, QuantityValue, Value};
use recipe_parse::block_parser::BlockParser;
use recipe_parse::quantity::parse_quantity;
use recipe_parse::text::Text;
use recipe_parse::token::{Extensions, Span, Token, TokenKind};

/// A small lexer for the tests: the library takes tokens, not text.
fn lex(input: &str) -> Vec<Token> {
    let b = input.as_bytes();
    let mut out = Vec::new();
    let mut i = 0;
    while i < b.len() {
        let start = i;
        let c = b[i];
        let next = if i + 1 < b.len() { b[i + 1] } else { 0 };
        let kind = if c == b'\n' {
            i += 1;
            TokenKind::Newline
        } else if c == b' ' || c == b'\t' {
            while i < b.len() && (b[i] == b' ' || b[i] == b'\t') {
                i += 1;
            }
            TokenKind::Whitespace
        } else if c == b'-' && next == b'-' {
            while i < b.len() && b[i] != b'\n' {
                i += 1;
            }
            TokenKind::LineComment
        } else if c == b'[' && next == b'-' {
            i += 2;
            while i < b.len() && !(b[i] == b'-' && i + 1 < b.len() && b[i + 1] == b']') {
                i += 1;
            }
            i = (i + 2).min(b.len());
            TokenKind::BlockComment
        } else if c == b'>' && next == b'>' {
            i += 2;
            TokenKind::Meta
        } else if c == b'\\' && i + 1 < b.len() {
            i += 2;
            TokenKind::Escaped
        } else if c.is_ascii_digit() {
            while i < b.len() && b[i].is_ascii_digit() {
                i += 1;
            }
            if i + 1 < b.len() && b[i] == b'.' && b[i + 1].is_ascii_digit() {
                i += 1;
                while i < b.len() && b[i].is_ascii_digit() {
                    i += 1;
                }
                TokenKind::Float
            } else {
                TokenKind::Int
            }
        } else if c.is_ascii_alphabetic() || c == b'_' || c >= 0x80 {
            while i < b.len() && (b[i].is_ascii_alphanumeric() || b[i] == b'_' || b[i] >= 0x80) {
                i += 1;
            }
            TokenKind::Word
        } else {
            i += 1;
            match c {
                b'=' => TokenKind::Eq,
                b':' => TokenKind::Colon,
                b'|' => TokenKind::Or,
                b'*' => TokenKind::Star,
                b'%' => TokenKind::Percent,
                b'/' => TokenKind::Slash,
                b'-' => TokenKind::Minus,
                _ => TokenKind::Punctuation,
            }
        };
        out.push(Token::new(kind, start, i));
    }
    out
}

struct Parsed {
    value: QuantityValue,
    unit: Option<Text>,
    separator: Option<Span>,
    errors: Vec<ParserError>,
    warnings: Vec<ParserWarning>,
}

fn t_ext(input: &str, extensions: Extensions) -> Parsed {
    let tokens = lex(input);
    let empty: [Token; 0] = [];
    let mut bp = BlockParser::new(0, &empty, input.as_bytes(), extensions);
    let q = parse_quantity(&mut bp, &tokens);
    let mut errors = Vec::new();
    let mut warnings = Vec::new();
    for ev in bp.finish() {
        match ev {
            Event::Error(e) => errors.push(e),
            Event::Warning(w) => warnings.push(w),
            _ => {}
        }
    }
    let quantity = q.quantity.into_inner();
    Parsed { value: quantity.value, unit: quantity.unit, separator: q.unit_separator, errors, warnings }
}

fn t(input: &str) -> Parsed {
    t_ext(input, Extensions::all())
}

fn as_f64(n: &Number) -> f64 {
    n.numer as f64 / n.denom as f64
}

fn number(v: &Located<Value>) -> f64 {
    match &v.inner {
        Value::Number(n) => as_f64(n),
        other => panic!("not a number: {other:?}"),
    }
}

fn text(v: &Located<Value>) -> String {
    match &v.inner {
        Value::Text(b) => String::from_utf8(b.clone()).unwrap(),
        other => panic!("not a text: {other:?}"),
    }
}

fn span(v: &Located<Value>) -> (usize, usize) {
    (v.span.start, v.span.end)
}

fn single(q: &QuantityValue) -> (&Located<Value>, Option<Span>) {
    match q {
        QuantityValue::Single { value, auto_scale } => (value, *auto_scale),
        other => panic!("not single: {other:?}"),
    }
}

fn many(q: &QuantityValue) -> &Vec<Located<Value>> {
    match q {
        QuantityValue::Many(v) => v,
        other => panic!("not many: {other:?}"),
    }
}

fn unit_text(u: &Option<Text>) -> String {
    String::from_utf8(u.as_ref().unwrap().text()).unwrap()
}

#[test]
fn basic_quantity() {
    let q = t("100%ml");
    let (v, auto) = single(&q.value);
    assert_eq!(number(v), 100.0);
    assert_eq!(span(v), (0, 3));
    assert_eq!(auto, None);
    assert_eq!(q.separator, Some(Span::new(3, 4)));
    assert_eq!(unit_text(&q.unit), "ml");
}

#[test]
fn no_separator_ext() {
    let q = t("100 ml");
    let (v, auto) = single(&q.value);
    assert_eq!(number(v), 100.0);
    assert_eq!(span(v), (0, 3));
    assert_eq!(auto, None);
    assert_eq!(q.separator, None);
    assert_eq!(unit_text(&q.unit), "ml");
    assert!(q.errors.is_empty() && q.warnings.is_empty());

    let mut ext = Extensions::all();
    ext.advanced_units = false;
    let q = t_ext("100 ml", ext);
    let (v, auto) = single(&q.value);
    assert_eq!(text(v), "100 ml");
    assert_eq!(span(v), (0, 6));
    assert_eq!(auto, None);
    assert_eq!(q.separator, None);
    assert!(q.unit.is_none());
    assert!(q.errors.is_empty() && q.warnings.is_empty());
}

#[test]
fn many_values() {
    let q = t("100|200|300%ml");
    let vs = many(&q.value);
    assert_eq!(vs.len(), 3);
    assert_eq!((number(&vs[0]), span(&vs[0])), (100.0, (0, 3)));
    assert_eq!((number(&vs[1]), span(&vs[1])), (200.0, (4, 7)));
    assert_eq!((number(&vs[2]), span(&vs[2])), (300.0, (8, 11)));
    assert_eq!(q.separator, Some(Span::new(11, 12)));
    let unit = q.unit.unwrap();
    assert_eq!(unit, Text::from_bytes(b"ml".to_vec(), 12));
    assert_eq!(unit.offset, 12);
    assert!(q.errors.is_empty() && q.warnings.is_empty());

    let q = t("100|2-3|str*%ml");
    let vs = many(&q.value);
    assert_eq!(vs.len(), 3);
    assert_eq!((number(&vs[0]), span(&vs[0])), (100.0, (0, 3)));
    match &vs[1].inner {
        Value::Range { start, end } => assert_eq!((as_f64(start), as_f64(end)), (2.0, 3.0)),
        other => panic!("not a range: {other:?}"),
    }
    assert_eq!(span(&vs[1]), (4, 7));
    assert_eq!((text(&vs[2]), span(&vs[2])), ("str".to_string(), (8, 11)));
    assert_eq!(q.separator, Some(Span::new(12, 13)));
    let unit = q.unit.unwrap();
    assert_eq!(unit, Text::from_bytes(b"ml".to_vec(), 13));
    assert_eq!(unit.offset, 13);
    assert_eq!(unit.fragments[0].offset, 13);
    assert_eq!(q.errors.len(), 1);
    assert!(q.warnings.is_empty());

    let q = t("100|");
    let vs = many(&q.value);
    assert_eq!(vs.len(), 2);
    assert_eq!((number(&vs[0]), span(&vs[0])), (100.0, (0, 3)));
    assert_eq!((text(&vs[1]), span(&vs[1])), (String::new(), (4, 4)));
    assert_eq!(q.errors.len(), 1);
    assert!(q.warnings.is_empty());
}

#[test]
fn range_value() {
    let q = t("2-3");
    let (v, auto) = single(&q.value);
    match &v.inner {
        Value::Range { start, end } => assert_eq!((as_f64(start), as_f64(end)), (2.0, 3.0)),
        other => panic!("not a range: {other:?}"),
    }
    assert_eq!(span(v), (0, 3));
    assert_eq!(auto, None);
    assert!(q.unit.is_none());
}

#[test]
fn range_value_no_extension() {
    let q = t_ext("2-3", Extensions::empty());
    let (v, auto) = single(&q.value);
    assert_eq!(text(v), "2-3");
    assert_eq!(span(v), (0, 3));
    assert_eq!(auto, None);
    assert!(q.unit.is_none());
}

#[test]
fn fraction_with_zero_denominator() {
    for input in ["3/0", "0/0", "1 3/0", "7 [- c -] 2 / 0"] {
        let q = t(input);
        let (v, _) = single(&q.value);
        assert_eq!(v.inner, Value::recover(), "{input}");
        assert_eq!(q.errors.len(), 1, "{input}");
        assert!(matches!(q.errors[0], ParserError::DivisionByZero { .. }), "{input}");
    }
    let q = t("3/0");
    assert_eq!(q.errors[0], ParserError::DivisionByZero { bad_bit: Span::new(0, 3) });
    let q = t("1 3/0");
    assert_eq!(q.errors[0], ParserError::DivisionByZero { bad_bit: Span::new(2, 5) });
}

#[test]
fn fractions_and_mixed_numbers() {
    let q = t("1/2");
    assert_eq!(number(single(&q.value).0), 0.5);
    let q = t("1 1/2%cup");
    assert_eq!(number(single(&q.value).0), 1.5);
    assert_eq!(single(&q.value).0.inner, Value::Number(Number { numer: 3, denom: 2 }));
    let q = t("2.25");
    assert_eq!(single(&q.value).0.inner, Value::Number(Number { numer: 225, denom: 100 }));
    assert!(q.errors.is_empty());
}

#[test]
fn auto_scale_single_value() {
    let q = t("100*");
    let (v, auto) = single(&q.value);
    assert_eq!(number(v), 100.0);
    assert_eq!(auto, Some(Span::new(3, 4)));
    assert!(q.errors.is_empty());

    let q = t("100*%g");
    let (_, auto) = single(&q.value);
    assert_eq!(auto, Some(Span::new(3, 4)));
    assert_eq!(unit_text(&q.unit), "g");
}

#[test]
fn auto_scale_with_many_values_conflicts() {
    let q = t("100|200*");
    let vs = many(&q.value);
    assert_eq!(vs.len(), 2);
    assert_eq!(q.errors.len(), 1);
    assert_eq!(q.errors[0], ParserError::QuantityScalingConflict { bad_bit: Span::new(3, 8) });
}

#[test]
fn empty_unit_is_reported() {
    let q = t("100%");
    assert!(q.unit.is_none());
    assert_eq!(q.separator, Some(Span::new(3, 4)));
    assert_eq!(q.errors.len(), 1);
    assert!(matches!(q.errors[0], ParserError::ComponentPartInvalid { what: "unit", .. }));

    let q = t("100%  ");
    assert!(q.unit.is_none());
    assert_eq!(q.errors.len(), 1);
}

#[test]
fn integer_too_large() {
    let q = t("99999999999%g");
    let (v, _) = single(&q.value);
    assert_eq!(v.inner, Value::recover());
    assert_eq!(q.errors, vec![ParserError::ParseInt { bad_bit: Span::new(0, 11) }]);
}

#[test]
fn decimal_too_precise() {
    let q = t("1.00000000000000000000001%g");
    let (v, _) = single(&q.value);
    assert_eq!(v.inner, Value::recover());
    assert_eq!(q.errors, vec![ParserError::ParseFloat { bad_bit: Span::new(0, 25) }]);
}

#[test]
fn text_after_auto_scale_is_free_text() {
    let q = t("100*abc");
    let (v, auto) = single(&q.value);
    assert_eq!(text(v), "100*abc");
    assert_eq!(auto, None);
    assert!(q.unit.is_none());
}

#[test]
fn advanced_needs_space_before_unit() {
    // no white space before the unit: the regular grammar reads it as text
    let q = t("100ml");
    let (v, _) = single(&q.value);
    assert_eq!(text(v), "100ml");
    assert!(q.unit.is_none());
    // a value that is no number is not taken by the advanced grammar
    let q = t("a lot");
    let (v, _) = single(&q.value);
    assert_eq!(text(v), "a lot");
}

#[test]
fn malformed_advanced_value_reports_and_still_parses() {
    // the advanced attempt reports the division by zero and yields a value
    let q = t("1/0 kg");
    let (v, _) = single(&q.value);
    assert_eq!(v.inner, Value::recover());
    assert_eq!(unit_text(&q.unit), "kg");
    assert_eq!(q.errors.len(), 1);
}

#[test]
fn error_labels_and_help() {
    let e = ParserError::DivisionByZero { bad_bit: Span::new(0, 3) };
    assert_eq!(e.labels(), vec![(Span::new(0, 3), None)]);
    assert_eq!(e.help(), Some("Change this please, we don't want an infinite amount of anything"));
    assert_eq!(e.code(), Some("parser"));

    let q = t("100%");
    let labels = q.errors[0].labels();
    assert_eq!(labels, vec![(Span::new(3, 4), Some("remove this")), (Span::new(4, 4), Some("or add unit here"))]);
    assert_eq!(q.errors[0].help(), None);

    let w = ParserWarning::ComponentPartIgnored {
        container: "ingredient",
        what: "note",
        ignored: Span::new(5, 9),
        help: Some("remove it"),
    };
    assert_eq!(w.labels(), vec![(Span::new(5, 9), Some("this is ignored"))]);
    assert_eq!(w.help(), Some("remove it"));
    assert_eq!(w.code(), Some("parser"));
}

#[test]
fn rejected_advanced_attempt_keeps_its_error() {
    // the advanced attempt reads "1/0 " but finds no unit: its error stays,
    // and the regular grammar reports the same fraction again
    let q = t("1/0 ");
    assert_eq!(
        q.errors,
        vec![
            ParserError::DivisionByZero { bad_bit: Span::new(0, 3) },
            ParserError::DivisionByZero { bad_bit: Span::new(0, 3) }
        ]
    );
    let mut ext = Extensions::all();
    ext.advanced_units = false;
    let q = t_ext("1/0 ", ext);
    assert_eq!(q.errors.len(), 1);
}

#[test]
fn empty_value_error_marks_the_value() {
    let q = t("100|");
    match &q.errors[0] {
        ParserError::ComponentPartInvalid { container, what, reason, labels, help } => {
            assert_eq!((*container, *what, *reason), ("quantity", "value", "is empty"));
            assert_eq!(labels, &vec![(Span::new(4, 4), Some("empty value here"))]);
            assert!(help.is_none());
        }
        other => panic!("unexpected error: {other:?}"),
    }
}

#[test]
fn numbers_compare_by_value() {
    let a = Number { numer: 400, denom: 2 };
    assert!(a.equals(&Number::integer(200)));
    assert!(!a.equals(&Number::integer(201)));
    assert_ne!(a, Number::integer(200));
}
