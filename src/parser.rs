use vstd::prelude::*;
use std::collections::VecDeque;
use crate::ast::{Ast, Block, Event, Item, Located, ParserError, ParserWarning};
use crate::block_parser::{
    lemma_grew_refl, lemma_grew_trans, lemma_same_events, lemma_wf_subrange, text_of, tokens_wf, BlockParser,
};

use crate::token::{Extensions, Token, TokenKind};

verus! {

/// White space, comments and line breaks: a line made of these alone is
/// blank.
pub open spec fn is_empty_kind(k: TokenKind) -> bool {
    k == TokenKind::Whitespace || k == TokenKind::BlockComment || k == TokenKind::LineComment
        || k == TokenKind::Newline
}

pub fn is_empty_token(tok: &Token) -> (r: bool)
    ensures
        r == is_empty_kind(tok.kind),
{
    match tok.kind {
        TokenKind::Whitespace | TokenKind::BlockComment | TokenKind::LineComment
        | TokenKind::Newline => true,
        _ => false,
    }
}

/// A line that starts a metadata entry or a section is one line long.
pub open spec fn is_single_line(first: Option<TokenKind>) -> bool {
    first == Some(TokenKind::Meta) || first == Some(TokenKind::Eq)
}

pub fn is_single_line_marker(first: Option<TokenKind>) -> (r: bool)
    ensures
        r == is_single_line(first),
{
    match first {
        Some(TokenKind::Meta) | Some(TokenKind::Eq) => true,
        _ => false,
    }
}

/// Whether an event opens or closes a step.
pub open spec fn is_step_event(e: Event) -> bool {
    e is StartStep || e is EndStep
}

/// Whether a step is open after `e`, given whether one was open before;
/// `None` when `e` opens a step inside a step, or closes one that is not
/// open.
pub open spec fn event_state(e: Event, open: bool) -> Option<bool> {
    match e {
        Event::StartStep { .. } => if open {
            None
        } else {
            Some(true)
        },
        Event::EndStep { .. } => if open {
            Some(false)
        } else {
            None
        },
        _ => Some(open),
    }
}

/// Whether a step is open after `events`, from the state `open`.
pub open spec fn step_state(events: Seq<Event>, open: bool) -> Option<bool>
    decreases events.len(),
{
    if events.len() == 0 {
        Some(open)
    } else {
        match event_state(events[0], open) {
            None => None,
            Some(o) => step_state(events.drop_first(), o),
        }
    }
}

/// Every step that starts ends before the next one starts, and the last
/// one ends: steps do not nest.
pub open spec fn steps_balanced(events: Seq<Event>) -> bool {
    step_state(events, false) == Some(false)
}

pub proof fn lemma_state_concat(a: Seq<Event>, b: Seq<Event>, open: bool)
    ensures
        step_state(a + b, open) == match step_state(a, open) {
            None => None,
            Some(o) => step_state(b, o),
        },
    decreases a.len(),
{
    if a.len() == 0 {
        assert(a + b =~= b);
    } else {
        assert((a + b).drop_first() =~= a.drop_first() + b);
        assert((a + b)[0] == a[0]);
        match event_state(a[0], open) {
            None => {},
            Some(o) => lemma_state_concat(a.drop_first(), b, o),
        }
    }
}

pub proof fn lemma_no_steps(events: Seq<Event>, open: bool)
    requires
        forall|i: int| 0 <= i < events.len() ==> !is_step_event(#[trigger] events[i]),
    ensures
        step_state(events, open) == Some(open),
    decreases events.len(),
{
    if events.len() > 0 {
        assert(!is_step_event(events[0]));
        assert forall|i: int| 0 <= i < events.drop_first().len() implies !is_step_event(
            #[trigger] events.drop_first()[i],
        ) by {
            assert(events.drop_first()[i] == events[i + 1]);
        }
        lemma_no_steps(events.drop_first(), open);
    }
}

/// The events of a step: its start, at most one text, its end.
proof fn lemma_step_events(events: Seq<Event>)
    requires
        events.len() == 2 || events.len() == 3,
        events[0] is StartStep,
        events.last() is EndStep,
        events.len() == 3 ==> events[1] is Text,
    ensures
        steps_balanced(events),
{
    reveal_with_fuel(step_state, 4);
    let d1 = events.drop_first();
    let d2 = d1.drop_first();
    if events.len() == 3 {
        assert(d1[0] == events[1]);
        assert(d2[0] == events[2]);
        assert(d2.drop_first().len() == 0);
    } else {
        assert(d1[0] == events[1]);
        assert(d2.len() == 0);
    }
}

/// One past the first line break at or after `i`, or the end.
pub open spec fn line_end(t: Seq<Token>, i: int) -> int
    decreases t.len() - i,
{
    if i >= t.len() {
        i
    } else if t[i].kind == TokenKind::Newline {
        i + 1
    } else {
        line_end(t, i + 1)
    }
}

/// The start of the first line that is not blank, scanning from `i` in
/// the line that starts at `ls`; the end when every line left is blank.
pub open spec fn blank_skip(t: Seq<Token>, ls: int, i: int) -> int
    decreases t.len() - i,
{
    if i >= t.len() {
        t.len() as int
    } else if !is_empty_kind(t[i].kind) {
        ls
    } else if t[i].kind == TokenKind::Newline {
        blank_skip(t, i + 1, i + 1)
    } else {
        blank_skip(t, ls, i + 1)
    }
}

/// Whether a token kind starts a metadata entry or a section.
pub open spec fn is_marker(k: TokenKind) -> bool {
    k == TokenKind::Meta || k == TokenKind::Eq
}

/// How a multiline step goes on from the line that starts at `ls`
/// (scanning at `i`, `seen` telling whether the line holds a non-blank
/// token): the end of the block and where the next block starts. A line
/// that starts a metadata entry or a section ends the block and is left;
/// a blank line ends it and is consumed.
pub open spec fn cont_end(t: Seq<Token>, ls: int, i: int, seen: bool) -> (int, int)
    decreases t.len() - i,
{
    if i >= t.len() {
        if seen {
            (i, i)
        } else {
            (ls, i)
        }
    } else if i == ls && is_marker(t[i].kind) {
        (ls, ls)
    } else if t[i].kind == TokenKind::Newline {
        if seen {
            cont_end(t, i + 1, i + 1, false)
        } else {
            (ls, i + 1)
        }
    } else {
        cont_end(t, ls, i + 1, seen || !is_empty_kind(t[i].kind))
    }
}

/// `e` moved back over line breaks, not past `s`.
pub open spec fn trim_nl(t: Seq<Token>, s: int, e: int) -> int
    decreases e,
{
    if e > s && e > 0 && t[e - 1].kind == TokenKind::Newline {
        trim_nl(t, s, e - 1)
    } else {
        e
    }
}

/// Whether a block is left from position `p`: some line is not blank.
pub open spec fn has_block(t: Seq<Token>, p: int) -> bool {
    blank_skip(t, p, p) < t.len()
}

/// The next block from position `p`: its start, its end without trailing
/// line breaks, and where the block after it starts. Blank lines before it
/// are skipped; with multiline steps, a block that does not start with a
/// metadata entry or a section goes on over the non-blank lines that
/// follow.
pub open spec fn block_bounds(t: Seq<Token>, p: int, multiline: bool) -> (int, int, int) {
    let s = blank_skip(t, p, p);
    let e1 = line_end(t, s);
    let (e, n) = if multiline && !is_marker(t[s].kind) {
        cont_end(t, e1, e1, false)
    } else {
        (e1, e1)
    };
    (s, trim_nl(t, s, e), n)
}

proof fn lemma_line_end_ge(t: Seq<Token>, i: int)
    requires
        0 <= i,
    ensures
        line_end(t, i) >= i,
        i < t.len() ==> line_end(t, i) > i,
        line_end(t, i) <= t.len() || i > t.len(),
    decreases t.len() - i,
{
    if i < t.len() && t[i].kind != TokenKind::Newline {
        lemma_line_end_ge(t, i + 1);
    }
}

proof fn lemma_blank_scan(t: Seq<Token>, ls: int, i: int)
    requires
        0 <= ls <= i <= t.len(),
        forall|j: int| i <= j < line_end(t, i) ==> is_empty_kind(#[trigger] t[j].kind),
    ensures
        blank_skip(t, ls, i) == if line_end(t, i) < t.len() || (line_end(t, i) > i && t[line_end(t, i) - 1].kind
            == TokenKind::Newline) {
            blank_skip(t, line_end(t, i), line_end(t, i))
        } else {
            t.len() as int
        },
    decreases t.len() - i,
{
    lemma_line_end_ge(t, i);
    if i < t.len() {
        assert(is_empty_kind(t[i].kind));
        if t[i].kind != TokenKind::Newline {
            lemma_line_end_ge(t, i + 1);
            lemma_blank_scan(t, ls, i + 1);
        }
    }
}

proof fn lemma_nonblank_scan(t: Seq<Token>, ls: int, i: int, j: int)
    requires
        0 <= ls <= i <= j < line_end(t, i),
        j < t.len(),
        !is_empty_kind(t[j].kind),
    ensures
        blank_skip(t, ls, i) == ls,
    decreases t.len() - i,
{
    if i < t.len() && is_empty_kind(t[i].kind) {
        if t[i].kind == TokenKind::Newline {
            assert(line_end(t, i) == i + 1);
        } else {
            lemma_nonblank_scan(t, ls, i + 1, j);
        }
    }
}

proof fn lemma_cont_scan(t: Seq<Token>, ls: int, i: int, seen: bool)
    requires
        0 <= ls <= i <= t.len(),
        i == ls ==> i >= t.len() || !is_marker(t[i].kind),
    ensures
        cont_end(t, ls, i, seen) == if seen || exists|j: int| i <= j < line_end(t, i) && !is_empty_kind(
            #[trigger] t[j].kind,
        ) {
            cont_end(t, line_end(t, i), line_end(t, i), false)
        } else {
            (ls, line_end(t, i))
        },
    decreases t.len() - i,
{
    if i < t.len() {
        if t[i].kind == TokenKind::Newline {
            assert(line_end(t, i) == i + 1);
            if !seen {
                assert(!exists|j: int| i <= j < line_end(t, i) && !is_empty_kind(#[trigger] t[j].kind));
            }
        } else {
            lemma_cont_scan(t, ls, i + 1, seen || !is_empty_kind(t[i].kind));
            lemma_line_end_ge(t, i + 1);
            assert(line_end(t, i) == line_end(t, i + 1));
            if !seen && !is_empty_kind(t[i].kind) {
                assert(i < line_end(t, i));
            }
            if exists|j: int| i + 1 <= j < line_end(t, i + 1) && !is_empty_kind(#[trigger] t[j].kind) {
                let j = choose|j: int| i + 1 <= j < line_end(t, i + 1) && !is_empty_kind(#[trigger] t[j].kind);
                assert(i <= j < line_end(t, i));
            }
            if exists|j: int| i <= j < line_end(t, i) && !is_empty_kind(#[trigger] t[j].kind) {
                let j = choose|j: int| i <= j < line_end(t, i) && !is_empty_kind(#[trigger] t[j].kind);
                if j > i {
                    assert(i + 1 <= j < line_end(t, i + 1));
                }
            }
        }
    }
}

proof fn lemma_cont_ge(t: Seq<Token>, ls: int, i: int, seen: bool)
    requires
        0 <= ls <= i,
    ensures
        cont_end(t, ls, i, seen).0 >= ls,
        cont_end(t, ls, i, seen).1 >= i,
        i <= t.len() ==> cont_end(t, ls, i, seen).1 <= t.len(),
        cont_end(t, ls, i, seen).0 <= cont_end(t, ls, i, seen).1,
    decreases t.len() - i,
{
    if i < t.len() && !(i == ls && is_marker(t[i].kind)) {
        if t[i].kind == TokenKind::Newline {
            if seen {
                lemma_cont_ge(t, i + 1, i + 1, false);
            }
        } else {
            lemma_cont_ge(t, ls, i + 1, seen || !is_empty_kind(t[i].kind));
        }
    }
}

proof fn lemma_trim_nl(t: Seq<Token>, s: int, e: int, j: int)
    requires
        0 <= s <= j < e <= t.len(),
        t[j].kind != TokenKind::Newline,
    ensures
        j < trim_nl(t, s, e) <= e,
    decreases e,
{
    if e > s && t[e - 1].kind == TokenKind::Newline {
        lemma_trim_nl(t, s, e - 1, j);
    }
}

/// Whether `evs` are the events of the blocks from position `p` on, in
/// order: those of the next block, then those of the blocks after it.
#[verifier::opaque]
pub open spec fn events_from(input: Seq<u8>, t: Seq<Token>, p: int, multiline: bool, evs: Seq<Event>) -> bool
    decreases t.len() - p,
{
    if !has_block(t, p) {
        evs.len() == 0
    } else {
        let bb = block_bounds(t, p, multiline);
        if bb.2 <= p || bb.2 > t.len() {
            false
        } else {
            exists|k: int|
                0 < k <= evs.len() && block_events(input, t.subrange(bb.0, bb.1), evs.subrange(0, k))
                    && events_from(input, t, bb.2, multiline, evs.subrange(k, evs.len() as int))
        }
    }
}

proof fn lemma_events_step(input: Seq<u8>, t: Seq<Token>, p: int, ml: bool, b: Seq<Event>, y: Seq<Event>)
    requires
        has_block(t, p),
        p < block_bounds(t, p, ml).2 <= t.len(),
        b.len() > 0,
        block_events(input, t.subrange(block_bounds(t, p, ml).0, block_bounds(t, p, ml).1), b),
        events_from(input, t, block_bounds(t, p, ml).2, ml, y),
    ensures
        events_from(input, t, p, ml, b + y),
{
    reveal(events_from);
    let by = b + y;
    assert(by.subrange(0, b.len() as int) =~= b);
    assert(by.subrange(b.len() as int, by.len() as int) =~= y);
}

proof fn lemma_events_extend(
    input: Seq<u8>,
    t: Seq<Token>,
    p0: int,
    ml: bool,
    x: Seq<Event>,
    b: Seq<Event>,
    p: int,
)
    requires
        forall|y: Seq<Event>| events_from(input, t, p, ml, y) ==> events_from(input, t, p0, ml, x + y),
        has_block(t, p),
        p < block_bounds(t, p, ml).2 <= t.len(),
        b.len() > 0,
        block_events(input, t.subrange(block_bounds(t, p, ml).0, block_bounds(t, p, ml).1), b),
    ensures
        forall|y: Seq<Event>| events_from(input, t, block_bounds(t, p, ml).2, ml, y) ==> events_from(
            input,
            t,
            p0,
            ml,
            (x + b) + y,
        ),
{
    assert forall|y: Seq<Event>| events_from(input, t, block_bounds(t, p, ml).2, ml, y) implies events_from(
        input,
        t,
        p0,
        ml,
        (x + b) + y,
    ) by {
        lemma_events_step(input, t, p, ml, b, y);
        assert((x + b) + y =~= x + (b + y));
    }
}

/// What `pull_line` learnt of the line it took.
pub struct LineInfo {
    pub is_empty: bool,
    pub is_single_line: bool,
}

/// The first position at or after `i` that holds a `:`.
pub open spec fn colon_at(t: Seq<Token>, i: int) -> int
    decreases t.len() - i,
{
    if i >= t.len() || t[i].kind == TokenKind::Colon {
        i
    } else {
        colon_at(t, i + 1)
    }
}

proof fn lemma_colon_at(t: Seq<Token>, i: int, e: int)
    requires
        0 <= i <= e <= t.len(),
        forall|j: int| i <= j < e ==> (#[trigger] t[j]).kind != TokenKind::Colon,
        e == t.len() || t[e].kind == TokenKind::Colon,
    ensures
        colon_at(t, i) == e,
    decreases e - i,
{
    if i < e {
        lemma_colon_at(t, i + 1, e);
    }
}

/// Reads a metadata entry, `>> key: value`: the key runs to the first `:`,
/// the value is the rest. `None`, with nothing consumed past the key, when
/// there is no `:`.
#[verifier::rlimit(60)]
pub fn metadata_entry(bp: &mut BlockParser) -> (r: Option<Event>)
    requires
        old(bp).wf(),
        old(bp).next_kind() == TokenKind::Meta,
    ensures
        final(bp).grew(old(bp)),
        r.is_some() ==> final(bp).current == old(bp).tokens@.len() && r.unwrap() is Metadata,
        final(bp).events@.len() <= old(bp).events@.len() + 1,
        final(bp).events@.len() > old(bp).events@.len() ==> final(bp).events@.last() is Warning,
        r.is_none() ==> final(bp).events@ == old(bp).events@,
        ({
            let t = old(bp).tokens@;
            let k = colon_at(t, old(bp).current + 1);
            &&& r.is_some() <==> k < t.len()
            &&& r matches Some(Event::Metadata { key, value }) ==> key.view_bytes() == text_of(
                old(bp).input@,
                t.subrange(old(bp).current + 1, k),
            ) && value.view_bytes() == text_of(old(bp).input@, t.subrange(k + 1, t.len() as int))
        }),
{
    let ghost b0 = *bp;
    let meta = bp.bump(TokenKind::Meta);
    let colon = [TokenKind::Colon];
    let start = bp.current;
    let found = bp.until(colon.as_slice());
    proof {
        let t = b0.tokens@;
        assert(colon@[0] == TokenKind::Colon);
        assert forall|j: int| start <= j < bp.current implies (#[trigger] t[j]).kind != TokenKind::Colon by {
            assert(!colon@.contains(t[j].kind));
        }
        if found.is_none() {
            assert forall|j: int| start <= j < t.len() implies (#[trigger] t[j]).kind != TokenKind::Colon by {
                assert(!colon@.contains(t[j].kind));
            }
            lemma_colon_at(t, start as int, t.len() as int);
        } else {
            assert(colon@.contains(t[bp.current as int].kind));
            lemma_colon_at(t, start as int, bp.current as int);
        }
    }
    let key = match found {
        Some(k) => k,
        None => {
            proof { lemma_same_events(&b0, bp); }
            return None;
        },
    };
    proof { lemma_same_events(&b0, bp); }
    let ghost b2 = *bp;
    let ev = metadata_value(bp, meta, key, start);
    proof { lemma_grew_trans(&b0, &b2, bp); }
    Some(ev)
}

/// Reads the rest of a metadata entry, from its `:`: the key is `key`,
/// the tokens from `start`, just after the `>>` token `meta`.
#[verifier::rlimit(60)]
fn metadata_value(bp: &mut BlockParser, meta: Token, key: &[Token], start: usize) -> (r: Event)
    requires
        old(bp).wf(),
        0 < start <= old(bp).current,
        old(bp).next_kind() == TokenKind::Colon,
        old(bp).tokens@[start - 1] == meta,
        key@ == old(bp).tokens@.subrange(start as int, old(bp).current as int),
    ensures
        final(bp).grew(old(bp)),
        final(bp).current == old(bp).tokens@.len(),
        final(bp).events@.len() <= old(bp).events@.len() + 1,
        final(bp).events@.len() > old(bp).events@.len() ==> final(bp).events@.last() is Warning,
        r matches Event::Metadata { key: k, value: v } && k.view_bytes() == text_of(old(bp).input@, key@)
            && v.view_bytes() == text_of(
            old(bp).input@,
            old(bp).tokens@.subrange(old(bp).current + 1, old(bp).tokens@.len() as int),
        ),
{
    let ghost b0 = *bp;
    let c = bp.bump(TokenKind::Colon);
    let value = bp.consume_rest();
    proof { lemma_same_events(&b0, bp); }
    let (key_text, value_text) = entry_texts(bp, meta, key, c, value, start);
    if value_text.is_text_empty() {
        let ghost b1 = *bp;
        let key_span = crate::token::Span::new(meta.span.end, c.span.start);
        bp.warn(ParserWarning::EmptyMetadataValue { key: Located::new(key_text.text_trimmed(), key_span) });
        proof {
            assert(bp.events@.subrange(0, b1.events@.len() as int) =~= b1.events@);
            lemma_grew_trans(&b0, &b1, bp);
        }
    }
    Event::Metadata { key: key_text, value: value_text }
}

/// The texts of a metadata key, between the `>>` token `meta` and the `:`
/// token `c`, and of its value, after `c`.
fn entry_texts(bp: &BlockParser, meta: Token, key: &[Token], c: Token, value: &[Token], start: usize) -> (r: (
    crate::text::Text,
    crate::text::Text,
))
    requires
        bp.wf(),
        0 < start,
        start + key@.len() < bp.tokens@.len(),
        bp.tokens@[start - 1] == meta,
        key@ == bp.tokens@.subrange(start as int, start + key@.len()),
        bp.tokens@[start + key@.len()] == c,
        value@ == bp.tokens@.subrange(start + key@.len() + 1, bp.tokens@.len() as int),
    ensures
        r.0.view_bytes() == text_of(bp.input@, key@),
        r.1.view_bytes() == text_of(bp.input@, value@),
{
    let ghost t = bp.tokens@;
    let ghost kend = start + key@.len();
    proof {
        lemma_wf_subrange(t, bp.input@.len(), start as int, kend);
        lemma_wf_subrange(t, bp.input@.len(), kend + 1, t.len() as int);
        if kend > start {
            assert(key@[0] == t[start as int]);
            assert(t[start - 1].span.end == t[start as int].span.start);
        }
        if kend + 1 < t.len() {
            assert(value@[0] == t[kend + 1]);
            assert(t[kend].span.end == t[kend + 1].span.start);
        }
    }
    (bp.text(meta.span.end, key), bp.text(c.span.end, value))
}

/// Reads a section header, `= name =`. `None` when tokens follow the
/// closing `=`.
pub fn section(bp: &mut BlockParser) -> (r: Option<Event>)
    requires
        old(bp).wf(),
        old(bp).next_kind() == TokenKind::Eq,
    ensures
        final(bp).grew(old(bp)),
        final(bp).events@ == old(bp).events@,
        r.is_some() ==> final(bp).current == old(bp).tokens@.len() && r.unwrap() is Section,
        r.is_some() <==> section_ok(old(bp).tokens@, old(bp).current as int),
{
    let ghost b0 = *bp;
    eq_run(bp, true);
    let ghost b1 = *bp;
    let start = bp.current;
    let offset = bp.current_offset();
    let name = eq_run(bp, false);
    let ghost b2 = *bp;
    let _ = eq_run(bp, true);
    proof {
        lemma_same_events(&b0, &b1);
        lemma_same_events(&b1, &b2);
        lemma_same_events(&b2, bp);
        lemma_grew_trans(&b0, &b1, &b2);
        lemma_grew_trans(&b0, &b2, bp);
    }
    if bp.tokens_consumed() < bp.tokens().len() {
        return None;
    }
    let text = section_name(bp, offset, name, start);
    Some(section_event(text))
}

/// A section named by `text`, or without a name when `text` is blank.
fn section_event(text: crate::text::Text) -> (r: Event)
    ensures
        r matches Event::Section { name } && (name is None <==> crate::text::trimmed(text.view_bytes()).len() == 0),
{
    if text.is_text_empty() {
        Event::Section { name: None }
    } else {
        Event::Section { name: Some(text) }
    }
}

/// The end of the run from `i` of `=` tokens (`eq`), or of other tokens.
pub open spec fn eq_run_end(t: Seq<Token>, i: int, eq: bool) -> int
    decreases t.len() - i,
{
    if i >= t.len() || (t[i].kind == TokenKind::Eq) != eq {
        i
    } else {
        eq_run_end(t, i + 1, eq)
    }
}

/// Whether the tokens from `c` are a section header: `=` tokens, a name
/// without `=`, then `=` tokens up to the end.
pub open spec fn section_ok(t: Seq<Token>, c: int) -> bool {
    eq_run_end(t, eq_run_end(t, eq_run_end(t, c, true), false), true) == t.len()
}

proof fn lemma_eq_run_end(t: Seq<Token>, i: int, e: int, eq: bool)
    requires
        0 <= i <= e <= t.len(),
        forall|j: int| i <= j < e ==> ((#[trigger] t[j]).kind == TokenKind::Eq) == eq,
        e == t.len() || (t[e].kind == TokenKind::Eq) != eq,
    ensures
        eq_run_end(t, i, eq) == e,
    decreases e - i,
{
    if i < e {
        lemma_eq_run_end(t, i + 1, e, eq);
    }
}

/// Consumes a run of `=` tokens (`eq`), or of tokens other than `=`.
fn eq_run<'t, 'i>(bp: &mut BlockParser<'t, 'i>, eq: bool) -> (r: &'t [Token])
    requires
        old(bp).wf(),
    ensures
        final(bp).moved(old(bp)),
        final(bp).wf(),
        final(bp).events@ == old(bp).events@,
        old(bp).current <= final(bp).current,
        r@ == old(bp).tokens@.subrange(old(bp).current as int, final(bp).current as int),
        eq && old(bp).next_kind() == TokenKind::Eq ==> final(bp).current > old(bp).current,
        final(bp).current == eq_run_end(old(bp).tokens@, old(bp).current as int, eq),
{
    let kinds = [TokenKind::Eq];
    assert(kinds@[0] == TokenKind::Eq);
    assert(kinds@.contains(TokenKind::Eq));
    let ghost t = bp.tokens@;
    let ghost c = bp.current as int;
    let r = bp.consume_while(kinds.as_slice(), eq);
    proof {
        assert forall|k: TokenKind| kinds@.contains(k) <==> k == TokenKind::Eq by {
            if kinds@.contains(k) {
                let i = choose|i: int| 0 <= i < kinds@.len() && kinds@[i] == k;
            }
        }
        lemma_eq_run_end(t, c, bp.current as int, eq);
    }
    r
}

/// The text of a section name that starts at token `start`, just after
/// an `=`.
fn section_name(bp: &BlockParser, offset: usize, name: &[Token], start: usize) -> (r: crate::text::Text)
    requires
        bp.wf(),
        0 < start,
        start + name@.len() <= bp.tokens@.len(),
        name@ == bp.tokens@.subrange(start as int, start + name@.len()),
        offset == bp.tokens@[start - 1].span.end,
{
    let ghost t = bp.tokens@;
    proof {
        lemma_wf_subrange(t, bp.input@.len(), start as int, start + name@.len());
        if name@.len() > 0 {
            assert(name@[0] == t[start as int]);
            assert(t[start - 1].span.end == t[start as int].span.start);
        }
    }
    bp.text(offset, name)
}

/// Reads a step: its text, between a start and an end event.
pub fn step(bp: &mut BlockParser)
    requires
        old(bp).wf(),
    ensures
        final(bp).grew(old(bp)),
        final(bp).current == old(bp).tokens@.len(),
        final(bp).events@.len() >= old(bp).events@.len() + 2,
        final(bp).events@[old(bp).events@.len() as int] == (Event::StartStep { is_text: false }),
        final(bp).events@.last() == (Event::EndStep { is_text: false }),
        final(bp).events@.len() <= old(bp).events@.len() + 3,
        final(bp).events@.len() == old(bp).events@.len() + 3 ==> final(bp).events@[old(bp).events@.len() as int + 1] is Text,
        (final(bp).events@.len() == old(bp).events@.len() + 3) == (old(bp).rest_spec().len() > 0),
        final(bp).events@[old(bp).events@.len() as int + 1] matches Event::Text(t) ==> t.view_bytes()
            == text_of(old(bp).input@, old(bp).rest_spec()),
{
    let ghost b0 = *bp;
    let start = bp.current;
    bp.event(Event::StartStep { is_text: false });
    let rest = bp.consume_rest();
    proof { lemma_wf_subrange(b0.tokens@, bp.input@.len(), start as int, b0.tokens@.len() as int); }
    if rest.len() > 0 {
        let t = bp.text(rest[0].span.start, rest);
        bp.event(Event::Text(t));
    }
    bp.event(Event::EndStep { is_text: false });
    proof {
        assert(bp.events@.subrange(0, b0.events@.len() as int) =~= b0.events@);
    }
}

/// The events of the block `b`: a metadata entry (after a warning when its
/// value is blank) when it starts with `>>` and has a `:`; a section when
/// it is a section header; else a step that holds the block's text.
pub open spec fn block_events(input: Seq<u8>, b: Seq<Token>, evs: Seq<Event>) -> bool {
    if b.len() > 0 && b[0].kind == TokenKind::Meta && colon_at(b, 1) < b.len() {
        let k = colon_at(b, 1);
        &&& evs.len() == 1 || (evs.len() == 2 && evs[0] is Warning)
        &&& evs.last() matches Event::Metadata { key, value } && key.view_bytes() == text_of(
            input,
            b.subrange(1, k),
        ) && value.view_bytes() == text_of(input, b.subrange(k + 1, b.len() as int))
    } else if b.len() > 0 && b[0].kind == TokenKind::Eq && section_ok(b, 0) {
        evs.len() == 1 && evs[0] is Section
    } else {
        &&& 2 <= evs.len() <= 3
        &&& evs[0] == (Event::StartStep { is_text: false })
        &&& evs.last() == (Event::EndStep { is_text: false })
        &&& (evs.len() == 3) == (b.len() > 0)
        &&& evs.len() == 3 ==> (evs[1] matches Event::Text(x) && x.view_bytes() == text_of(input, b))
    }
}

/// Reads one block: a metadata entry, a section or else a step. Every token
/// is consumed, and the events it adds open and close steps in balance.
pub fn parse_block(bp: &mut BlockParser)
    requires
        old(bp).wf(),
        old(bp).current == 0,
    ensures
        final(bp).grew(old(bp)),
        final(bp).current == old(bp).tokens@.len(),
        final(bp).events@.len() > old(bp).events@.len(),
        steps_balanced(final(bp).events@.subrange(old(bp).events@.len() as int, final(bp).events@.len() as int)),
        block_events(
            old(bp).input@,
            old(bp).tokens@,
            final(bp).events@.subrange(old(bp).events@.len() as int, final(bp).events@.len() as int),
        ),
{
    let ghost b0 = *bp;
    let ghost n0 = bp.events@.len() as int;
    let ghost t = bp.tokens@;
    let pos = bp.checkpoint();
    let meta_or_section = if bp.at(TokenKind::Meta) {
        let r = metadata_entry(bp);
        if r.is_none() {
            bp.rollback(pos);
        }
        r
    } else if bp.at(TokenKind::Eq) {
        let r = section(bp);
        if r.is_none() {
            bp.rollback(pos);
        }
        r
    } else {
        proof { lemma_grew_refl(bp); }
        None
    };
    let ghost b1 = *bp;
    proof {
        assert(b1.events@.len() <= n0 + 1);
        assert(b1.events@.subrange(0, n0) == b0.events@);
    }
    if let Some(ev) = meta_or_section {
        bp.event(ev);
        proof {
            assert(bp.events@.subrange(0, b1.events@.len() as int) =~= b1.events@);
            lemma_grew_trans(&b0, &b1, bp);
            let fresh = bp.events@.subrange(n0, bp.events@.len() as int);
            assert forall|i: int| 0 <= i < fresh.len() implies !is_step_event(#[trigger] fresh[i]) by {
                if n0 + i < b1.events@.len() {
                    assert(fresh[i] == b1.events@.last());
                } else {
                    assert(fresh[i] == ev);
                }
            }
            lemma_no_steps(fresh, false);
            assert(fresh.last() == ev);
            if fresh.len() == 2 {
                assert(fresh[0] == b1.events@.last());
            }
        }
        return;
    }
    step(bp);
    proof {
        lemma_grew_trans(&b0, &b1, bp);
        let fresh = bp.events@.subrange(n0, bp.events@.len() as int);
        // a metadata entry or section that was not taken added no event
        assert(b1.events@.len() == n0);
        assert(fresh[0] == bp.events@[n0]);
        assert(fresh.last() == bp.events@.last());
        if fresh.len() == 3 {
            assert(fresh[1] == bp.events@[n0 + 1]);
        }
        lemma_step_events(fresh);
        assert(b1.rest_spec() =~= t);
    }
}

/// The first `>>` at or after `i` that starts a line (`nl`: whether the
/// token before `i` is a line break, or `i` starts the scan); the end when
/// there is none.
pub open spec fn meta_at(t: Seq<Token>, i: int, nl: bool) -> int
    decreases t.len() - i,
{
    if i >= t.len() {
        t.len() as int
    } else if nl && t[i].kind == TokenKind::Meta {
        i
    } else {
        meta_at(t, i + 1, t[i].kind == TokenKind::Newline)
    }
}

/// The first line break at or after `i`, or the end.
pub open spec fn nl_at(t: Seq<Token>, i: int) -> int
    decreases t.len() - i,
{
    if i >= t.len() {
        t.len() as int
    } else if t[i].kind == TokenKind::Newline {
        i
    } else {
        nl_at(t, i + 1)
    }
}

/// The events of a line `b` that starts with `>>`: its metadata entry
/// (after a warning when the value is blank) when it has a `:`, else none.
pub open spec fn meta_events(input: Seq<u8>, b: Seq<Token>, evs: Seq<Event>) -> bool {
    if colon_at(b, 1) < b.len() {
        let k = colon_at(b, 1);
        &&& evs.len() == 1 || (evs.len() == 2 && evs[0] is Warning)
        &&& evs.last() matches Event::Metadata { key, value } && key.view_bytes() == text_of(
            input,
            b.subrange(1, k),
        ) && value.view_bytes() == text_of(input, b.subrange(k + 1, b.len() as int))
    } else {
        evs.len() == 0
    }
}

/// Whether `evs` are the events of the lines from position `p` on that
/// start with `>>`, in order.
#[verifier::opaque]
pub open spec fn meta_events_from(input: Seq<u8>, t: Seq<Token>, p: int, evs: Seq<Event>) -> bool
    decreases t.len() - p,
{
    let m = meta_at(t, p, true);
    if m >= t.len() {
        evs.len() == 0
    } else {
        let e = nl_at(t, m + 1);
        let n = if e < t.len() { e + 1 } else { t.len() as int };
        if n <= p || n > t.len() {
            false
        } else {
            exists|k: int|
                0 <= k <= evs.len() && meta_events(input, t.subrange(m, e), evs.subrange(0, k))
                    && meta_events_from(input, t, n, evs.subrange(k, evs.len() as int))
        }
    }
}

proof fn lemma_meta_extend(input: Seq<u8>, t: Seq<Token>, p0: int, x: Seq<Event>, b: Seq<Event>, p: int, n: int)
    requires
        forall|y: Seq<Event>| meta_events_from(input, t, p, y) ==> meta_events_from(input, t, p0, x + y),
        meta_at(t, p, true) < t.len(),
        n == (if nl_at(t, meta_at(t, p, true) + 1) < t.len() {
            nl_at(t, meta_at(t, p, true) + 1) + 1
        } else {
            t.len() as int
        }),
        p < n <= t.len(),
        meta_events(input, t.subrange(meta_at(t, p, true), nl_at(t, meta_at(t, p, true) + 1)), b),
    ensures
        forall|y: Seq<Event>| meta_events_from(input, t, n, y) ==> meta_events_from(input, t, p0, (x + b) + y),
{
    assert forall|y: Seq<Event>| meta_events_from(input, t, n, y) implies meta_events_from(input, t, p0, (x + b) + y) by {
        let by = b + y;
        assert(by.subrange(0, b.len() as int) =~= b);
        assert(by.subrange(b.len() as int, by.len() as int) =~= y);
        reveal(meta_events_from);
        assert(meta_events_from(input, t, p, by));
        assert((x + b) + y =~= x + by);
    }
}

/// Reads a line that starts a metadata entry: the entry, or nothing when
/// it has no `:`. No step is opened.
fn metadata_line(bp: &mut BlockParser)
    requires
        old(bp).wf(),
        old(bp).current == 0,
        old(bp).events@.len() == 0,
        old(bp).next_kind() == TokenKind::Meta,
    ensures
        final(bp).current == final(bp).tokens@.len(),
        forall|i: int| 0 <= i < final(bp).events@.len() ==> !is_step_event(#[trigger] final(bp).events@[i]),
        final(bp).tokens@ == old(bp).tokens@,
        meta_events(old(bp).input@, old(bp).tokens@, final(bp).events@),
{
    match metadata_entry(bp) {
        Some(ev) => {
            let ghost b1 = *bp;
            bp.event(ev);
            proof {
                assert forall|i: int| 0 <= i < bp.events@.len() implies !is_step_event(#[trigger] bp.events@[i]) by {
                    if i < b1.events@.len() {
                        assert(bp.events@[i] == b1.events@.last());
                    }
                }
            }
        },
        None => {
            let _ = bp.consume_rest();
        },
    }
}

/// A pull parser over the tokens of a recipe: it segments them into blocks
/// and hands out each block's events in order.
pub struct PullParser<'i> {
    input: &'i [u8],
    tokens: Vec<Token>,
    pos: usize,
    queue: VecDeque<Event>,
    extensions: Extensions,
    /// The events handed out so far.
    emitted: Ghost<Seq<Event>>,
}

impl<'i> PullParser<'i> {
    pub closed spec fn wf(&self) -> bool {
        &&& tokens_wf(self.tokens@, self.input@.len())
        &&& self.pos <= self.tokens@.len()
        &&& steps_balanced(self.emitted@ + self.queue@)
    }

    /// The events handed out so far, in order.
    pub closed spec fn emitted(&self) -> Seq<Event> {
        self.emitted@
    }

    /// The events parsed and not handed out yet.
    pub closed spec fn queued(&self) -> Seq<Event> {
        self.queue@
    }

    /// The source the tokens cover.
    pub closed spec fn source(&self) -> Seq<u8> {
        self.input@
    }

    /// All the tokens, read or not.
    pub closed spec fn all_tokens(&self) -> Seq<Token> {
        self.tokens@
    }

    /// The position of the next token to read.
    pub closed spec fn position(&self) -> int {
        self.pos as int
    }

    /// Whether steps may go on over several lines.
    pub closed spec fn multiline(&self) -> bool {
        self.extensions.multiline_steps
    }

    /// How many tokens are still to be read.
    pub closed spec fn remaining(&self) -> nat {
        (self.tokens@.len() - self.pos) as nat
    }

    /// Creates a parser over `tokens`, the adjacent tokens that the lexer
    /// made of `input`.
    pub fn new(input: &'i [u8], tokens: Vec<Token>, extensions: Extensions) -> (r: Self)
        requires
            tokens_wf(tokens@, input@.len()),
        ensures
            r.wf(),
            r.remaining() == tokens@.len(),
            r.emitted() == Seq::<Event>::empty(),
    {
        let r = PullParser { input, tokens, pos: 0, queue: VecDeque::new(), extensions, emitted: Ghost(Seq::empty()) };
        assert(r.emitted@ + r.queue@ =~= Seq::<Event>::empty());
        r
    }

    fn peek_kind(&self) -> (r: Option<TokenKind>)
        ensures
            r == if self.pos < self.tokens@.len() {
                Some(self.tokens@[self.pos as int].kind)
            } else {
                None
            },
    {
        if self.pos < self.tokens.len() {
            Some(self.tokens[self.pos].kind)
        } else {
            None
        }
    }

    /// Takes one line, up to and including its line break, into `block`.
    /// `None` when no token is left.
    fn pull_line(&mut self, block: &mut Vec<Token>) -> (r: Option<LineInfo>)
        requires
            old(self).wf(),
        ensures
            final(self).wf(),
            final(self).tokens == old(self).tokens,
            final(self).input == old(self).input,
            final(self).extensions == old(self).extensions,
            final(self).queue == old(self).queue,
            final(self).emitted == old(self).emitted,
            old(self).pos <= final(self).pos,
            final(block)@ == old(block)@ + old(self).tokens@.subrange(old(self).pos as int, final(self).pos as int),
            r.is_none() <==> old(self).pos == old(self).tokens@.len(),
            r.is_none() ==> final(self).pos == old(self).pos,
            r.is_some() ==> final(self).pos == line_end(old(self).tokens@, old(self).pos as int),
            r matches Some(li) ==> {
                &&& final(self).pos > old(self).pos
                &&& li.is_single_line == is_single_line(Some(old(self).tokens@[old(self).pos as int].kind))
                &&& li.is_empty == forall|j: int| old(self).pos <= j < final(self).pos ==> is_empty_kind(
                    (#[trigger] old(self).tokens@[j]).kind,
                )
            },
    {
        let mut is_empty = true;
        let mut no_tokens = true;
        let first = self.peek_kind();
        let is_single_line = is_single_line_marker(first);
        let ghost p0 = self.pos as int;
        let ghost blk0 = block@;
        let mut done = false;
        while !done && self.pos < self.tokens.len()
            invariant
                self.wf(),
                self.tokens == old(self).tokens,
                self.input == old(self).input,
                self.extensions == old(self).extensions,
                self.queue == old(self).queue,
                self.emitted == old(self).emitted,
                p0 == old(self).pos,
                p0 <= self.pos,
                no_tokens == (self.pos == p0),
                done ==> self.pos > p0,
                done ==> self.pos == line_end(self.tokens@, p0),
                !done ==> line_end(self.tokens@, p0) == line_end(self.tokens@, self.pos as int),
                block@ == blk0 + self.tokens@.subrange(p0, self.pos as int),
                is_empty == forall|j: int| p0 <= j < self.pos ==> is_empty_kind((#[trigger] self.tokens@[j]).kind),
            decreases self.tokens@.len() - self.pos,
        {
            let tok = self.tokens[self.pos];
            self.pos += 1;
            block.push(tok);
            no_tokens = false;
            if !is_empty_token(&tok) {
                is_empty = false;
            }
            proof {
                assert(blk0 + self.tokens@.subrange(p0, self.pos as int) =~= (blk0 + self.tokens@.subrange(
                    p0,
                    self.pos - 1,
                )).push(tok));
            }
            if tok.kind == TokenKind::Newline {
                done = true;
            }
        }
        if no_tokens {
            None
        } else {
            Some(LineInfo { is_empty, is_single_line })
        }
    }
    /// Moves the events of a finished block to the back of the queue.
    fn enqueue(&mut self, events: Vec<Event>)
        requires
            old(self).wf(),
            steps_balanced(events@),
        ensures
            final(self).wf(),
            final(self).emitted == old(self).emitted,
            final(self).tokens == old(self).tokens,
            final(self).input == old(self).input,
            final(self).pos == old(self).pos,
            final(self).extensions == old(self).extensions,
            final(self).queue@ == old(self).queue@ + events@,
    {
        let mut evs = events;
        let ghost all = evs@;
        let ghost q0 = self.queue@;
        while evs.len() > 0
            invariant
                self.tokens == old(self).tokens,
                self.input == old(self).input,
                self.pos == old(self).pos,
                self.extensions == old(self).extensions,
                self.emitted == old(self).emitted,
                q0 == old(self).queue@,
                all.len() == (self.queue@.len() - q0.len()) + evs@.len(),
                q0.len() <= self.queue@.len(),
                self.queue@ == q0 + all.subrange(0, self.queue@.len() - q0.len()),
                evs@ == all.subrange(self.queue@.len() - q0.len(), all.len() as int),
            decreases evs@.len(),
        {
            let ghost k = self.queue@.len() - q0.len();
            let e = evs.remove(0);
            self.queue.push_back(e);
            proof {
                assert(all.subrange(0, k + 1) == all.subrange(0, k).push(e));
                assert(evs@ =~= all.subrange(k + 1, all.len() as int));
            }
        }
        assert(all.subrange(0, all.len() as int) == all);
        proof {
            lemma_state_concat(self.emitted@ + q0, all, false);
            assert(self.emitted@ + self.queue@ =~= (self.emitted@ + q0) + all);
        }
    }

    /// Pulls the lines of the next block into `block`: blank lines first
    /// are skipped, and with multiline steps the block goes on while lines
    /// are non-blank and start no metadata entry or section. Gives the
    /// bounds of the block without its blank lines and trailing line
    /// breaks, or `None` when nothing but blank lines is left.
    #[verifier::rlimit(100)]
    fn segment(&mut self, block: &mut Vec<Token>) -> (r: Option<(usize, usize)>)
        requires
            old(self).wf(),
            old(block)@.len() == 0,
        ensures
            final(self).wf(),
            final(self).tokens@ == old(self).tokens@,
            final(self).input == old(self).input,
            final(self).extensions == old(self).extensions,
            final(self).queue == old(self).queue,
            final(self).emitted == old(self).emitted,
            old(self).pos <= final(self).pos,
            final(block)@ == old(self).tokens@.subrange(old(self).pos as int, final(self).pos as int),
            r.is_none() <==> !has_block(old(self).tokens@, old(self).pos as int),
            r.is_none() ==> final(self).pos == old(self).tokens@.len(),
            r matches Some((s, e)) ==> {
                let bb = block_bounds(old(self).tokens@, old(self).pos as int, old(self).extensions.multiline_steps);
                &&& s < e <= final(block)@.len()
                &&& old(self).pos + s == bb.0
                &&& old(self).pos + e == bb.1
                &&& final(self).pos == bb.2
                &&& old(self).pos < final(self).pos
            },
    {
        let ghost t = self.tokens@;
        let ghost b = self.pos as int;
        let multiline_ext = self.extensions.multiline_steps;
        let mut start: usize = 0;
        let mut current_line = match self.pull_line(block) {
            Some(l) => l,
            None => {
                return None;
            },
        };
        while current_line.is_empty
            invariant
                self.wf(),
                self.tokens@ == t,
                t == old(self).tokens@,
                self.input == old(self).input,
                self.extensions == old(self).extensions,
                self.queue == old(self).queue,
                self.emitted == old(self).emitted,
                b == old(self).pos,
                b + start < self.pos,
                self.pos == line_end(t, b + start),
                block@ == t.subrange(b, self.pos as int),
                start <= block@.len(),
                current_line.is_empty == forall|j: int| b + start <= j < self.pos ==> is_empty_kind((#[trigger] t[j]).kind),
                current_line.is_single_line == is_single_line(Some(t[b + start].kind)),
                blank_skip(t, b, b) == blank_skip(t, b + start, b + start),
            decreases t.len() - self.pos,
        {
            proof {
                lemma_blank_scan(t, b + start, b + start);
                lemma_line_end_ge(t, b + start);
            }
            start = block.len();
            current_line = match self.pull_line(block) {
                Some(l) => l,
                None => {
                    return None;
                },
            };
        }
        let ghost s0 = b + start;
        let ghost e1 = self.pos as int;
        proof {
            let j = choose|j: int| s0 <= j < e1 && !is_empty_kind(#[trigger] t[j].kind);
            lemma_line_end_ge(t, s0);
            lemma_nonblank_scan(t, s0, s0, j);
            assert(t[j].kind != TokenKind::Newline);
        }
        let multiline = multiline_ext && !current_line.is_single_line;
        let mut end: usize = block.len();
        if multiline {
            let mut go = true;
            while go
                invariant
                    self.wf(),
                    self.tokens@ == t,
                    self.input == old(self).input,
                    self.extensions == old(self).extensions,
                    self.queue == old(self).queue,
                    self.emitted == old(self).emitted,
                    b == old(self).pos,
                    b <= s0 < e1 <= b + end <= self.pos <= t.len(),
                    block@ == t.subrange(b, self.pos as int),
                    start <= end <= block@.len(),
                    go ==> b + end == self.pos,
                    go ==> cont_end(t, e1, e1, false) == cont_end(t, self.pos as int, self.pos as int, false),
                    !go ==> cont_end(t, e1, e1, false) == (b + end, self.pos as int),
                decreases (t.len() - self.pos) * 2 + if go { 1int } else { 0int },
            {
                let ghost ls = self.pos as int;
                if is_single_line_marker(self.peek_kind()) {
                    go = false;
                } else {
                    match self.pull_line(block) {
                        None => {
                            go = false;
                        },
                        Some(line) => {
                            proof {
                                lemma_cont_scan(t, ls, ls, false);
                                lemma_line_end_ge(t, ls);
                                if !line.is_empty {
                                    let j = choose|j: int| ls <= j < self.pos && !is_empty_kind(#[trigger] t[j].kind);
                                    assert(ls <= j < line_end(t, ls));
                                }
                            }
                            if line.is_empty {
                                go = false;
                            } else {
                                end = block.len();
                            }
                        },
                    }
                }
            }
        }
        let ghost e_full = b + end;
        proof {
            if !multiline {
                assert(block_bounds(t, b, multiline_ext).2 == e1);
            }
        }
        // trim trailing line breaks
        while end > start && block[end - 1].kind == TokenKind::Newline
            invariant
                start <= end <= block@.len(),
                block@ == t.subrange(b, self.pos as int),
                self.pos <= t.len(),
                0 <= b <= self.pos,
                s0 == b + start,
                trim_nl(t, s0, e_full) == trim_nl(t, s0, b + end),
            decreases end,
        {
            assert(block@[end - 1] == t[b + end - 1]);
            end -= 1;
        }
        proof {
            let j = choose|j: int| s0 <= j < e1 && !is_empty_kind(#[trigger] t[j].kind);
            lemma_trim_nl(t, s0, e_full, j);
            if end > start {
                assert(block@[end - 1] == t[b + end - 1]);
            }
        }
        if end <= start {
            return None;
        }
        Some((start, end))
    }

    /// Parses the next block into the queue. `None` when no block is left:
    /// only blank lines, or nothing, remain.
    fn next_block(&mut self) -> (r: Option<()>)
        requires
            old(self).wf(),
        ensures
            final(self).wf(),
            final(self).remaining() <= old(self).remaining(),
            r.is_some() ==> final(self).remaining() < old(self).remaining(),
            r.is_some() ==> final(self).queue@.len() > old(self).queue@.len(),
            r.is_none() ==> final(self).queue@ == old(self).queue@,
            final(self).emitted == old(self).emitted,
            final(self).tokens@ == old(self).tokens@,
            final(self).input == old(self).input,
            final(self).extensions == old(self).extensions,
            r.is_none() <==> !has_block(old(self).tokens@, old(self).pos as int),
            r.is_none() ==> final(self).pos == old(self).tokens@.len(),
            r.is_some() ==> {
                let bb = block_bounds(old(self).tokens@, old(self).pos as int, old(self).extensions.multiline_steps);
                &&& final(self).pos == bb.2
                &&& final(self).queue@.subrange(0, old(self).queue@.len() as int) == old(self).queue@
                &&& block_events(
                    old(self).input@,
                    old(self).tokens@.subrange(bb.0, bb.1),
                    final(self).queue@.subrange(old(self).queue@.len() as int, final(self).queue@.len() as int),
                )
            },
    {
        let ghost b = self.pos as int;
        let ghost q0 = self.queue@;
        let mut block: Vec<Token> = Vec::new();
        let (start, end) = match self.segment(&mut block) {
            Some(se) => se,
            None => {
                return None;
            },
        };
        let trimmed = &block.as_slice()[start..end];
        proof {
            lemma_wf_subrange(self.tokens@, self.input@.len(), b + start, b + end);
            assert(trimmed@ =~= self.tokens@.subrange(b + start, b + end));
            assert(trimmed@[0].span.start <= trimmed@[0].span.end);
        }
        let mut bp = BlockParser::new(trimmed[0].span.start, trimmed, self.input, self.extensions);
        parse_block(&mut bp);
        proof {
            assert(bp.events@.subrange(0, bp.events@.len() as int) == bp.events@);
        }
        let events = bp.finish();
        self.enqueue(events);
        proof {
            assert(self.queue@.subrange(0, q0.len() as int) =~= q0);
            assert(self.queue@.subrange(q0.len() as int, self.queue@.len() as int) =~= events@);
        }
        Some(())
    }

    /// The next event, parsing blocks as needed. `None` at the end.
    pub fn next_event(&mut self) -> (r: Option<Event>)
        requires
            old(self).wf(),
        ensures
            final(self).wf(),
            old(self).queued().len() > 0 ==> r == Some(old(self).queued()[0]) && final(self).queued()
                == old(self).queued().drop_first() && final(self).remaining() == old(self).remaining(),
            final(self).remaining() <= old(self).remaining(),
            r.is_some() ==> final(self).remaining() < old(self).remaining() || (final(self).remaining()
                == old(self).remaining() && final(self).queued().len() < old(self).queued().len()),
            r matches Some(e) ==> final(self).emitted() == old(self).emitted().push(e),
            r.is_none() ==> final(self).emitted() == old(self).emitted() && final(self).queued().len() == 0,
            final(self).source() == old(self).source(),
            final(self).all_tokens() == old(self).all_tokens(),
            final(self).multiline() == old(self).multiline(),
            r.is_none() <==> old(self).queued().len() == 0 && !has_block(old(self).all_tokens(), old(self).position()),
            r.is_none() ==> final(self).queued() == old(self).queued(),
            old(self).queued().len() == 0 && r.is_some() ==> {
                let bb = block_bounds(old(self).all_tokens(), old(self).position(), old(self).multiline());
                &&& final(self).position() == bb.2
                &&& block_events(
                    old(self).source(),
                    old(self).all_tokens().subrange(bb.0, bb.1),
                    seq![r.unwrap()] + final(self).queued(),
                )
            },
    {
        let ghost bb = block_bounds(old(self).tokens@, old(self).pos as int, old(self).extensions.multiline_steps);
        loop
            invariant
                self.wf(),
                self.emitted == old(self).emitted,
                self.tokens@ == old(self).tokens@,
                self.input == old(self).input,
                self.extensions == old(self).extensions,
                self.remaining() <= old(self).remaining(),
                self.remaining() < old(self).remaining() || *self == *old(self),
                old(self).queued().len() > 0 ==> *self == *old(self),
                bb == block_bounds(old(self).tokens@, old(self).pos as int, old(self).extensions.multiline_steps),
                self.remaining() < old(self).remaining() ==> old(self).queue@.len() == 0 && self.pos == bb.2
                    && has_block(old(self).tokens@, old(self).pos as int)
                    && self.queue@.len() > 0 && block_events(
                    old(self).input@,
                    old(self).tokens@.subrange(bb.0, bb.1),
                    self.queue@,
                ),
            decreases self.remaining(),
        {
            let ghost q = self.queue@;
            if self.queue.len() > 0 {
                let e = match self.queue.pop_front() {
                    Some(e) => e,
                    None => {
                        return None;
                    },
                };
                proof {
                    assert(self.emitted@.push(e) + self.queue@ =~= self.emitted@ + q);
                    assert(seq![e] + self.queue@ =~= q);
                }
                self.emitted = Ghost(self.emitted@.push(e));
                return Some(e);
            }
            let ghost q1 = self.queue@;
            assert(self.pos == old(self).pos && self.tokens@ == old(self).tokens@);
            let ghost before = *self;
            let got = self.next_block();
            if got.is_none() {
                return None;
            }
            proof {
                assert(q1.len() == 0);
                assert(self.queue@.subrange(q1.len() as int, self.queue@.len() as int) =~= self.queue@);
                assert(self.queue@.subrange(0, 0) =~= self.queue@.subrange(0, q1.len() as int));
                assert(self.queue@.subrange(0, self.queue@.len() as int) =~= self.queue@);
            }
        }
    }

    /// All the events, in order: those already queued, then those of each
    /// block left.
    #[verifier::rlimit(100)]
    pub fn into_events(self) -> (r: Vec<Event>)
        requires
            self.wf(),
        ensures
            r@.len() >= self.queued().len(),
            r@.subrange(0, self.queued().len() as int) == self.queued(),
            events_from(
                self.source(),
                self.all_tokens(),
                self.position(),
                self.multiline(),
                r@.subrange(self.queued().len() as int, r@.len() as int),
            ),
            steps_balanced(self.emitted() + r@),
    {
        let ghost e0 = self.emitted();
        let ghost q0 = self.queued();
        let ghost input = self.source();
        let ghost t = self.all_tokens();
        let ghost ml = self.multiline();
        let ghost p0 = self.position();
        let mut p = self;
        let mut out: Vec<Event> = Vec::new();
        let ghost mut x: Seq<Event> = Seq::empty();
        assert(p.emitted() =~= e0 + out@);
        assert(out@ + p.queued() =~= q0 + x);
        assert forall|y: Seq<Event>| events_from(input, t, p.position(), ml, y) implies events_from(
            input,
            t,
            p0,
            ml,
            x + y,
        ) by {
            assert(x + y =~= y);
        }
        #[verifier::loop_isolation(false)]
        loop
            invariant
                p.wf(),
                p.emitted() == e0 + out@,
                e0 == self.emitted(),
                q0 == self.queued(),
                input == self.source(),
                t == self.all_tokens(),
                ml == self.multiline(),
                p0 == self.position(),
                p.source() == input,
                p.all_tokens() == t,
                p.multiline() == ml,
                out@ + p.queued() == q0 + x,
                forall|y: Seq<Event>| events_from(input, t, p.position(), ml, y) ==> events_from(
                    input,
                    t,
                    p0,
                    ml,
                    x + y,
                ),
            decreases p.remaining(), p.queued().len(),
        {
            let ghost before = p;
            match p.next_event() {
                Some(e) => {
                    proof {
                        if before.queued().len() > 0 {
                            assert(out@.push(e) + p.queued() =~= out@ + before.queued());
                            assert(p.position() == before.position());
                        } else {
                            let b = seq![e] + p.queued();
                            let bb = block_bounds(t, before.position(), ml);
                            assert(before.pos < p.pos);
                            assert(has_block(t, before.position()));
                            assert(p.position() == bb.2);
                            lemma_events_extend(input, t, p0, ml, x, b, before.position());
                            assert(out@.push(e) + p.queued() =~= q0 + (x + b));
                            x = x + b;
                        }
                    }
                    out.push(e);
                    assert(p.emitted() =~= e0 + out@);
                },
                None => {
                    proof {
                        assert(steps_balanced(p.emitted@ + p.queue@));
                        assert(p.queue@.len() == 0);
                        assert(p.emitted@ + p.queue@ =~= e0 + out@);
                        reveal(events_from);
                        assert(events_from(input, t, before.position(), ml, Seq::<Event>::empty()));
                        assert(x + Seq::<Event>::empty() =~= x);
                        assert(out@ =~= q0 + x);
                        assert(out@.subrange(0, q0.len() as int) =~= q0);
                        assert(out@.subrange(q0.len() as int, out@.len() as int) =~= x);
                    }
                    return out;
                },
            }
        }
    }

    /// Skips to the next line that starts a metadata entry and parses that
    /// line into the queue. `None` when there is none.
    #[verifier::rlimit(100)]
    fn next_metadata_block(&mut self) -> (r: Option<()>)
        requires
            old(self).wf(),
        ensures
            final(self).wf(),
            final(self).remaining() <= old(self).remaining(),
            r.is_some() ==> final(self).remaining() < old(self).remaining(),
            r.is_none() ==> final(self).queue@ == old(self).queue@,
            final(self).emitted == old(self).emitted,
            final(self).tokens@ == old(self).tokens@,
            final(self).input == old(self).input,
            r.is_none() <==> meta_at(old(self).tokens@, old(self).pos as int, true) >= old(self).tokens@.len(),
            r.is_none() ==> final(self).pos == old(self).tokens@.len(),
            r.is_some() ==> {
                let t = old(self).tokens@;
                let m = meta_at(t, old(self).pos as int, true);
                let e = nl_at(t, m + 1);
                &&& final(self).pos == if e < t.len() { e + 1 } else { t.len() as int }
                &&& final(self).queue@.subrange(0, old(self).queue@.len() as int) == old(self).queue@
                &&& meta_events(
                    old(self).input@,
                    t.subrange(m, e),
                    final(self).queue@.subrange(old(self).queue@.len() as int, final(self).queue@.len() as int),
                )
            },
    {
        let ghost t = self.tokens@;
        let ghost q0 = self.queue@;
        // eat until a metadata entry starts a line
        let mut last = TokenKind::Newline;
        while self.pos < self.tokens.len() && !(last == TokenKind::Newline && self.tokens[self.pos].kind
            == TokenKind::Meta)
            invariant
                self.wf(),
                self.tokens@ == old(self).tokens@,
                self.input == old(self).input,
                self.extensions == old(self).extensions,
                self.queue == old(self).queue,
                self.emitted == old(self).emitted,
                t == old(self).tokens@,
                old(self).pos <= self.pos,
                meta_at(t, old(self).pos as int, true) == meta_at(t, self.pos as int, last == TokenKind::Newline),
            decreases self.tokens@.len() - self.pos,
        {
            assert(meta_at(t, self.pos as int, last == TokenKind::Newline) == meta_at(
                t,
                self.pos + 1,
                t[self.pos as int].kind == TokenKind::Newline,
            ));
            last = self.tokens[self.pos].kind;
            self.pos += 1;
        }
        if self.pos >= self.tokens.len() {
            return None;
        }
        // take the line, without its line break
        let start = self.pos;
        self.pos += 1;
        while self.pos < self.tokens.len() && self.tokens[self.pos].kind != TokenKind::Newline
            invariant
                self.wf(),
                self.tokens@ == old(self).tokens@,
                self.input == old(self).input,
                self.extensions == old(self).extensions,
                self.queue == old(self).queue,
                self.emitted == old(self).emitted,
                t == old(self).tokens@,
                old(self).pos <= start < self.pos,
                nl_at(t, start + 1) == nl_at(t, self.pos as int),
            decreases self.tokens@.len() - self.pos,
        {
            assert(nl_at(t, self.pos as int) == nl_at(t, self.pos + 1));
            self.pos += 1;
        }
        let end = self.pos;
        if self.pos < self.tokens.len() {
            self.pos += 1;
        }
        proof {
            assert(t[start as int].kind == TokenKind::Meta);
        }
        self.enqueue_meta_line(start, end);
        Some(())
    }

    /// Parses the line `start..end`, which starts with `>>`, into the queue.
    fn enqueue_meta_line(&mut self, start: usize, end: usize)
        requires
            old(self).wf(),
            start < end <= old(self).tokens@.len(),
            old(self).tokens@[start as int].kind == TokenKind::Meta,
        ensures
            final(self).wf(),
            final(self).tokens@ == old(self).tokens@,
            final(self).input == old(self).input,
            final(self).pos == old(self).pos,
            final(self).emitted == old(self).emitted,
            final(self).queue@.subrange(0, old(self).queue@.len() as int) == old(self).queue@,
            meta_events(
                old(self).input@,
                old(self).tokens@.subrange(start as int, end as int),
                final(self).queue@.subrange(old(self).queue@.len() as int, final(self).queue@.len() as int),
            ),
    {
        let ghost t = self.tokens@;
        let ghost q0 = self.queue@;
        let block = &self.tokens.as_slice()[start..end];
        proof {
            lemma_wf_subrange(self.tokens@, self.input@.len(), start as int, end as int);
            assert(block@[0] == self.tokens@[start as int]);
            assert(block@[0].span.start <= block@[0].span.end);
        }
        let mut bp = BlockParser::new(block[0].span.start, block, self.input, self.extensions);
        metadata_line(&mut bp);
        let events = bp.finish();
        proof { lemma_no_steps(events@, false); }
        self.enqueue(events);
        proof {
            assert(block@ =~= t.subrange(start as int, end as int));
            assert(self.queue@.subrange(0, q0.len() as int) =~= q0);
            assert(self.queue@.subrange(q0.len() as int, self.queue@.len() as int) =~= events@);
        }
    }

    /// The next metadata event, or an error or warning met on the way.
    pub fn next_metadata(&mut self) -> (r: Option<Event>)
        requires
            old(self).wf(),
        ensures
            final(self).wf(),
            final(self).remaining() <= old(self).remaining(),
            r.is_some() ==> final(self).remaining() < old(self).remaining() || (final(self).remaining()
                == old(self).remaining() && final(self).queued().len() < old(self).queued().len()),
            r matches Some(e) ==> final(self).emitted() == old(self).emitted().push(e),
            r.is_none() ==> final(self).emitted() == old(self).emitted() && final(self).queued().len() == 0,
    {
        loop
            invariant
                self.wf(),
                self.emitted == old(self).emitted,
                self.remaining() <= old(self).remaining(),
                self.remaining() < old(self).remaining() || *self == *old(self),
            decreases self.remaining(),
        {
            let ghost q = self.queue@;
            if let Some(e) = self.queue.pop_front() {
                proof {
                    assert(self.emitted@.push(e) + self.queue@ =~= self.emitted@ + q);
                }
                self.emitted = Ghost(self.emitted@.push(e));
                return Some(e);
            }
            if self.next_metadata_block().is_none() {
                return None;
            }
        }
    }

    /// The metadata entries of the recipe, with the errors and warnings
    /// found in them, in order. Only the lines that start with `>>` are
    /// parsed.
    pub fn into_meta_iter(self) -> (r: Vec<Event>)
        requires
            self.wf(),
        ensures
            r@.len() >= self.queued().len(),
            r@.subrange(0, self.queued().len() as int) == self.queued(),
            meta_events_from(
                self.source(),
                self.all_tokens(),
                self.position(),
                r@.subrange(self.queued().len() as int, r@.len() as int),
            ),
            steps_balanced(self.emitted() + r@),
    {
        let ghost e0 = self.emitted();
        let ghost q0 = self.queued();
        let ghost input = self.source();
        let ghost t = self.all_tokens();
        let ghost p0 = self.position();
        let mut p = self;
        let mut out: Vec<Event> = Vec::new();
        let ghost mut x: Seq<Event> = Seq::empty();
        assert(p.emitted() =~= e0 + out@);
        assert(out@ + p.queued() =~= q0 + x);
        assert forall|y: Seq<Event>| meta_events_from(input, t, p.position(), y) implies meta_events_from(
            input,
            t,
            p0,
            x + y,
        ) by {
            assert(x + y =~= y);
        }
        loop
            invariant
                p.wf(),
                p.emitted() == e0 + out@,
                e0 == self.emitted(),
                q0 == self.queued(),
                input == self.source(),
                t == self.all_tokens(),
                p0 == self.position(),
                p.input@ == input,
                p.tokens@ == t,
                out@ + p.queue@ == q0 + x,
                forall|y: Seq<Event>| meta_events_from(input, t, p.pos as int, y) ==> meta_events_from(input, t, p0, x + y),
            decreases p.remaining(), p.queue@.len(),
        {
            if p.queue.len() > 0 {
                let ghost q = p.queue@;
                let e = match p.queue.pop_front() {
                    Some(e) => e,
                    None => {
                        return out;
                    },
                };
                proof {
                    assert(p.emitted@.push(e) + p.queue@ =~= p.emitted@ + q);
                    assert(out@.push(e) + p.queue@ =~= out@ + q);
                }
                p.emitted = Ghost(p.emitted@.push(e));
                out.push(e);
                assert(p.emitted() =~= e0 + out@);
            } else {
                let ghost before = p;
                match p.next_metadata_block() {
                    None => {
                        proof {
                            assert(steps_balanced(p.emitted@ + p.queue@));
                            assert(p.emitted@ + p.queue@ =~= e0 + out@);
                            reveal(meta_events_from);
                            assert(meta_events_from(input, t, before.pos as int, Seq::<Event>::empty()));
                            assert(x + Seq::<Event>::empty() =~= x);
                            assert(out@ =~= q0 + x);
                            assert(out@.subrange(0, q0.len() as int) =~= q0);
                            assert(out@.subrange(q0.len() as int, out@.len() as int) =~= x);
                        }
                        return out;
                    },
                    Some(_) => {
                        proof {
                            let b = p.queue@;
                            assert(p.queue@.subrange(0, 0) =~= before.queue@);
                            assert(p.queue@.subrange(0, p.queue@.len() as int) =~= b);
                            lemma_meta_extend(input, t, p0, x, b, before.pos as int, p.pos as int);
                            assert(out@ + p.queue@ =~= q0 + (x + b));
                            x = x + b;
                        }
                    },
                }
            }
        }
    }
}

/// The errors among `events`, in order.
pub open spec fn errors_of(events: Seq<Event>) -> Seq<ParserError>
    decreases events.len(),
{
    if events.len() == 0 {
        Seq::empty()
    } else {
        match events.last() {
            Event::Error(e) => errors_of(events.drop_last()).push(e),
            _ => errors_of(events.drop_last()),
        }
    }
}

/// The warnings among `events`, in order.
pub open spec fn warnings_of(events: Seq<Event>) -> Seq<ParserWarning>
    decreases events.len(),
{
    if events.len() == 0 {
        Seq::empty()
    } else {
        match events.last() {
            Event::Warning(w) => warnings_of(events.drop_last()).push(w),
            _ => warnings_of(events.drop_last()),
        }
    }
}

/// What a block of the fold is: a metadata or section block as it is, or
/// (`None`) a step with its text flag and items.
pub type BlockShape = (Option<Block>, bool, Seq<Item>);

/// Folds `events` into blocks: metadata and section events give their
/// blocks; a start of step begins a new item list; an end of step adds the
/// step, when it has items; text and component events add items; errors
/// and warnings add nothing. Also gives the items of the step being read.
pub open spec fn fold_blocks(events: Seq<Event>) -> (Seq<BlockShape>, Seq<Item>)
    decreases events.len(),
{
    if events.len() == 0 {
        (Seq::empty(), Seq::empty())
    } else {
        let (blocks, items) = fold_blocks(events.drop_last());
        match events.last() {
            Event::Metadata { key, value } => (blocks.push((Some(Block::Metadata { key, value }), false, Seq::empty())), items),
            Event::Section { name } => (blocks.push((Some(Block::Section { name }), false, Seq::empty())), items),
            Event::StartStep { .. } => (blocks, Seq::empty()),
            Event::EndStep { is_text } => if items.len() > 0 {
                (blocks.push((None, is_text, items)), Seq::empty())
            } else {
                (blocks, Seq::empty())
            },
            Event::Text(t) => (blocks, items.push(Item::Text(t))),
            Event::Ingredient(c) => (blocks, items.push(Item::Ingredient(c))),
            Event::Cookware(c) => (blocks, items.push(Item::Cookware(c))),
            Event::Timer(c) => (blocks, items.push(Item::Timer(c))),
            Event::Error(_) | Event::Warning(_) => (blocks, items),
        }
    }
}

/// Whether `b` is the block that `d` describes.
pub open spec fn block_is(b: Block, d: BlockShape) -> bool {
    match d.0 {
        Some(x) => b == x,
        None => match b {
            Block::Step { is_text, items } => is_text == d.1 && items@ == d.2,
            _ => false,
        },
    }
}

/// Whether `blocks` are the blocks `ds` describe, one for one.
pub open spec fn blocks_are(blocks: Seq<Block>, ds: Seq<BlockShape>) -> bool {
    &&& blocks.len() == ds.len()
    &&& forall|i: int| 0 <= i < ds.len() ==> block_is(#[trigger] blocks[i], ds[i])
}

/// A result that carries the diagnostics found on the way.
pub struct PassResult {
    pub output: Option<Ast>,
    pub warnings: Vec<ParserWarning>,
    pub errors: Vec<ParserError>,
}

impl PassResult {
    pub fn into_tuple(self) -> (r: (Option<Ast>, Vec<ParserWarning>, Vec<ParserError>))
        ensures
            r.0 == self.output,
            r.1 == self.warnings,
            r.2 == self.errors,
    {
        (self.output, self.warnings, self.errors)
    }
}

/// Folds events into the structure of a recipe. A start of step begins a
/// new list of items; its end adds the step, when it has items. Errors and
/// warnings go to the diagnostics, in order.
pub fn build_ast(events: Vec<Event>) -> (r: PassResult)
    ensures
        r.output matches Some(ast) && blocks_are(ast.blocks@, fold_blocks(events@).0),
        r.errors@ == errors_of(events@),
        r.warnings@ == warnings_of(events@),
{
    let mut blocks: Vec<Block> = Vec::new();
    let mut items: Vec<Item> = Vec::new();
    let mut errors: Vec<ParserError> = Vec::new();
    let mut warnings: Vec<ParserWarning> = Vec::new();
    let mut rest = events;
    let ghost all = rest@;
    let ghost mut k: int = 0;
    while rest.len() > 0
        invariant
            0 <= k,
            k + rest@.len() == all.len(),
            rest@ == all.subrange(k as int, all.len() as int),
            errors@ == errors_of(all.subrange(0, k as int)),
            warnings@ == warnings_of(all.subrange(0, k as int)),
            blocks_are(blocks@, fold_blocks(all.subrange(0, k)).0),
            items@ == fold_blocks(all.subrange(0, k)).1,
        decreases rest@.len(),
    {
        let event = rest.remove(0);
        proof {
            assert(event == all[k as int]);
            assert(all.subrange(0, k + 1).drop_last() == all.subrange(0, k as int));
            assert(all.subrange(0, k + 1).last() == event);
        }
        let ghost pre_blocks = blocks@;
        let ghost pre_items = items@;
        let ghost fold_pre = fold_blocks(all.subrange(0, k));
        let ghost fold_post = fold_blocks(all.subrange(0, k + 1));
        match event {
            Event::Metadata { key, value } => blocks.push(Block::Metadata { key, value }),
            Event::Section { name } => blocks.push(Block::Section { name }),
            Event::StartStep { .. } => items.clear(),
            Event::EndStep { is_text } => {
                if items.len() > 0 {
                    let mut taken: Vec<Item> = Vec::new();
                    std::mem::swap(&mut items, &mut taken);
                    blocks.push(Block::Step { is_text, items: taken });
                }
            },
            Event::Text(t) => items.push(Item::Text(t)),
            Event::Ingredient(c) => items.push(Item::Ingredient(c)),
            Event::Cookware(c) => items.push(Item::Cookware(c)),
            Event::Timer(c) => items.push(Item::Timer(c)),
            Event::Error(e) => errors.push(e),
            Event::Warning(w) => warnings.push(w),
        }
        proof {
            if pre_items.len() == 0 {
                assert(pre_items =~= Seq::<Item>::empty());
            }
            assert(items@ =~= fold_post.1);
            assert(blocks@.len() == fold_post.0.len());
            assert forall|i: int| 0 <= i < fold_post.0.len() implies block_is(#[trigger] blocks@[i], fold_post.0[i]) by {
                if i < pre_blocks.len() {
                    assert(blocks@[i] == pre_blocks[i]);
                    assert(fold_post.0[i] == fold_pre.0[i]);
                }
            }
            k = k + 1;
            assert(rest@ =~= all.subrange(k, all.len() as int));
        }
    }
    assert(all.subrange(0, k as int) == all);
    PassResult { output: Some(Ast { blocks }), warnings, errors }
}

} // verus!
