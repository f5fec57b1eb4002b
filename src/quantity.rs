use vstd::prelude::*;
use crate::ast::{Event, Located, ParsedQuantity, ParserError, Quantity, QuantityValue, Value};
use crate::block_parser::{
    lemma_grew_refl, lemma_grew_trans, lemma_same_events, lemma_wf_subrange, text_of, tokens_wf, BlockParser,
};
use crate::numeric::{numeric_spec, numeric_value, significant};
use crate::text::trimmed;
use crate::token::{is_trivia, Span, Token, TokenKind};

verus! {

/// `|`, `*` and `%` end a value of a quantity.
pub open spec fn is_stop(k: TokenKind) -> bool {
    k == TokenKind::Or || k == TokenKind::Star || k == TokenKind::Percent
}

/// The value runs of a value list, as `(start, end)` token positions: the
/// current run started at `seg_start` and `i` is the next token to look at.
/// A `|` starts a new run; a `*`, a `%` or the end closes the list.
pub open spec fn segs_from(t: Seq<Token>, seg_start: int, i: int) -> Seq<(int, int)>
    decreases t.len() - i,
{
    if i >= t.len() {
        seq![(seg_start, t.len() as int)]
    } else if t[i].kind == TokenKind::Or {
        seq![(seg_start, i)] + segs_from(t, i + 1, i + 1)
    } else if is_stop(t[i].kind) {
        seq![(seg_start, i)]
    } else {
        segs_from(t, seg_start, i + 1)
    }
}

/// The value runs of the value list that starts at `from`.
pub open spec fn value_segments(t: Seq<Token>, from: int) -> Seq<(int, int)> {
    segs_from(t, from, from)
}

/// Where the value list that starts at `from` ends: at a `*`, a `%` or the
/// end of the tokens.
pub open spec fn list_end(t: Seq<Token>, from: int) -> int {
    value_segments(t, from).last().1
}

/// Whether the value list that starts at `from` ends with `*`.
pub open spec fn list_starred(t: Seq<Token>, from: int) -> bool {
    let e = list_end(t, from);
    0 <= e < t.len() && t[e].kind == TokenKind::Star
}

/// The position after the value list and its `*`, if any.
pub open spec fn after_list(t: Seq<Token>, from: int) -> int {
    if list_starred(t, from) {
        list_end(t, from) + 1
    } else {
        list_end(t, from)
    }
}

/// The source position after the first `e` tokens of `t`, which start at
/// `base`.
pub open spec fn offset_after(t: Seq<Token>, base: usize, e: int) -> usize {
    if e <= 0 {
        base
    } else {
        t[e - 1].span.end
    }
}

/// The span of the value run `t[s..e]`: from its first token to the end of
/// its last, or the empty span where it ends when it is empty.
pub open spec fn seg_span(t: Seq<Token>, base: usize, s: int, e: int) -> Span {
    let end = offset_after(t, base, e);
    Span { start: if s < e { t[s].span.start } else { end }, end }
}

/// Whether `v` is what the run of tokens reads as: its number, the
/// placeholder when the number is malformed, or else its trimmed text.
pub open spec fn value_matches(v: Value, input: Seq<u8>, run: Seq<Token>, ranges: bool) -> bool {
    match numeric_spec(input, significant(run), ranges) {
        Some(Ok(x)) => v == x,
        Some(Err(_)) => v == Value::spec_recover(),
        None => match v {
            Value::Text(b) => b@ == trimmed(text_of(input, run)),
            _ => false,
        },
    }
}

/// The error of a run that has the shape of a number but is malformed.
pub open spec fn value_error(input: Seq<u8>, run: Seq<Token>, ranges: bool) -> Option<ParserError> {
    match numeric_spec(input, significant(run), ranges) {
        Some(Err(e)) => Some(e),
        _ => None,
    }
}

/// An error that reading a quantity reports, as it stands among the events.
pub enum Report {
    /// This very error.
    Error(ParserError),
    /// A blank value, over this span.
    EmptyValue(Span),
    /// A blank unit after the `%` at the first span; the second marks where
    /// the unit belongs.
    EmptyUnit(Span, Span),
}

/// Whether `ev` is the event of report `d`.
pub open spec fn event_is(ev: Event, d: Report) -> bool {
    match d {
        Report::Error(e) => ev == Event::Error(e),
        Report::EmptyValue(span) => match ev {
            Event::Error(ParserError::ComponentPartInvalid { container, what, reason, labels, help }) => {
                &&& container == "quantity"
                &&& what == "value"
                &&& reason == "is empty"
                &&& labels@ == seq![(span, Some("empty value here"))]
                &&& help.is_none()
            },
            _ => false,
        },
        Report::EmptyUnit(sep, at) => match ev {
            Event::Error(ParserError::ComponentPartInvalid { container, what, reason, labels, help }) => {
                &&& container == "quantity"
                &&& what == "unit"
                &&& reason == "is empty"
                &&& labels@ == seq![(sep, Some("remove this")), (at, Some("or add unit here"))]
                &&& help.is_none()
            },
            _ => false,
        },
    }
}

/// Whether `evs` are the events of the reports `ds`, one for one.
pub open spec fn events_are(evs: Seq<Event>, ds: Seq<Report>) -> bool {
    &&& evs.len() == ds.len()
    &&& forall|i: int| 0 <= i < ds.len() ==> event_is(#[trigger] evs[i], ds[i])
}

/// The events a parser appended since it held `n` events.
pub open spec fn fresh(evs: Seq<Event>, n: int) -> Seq<Event> {
    evs.subrange(n, evs.len() as int)
}

pub proof fn lemma_reports_chain(e1: Seq<Event>, e2: Seq<Event>, n0: int, da: Seq<Report>, db: Seq<Report>)
    requires
        0 <= n0 <= e1.len() <= e2.len(),
        e2.subrange(0, e1.len() as int) == e1,
        events_are(fresh(e1, n0), da),
        events_are(fresh(e2, e1.len() as int), db),
    ensures
        events_are(fresh(e2, n0), da + db),
{
    let f = fresh(e2, n0);
    assert forall|i: int| 0 <= i < (da + db).len() implies event_is(#[trigger] f[i], (da + db)[i]) by {
        if i < da.len() {
            assert(f[i] == e2[n0 + i]);
            assert(e2[n0 + i] == e1[n0 + i]);
            assert(fresh(e1, n0)[i] == e1[n0 + i]);
        } else {
            assert(f[i] == fresh(e2, e1.len() as int)[i - da.len()]);
        }
    }
}

/// The reports of reading the run as a value over `span`: a malformed
/// number's error, or a blank text's.
pub open spec fn value_reports(input: Seq<u8>, run: Seq<Token>, ranges: bool, span: Span) -> Seq<Report> {
    match numeric_spec(input, significant(run), ranges) {
        Some(Ok(_)) => Seq::empty(),
        Some(Err(e)) => seq![Report::Error(e)],
        None => if trimmed(text_of(input, run)).len() == 0 {
            seq![Report::EmptyValue(span)]
        } else {
            Seq::empty()
        },
    }
}

/// The reports of the value runs `segs` of `t`, in order.
pub open spec fn list_reports(input: Seq<u8>, t: Seq<Token>, base: usize, segs: Seq<(int, int)>, ranges: bool) -> Seq<Report>
    decreases segs.len(),
{
    if segs.len() == 0 {
        Seq::empty()
    } else {
        list_reports(input, t, base, segs.drop_last(), ranges) + value_reports(
            input,
            t.subrange(segs.last().0, segs.last().1),
            ranges,
            seg_span(t, base, segs.last().0, segs.last().1),
        )
    }
}



/// Whether `q` is the value list of the tokens from `from` on: one value
/// per run, single when there is one run (with the span of its `*`, if it
/// ends with one), many otherwise.
pub open spec fn list_matches(q: QuantityValue, input: Seq<u8>, t: Seq<Token>, base: usize, from: int, ranges: bool) -> bool {
    let segs = value_segments(t, from);
    match q {
        QuantityValue::Single { value, auto_scale } => {
            &&& segs.len() == 1
            &&& value_matches(value.inner, input, t.subrange(segs[0].0, segs[0].1), ranges)
            &&& value.span == seg_span(t, base, segs[0].0, segs[0].1)
            &&& auto_scale == if list_starred(t, from) {
                Some(t[list_end(t, from)].span)
            } else {
                None
            }
        },
        QuantityValue::Many(values) => {
            &&& segs.len() >= 2
            &&& values@.len() == segs.len()
            &&& forall|k: int|
                0 <= k < segs.len() ==> value_matches(
                    (#[trigger] values@[k]).inner,
                    input,
                    t.subrange(segs[k].0, segs[k].1),
                    ranges,
                ) && values@[k].span == seg_span(t, base, segs[k].0, segs[k].1)
        },
    }
}

/// An auto scale marker and several values exclude each other: a value
/// list read as one value carries the marker's span exactly when the list
/// ends with `*`, and a list of several values is read as many values,
/// which carry no marker.
pub proof fn auto_scale_exclusive(q: QuantityValue, input: Seq<u8>, t: Seq<Token>, base: usize, from: int, ranges: bool)
    requires
        list_matches(q, input, t, base, from, ranges),
    ensures
        q matches QuantityValue::Single { auto_scale: Some(s), .. } ==> value_segments(t, from).len() == 1
            && list_starred(t, from) && s == t[list_end(t, from)].span,
        list_starred(t, from) && value_segments(t, from).len() == 1 ==> (q matches QuantityValue::Single {
            auto_scale: Some(s),
            ..
        } && s == t[list_end(t, from)].span),
        value_segments(t, from).len() >= 2 ==> q is Many,
{
}

proof fn lemma_segs_skip(t: Seq<Token>, s: int, i: int, e: int)
    requires
        0 <= i <= e <= t.len(),
        forall|j: int| i <= j < e ==> !is_stop(#[trigger] t[j].kind),
    ensures
        segs_from(t, s, i) == segs_from(t, s, e),
    decreases e - i,
{
    if i < e {
        lemma_segs_skip(t, s, i + 1, e);
    }
}

proof fn lemma_segs_nonempty(t: Seq<Token>, s: int, i: int)
    requires
        0 <= s <= i <= t.len(),
    ensures
        segs_from(t, s, i).len() >= 1,
        segs_from(t, s, i)[0].0 == s,
        forall|k: int| 0 <= k < segs_from(t, s, i).len() ==> s <= (#[trigger] segs_from(t, s, i)[k]).0
            <= segs_from(t, s, i)[k].1 <= t.len(),
    decreases t.len() - i,
{
    if i < t.len() {
        if t[i].kind == TokenKind::Or {
            lemma_segs_nonempty(t, i + 1, i + 1);
            let r = segs_from(t, i + 1, i + 1);
            assert forall|k: int| 0 <= k < segs_from(t, s, i).len() implies s <= (#[trigger] segs_from(
                t,
                s,
                i,
            )[k]).0 <= segs_from(t, s, i)[k].1 <= t.len() by {
                if k > 0 {
                    assert(segs_from(t, s, i)[k] == r[k - 1]);
                }
            }
        } else if !is_stop(t[i].kind) {
            lemma_segs_nonempty(t, s, i + 1);
        }
    }
}

/// The tokens `*`, `|` and `%`.
fn stops() -> (r: [TokenKind; 3])
    ensures
        forall|k: TokenKind| r@.contains(k) <==> is_stop(k),
{
    let r = [TokenKind::Or, TokenKind::Star, TokenKind::Percent];
    assert forall|k: TokenKind| r@.contains(k) <==> is_stop(k) by {
        if is_stop(k) {
            if k == TokenKind::Or {
                assert(r@[0] == k);
            } else if k == TokenKind::Star {
                assert(r@[1] == k);
            } else {
                assert(r@[2] == k);
            }
        }
    }
    r
}

/// Reads the free text of a value.
pub fn text_value(tokens: &[Token], span: Span, bp: &mut BlockParser) -> (r: Value)
    requires
        old(bp).wf(),
        tokens_wf(tokens@, old(bp).input@.len()),
        tokens@.len() > 0 ==> span.start == tokens@[0].span.start,
    ensures
        final(bp).grew(old(bp)),
        final(bp).current == old(bp).current,
        final(bp).events@.len() <= old(bp).events@.len() + 1,
        r matches Value::Text(b) && b@ == trimmed(text_of(old(bp).input@, tokens@)),
        trimmed(text_of(old(bp).input@, tokens@)).len() != 0 ==> final(bp).events@ == old(bp).events@,
        trimmed(text_of(old(bp).input@, tokens@)).len() == 0 ==> (final(bp).events@.last() matches Event::Error(ParserError::ComponentPartInvalid { container, what, reason, .. })
            && container == "quantity" && what == "value" && reason == "is empty" && final(bp).events@.len() == old(bp).events@.len() + 1),
        events_are(
            fresh(final(bp).events@, old(bp).events@.len() as int),
            if trimmed(text_of(old(bp).input@, tokens@)).len() == 0 {
                seq![Report::EmptyValue(span)]
            } else {
                Seq::empty()
            },
        ),
{
    let text = bp.text(span.start, tokens);
    if text.is_text_empty() {
        bp.error(ParserError::ComponentPartInvalid {
            container: "quantity",
            what: "value",
            reason: "is empty",
            labels: crate::ast::one_label(span, Some("empty value here")),
            help: None,
        });
    }
    let r = Value::Text(text.text_trimmed());
    proof {
        assert(bp.events@.subrange(0, old(bp).events@.len() as int) =~= old(bp).events@);
        let f = fresh(bp.events@, old(bp).events@.len() as int);
        if f.len() == 1 {
            assert(f[0] == bp.events@.last());
        }
    }
    r
}

/// Reads one value of a quantity from its run of tokens. A malformed number
/// is reported and replaced by the placeholder.
pub fn parse_value(tokens: &[Token], bp: &mut BlockParser) -> (r: Located<Value>)
    requires
        old(bp).wf(),
        tokens_wf(tokens@, old(bp).input@.len()),
    ensures
        final(bp).grew(old(bp)),
        final(bp).current == old(bp).current,
        final(bp).events@.len() <= old(bp).events@.len() + 1,
        value_matches(r.inner, old(bp).input@, tokens@, old(bp).extensions.range_values),
        r.span.end == old(bp).offset_spec(),
        events_are(
            fresh(final(bp).events@, old(bp).events@.len() as int),
            value_reports(old(bp).input@, tokens@, old(bp).extensions.range_values, r.span),
        ),
        r.span.start == if tokens@.len() > 0 {
            tokens@[0].span.start
        } else {
            old(bp).offset_spec()
        },
        value_error(old(bp).input@, tokens@, old(bp).extensions.range_values).is_some()
            ==> final(bp).events@ == old(bp).events@.push(
            Event::Error(value_error(old(bp).input@, tokens@, old(bp).extensions.range_values).unwrap()),
        ),
{
    let end = bp.current_offset();
    let start = if tokens.len() > 0 {
        tokens[0].span.start
    } else {
        end
    };
    let span = Span::new(start, end);
    let val = match numeric_value(tokens, bp) {
        Some(Ok(v)) => v,
        Some(Err(e)) => {
            bp.error(e);
            Value::recover()
        },
        None => text_value(tokens, span, bp),
    };
    proof {
        assert(bp.events@.subrange(0, old(bp).events@.len() as int) =~= old(bp).events@);
        let f = fresh(bp.events@, old(bp).events@.len() as int);
        if f.len() == 1 {
            assert(f[0] == bp.events@.last());
        }
        if f.len() == 0 {
            assert(f =~= Seq::<Event>::empty());
        }
    }
    Located::new(val, span)
}

/// Reads one value run, up to the next `|`, `*`, `%` or the end.
fn value_run(bp: &mut BlockParser) -> (r: Located<Value>)
    requires
        old(bp).wf(),
    ensures
        final(bp).grew(old(bp)),
        old(bp).current <= final(bp).current <= old(bp).tokens@.len(),
        final(bp).current < old(bp).tokens@.len() ==> is_stop(old(bp).tokens@[final(bp).current as int].kind),
        ({
            let t = old(bp).tokens@;
            let c = old(bp).current as int;
            let e = final(bp).current as int;
            &&& segs_from(t, c, c) == if e < t.len() && t[e].kind == TokenKind::Or {
                seq![(c, e)] + segs_from(t, e + 1, e + 1)
            } else {
                seq![(c, e)]
            }
            &&& value_matches(r.inner, old(bp).input@, t.subrange(c, e), old(bp).extensions.range_values)
            &&& r.span == seg_span(t, old(bp).base_offset, c, e)
            &&& events_are(
                fresh(final(bp).events@, old(bp).events@.len() as int),
                value_reports(old(bp).input@, t.subrange(c, e), old(bp).extensions.range_values, seg_span(t, old(bp).base_offset, c, e)),
            )
        }),
{
    let ghost t = bp.tokens@;
    let ghost c = bp.current as int;
    let ghost b0 = *bp;
    let st = stops();
    let toks = bp.consume_while(st.as_slice(), false);
    let ghost e = bp.current as int;
    proof {
        lemma_wf_subrange(t, bp.input@.len(), c, e);
        assert forall|j: int| c <= j < e implies !is_stop(#[trigger] t[j].kind) by {
            assert(!st@.contains(t[j].kind));
        }
        lemma_segs_skip(t, c, c, e);
        if e < t.len() {
            assert(st@.contains(t[e].kind));
        }
        lemma_same_events(&b0, bp);
    }
    let ghost b1 = *bp;
    let v = parse_value(toks, bp);
    proof {
        lemma_grew_trans(&b0, &b1, bp);
        if e > c {
            assert(toks@[0] == t[c]);
        }
    }
    v
}

/// The scaling conflict a value list reports when several values end with
/// `*`: from the end of the first value to the end of the `*`.
pub open spec fn conflict_reports(t: Seq<Token>, base: usize, from: int) -> Seq<Report> {
    let segs = value_segments(t, from);
    if segs.len() >= 2 && list_starred(t, from) {
        seq![
            Report::Error(
                ParserError::QuantityScalingConflict {
                    bad_bit: Span { start: seg_span(t, base, segs[0].0, segs[0].1).end, end: t[list_end(t, from)].span.end },
                },
            ),
        ]
    } else {
        Seq::empty()
    }
}

/// Reads the `|`-separated values of a quantity, up to a `*` (which it
/// consumes), a `%` or the end. A `*` after more than one value is a
/// scaling conflict: it is reported and the values stand.
#[verifier::rlimit(100)]
pub fn many_values(bp: &mut BlockParser) -> (r: QuantityValue)
    requires
        old(bp).wf(),
    ensures
        final(bp).grew(old(bp)),
        final(bp).current == after_list(old(bp).tokens@, old(bp).current as int),
        list_matches(r, old(bp).input@, old(bp).tokens@, old(bp).base_offset, old(bp).current as int, old(bp).extensions.range_values),
        (r is Many && list_starred(old(bp).tokens@, old(bp).current as int)) ==> (final(bp).events@.last() matches Event::Error(
            ParserError::QuantityScalingConflict { bad_bit },
        ) && bad_bit.end == old(bp).tokens@[list_end(old(bp).tokens@, old(bp).current as int)].span.end
            && bad_bit.start == seg_span(
            old(bp).tokens@,
            old(bp).base_offset,
            value_segments(old(bp).tokens@, old(bp).current as int)[0].0,
            value_segments(old(bp).tokens@, old(bp).current as int)[0].1,
        ).end),
        events_are(
            fresh(final(bp).events@, old(bp).events@.len() as int),
            list_reports(
                old(bp).input@,
                old(bp).tokens@,
                old(bp).base_offset,
                value_segments(old(bp).tokens@, old(bp).current as int),
                old(bp).extensions.range_values,
            ) + conflict_reports(old(bp).tokens@, old(bp).base_offset, old(bp).current as int),
        ),
{
    let ghost t = bp.tokens@;
    let ghost input = bp.input@;
    let ghost ranges = bp.extensions.range_values;
    let ghost from = bp.current as int;
    let ghost b0 = *bp;
    let first = value_run(bp);
    let ghost e0 = bp.current as int;
    proof {
        assert(seq![(from, e0)].drop_last() =~= Seq::<(int, int)>::empty());
        reveal_with_fuel(list_reports, 2);
        assert(list_reports(input, t, b0.base_offset, seq![(from, e0)], ranges) =~= value_reports(
            input,
            t.subrange(from, e0),
            ranges,
            seg_span(t, b0.base_offset, from, e0),
        ));
    }
    if bp.at(TokenKind::Star) {
        let ghost bs = *bp;
        let tok = bp.bump_any();
        proof {
            lemma_same_events(&bs, bp);
            lemma_grew_trans(&b0, &bs, bp);
            assert(fresh(bp.events@, b0.events@.len() as int) == fresh(bs.events@, b0.events@.len() as int));
            assert(value_segments(t, from) =~= seq![(from, e0)]);
            assert(conflict_reports(t, b0.base_offset, from) =~= Seq::<Report>::empty());
            assert(list_reports(input, t, b0.base_offset, seq![(from, e0)], ranges) + Seq::<Report>::empty() =~= list_reports(input, t, b0.base_offset, seq![(from, e0)], ranges));
        }
        return QuantityValue::Single { value: first, auto_scale: Some(tok.span) };
    }
    if !bp.at(TokenKind::Or) {
        proof {
            assert(value_segments(t, from) =~= seq![(from, e0)]);
            assert(conflict_reports(t, b0.base_offset, from) =~= Seq::<Report>::empty());
            assert(list_reports(input, t, b0.base_offset, seq![(from, e0)], ranges) + Seq::<Report>::empty() =~= list_reports(input, t, b0.base_offset, seq![(from, e0)], ranges));
        }
        return QuantityValue::Single { value: first, auto_scale: None };
    }
    let first_end = first.span.end;
    let ghost b1 = *bp;
    let _ = bp.bump_any();
    proof {
        lemma_segs_nonempty(t, e0 + 1, e0 + 1);
        lemma_same_events(&b1, bp);
        lemma_grew_trans(&b0, &b1, bp);
    }
    let mut values: Vec<Located<Value>> = Vec::new();
    values.push(first);
    let ghost mut done: Seq<(int, int)> = seq![(from, e0)];
    let mut more = true;
    while more
        invariant
            bp.grew(&b0),
            bp.tokens@ == t,
            bp.input@ == input,
            bp.extensions.range_values == ranges,
            values@.len() == done.len(),
            done.len() >= 1,
            more ==> value_segments(t, from) == done + segs_from(t, bp.current as int, bp.current as int),
            !more ==> done.len() >= 2 && value_segments(t, from) == done,
            !more ==> bp.current == after_list(t, from),
            !more && list_starred(t, from) ==> (bp.events@.last() matches Event::Error(
                ParserError::QuantityScalingConflict { bad_bit },
            ) && bad_bit.end == t[list_end(t, from)].span.end && bad_bit.start == first_end),
            first_end == seg_span(t, b0.base_offset, from, e0).end,
            more ==> events_are(fresh(bp.events@, b0.events@.len() as int), list_reports(input, t, b0.base_offset, done, ranges)),
            !more ==> events_are(
                fresh(bp.events@, b0.events@.len() as int),
                list_reports(input, t, b0.base_offset, done, ranges) + conflict_reports(t, b0.base_offset, from),
            ),
            done[0] == (from, e0),
            forall|k: int|
                0 <= k < done.len() ==> value_matches(
                    (#[trigger] values@[k]).inner,
                    input,
                    t.subrange(done[k].0, done[k].1),
                    ranges,
                ) && values@[k].span == seg_span(t, b0.base_offset, done[k].0, done[k].1),
        decreases (t.len() - bp.current) * 2 + if more { 1int } else { 0int },
    {
        let ghost c = bp.current as int;
        let ghost bb = *bp;
        let v = value_run(bp);
        let ghost e = bp.current as int;
        proof {
            lemma_grew_trans(&b0, &bb, bp);
        }
        values.push(v);
        proof {
            let d2 = done.push((c, e));
            assert forall|k: int| 0 <= k < d2.len() implies value_matches(
                (#[trigger] values@[k]).inner,
                input,
                t.subrange(d2[k].0, d2[k].1),
                ranges,
            ) && values@[k].span == seg_span(t, b0.base_offset, d2[k].0, d2[k].1) by {
                if k < done.len() {
                    assert(d2[k] == done[k]);
                }
            }
            assert(d2.drop_last() == done);
            assert(d2.last() == (c, e));
            assert(list_reports(input, t, b0.base_offset, d2, ranges) == list_reports(input, t, b0.base_offset, done, ranges)
                + value_reports(input, t.subrange(c, e), ranges, seg_span(t, b0.base_offset, c, e)));
            lemma_reports_chain(bb.events@, bp.events@, b0.events@.len() as int, list_reports(input, t, b0.base_offset, done, ranges), value_reports(input, t.subrange(c, e), ranges, seg_span(t, b0.base_offset, c, e)));
            assert(d2[0] == done[0]);
            if e < t.len() && t[e].kind == TokenKind::Or {
                assert(done + (seq![(c, e)] + segs_from(t, e + 1, e + 1)) =~= d2 + segs_from(t, e + 1, e + 1));
            } else {
                assert(done + seq![(c, e)] =~= d2);
            }
            done = d2;
        }
        let ghost bd = *bp;
        if bp.at(TokenKind::Or) {
            let _ = bp.bump_any();
            proof { lemma_same_events(&bd, bp); lemma_grew_trans(&b0, &bd, bp); }
        } else {
            more = false;
            proof {
                if !list_starred(t, from) {
                    assert(list_reports(input, t, b0.base_offset, done, ranges) + conflict_reports(t, b0.base_offset, from)
                        =~= list_reports(input, t, b0.base_offset, done, ranges));
                }
            }
            if bp.at(TokenKind::Star) {
                let tok = bp.bump_any();
                let ghost be = *bp;
                bp.error(ParserError::QuantityScalingConflict { bad_bit: Span::new(first_end, tok.span.end) });
                proof {
                    lemma_same_events(&bd, &be);
                    lemma_grew_trans(&b0, &bd, &be);
                    assert(bp.events@.subrange(0, be.events@.len() as int) =~= be.events@);
                    lemma_grew_trans(&b0, &be, bp);
                    let cr = conflict_reports(t, b0.base_offset, from);
                    assert(fresh(bp.events@, be.events@.len() as int) =~= seq![bp.events@.last()]);
                    assert(events_are(fresh(bp.events@, be.events@.len() as int), cr));
                    lemma_reports_chain(be.events@, bp.events@, b0.events@.len() as int, list_reports(input, t, b0.base_offset, done, ranges), cr);
                }
            }
        }
    }
    assert(value_segments(t, from) == done);
    QuantityValue::Many(values)
}

/// Whether a unit run is blank: white space and block comments only.
pub open spec fn is_blank_unit(u: Seq<Token>) -> bool {
    forall|i: int| 0 <= i < u.len() ==> (#[trigger] u[i]).kind == TokenKind::Whitespace || u[i].kind
        == TokenKind::BlockComment
}

fn blank_unit(u: &[Token]) -> (r: bool)
    ensures
        r == is_blank_unit(u@),
{
    let mut i: usize = 0;
    while i < u.len()
        invariant
            i <= u@.len(),
            forall|j: int| 0 <= j < i ==> (#[trigger] u@[j]).kind == TokenKind::Whitespace || u@[j].kind
                == TokenKind::BlockComment,
        decreases u@.len() - i,
    {
        if u[i].kind != TokenKind::Whitespace && u[i].kind != TokenKind::BlockComment {
            return false;
        }
        i += 1;
    }
    true
}

/// The span from the start of the first token to the end of the last.
pub open spec fn span_of(t: Seq<Token>) -> Span {
    Span { start: t[0].span.start, end: t.last().span.end }
}

/// The span of a non-empty run of tokens.
pub fn tokens_span(tokens: &[Token]) -> (r: Span)
    requires
        tokens@.len() > 0,
    ensures
        r == span_of(tokens@),
{
    Span::new(tokens[0].span.start, tokens[tokens.len() - 1].span.end)
}

/// Whether `q` is what the regular grammar makes of the tokens `t`, whose
/// value list starts at `from`: the value list, then a unit after `%` (a
/// blank one is dropped), or, when something other than `%` follows the
/// list, the whole run as one text value.
pub open spec fn regular_matches(q: ParsedQuantity, input: Seq<u8>, t: Seq<Token>, base: usize, from: int, ranges: bool) -> bool {
    let p = after_list(t, from);
    let value = q.quantity.inner.value;
    let unit = q.quantity.inner.unit;
    &&& q.quantity.span == span_of(t)
    &&& if p < t.len() && t[p].kind == TokenKind::Percent {
        let u = t.subrange(p + 1, t.len() as int);
        &&& q.unit_separator == Some(t[p].span)
        &&& list_matches(value, input, t, base, from, ranges)
        &&& if is_blank_unit(u) {
            unit.is_none()
        } else {
            unit matches Some(x) && x.view_bytes() == text_of(input, u) && x.offset == t[p].span.end
        }
    } else if p >= t.len() {
        &&& q.unit_separator.is_none()
        &&& unit.is_none()
        &&& list_matches(value, input, t, base, from, ranges)
    } else {
        &&& q.unit_separator.is_none()
        &&& unit.is_none()
        &&& value matches QuantityValue::Single { value: v, auto_scale: None }
        &&& v.inner matches Value::Text(b)
        &&& b@ == trimmed(text_of(input, t))
        &&& v.span == span_of(t)
    }
}

/// The report of a blank unit after the `%` token `sep`, when `u` is blank.
pub open spec fn blank_unit_reports(sep: Token, u: Seq<Token>) -> Seq<Report> {
    if is_blank_unit(u) {
        seq![
            Report::EmptyUnit(
                sep.span,
                if u.len() == 0 {
                    Span { start: sep.span.end, end: sep.span.end }
                } else {
                    Span { start: sep.span.start, end: u.last().span.end }
                },
            ),
        ]
    } else {
        Seq::empty()
    }
}

/// The reports of the regular grammar on `t` from `from`: its values', a
/// scaling conflict, then a blank unit's.
pub open spec fn regular_reports(input: Seq<u8>, t: Seq<Token>, base: usize, from: int, ranges: bool) -> Seq<Report> {
    let p = after_list(t, from);
    list_reports(input, t, base, value_segments(t, from), ranges) + conflict_reports(t, base, from) + if p < t.len()
        && t[p].kind == TokenKind::Percent {
        blank_unit_reports(t[p], t.subrange(p + 1, t.len() as int))
    } else {
        Seq::empty()
    }
}

fn two_labels(sep: Span, at: Span) -> (r: Vec<(Span, Option<&'static str>)>)
    ensures
        r@ == seq![(sep, Some("remove this")), (at, Some("or add unit here"))],
{
    let mut v: Vec<(Span, Option<&'static str>)> = Vec::new();
    v.push((sep, Some("remove this")));
    v.push((at, Some("or add unit here")));
    v
}

/// Reads the unit after a `%` separator: all the tokens left. A blank unit
/// is reported, with the separator, and dropped.
fn unit_after(bp: &mut BlockParser, sep: Token) -> (r: Option<crate::text::Text>)
    requires
        old(bp).wf(),
        old(bp).current < old(bp).tokens@.len() ==> sep.span.end == old(bp).tokens@[old(bp).current as int].span.start,
    ensures
        final(bp).grew(old(bp)),
        final(bp).current == old(bp).tokens@.len(),
        ({
            let u = old(bp).rest_spec();
            if is_blank_unit(u) {
                &&& r.is_none()
                &&& final(bp).events@.len() == old(bp).events@.len() + 1
                &&& final(bp).events@.last() matches Event::Error(
                    ParserError::ComponentPartInvalid { what, labels, .. },
                ) && what == "unit" && labels@ == seq![
                    (sep.span, Some("remove this")),
                    (
                        if u.len() == 0 {
                            Span { start: sep.span.end, end: sep.span.end }
                        } else {
                            Span { start: sep.span.start, end: u.last().span.end }
                        },
                        Some("or add unit here"),
                    ),
                ]
            } else {
                &&& r matches Some(x) && x.view_bytes() == text_of(old(bp).input@, u) && x.offset == sep.span.end
                &&& final(bp).events@ == old(bp).events@
            }
        }),
        events_are(fresh(final(bp).events@, old(bp).events@.len() as int), blank_unit_reports(sep, old(bp).rest_spec())),
{
    let ghost b0 = *bp;
    let unit = bp.consume_rest();
    proof {
        lemma_wf_subrange(b0.tokens@, bp.input@.len(), b0.current as int, b0.tokens@.len() as int);
        lemma_same_events(&b0, bp);
    }
    if blank_unit(unit) {
        let span = if unit.len() == 0 {
            Span::pos(sep.span.end)
        } else {
            Span::new(sep.span.start, unit[unit.len() - 1].span.end)
        };
        let ghost b1 = *bp;
        bp.error(ParserError::ComponentPartInvalid {
            container: "quantity",
            what: "unit",
            reason: "is empty",
            labels: two_labels(sep.span, span),
            help: None,
        });
        proof {
            assert(fresh(bp.events@, b0.events@.len() as int) =~= seq![bp.events@.last()]);
        }
        proof {
            assert(bp.events@.subrange(0, b1.events@.len() as int) =~= b1.events@);
            lemma_grew_trans(&b0, &b1, bp);
        }
        None
    } else {
        Some(bp.text(sep.span.end, unit))
    }
}


/// Reads a quantity with the regular grammar: values, an optional `*` and
/// an optional `%` and unit.
#[verifier::rlimit(100)]
pub fn parse_regular_quantity(bp: &mut BlockParser) -> (r: ParsedQuantity)
    requires
        old(bp).wf(),
        old(bp).tokens@.len() > 0,
    ensures
        final(bp).grew(old(bp)),
        final(bp).current == old(bp).tokens@.len(),
        regular_matches(r, old(bp).input@, old(bp).tokens@, old(bp).base_offset, old(bp).current as int, old(bp).extensions.range_values),
        events_are(
            fresh(final(bp).events@, old(bp).events@.len() as int),
            regular_reports(old(bp).input@, old(bp).tokens@, old(bp).base_offset, old(bp).current as int, old(bp).extensions.range_values),
        ),
{
    let ghost t = bp.tokens@;
    let ghost b0 = *bp;
    let value = many_values(bp);
    let ghost b1 = *bp;
    let ghost lc = list_reports(b0.input@, t, b0.base_offset, value_segments(t, b0.current as int), b0.extensions.range_values)
        + conflict_reports(t, b0.base_offset, b0.current as int);
    let all = bp.tokens();
    if bp.at(TokenKind::Percent) {
        let sep = bp.bump_any();
        let ghost b2 = *bp;
        let unit = unit_after(bp, sep);
        proof {
            lemma_same_events(&b1, &b2);
            lemma_grew_trans(&b0, &b1, &b2);
            lemma_grew_trans(&b0, &b2, bp);
            assert(b2.rest_spec() == t.subrange(b1.current + 1, t.len() as int));
            assert(fresh(b2.events@, b1.events@.len() as int) == fresh(b2.events@, b2.events@.len() as int));
            lemma_reports_chain(b1.events@, bp.events@, b0.events@.len() as int, lc, blank_unit_reports(sep, b2.rest_spec()));
        }
        return ParsedQuantity {
            quantity: Located::new(Quantity { value, unit }, tokens_span(all)),
            unit_separator: Some(sep.span),
        };
    }
    if bp.tokens_consumed() >= all.len() {
        proof {
            assert(lc + Seq::<Report>::empty() =~= lc);
        }
        return ParsedQuantity {
            quantity: Located::new(Quantity { value, unit: None }, tokens_span(all)),
            unit_separator: None,
        };
    }
    let _ = bp.consume_rest();
    proof {
        lemma_same_events(&b1, bp);
        lemma_grew_trans(&b0, &b1, bp);
        assert(lc + Seq::<Report>::empty() =~= lc);
    }
    let text = bp.text(all[0].span.start, all);
    let text_val = Value::Text(text.text_trimmed());
    ParsedQuantity {
        quantity: Located::new(
            Quantity {
                value: QuantityValue::Single {
                    value: Located::new(text_val, tokens_span(all)),
                    auto_scale: None,
                },
                unit: None,
            },
            tokens_span(all),
        ),
        unit_separator: None,
    }
}

/// The first position at or after `i` that is not white space or a
/// comment.
pub open spec fn skip_trivia(t: Seq<Token>, i: int) -> int
    decreases t.len() - i,
{
    if i >= t.len() || !is_trivia(t[i].kind) {
        i
    } else {
        skip_trivia(t, i + 1)
    }
}

/// The first position at or after `i` that holds a word.
pub open spec fn first_word(t: Seq<Token>, i: int) -> int
    decreases t.len() - i,
{
    if i >= t.len() || t[i].kind == TokenKind::Word {
        i
    } else {
        first_word(t, i + 1)
    }
}

proof fn lemma_skip_trivia(t: Seq<Token>, i: int, e: int)
    requires
        0 <= i <= e <= t.len(),
        forall|j: int| i <= j < e ==> is_trivia(#[trigger] t[j].kind),
        e == t.len() || !is_trivia(t[e].kind),
    ensures
        skip_trivia(t, i) == e,
    decreases e - i,
{
    if i < e {
        lemma_skip_trivia(t, i + 1, e);
    }
}

proof fn lemma_first_word(t: Seq<Token>, i: int, e: int)
    requires
        0 <= i <= e <= t.len(),
        forall|j: int| i <= j < e ==> (#[trigger] t[j]).kind != TokenKind::Word,
        e == t.len() || t[e].kind == TokenKind::Word,
    ensures
        first_word(t, i) == e,
    decreases e - i,
{
    if i < e {
        lemma_first_word(t, i + 1, e);
    }
}

pub open spec fn has_stop(t: Seq<Token>) -> bool {
    exists|i: int| 0 <= i < t.len() && is_stop(#[trigger] t[i].kind)
}

/// Whether the advanced grammar reads the tokens: no `|`, `*` or `%`, a
/// number, at least one white space, then a unit.
pub open spec fn advanced_applies(input: Seq<u8>, t: Seq<Token>, ranges: bool) -> bool {
    let a = skip_trivia(t, 0);
    let w = first_word(t, a);
    &&& !has_stop(t)
    &&& a < w < t.len()
    &&& t[w - 1].kind == TokenKind::Whitespace
    &&& numeric_spec(input, significant(t.subrange(a, w)), ranges).is_some()
}

/// Position `i` moved back over white space and block comments, not past
/// `a`.
pub open spec fn trim_back(t: Seq<Token>, a: int, i: int) -> int
    decreases i - a,
{
    if i > a && (t[i].kind == TokenKind::Whitespace || t[i].kind == TokenKind::BlockComment) {
        trim_back(t, a, i - 1)
    } else {
        i
    }
}

/// Whether `q` is what the advanced grammar makes of the tokens `t`: the
/// number, and the rest as the unit.
pub open spec fn advanced_matches(q: ParsedQuantity, input: Seq<u8>, t: Seq<Token>, ranges: bool) -> bool {
    let a = skip_trivia(t, 0);
    let w = first_word(t, a);
    &&& q.quantity.span == span_of(t)
    &&& q.unit_separator.is_none()
    &&& q.quantity.inner.value matches QuantityValue::Single { value: v, auto_scale: None }
    &&& match numeric_spec(input, significant(t.subrange(a, w)), ranges) {
        Some(Ok(x)) => v.inner == x,
        _ => v.inner == Value::spec_recover(),
    }
    &&& v.span == Span { start: t[a].span.start, end: t[trim_back(t, a, w - 1)].span.end }
    &&& q.quantity.inner.unit matches Some(u)
    &&& u.view_bytes() == text_of(input, t.subrange(w, t.len() as int))
}


/// The reports of the advanced grammar on `t`: a malformed number's error.
pub open spec fn advanced_reports(input: Seq<u8>, t: Seq<Token>, ranges: bool) -> Seq<Report> {
    let a = skip_trivia(t, 0);
    let w = first_word(t, a);
    match numeric_spec(input, significant(t.subrange(a, w)), ranges) {
        Some(Err(e)) => seq![Report::Error(e)],
        _ => Seq::empty(),
    }
}

/// The reports left behind by an advanced attempt that is then rejected:
/// it read its number (so reported a malformed one) but found no unit.
pub open spec fn leak_reports(input: Seq<u8>, t: Seq<Token>, ranges: bool) -> Seq<Report> {
    let a = skip_trivia(t, 0);
    let w = first_word(t, a);
    if !has_stop(t) && a < w && t[w - 1].kind == TokenKind::Whitespace && w >= t.len() {
        advanced_reports(input, t, ranges)
    } else {
        Seq::empty()
    }
}

fn any_stop(t: &[Token]) -> (r: bool)
    ensures
        r == has_stop(t@),
{
    let mut i: usize = 0;
    while i < t.len()
        invariant
            i <= t@.len(),
            forall|j: int| 0 <= j < i ==> !is_stop(#[trigger] t@[j].kind),
        decreases t@.len() - i,
    {
        let k = t[i].kind;
        if k == TokenKind::Or || k == TokenKind::Star || k == TokenKind::Percent {
            return true;
        }
        i += 1;
    }
    false
}

/// Consumes leading white space and comments, then the run of non-word
/// tokens that may hold a number; gives that run when it is non-empty and
/// ends in white space.
fn advanced_value_run<'t, 'i>(bp: &mut BlockParser<'t, 'i>) -> (r: Option<&'t [Token]>)
    requires
        old(bp).wf(),
    ensures
        final(bp).grew(old(bp)),
        final(bp).events@ == old(bp).events@,
        ({
            let t = old(bp).tokens@;
            let a = skip_trivia(t, old(bp).current as int);
            let w = first_word(t, a);
            &&& old(bp).current <= a <= w <= t.len()
            &&& final(bp).current == w
            &&& r.is_some() <==> (a < w && t[w - 1].kind == TokenKind::Whitespace)
            &&& r matches Some(v) ==> v@ == t.subrange(a, w)
        }),
{
    let ghost t = bp.tokens@;
    let ghost b0 = *bp;
    let _ = bp.ws_comments();
    let ghost a = bp.current as int;
    proof { lemma_skip_trivia(t, b0.current as int, a); }
    let words = [TokenKind::Word];
    let value_tokens = bp.consume_while(words.as_slice(), false);
    let ghost w = bp.current as int;
    proof {
        assert forall|j: int| a <= j < w implies (#[trigger] t[j]).kind != TokenKind::Word by {
            assert(!words@.contains(t[j].kind));
            if t[j].kind == TokenKind::Word {
                assert(words@[0] == t[j].kind);
            }
        }
        if w < t.len() {
            assert(words@.contains(t[w].kind));
        }
        lemma_first_word(t, a, w);
        lemma_same_events(&b0, bp);
    }
    if value_tokens.len() == 0 || value_tokens[value_tokens.len() - 1].kind != TokenKind::Whitespace {
        None
    } else {
        Some(value_tokens)
    }
}

/// Reads a quantity with the advanced grammar, `number unit`, where white
/// space alone separates the two. `None` when the tokens do not have that
/// shape; errors met on the way are kept even then.
#[verifier::rlimit(40)]
pub fn parse_advanced_quantity(bp: &mut BlockParser) -> (r: Option<ParsedQuantity>)
    requires
        old(bp).wf(),
        old(bp).current == 0,
    ensures
        final(bp).grew(old(bp)),
        r.is_some() ==> final(bp).current == old(bp).tokens@.len(),
        r.is_some() <==> advanced_applies(old(bp).input@, old(bp).tokens@, old(bp).extensions.range_values),
        r matches Some(q) ==> advanced_matches(q, old(bp).input@, old(bp).tokens@, old(bp).extensions.range_values),
        r.is_some() ==> events_are(
            fresh(final(bp).events@, old(bp).events@.len() as int),
            advanced_reports(old(bp).input@, old(bp).tokens@, old(bp).extensions.range_values),
        ),
        r.is_none() ==> events_are(
            fresh(final(bp).events@, old(bp).events@.len() as int),
            leak_reports(old(bp).input@, old(bp).tokens@, old(bp).extensions.range_values),
        ),
        has_stop(old(bp).tokens@) ==> final(bp).events@ == old(bp).events@ && final(bp).current == old(bp).current,
{
    let ghost t = bp.tokens@;
    let ghost b0 = *bp;
    let all = bp.tokens();
    if any_stop(all) {
        proof {
            lemma_grew_refl(bp);
            assert(fresh(bp.events@, b0.events@.len() as int) =~= Seq::<Event>::empty());
        }
        return None;
    }
    let value_tokens = match advanced_value_run(bp) {
        Some(v) => v,
        None => {
            proof {
                assert(fresh(bp.events@, b0.events@.len() as int) =~= Seq::<Event>::empty());
            }
            return None;
        },
    };
    let ghost a = skip_trivia(t, 0);
    let ghost w = first_word(t, a);
    proof { lemma_wf_subrange(t, bp.input@.len(), a, w); }
    // the value ends at its last token that is not white space or a block
    // comment; there is one, as leading white space and comments are gone
    let mut end_pos: usize = value_tokens.len() - 1;
    while end_pos > 0 && (value_tokens[end_pos].kind == TokenKind::Whitespace
        || value_tokens[end_pos].kind == TokenKind::BlockComment)
        invariant
            end_pos < value_tokens@.len(),
            value_tokens@ == t.subrange(a, w),
            0 <= a < w <= t.len(),
            trim_back(t, a, w - 1) == trim_back(t, a, a + end_pos),
        decreases end_pos,
    {
        assert(value_tokens@[end_pos as int] == t[a + end_pos]);
        end_pos -= 1;
    }
    proof {
        assert(value_tokens@[end_pos as int] == t[a + end_pos]);
        assert(value_tokens@[0] == t[a]);
    }
    let value_span = Span::new(value_tokens[0].span.start, value_tokens[end_pos].span.end);
    let result = numeric_value(value_tokens, bp);
    let ghost b1 = *bp;
    let value = match result {
        None => {
            proof {
                assert(fresh(bp.events@, b0.events@.len() as int) =~= Seq::<Event>::empty());
            }
            return None;
        },
        Some(Ok(v)) => v,
        Some(Err(e)) => {
            bp.error(e);
            Value::recover()
        },
    };
    proof {
        assert(bp.events@.subrange(0, b1.events@.len() as int) =~= b1.events@);
        lemma_grew_trans(&b0, &b1, bp);
    }
    let ghost b2 = *bp;
    let unit = bp.consume_rest();
    proof {
        lemma_same_events(&b2, bp);
        lemma_grew_trans(&b0, &b2, bp);
        lemma_wf_subrange(t, bp.input@.len(), w, t.len() as int);
        let f = fresh(bp.events@, b0.events@.len() as int);
        if f.len() == 1 {
            assert(f[0] == bp.events@.last());
        } else {
            assert(f =~= Seq::<Event>::empty());
        }
    }
    if unit.len() == 0 {
        return None;
    }
    let unit = bp.text(unit[0].span.start, unit);
    Some(ParsedQuantity {
        quantity: Located::new(
            Quantity {
                value: QuantityValue::Single { value: Located::new(value, value_span), auto_scale: None },
                unit: Some(unit),
            },
            tokens_span(all),
        ),
        unit_separator: None,
    })
}

/// Reads the tokens between a quantity's braces. With advanced units on,
/// the advanced grammar is tried first; the regular grammar reads what it
/// does not. The tokens are read by a separate cursor: the caller's cursor
/// does not move, and the errors found are appended to its events.
pub fn parse_quantity(bp: &mut BlockParser, tokens: &[Token]) -> (r: ParsedQuantity)
    requires
        old(bp).wf(),
        tokens@.len() > 0,
        tokens_wf(tokens@, old(bp).input@.len()),
    ensures
        final(bp).grew(old(bp)),
        final(bp).current == old(bp).current,
        old(bp).extensions.advanced_units && advanced_applies(old(bp).input@, tokens@, old(bp).extensions.range_values)
            ==> advanced_matches(r, old(bp).input@, tokens@, old(bp).extensions.range_values),
        !(old(bp).extensions.advanced_units && advanced_applies(old(bp).input@, tokens@, old(bp).extensions.range_values))
            ==> regular_matches(r, old(bp).input@, tokens@, tokens@[0].span.start, 0, old(bp).extensions.range_values),
        old(bp).extensions.advanced_units && advanced_applies(old(bp).input@, tokens@, old(bp).extensions.range_values)
            ==> events_are(
            fresh(final(bp).events@, old(bp).events@.len() as int),
            advanced_reports(old(bp).input@, tokens@, old(bp).extensions.range_values),
        ),
        old(bp).extensions.advanced_units && !advanced_applies(old(bp).input@, tokens@, old(bp).extensions.range_values)
            ==> events_are(
            fresh(final(bp).events@, old(bp).events@.len() as int),
            leak_reports(old(bp).input@, tokens@, old(bp).extensions.range_values) + regular_reports(
                old(bp).input@,
                tokens@,
                tokens@[0].span.start,
                0,
                old(bp).extensions.range_values,
            ),
        ),
        !old(bp).extensions.advanced_units ==> events_are(
            fresh(final(bp).events@, old(bp).events@.len() as int),
            regular_reports(old(bp).input@, tokens@, tokens@[0].span.start, 0, old(bp).extensions.range_values),
        ),
{
    let mut bp2 = BlockParser::new(tokens[0].span.start, tokens, bp.input, bp.extensions);
    proof {
        assert(tokens@[0].span.start <= tokens@[0].span.end);
    }
    let advanced = if bp2.extensions.advanced_units {
        let pos = bp2.checkpoint();
        let r = parse_advanced_quantity(&mut bp2);
        if r.is_none() {
            bp2.rollback(pos);
        }
        r
    } else {
        None
    };
    let ghost ba = bp2;
    let ghost la = if bp2.extensions.advanced_units {
        leak_reports(bp2.input@, tokens@, bp2.extensions.range_values)
    } else {
        Seq::<Report>::empty()
    };
    proof {
        if advanced.is_none() {
            assert(events_are(fresh(ba.events@, 0), la));
        }
    }
    let quantity = match advanced {
        Some(q) => q,
        None => parse_regular_quantity(&mut bp2),
    };
    proof {
        if advanced.is_none() {
            lemma_reports_chain(
                ba.events@,
                bp2.events@,
                0,
                la,
                regular_reports(bp2.input@, tokens@, tokens@[0].span.start, 0, bp2.extensions.range_values),
            );
            if !bp2.extensions.advanced_units {
                assert(la + regular_reports(bp2.input@, tokens@, tokens@[0].span.start, 0, bp2.extensions.range_values)
                    =~= regular_reports(bp2.input@, tokens@, tokens@[0].span.start, 0, bp2.extensions.range_values));
            }
        }
        assert(fresh(bp2.events@, 0) =~= bp2.events@);
    }
    let ghost b0 = *bp;
    let ghost e2 = bp2.events@;
    bp.events.append(&mut bp2.events);
    proof {
        assert(bp.events@.subrange(0, b0.events@.len() as int) =~= b0.events@);
        assert(fresh(bp.events@, b0.events@.len() as int) =~= e2);
    }
    quantity
}

} // verus!
