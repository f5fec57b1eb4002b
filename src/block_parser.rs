use vstd::prelude::*;
use crate::ast::{Event, ParserError, ParserWarning};
use crate::text::{Text, TextFragment};
use crate::token::{adjacent, is_trivia, is_trivia_kind, within, Extensions, Token, TokenKind};

verus! {

/// Tokens that a block parser can work on: adjacent, inside the source, and
/// each escape at least one byte long.
pub open spec fn tokens_wf(tokens: Seq<Token>, input_len: nat) -> bool {
    &&& adjacent(tokens)
    &&& within(tokens, input_len)
    &&& forall|i: int|
        0 <= i < tokens.len() && (#[trigger] tokens[i]).kind == TokenKind::Escaped
            ==> tokens[i].span.start < tokens[i].span.end
}

pub proof fn lemma_wf_subrange(tokens: Seq<Token>, n: nat, a: int, b: int)
    requires
        tokens_wf(tokens, n),
        0 <= a <= b <= tokens.len(),
    ensures
        tokens_wf(tokens.subrange(a, b), n),
{
    let s = tokens.subrange(a, b);
    assert forall|i: int| 0 <= i < s.len() implies #[trigger] s[i] == tokens[a + i] by {}
    assert forall|i: int| 0 <= i < s.len() - 1 implies #[trigger] s[i].span.end == s[i + 1].span.start by {
        assert(s[i] == tokens[a + i]);
        assert(s[i + 1] == tokens[a + i + 1]);
    }
}

/// What one token contributes to reconstructed text: comments nothing, an
/// escape the byte after its backslash, anything else (line breaks
/// included) its own bytes.
pub open spec fn piece(input: Seq<u8>, t: Token) -> Seq<u8> {
    match t.kind {
        TokenKind::LineComment | TokenKind::BlockComment => Seq::empty(),
        TokenKind::Escaped => input.subrange(t.span.start + 1, t.span.end as int),
        _ => input.subrange(t.span.start as int, t.span.end as int),
    }
}

/// The text that a run of tokens stands for.
pub open spec fn text_of(input: Seq<u8>, tokens: Seq<Token>) -> Seq<u8>
    decreases tokens.len(),
{
    if tokens.len() == 0 {
        Seq::empty()
    } else {
        text_of(input, tokens.drop_last()) + piece(input, tokens.last())
    }
}

/// Whether a fragment holds the source bytes found at its offset.
pub open spec fn frag_ok(input: Seq<u8>, f: TextFragment) -> bool {
    &&& f.offset + f.bytes@.len() <= input.len()
    &&& input.subrange(f.offset as int, f.offset + f.bytes@.len()) == f.bytes@
}

/// Whether fragments hold source bytes at their offsets, in source order,
/// without overlap, all ending by `bound`.
pub open spec fn frags_ok(input: Seq<u8>, fs: Seq<TextFragment>, bound: int) -> bool {
    &&& forall|j: int| 0 <= j < fs.len() ==> frag_ok(input, #[trigger] fs[j])
    &&& forall|j: int| 0 <= j < fs.len() ==> (#[trigger] fs[j]).offset + fs[j].bytes@.len() <= bound
    &&& forall|j: int, l: int| 0 <= j < l < fs.len() ==> (#[trigger] fs[j]).offset + fs[j].bytes@.len() <= (
        #[trigger] fs[l]).offset
}

/// The soft-break fragments, as bytes and offset, in order.
pub open spec fn soft_breaks(fs: Seq<TextFragment>) -> Seq<(Seq<u8>, usize)>
    decreases fs.len(),
{
    if fs.len() == 0 {
        Seq::empty()
    } else if fs.last().kind == crate::text::FragmentKind::SoftBreak {
        soft_breaks(fs.drop_last()).push((fs.last().bytes@, fs.last().offset))
    } else {
        soft_breaks(fs.drop_last())
    }
}

/// The line breaks among `tokens`, as bytes and offset, in order (an empty
/// one gives nothing).
pub open spec fn breaks(input: Seq<u8>, tokens: Seq<Token>) -> Seq<(Seq<u8>, usize)>
    decreases tokens.len(),
{
    if tokens.len() == 0 {
        Seq::empty()
    } else if tokens.last().kind == TokenKind::Newline && tokens.last().span.start < tokens.last().span.end {
        breaks(input, tokens.drop_last()).push(
            (input.subrange(tokens.last().span.start as int, tokens.last().span.end as int), tokens.last().span.start),
        )
    } else {
        breaks(input, tokens.drop_last())
    }
}

proof fn lemma_frags_push(input: Seq<u8>, fs: Seq<TextFragment>, f: TextFragment, b: int, b2: int)
    requires
        frags_ok(input, fs, b),
        frag_ok(input, f),
        b <= f.offset,
        f.offset + f.bytes@.len() <= b2,
    ensures
        frags_ok(input, fs.push(f), b2),
{
    let g = fs.push(f);
    assert forall|j: int| 0 <= j < g.len() implies frag_ok(input, #[trigger] g[j]) by {
        if j < fs.len() {
            assert(g[j] == fs[j]);
        }
    }
    assert forall|j: int| 0 <= j < g.len() implies (#[trigger] g[j]).offset + g[j].bytes@.len() <= b2 by {
        if j < fs.len() {
            assert(g[j] == fs[j]);
        }
    }
    assert forall|j: int, l: int| 0 <= j < l < g.len() implies (#[trigger] g[j]).offset + g[j].bytes@.len() <= (
        #[trigger] g[l]).offset by {
        assert(g[j] == fs[j]);
        if l < fs.len() {
            assert(g[l] == fs[l]);
        }
    }
}

/// Whether a token only ever stands for its own bytes.
pub open spec fn is_plain(t: Token) -> bool {
    t.kind != TokenKind::LineComment && t.kind != TokenKind::BlockComment
        && t.kind != TokenKind::Escaped && t.kind != TokenKind::Newline
}

/// A run of adjacent tokens with no escape, comment or line break is
/// rebuilt as exactly the source bytes it covers.
pub proof fn text_round_trip(input: Seq<u8>, tokens: Seq<Token>)
    requires
        tokens.len() > 0,
        tokens_wf(tokens, input.len()),
        forall|i: int| 0 <= i < tokens.len() ==> is_plain(#[trigger] tokens[i]),
    ensures
        text_of(input, tokens) == input.subrange(
            tokens[0].span.start as int,
            tokens.last().span.end as int,
        ),
    decreases tokens.len(),
{
    let t = tokens.last();
    if tokens.len() == 1 {
        assert(tokens.drop_last().len() == 0);
        assert(text_of(input, tokens.drop_last()) == Seq::<u8>::empty());
        assert(Seq::<u8>::empty() + piece(input, t) =~= piece(input, t));
        assert(tokens[0] == t);
    } else {
        let init = tokens.drop_last();
        assert(init.last() == tokens[tokens.len() - 2]);
        assert(init[0] == tokens[0]);
        assert forall|i: int| 0 <= i < init.len() implies is_plain(#[trigger] init[i]) by {
            assert(init[i] == tokens[i]);
        }
        assert(tokens_wf(init, input.len())) by {
            assert forall|i: int| 0 <= i < init.len() implies #[trigger] init[i] == tokens[i] by {}
        }
        text_round_trip(input, init);
        assert(tokens[tokens.len() - 2].span.end == t.span.start);
        assert(tokens[0].span.start <= t.span.start) by {
            lemma_starts_ordered(tokens, 0, tokens.len() - 1);
        }
        assert(input.subrange(tokens[0].span.start as int, t.span.start as int) + input.subrange(
            t.span.start as int,
            t.span.end as int,
        ) =~= input.subrange(tokens[0].span.start as int, t.span.end as int));
    }
}

proof fn lemma_starts_ordered(tokens: Seq<Token>, i: int, j: int)
    requires
        adjacent(tokens),
        0 <= i <= j < tokens.len(),
    ensures
        tokens[i].span.start <= tokens[j].span.start,
    decreases j - i,
{
    if i < j {
        lemma_starts_ordered(tokens, i, j - 1);
        assert(tokens[j - 1].span.end == tokens[j].span.start);
    }
}

/// The bytes `input[start..end]`.
pub fn copy_range(input: &[u8], start: usize, end: usize) -> (r: Vec<u8>)
    requires
        start <= end <= input@.len(),
    ensures
        r@ == input@.subrange(start as int, end as int),
{
    let mut r: Vec<u8> = Vec::new();
    let mut i: usize = start;
    while i < end
        invariant
            start <= i <= end <= input@.len(),
            r@ == input@.subrange(start as int, i as int),
        decreases end - i,
    {
        r.push(input[i]);
        i += 1;
    }
    r
}

/// Whether `k` is one of `kinds`.
pub fn kind_in(k: TokenKind, kinds: &[TokenKind]) -> (r: bool)
    ensures
        r == kinds@.contains(k),
{
    let mut i: usize = 0;
    while i < kinds.len()
        invariant
            i <= kinds@.len(),
            forall|j: int| 0 <= j < i ==> kinds@[j] != k,
        decreases kinds@.len() - i,
    {
        if kinds[i] == k {
            return true;
        }
        i += 1;
    }
    false
}

/// A forward-only cursor over the tokens of one block, which collects the
/// events that parsing the block produces.
pub struct BlockParser<'t, 'i> {
    pub base_offset: usize,
    pub tokens: &'t [Token],
    pub current: usize,
    pub input: &'i [u8],
    pub extensions: Extensions,
    pub events: Vec<Event>,
}

impl<'t, 'i> BlockParser<'t, 'i> {
    pub open spec fn wf(&self) -> bool {
        &&& self.current <= self.tokens@.len()
        &&& tokens_wf(self.tokens@, self.input@.len())
        &&& self.base_offset <= self.input@.len()
        &&& self.tokens@.len() > 0 ==> self.base_offset <= self.tokens@[0].span.start
    }

    /// The source position just after the consumed tokens.
    pub open spec fn offset_spec(&self) -> usize {
        if self.current == 0 {
            self.base_offset
        } else {
            self.tokens@[self.current - 1].span.end
        }
    }

    /// The kind of the next token, `Eof` at the end.
    pub open spec fn next_kind(&self) -> TokenKind {
        if self.current < self.tokens@.len() {
            self.tokens@[self.current as int].kind
        } else {
            TokenKind::Eof
        }
    }

    /// The tokens not consumed yet.
    pub open spec fn rest_spec(&self) -> Seq<Token> {
        self.tokens@.subrange(self.current as int, self.tokens@.len() as int)
    }

    /// `other` works on the same tokens, source and extensions as this parser.
    pub open spec fn moved(&self, other: &Self) -> bool {
        &&& other.tokens == self.tokens
        &&& other.input == self.input
        &&& other.base_offset == self.base_offset
        &&& other.extensions == self.extensions
    }

    /// Starts a parser over `tokens`, which lie in `input`; `base_offset`
    /// is the source position where the block starts.
    pub fn new(base_offset: usize, tokens: &'t [Token], input: &'i [u8], extensions: Extensions) -> (r: Self)
        requires
            tokens_wf(tokens@, input@.len()),
            base_offset <= input@.len(),
            tokens@.len() > 0 ==> base_offset <= tokens@[0].span.start,
        ensures
            r.wf(),
            r.base_offset == base_offset,
            r.tokens@ == tokens@,
            r.input@ == input@,
            r.current == 0,
            r.extensions == extensions,
            r.events@.len() == 0,
    {
        BlockParser { base_offset, tokens, current: 0, input, extensions, events: Vec::new() }
    }

    pub fn event(&mut self, ev: Event)
        ensures
            final(self).moved(old(self)),
            final(self).current == old(self).current,
            final(self).events@ == old(self).events@.push(ev),
    {
        self.events.push(ev);
    }

    /// Ends the block and hands back its events; every token must have been
    /// consumed.
    pub fn finish(self) -> (r: Vec<Event>)
        requires
            self.current == self.tokens@.len(),
        ensures
            r@ == self.events@,
    {
        self.events
    }

    /// Where the cursor stands, to come back to it with `rollback`.
    pub fn checkpoint(&self) -> (r: usize)
        ensures
            r == self.current,
    {
        self.current
    }

    /// Puts the cursor back at `pos`. Events emitted since are kept.
    pub fn rollback(&mut self, pos: usize)
        requires
            pos <= old(self).tokens@.len(),
        ensures
            final(self).moved(old(self)),
            final(self).current == pos,
            final(self).events@ == old(self).events@,
    {
        self.current = pos;
    }

    /// The source bytes of `token`.
    pub fn as_bytes(&self, token: Token) -> (r: Vec<u8>)
        requires
            token.span.start <= token.span.end <= self.input@.len(),
        ensures
            r@ == self.input@.subrange(token.span.start as int, token.span.end as int),
    {
        copy_range(self.input, token.span.start, token.span.end)
    }

    /// Rebuilds the text of a run of adjacent tokens that starts at
    /// `offset`: line breaks become soft breaks, comments vanish and an
    /// escape gives the byte it escapes.
    pub fn text(&self, offset: usize, tokens: &[Token]) -> (r: Text)
        requires
            tokens_wf(tokens@, self.input@.len()),
            tokens@.len() > 0 ==> offset == tokens@[0].span.start,
        ensures
            r.offset == offset,
            r.view_bytes() == text_of(self.input@, tokens@),
            tokens@.len() == 0 ==> r.fragments@.len() == 0,
            (forall|k: int| 0 <= k < tokens@.len() ==> (#[trigger] tokens@[k]).kind != TokenKind::Newline)
                ==> forall|j: int| 0 <= j < r.fragments@.len() ==> (#[trigger] r.fragments@[j]).kind
                == crate::text::FragmentKind::Text,
            frags_ok(self.input@, r.fragments@, self.input@.len() as int),
            soft_breaks(r.fragments@) == breaks(self.input@, tokens@),
    {
        let mut t = Text::empty(offset);
        if tokens.len() == 0 {
            return t;
        }
        let input = self.input;
        let mut start: usize = tokens[0].span.start;
        let mut end: usize = start;
        let mut i: usize = 0;
        while i < tokens.len()
            invariant
                tokens_wf(tokens@, input@.len()),
                input@ == self.input@,
                i <= tokens@.len(),
                start <= end <= input@.len(),
                t.offset == offset,
                i < tokens@.len() ==> end == tokens@[i as int].span.start,
                (forall|k: int| 0 <= k < i ==> (#[trigger] tokens@[k]).kind != TokenKind::Newline) ==> forall|j: int|
                    0 <= j < t.fragments@.len() ==> (#[trigger] t.fragments@[j]).kind == crate::text::FragmentKind::Text,
                t.view_bytes() + input@.subrange(start as int, end as int) == text_of(
                    input@,
                    tokens@.subrange(0, i as int),
                ),
                frags_ok(input@, t.fragments@, start as int),
                soft_breaks(t.fragments@) == breaks(input@, tokens@.subrange(0, i as int)),
            decreases tokens@.len() - i,
        {
            let token = tokens[i];
            let ghost pre = tokens@.subrange(0, i as int);
            assert(tokens@.subrange(0, i + 1).drop_last() == pre);
            assert(tokens@.subrange(0, i + 1).last() == token);
            assert(token.span.end <= input@.len());
            match token.kind {
                TokenKind::Newline => {
                    let ghost f0 = t.fragments@;
                    t.append_str(copy_range(input, start, end), start);
                    proof { self.lemma_after_append(f0, t.fragments@, start as int, end as int); }
                    let ghost f1 = t.fragments@;
                    t.append_fragment(TextFragment::soft_break(
                        copy_range(input, token.span.start, token.span.end),
                        token.span.start,
                    ));
                    proof {
                        if t.fragments@.len() > f1.len() {
                            lemma_frags_push(input@, f1, t.fragments@.last(), end as int, token.span.end as int);
                            assert(t.fragments@.drop_last() == f1);
                        } else {
                            assert(frags_ok(input@, f1, token.span.end as int));
                        }
                    }
                    start = token.span.end;
                    end = start;
                },
                TokenKind::LineComment | TokenKind::BlockComment => {
                    let ghost f0 = t.fragments@;
                    t.append_str(copy_range(input, start, end), start);
                    proof { self.lemma_after_append(f0, t.fragments@, start as int, end as int); }
                    start = token.span.end;
                    end = start;
                    assert(text_of(input@, pre) + Seq::<u8>::empty() == text_of(input@, pre));
                },
                TokenKind::Escaped => {
                    let ghost f0 = t.fragments@;
                    t.append_str(copy_range(input, start, end), start);
                    proof { self.lemma_after_append(f0, t.fragments@, start as int, end as int); }
                    start = token.span.start + 1;
                    end = token.span.end;
                },
                _ => {
                    let ghost old_end = end;
                    end = token.span.end;
                    assert(input@.subrange(start as int, old_end as int) + input@.subrange(
                        old_end as int,
                        end as int,
                    ) =~= input@.subrange(start as int, end as int));
                },
            }
            i += 1;
            assert(i < tokens@.len() ==> tokens@[i - 1].span.end == tokens@[i as int].span.start);
            assert(input@.subrange(end as int, end as int) =~= Seq::<u8>::empty());
        }
        let ghost f0 = t.fragments@;
        t.append_str(copy_range(input, start, end), start);
        proof { self.lemma_after_append(f0, t.fragments@, start as int, end as int); }
        assert(tokens@.subrange(0, i as int) == tokens@);
        t
    }

    /// After appending the source bytes `start..end` as a text fragment at
    /// `start` (or nothing, when they are empty), the fragments are still in
    /// order, now end by `end`, and hold the same soft breaks.
    proof fn lemma_after_append(&self, f0: Seq<TextFragment>, f1: Seq<TextFragment>, start: int, end: int)
        requires
            0 <= start <= end <= self.input@.len(),
            frags_ok(self.input@, f0, start),
            f0.len() <= f1.len() <= f0.len() + 1,
            f1.len() == f0.len() ==> f1 == f0,
            f1.len() > f0.len() ==> f1 == f0.push(f1.last()) && f1.last().bytes@ == self.input@.subrange(start, end)
                && f1.last().offset == start && f1.last().kind == crate::text::FragmentKind::Text,
        ensures
            frags_ok(self.input@, f1, end),
            soft_breaks(f1) == soft_breaks(f0),
    {
        if f1.len() > f0.len() {
            lemma_frags_push(self.input@, f0, f1.last(), start, end);
            assert(f1.drop_last() == f0);
        } else {
            assert(frags_ok(self.input@, f0, end));
        }
    }

    /// The source position just after the consumed tokens.
    pub fn current_offset(&self) -> (r: usize)
        requires
            self.wf(),
        ensures
            r == self.offset_spec(),
            r <= self.input@.len(),
    {
        if self.current == 0 {
            self.base_offset
        } else {
            self.tokens[self.current - 1].span.end
        }
    }

    pub fn tokens_consumed(&self) -> (r: usize)
        ensures
            r == self.current,
    {
        self.current
    }

    pub fn tokens(&self) -> (r: &'t [Token])
        ensures
            r@ == self.tokens@,
    {
        self.tokens
    }

    /// The tokens consumed so far.
    pub fn parsed(&self) -> (r: &'t [Token])
        requires
            self.wf(),
        ensures
            r@ == self.tokens@.subrange(0, self.current as int),
    {
        &self.tokens[0..self.current]
    }

    /// The tokens not consumed yet.
    pub fn rest(&self) -> (r: &'t [Token])
        requires
            self.wf(),
        ensures
            r@ == self.rest_spec(),
    {
        &self.tokens[self.current..self.tokens.len()]
    }

    /// Consumes and returns every token left.
    pub fn consume_rest(&mut self) -> (r: &'t [Token])
        requires
            old(self).wf(),
        ensures
            final(self).moved(old(self)),
            final(self).wf(),
            final(self).events@ == old(self).events@,
            final(self).current == old(self).tokens@.len(),
            r@ == old(self).rest_spec(),
    {
        let r = self.rest();
        self.current = self.tokens.len();
        r
    }

    /// The kind of the next token without consuming it.
    pub fn peek(&self) -> (r: TokenKind)
        ensures
            r == self.next_kind(),
    {
        if self.current < self.tokens.len() {
            self.tokens[self.current].kind
        } else {
            TokenKind::Eof
        }
    }

    pub fn at(&self, kind: TokenKind) -> (r: bool)
        ensures
            r == (self.next_kind() == kind),
    {
        self.peek() == kind
    }

    /// Consumes the next token, if there is one.
    pub fn next_token(&mut self) -> (r: Option<Token>)
        requires
            old(self).wf(),
        ensures
            final(self).moved(old(self)),
            final(self).wf(),
            final(self).events@ == old(self).events@,
            old(self).current < old(self).tokens@.len() ==> r == Some(
                old(self).tokens@[old(self).current as int],
            ) && final(self).current == old(self).current + 1,
            old(self).current >= old(self).tokens@.len() ==> r.is_none() && final(self).current
                == old(self).current,
    {
        if self.current < self.tokens.len() {
            let t = self.tokens[self.current];
            self.current += 1;
            Some(t)
        } else {
            None
        }
    }

    /// Consumes the next token, which must exist.
    pub fn bump_any(&mut self) -> (r: Token)
        requires
            old(self).wf(),
            old(self).current < old(self).tokens@.len(),
        ensures
            final(self).moved(old(self)),
            final(self).wf(),
            final(self).events@ == old(self).events@,
            r == old(self).tokens@[old(self).current as int],
            final(self).current == old(self).current + 1,
    {
        let t = self.tokens[self.current];
        self.current += 1;
        t
    }

    /// Consumes the next token, which must be of kind `expected`.
    pub fn bump(&mut self, expected: TokenKind) -> (r: Token)
        requires
            old(self).wf(),
            old(self).next_kind() == expected,
            expected != TokenKind::Eof,
        ensures
            final(self).moved(old(self)),
            final(self).wf(),
            final(self).events@ == old(self).events@,
            r == old(self).tokens@[old(self).current as int],
            r.kind == expected,
            final(self).current == old(self).current + 1,
    {
        self.bump_any()
    }

    /// Consumes the tokens before the first one whose kind is in `kinds`;
    /// if there is none, consumes nothing and returns `None`.
    pub fn until(&mut self, kinds: &[TokenKind]) -> (r: Option<&'t [Token]>)
        requires
            old(self).wf(),
        ensures
            final(self).moved(old(self)),
            final(self).wf(),
            final(self).events@ == old(self).events@,
            old(self).current <= final(self).current,
            forall|j: int|
                old(self).current <= j < final(self).current ==> !kinds@.contains(
                    (#[trigger] old(self).tokens@[j]).kind,
                ),
            r.is_some() ==> final(self).current < old(self).tokens@.len() && kinds@.contains(
                old(self).tokens@[final(self).current as int].kind,
            ) && r.unwrap()@ == old(self).tokens@.subrange(
                old(self).current as int,
                final(self).current as int,
            ),
            r.is_none() ==> final(self).current == old(self).current && forall|j: int|
                old(self).current <= j < old(self).tokens@.len() ==> !kinds@.contains(
                    (#[trigger] old(self).tokens@[j]).kind,
                ),
    {
        let mut pos: usize = self.current;
        while pos < self.tokens.len()
            invariant
                self.wf(),
                *self == *old(self),
                self.current <= pos <= self.tokens@.len(),
                forall|j: int| self.current <= j < pos ==> !kinds@.contains(
                    (#[trigger] self.tokens@[j]).kind,
                ),
            decreases self.tokens@.len() - pos,
        {
            if kind_in(self.tokens[pos].kind, kinds) {
                let s = &self.tokens[self.current..pos];
                self.current = pos;
                return Some(s);
            }
            pos += 1;
        }
        None
    }

    /// Consumes tokens while whether their kind is in `kinds` equals
    /// `inside`, and returns them.
    pub fn consume_while(&mut self, kinds: &[TokenKind], inside: bool) -> (r: &'t [Token])
        requires
            old(self).wf(),
        ensures
            final(self).moved(old(self)),
            final(self).wf(),
            final(self).events@ == old(self).events@,
            old(self).current <= final(self).current,
            r@ == old(self).tokens@.subrange(old(self).current as int, final(self).current as int),
            forall|j: int|
                old(self).current <= j < final(self).current ==> kinds@.contains(
                    (#[trigger] old(self).tokens@[j]).kind,
                ) == inside,
            final(self).current < old(self).tokens@.len() ==> kinds@.contains(
                old(self).tokens@[final(self).current as int].kind,
            ) != inside,
    {
        let mut pos: usize = self.current;
        while pos < self.tokens.len() && kind_in(self.tokens[pos].kind, kinds) == inside
            invariant
                self.wf(),
                self.current <= pos <= self.tokens@.len(),
                forall|j: int| self.current <= j < pos ==> kinds@.contains(
                    (#[trigger] self.tokens@[j]).kind,
                ) == inside,
            decreases self.tokens@.len() - pos,
        {
            pos += 1;
        }
        let s = &self.tokens[self.current..pos];
        self.current = pos;
        s
    }

    /// Consumes white space and comments.
    pub fn ws_comments(&mut self) -> (r: &'t [Token])
        requires
            old(self).wf(),
        ensures
            final(self).moved(old(self)),
            final(self).wf(),
            final(self).events@ == old(self).events@,
            old(self).current <= final(self).current,
            r@ == old(self).tokens@.subrange(old(self).current as int, final(self).current as int),
            forall|j: int|
                old(self).current <= j < final(self).current ==> is_trivia(
                    (#[trigger] old(self).tokens@[j]).kind,
                ),
            final(self).current < old(self).tokens@.len() ==> !is_trivia(
                old(self).tokens@[final(self).current as int].kind,
            ),
    {
        let mut pos: usize = self.current;
        while pos < self.tokens.len() && is_trivia_kind(self.tokens[pos].kind)
            invariant
                self.wf(),
                self.current <= pos <= self.tokens@.len(),
                forall|j: int| self.current <= j < pos ==> is_trivia((#[trigger] self.tokens@[j]).kind),
            decreases self.tokens@.len() - pos,
        {
            pos += 1;
        }
        let s = &self.tokens[self.current..pos];
        self.current = pos;
        s
    }

    /// Consumes the next token if it is of kind `expected`.
    pub fn consume(&mut self, expected: TokenKind) -> (r: Option<Token>)
        requires
            old(self).wf(),
        ensures
            final(self).moved(old(self)),
            final(self).wf(),
            final(self).events@ == old(self).events@,
            old(self).next_kind() == expected && expected != TokenKind::Eof ==> r == Some(
                old(self).tokens@[old(self).current as int],
            ) && final(self).current == old(self).current + 1,
            !(old(self).next_kind() == expected && expected != TokenKind::Eof) ==> r.is_none()
                && final(self).current == old(self).current,
    {
        if expected != TokenKind::Eof && self.at(expected) {
            Some(self.bump_any())
        } else {
            None
        }
    }

    pub fn error(&mut self, error: ParserError)
        ensures
            final(self).moved(old(self)),
            final(self).current == old(self).current,
            final(self).events@ == old(self).events@.push(Event::Error(error)),
    {
        self.event(Event::Error(error))
    }

    pub fn warn(&mut self, warn: ParserWarning)
        ensures
            final(self).moved(old(self)),
            final(self).current == old(self).current,
            final(self).events@ == old(self).events@.push(Event::Warning(warn)),
    {
        self.event(Event::Warning(warn))
    }
}

impl<'t, 'i> BlockParser<'t, 'i> {
    /// The same parser, with events appended.
    pub open spec fn grew(&self, old: &Self) -> bool {
        &&& self.moved(old)
        &&& self.wf()
        &&& old.events@.len() <= self.events@.len()
        &&& self.events@.subrange(0, old.events@.len() as int) == old.events@
    }
}

pub proof fn lemma_grew_trans(o: &BlockParser, a: &BlockParser, b: &BlockParser)
    requires
        a.grew(o),
        b.grew(a),
    ensures
        b.grew(o),
{
    assert(b.events@.subrange(0, o.events@.len() as int) =~= a.events@.subrange(
        0,
        o.events@.len() as int,
    ));
}

pub proof fn lemma_grew_refl(o: &BlockParser)
    requires
        o.wf(),
    ensures
        o.grew(o),
{
    assert(o.events@.subrange(0, o.events@.len() as int) =~= o.events@);
}

pub proof fn lemma_same_events(o: &BlockParser, a: &BlockParser)
    requires
        a.moved(o),
        a.wf(),
        a.events@ == o.events@,
    ensures
        a.grew(o),
{
    assert(a.events@.subrange(0, o.events@.len() as int) =~= o.events@);
}

} // verus!
