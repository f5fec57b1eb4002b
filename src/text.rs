use vstd::prelude::*;

verus! {

/// What a fragment of reconstructed text stands for.
#[derive(Debug, Clone, Copy, PartialEq, Eq, Structural)]
pub enum FragmentKind {
    /// Bytes of the source as written.
    Text,
    /// A line break inside a block that continues on the next line.
    SoftBreak,
}

/// A piece of text and the source offset it was taken from.
#[derive(Debug, Clone)]
pub struct TextFragment {
    pub kind: FragmentKind,
    pub bytes: Vec<u8>,
    pub offset: usize,
}

/// Two fragments are equal when they say the same thing: the offset is
/// kept for diagnostics only.
impl PartialEq for TextFragment {
    fn eq(&self, o: &TextFragment) -> (r: bool) {
        self.kind == o.kind && same_bytes(&self.bytes, &o.bytes)
    }
}

/// Whether two byte strings are equal.
pub fn same_bytes(a: &Vec<u8>, b: &Vec<u8>) -> (r: bool)
    ensures
        r == (a@ == b@),
{
    if a.len() != b.len() {
        return false;
    }
    let mut i: usize = 0;
    while i < a.len()
        invariant
            i <= a@.len(),
            a@.len() == b@.len(),
            forall|j: int| 0 <= j < i ==> a@[j] == b@[j],
        decreases a@.len() - i,
    {
        if a[i] != b[i] {
            return false;
        }
        i += 1;
    }
    assert(a@ =~= b@);
    true
}

impl vstd::std_specs::cmp::PartialEqSpecImpl for TextFragment {
    open spec fn obeys_eq_spec() -> bool {
        true
    }

    open spec fn eq_spec(&self, o: &TextFragment) -> bool {
        self.kind == o.kind && self.bytes@ == o.bytes@
    }
}

/// The bytes of a sequence of fragments, one after the other.
pub open spec fn flatten(fs: Seq<TextFragment>) -> Seq<u8>
    decreases fs.len(),
{
    if fs.len() == 0 {
        Seq::empty()
    } else {
        flatten(fs.drop_last()) + fs.last().bytes@
    }
}

/// Text rebuilt from a run of tokens, as a list of located fragments.
#[derive(Debug, Clone)]
pub struct Text {
    pub offset: usize,
    pub fragments: Vec<TextFragment>,
}

/// Two texts are equal when their fragments say the same things in the
/// same order; offsets only locate them for diagnostics.
impl PartialEq for Text {
    fn eq(&self, o: &Text) -> (r: bool) {
        if self.fragments.len() != o.fragments.len() {
            return false;
        }
        let mut i: usize = 0;
        while i < self.fragments.len()
            invariant
                i <= self.fragments@.len(),
                self.fragments@.len() == o.fragments@.len(),
                forall|j: int| 0 <= j < i ==> same_fragment(self.fragments@[j], o.fragments@[j]),
            decreases self.fragments@.len() - i,
        {
            let a = &self.fragments[i];
            let b = &o.fragments[i];
            if !(a.kind == b.kind && same_bytes(&a.bytes, &b.bytes)) {
                return false;
            }
            i += 1;
        }
        true
    }
}

pub open spec fn same_fragment(a: TextFragment, b: TextFragment) -> bool {
    a.kind == b.kind && a.bytes@ == b.bytes@
}

impl vstd::std_specs::cmp::PartialEqSpecImpl for Text {
    open spec fn obeys_eq_spec() -> bool {
        true
    }

    open spec fn eq_spec(&self, o: &Text) -> bool {
        &&& self.fragments@.len() == o.fragments@.len()
        &&& forall|j: int| 0 <= j < self.fragments@.len() ==> same_fragment(self.fragments@[j], o.fragments@[j])
    }
}

pub open spec fn is_space(b: u8) -> bool {
    b == 32u8 || b == 9u8 || b == 10u8 || b == 13u8
}

/// The first position of `s` that is not white space, or `s.len()`.
pub open spec fn trim_start_at(s: Seq<u8>) -> nat
    decreases s.len(),
{
    if s.len() == 0 || !is_space(s[0]) {
        0
    } else {
        1 + trim_start_at(s.drop_first())
    }
}

/// One past the last position of `s` that is not white space, or 0.
pub open spec fn trim_end_at(s: Seq<u8>) -> nat
    decreases s.len(),
{
    if s.len() == 0 || !is_space(s.last()) {
        s.len()
    } else {
        trim_end_at(s.drop_last())
    }
}

/// `s` without its leading and trailing white space.
pub open spec fn trimmed(s: Seq<u8>) -> Seq<u8> {
    if trim_start_at(s) <= trim_end_at(s) {
        s.subrange(trim_start_at(s) as int, trim_end_at(s) as int)
    } else {
        Seq::empty()
    }
}

proof fn lemma_trim_bounds(s: Seq<u8>)
    ensures
        trim_start_at(s) <= s.len(),
        trim_end_at(s) <= s.len(),
        forall|i: int| 0 <= i < trim_start_at(s) ==> is_space(#[trigger] s[i]),
        forall|i: int| trim_end_at(s) <= i < s.len() ==> is_space(#[trigger] s[i]),
        trim_start_at(s) < s.len() ==> !is_space(s[trim_start_at(s) as int]),
        trim_end_at(s) > 0 ==> !is_space(s[trim_end_at(s) - 1]),
    decreases s.len(),
{
    if s.len() > 0 {
        lemma_trim_bounds(s.drop_first());
        lemma_trim_bounds(s.drop_last());
        if is_space(s[0]) {
            assert forall|i: int| 0 <= i < trim_start_at(s) implies is_space(#[trigger] s[i]) by {
                if i > 0 {
                    assert(s[i] == s.drop_first()[i - 1]);
                }
            }
        }
        if is_space(s.last()) {
            assert forall|i: int| trim_end_at(s) <= i < s.len() implies is_space(#[trigger] s[i]) by {
                if i < s.len() - 1 {
                    assert(s[i] == s.drop_last()[i]);
                }
            }
        }
    }
}

fn is_space_byte(b: u8) -> (r: bool)
    ensures
        r == is_space(b),
{
    b == 32u8 || b == 9u8 || b == 10u8 || b == 13u8
}

impl TextFragment {
    pub fn new(bytes: Vec<u8>, offset: usize) -> (r: TextFragment)
        ensures
            r.kind == FragmentKind::Text,
            r.bytes@ == bytes@,
            r.offset == offset,
    {
        TextFragment { kind: FragmentKind::Text, bytes, offset }
    }

    pub fn soft_break(bytes: Vec<u8>, offset: usize) -> (r: TextFragment)
        ensures
            r.kind == FragmentKind::SoftBreak,
            r.bytes@ == bytes@,
            r.offset == offset,
    {
        TextFragment { kind: FragmentKind::SoftBreak, bytes, offset }
    }
}

impl Text {
    /// The bytes of the text, soft breaks included.
    pub open spec fn view_bytes(&self) -> Seq<u8> {
        flatten(self.fragments@)
    }

    pub fn empty(offset: usize) -> (r: Text)
        ensures
            r.offset == offset,
            r.fragments@.len() == 0,
            r.view_bytes() == Seq::<u8>::empty(),
    {
        Text { offset, fragments: Vec::new() }
    }

    /// The text of `bytes`, taken from the source at `offset`.
    pub fn from_bytes(bytes: Vec<u8>, offset: usize) -> (r: Text)
        ensures
            r.offset == offset,
            r.view_bytes() == bytes@,
    {
        let mut t = Text::empty(offset);
        t.append_str(bytes, offset);
        assert(Seq::<u8>::empty() + bytes@ =~= bytes@);
        t
    }

    /// Adds a fragment; an empty one is dropped.
    pub fn append_fragment(&mut self, f: TextFragment)
        ensures
            final(self).offset == old(self).offset,
            final(self).view_bytes() == old(self).view_bytes() + f.bytes@,
            f.bytes@.len() == 0 ==> final(self).fragments@ == old(self).fragments@,
            f.bytes@.len() > 0 ==> final(self).fragments@ == old(self).fragments@.push(f),
    {
        if f.bytes.len() > 0 {
            let ghost before = self.fragments@;
            self.fragments.push(f);
            assert(self.fragments@.drop_last() == before);
        } else {
            assert(old(self).view_bytes() + f.bytes@ == old(self).view_bytes());
        }
    }

    /// Adds source bytes taken at `offset`; empty bytes are dropped.
    pub fn append_str(&mut self, bytes: Vec<u8>, offset: usize)
        ensures
            final(self).offset == old(self).offset,
            final(self).view_bytes() == old(self).view_bytes() + bytes@,
            old(self).fragments@.len() <= final(self).fragments@.len() <= old(self).fragments@.len() + 1,
            forall|j: int| 0 <= j < old(self).fragments@.len() ==> final(self).fragments@[j] == old(self).fragments@[j],
            final(self).fragments@.len() > old(self).fragments@.len() ==> final(self).fragments@.last().kind
                == FragmentKind::Text,
            final(self).fragments@.len() == old(self).fragments@.len() ==> final(self).fragments@ == old(self).fragments@,
            final(self).fragments@.len() > old(self).fragments@.len() ==> final(self).fragments@ == old(self).fragments@.push(
                final(self).fragments@.last(),
            ) && final(self).fragments@.last().bytes@ == bytes@ && final(self).fragments@.last().offset == offset,
    {
        self.append_fragment(TextFragment::new(bytes, offset));
    }

    /// All the bytes of the text.
    pub fn text(&self) -> (r: Vec<u8>)
        ensures
            r@ == self.view_bytes(),
    {
        let mut r: Vec<u8> = Vec::new();
        let mut i: usize = 0;
        while i < self.fragments.len()
            invariant
                i <= self.fragments@.len(),
                r@ == flatten(self.fragments@.subrange(0, i as int)),
            decreases self.fragments@.len() - i,
        {
            let f = &self.fragments[i];
            let mut j: usize = 0;
            let ghost r0 = r@;
            while j < f.bytes.len()
                invariant
                    j <= f.bytes@.len(),
                    r@ == r0 + f.bytes@.subrange(0, j as int),
                decreases f.bytes@.len() - j,
            {
                r.push(f.bytes[j]);
                j += 1;
                assert(r@ == r0 + f.bytes@.subrange(0, j as int));
            }
            assert(f.bytes@.subrange(0, j as int) == f.bytes@);
            assert(self.fragments@.subrange(0, i + 1).drop_last() == self.fragments@.subrange(0, i as int));
            i += 1;
        }
        assert(self.fragments@.subrange(0, i as int) == self.fragments@);
        r
    }

    /// The text without leading and trailing white space.
    pub fn text_trimmed(&self) -> (r: Vec<u8>)
        ensures
            r@ == trimmed(self.view_bytes()),
    {
        let all = self.text();
        let ghost s = all@;
        proof { lemma_trim_bounds(s); }
        let mut a: usize = 0;
        while a < all.len() && is_space_byte(all[a])
            invariant
                a <= s.len(),
                all@ == s,
                forall|i: int| 0 <= i < a ==> is_space(#[trigger] s[i]),
            decreases s.len() - a,
        {
            a += 1;
        }
        proof { lemma_first_non_space(s, a as nat); }
        let mut b: usize = all.len();
        while b > a && is_space_byte(all[b - 1])
            invariant
                a <= b <= s.len(),
                all@ == s,
                forall|i: int| b <= i < s.len() ==> is_space(#[trigger] s[i]),
            decreases b,
        {
            b -= 1;
        }
        proof { lemma_trim_end_exact(s, a as nat, b as nat); }
        let mut r: Vec<u8> = Vec::new();
        let mut k: usize = a;
        while k < b
            invariant
                a <= k <= b <= s.len(),
                all@ == s,
                r@ == s.subrange(a as int, k as int),
            decreases b - k,
        {
            r.push(all[k]);
            k += 1;
        }
        r
    }

    /// Whether the text holds nothing but white space.
    pub fn is_text_empty(&self) -> (r: bool)
        ensures
            r == (trimmed(self.view_bytes()).len() == 0),
    {
        let t = self.text_trimmed();
        t.len() == 0
    }
}

proof fn lemma_first_non_space(s: Seq<u8>, a: nat)
    requires
        a <= s.len(),
        forall|i: int| 0 <= i < a ==> is_space(#[trigger] s[i]),
        a == s.len() || !is_space(s[a as int]),
    ensures
        trim_start_at(s) == a,
    decreases s.len(),
{
    if a > 0 {
        assert(is_space(s[0]));
        assert forall|i: int| 0 <= i < a - 1 implies is_space(#[trigger] s.drop_first()[i]) by {
            assert(s.drop_first()[i] == s[i + 1]);
        }
        if a < s.len() {
            assert(s.drop_first()[a - 1] == s[a as int]);
        }
        lemma_first_non_space(s.drop_first(), (a - 1) as nat);
    }
}

proof fn lemma_trim_end_exact(s: Seq<u8>, a: nat, b: nat)
    requires
        a <= b <= s.len(),
        a == trim_start_at(s),
        forall|i: int| b <= i < s.len() ==> is_space(#[trigger] s[i]),
        b == a || !is_space(s[b - 1]),
    ensures
        trimmed(s) == s.subrange(a as int, b as int),
    decreases s.len(),
{
    lemma_trim_bounds(s);
    if b > a {
        lemma_end_at(s, b);
    } else {
        // all of s[a..] is space
        lemma_end_le(s, a);
    }
}

proof fn lemma_end_at(s: Seq<u8>, b: nat)
    requires
        0 < b <= s.len(),
        forall|i: int| b <= i < s.len() ==> is_space(#[trigger] s[i]),
        !is_space(s[b - 1]),
    ensures
        trim_end_at(s) == b,
    decreases s.len(),
{
    if b < s.len() {
        assert(is_space(s.last()));
        assert forall|i: int| b <= i < s.drop_last().len() implies is_space(#[trigger] s.drop_last()[i]) by {
            assert(s.drop_last()[i] == s[i]);
        }
        assert(s.drop_last()[b - 1] == s[b - 1]);
        lemma_end_at(s.drop_last(), b);
    }
}

proof fn lemma_end_le(s: Seq<u8>, a: nat)
    requires
        a <= s.len(),
        forall|i: int| a <= i < s.len() ==> is_space(#[trigger] s[i]),
    ensures
        trim_end_at(s) <= a,
    decreases s.len(),
{
    lemma_trim_bounds(s);
    if s.len() > a {
        assert(is_space(s[s.len() - 1]));
        assert forall|i: int| a <= i < s.drop_last().len() implies is_space(#[trigger] s.drop_last()[i]) by {
            assert(s.drop_last()[i] == s[i]);
        }
        lemma_end_le(s.drop_last(), a);
    }
}

} // verus!
