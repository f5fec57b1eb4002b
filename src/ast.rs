use vstd::prelude::*;
use crate::text::Text;
use crate::token::Span;

verus! {

/// A value together with the span of source it was parsed from.
#[derive(Debug, Clone, PartialEq)]
pub struct Located<T> {
    pub inner: T,
    pub span: Span,
}

impl<T> Located<T> {
    pub fn new(inner: T, span: Span) -> (r: Located<T>)
        ensures
            r.inner == inner,
            r.span == span,
    {
        Located { inner, span }
    }

    pub fn into_inner(self) -> (r: T)
        ensures
            r == self.inner,
    {
        self.inner
    }
}

/// An exact non-negative rational number `numer / denom`. It is not kept
/// in lowest terms: `==` compares the two fields, while `same_value` (and
/// `equals`) compare the numbers themselves, so `400/2` equals `200/1`.
#[derive(Debug, Clone, Copy, PartialEq, Eq, Structural)]
pub struct Number {
    pub numer: u64,
    pub denom: u64,
}

impl Number {
    /// The whole number `n`.
    pub fn integer(n: u64) -> (r: Number)
        ensures
            r.numer == n,
            r.denom == 1,
    {
        Number { numer: n, denom: 1 }
    }

    /// Whether two numbers with non-zero denominators are the same number.
    pub open spec fn same_value(self, o: Number) -> bool {
        self.numer * o.denom == o.numer * self.denom
    }

    /// Whether this number and `o` are the same number.
    pub fn equals(&self, o: &Number) -> (r: bool)
        ensures
            r == self.same_value(*o),
    {
        proof {
            assert(self.numer * o.denom <= u64::MAX as int * u64::MAX as int) by (nonlinear_arith)
                requires self.numer <= u64::MAX, o.denom <= u64::MAX;
            assert(o.numer * self.denom <= u64::MAX as int * u64::MAX as int) by (nonlinear_arith)
                requires o.numer <= u64::MAX, self.denom <= u64::MAX;
        }
        self.numer as u128 * o.denom as u128 == o.numer as u128 * self.denom as u128
    }
}

/// A single value of a quantity.
#[derive(Debug, Clone, PartialEq)]
pub enum Value {
    Number(Number),
    /// An inclusive range.
    Range { start: Number, end: Number },
    /// Free text, trimmed.
    Text(Vec<u8>),
}

impl Value {
    /// The value put in place of one that could not be parsed.
    pub open spec fn spec_recover() -> Value {
        Value::Number(Number { numer: 1, denom: 1 })
    }

    pub fn recover() -> (r: Value)
        ensures
            r == Value::spec_recover(),
    {
        Value::Number(Number { numer: 1, denom: 1 })
    }
}

/// The value part of a parsed quantity.
#[derive(Debug, Clone, PartialEq)]
pub enum QuantityValue {
    /// One value, with the span of its auto scale marker if it has one.
    Single { value: Located<Value>, auto_scale: Option<Span> },
    /// Two or more values, one for each declared serving count.
    Many(Vec<Located<Value>>),
}

/// A parsed quantity: its value and its unit, if any.
#[derive(Debug, Clone, PartialEq)]
pub struct Quantity {
    pub value: QuantityValue,
    pub unit: Option<Text>,
}

/// What the quantity parser produces: the quantity over the span of all its
/// tokens, and the span of the `%` that introduced its unit, if any.
#[derive(Debug, Clone, PartialEq)]
pub struct ParsedQuantity {
    pub quantity: Located<Quantity>,
    pub unit_separator: Option<Span>,
}

/// An ingredient, a cookware item or a timer mentioned in a step.
#[derive(Debug, Clone, PartialEq)]
pub struct Component {
    pub name: Option<Text>,
    pub quantity: Option<Located<Quantity>>,
}

/// An item of a step.
#[derive(Debug, Clone, PartialEq)]
pub enum Item {
    Text(Text),
    Ingredient(Located<Component>),
    Cookware(Located<Component>),
    Timer(Located<Component>),
}

/// A top level block of a recipe.
#[derive(Debug, Clone, PartialEq)]
pub enum Block {
    Metadata { key: Text, value: Text },
    Section { name: Option<Text> },
    Step { is_text: bool, items: Vec<Item> },
}

/// The structure of a recipe, before any analysis.
#[derive(Debug, Clone, PartialEq)]
pub struct Ast {
    pub blocks: Vec<Block>,
}

/// Errors found while parsing. Each carries the spans it is about.
#[derive(Debug, Clone, PartialEq)]
pub enum ParserError {
    ComponentPartMissing { container: &'static str, what: &'static str, expected_pos: Span },
    ComponentPartNotAllowed {
        container: &'static str,
        what: &'static str,
        to_remove: Span,
        help: Option<&'static str>,
    },
    ComponentPartInvalid {
        container: &'static str,
        what: &'static str,
        reason: &'static str,
        labels: Vec<(Span, Option<&'static str>)>,
        help: Option<&'static str>,
    },
    DuplicateModifiers { modifiers_span: Span, dup: Vec<u8> },
    /// An integer literal that does not fit in 32 bits.
    ParseInt { bad_bit: Span },
    /// A decimal literal that does not fit the exact representation.
    ParseFloat { bad_bit: Span },
    DivisionByZero { bad_bit: Span },
    QuantityScalingConflict { bad_bit: Span },
}

/// Warnings found while parsing; they never stop it.
#[derive(Debug, Clone, PartialEq)]
pub enum ParserWarning {
    EmptyMetadataValue { key: Located<Vec<u8>> },
    ComponentPartIgnored {
        container: &'static str,
        what: &'static str,
        ignored: Span,
        help: Option<&'static str>,
    },
}

/// What the pull parser emits, in source order.
///
/// A `StartStep` is always followed by its `EndStep` before any other
/// `StartStep`: steps do not nest.
#[derive(Debug, Clone, PartialEq)]
pub enum Event {
    Metadata { key: Text, value: Text },
    Section { name: Option<Text> },
    StartStep { is_text: bool },
    EndStep { is_text: bool },
    Text(Text),
    Ingredient(Located<Component>),
    Cookware(Located<Component>),
    Timer(Located<Component>),
    Error(ParserError),
    Warning(ParserWarning),
}

/// A span to mark in a diagnostic, with an optional message.
pub type Label = (Span, Option<&'static str>);

pub(crate) fn one_label(span: Span, text: Option<&'static str>) -> (r: Vec<Label>)
    ensures
        r@ == seq![(span, text)],
{
    let mut v: Vec<Label> = Vec::new();
    v.push((span, text));
    v
}

fn copy_labels(labels: &Vec<Label>) -> (r: Vec<Label>)
    ensures
        r@ == labels@,
{
    let mut v: Vec<Label> = Vec::new();
    let mut i: usize = 0;
    while i < labels.len()
        invariant
            i <= labels@.len(),
            v@ == labels@.subrange(0, i as int),
        decreases labels@.len() - i,
    {
        let l = labels[i];
        v.push(l);
        i += 1;
    }
    v
}

impl ParserError {
    /// The spans a diagnostic of this error marks.
    pub open spec fn spec_labels(&self) -> Seq<Label> {
        match self {
            ParserError::ComponentPartMissing { expected_pos, what, .. } => seq![(*expected_pos, Some(*what))],
            ParserError::ComponentPartNotAllowed { to_remove, .. } => seq![(*to_remove, Some("remove this"))],
            ParserError::ComponentPartInvalid { labels, .. } => labels@,
            ParserError::DuplicateModifiers { modifiers_span, .. } => seq![(*modifiers_span, None)],
            ParserError::ParseInt { bad_bit } => seq![(*bad_bit, None)],
            ParserError::ParseFloat { bad_bit } => seq![(*bad_bit, None)],
            ParserError::DivisionByZero { bad_bit } => seq![(*bad_bit, None)],
            ParserError::QuantityScalingConflict { bad_bit } => seq![(*bad_bit, None)],
        }
    }

    /// The spans to mark: the expected position of a missing part (named
    /// by the label), what to remove, or the offending bit.
    pub fn labels(&self) -> (r: Vec<Label>)
        ensures
            r@ == self.spec_labels(),
    {
        match self {
            ParserError::ComponentPartMissing { expected_pos, what, .. } => one_label(*expected_pos, Some(*what)),
            ParserError::ComponentPartNotAllowed { to_remove, .. } => one_label(*to_remove, Some("remove this")),
            ParserError::ComponentPartInvalid { labels, .. } => copy_labels(labels),
            ParserError::DuplicateModifiers { modifiers_span, .. } => one_label(*modifiers_span, None),
            ParserError::ParseInt { bad_bit } => one_label(*bad_bit, None),
            ParserError::ParseFloat { bad_bit } => one_label(*bad_bit, None),
            ParserError::DivisionByZero { bad_bit } => one_label(*bad_bit, None),
            ParserError::QuantityScalingConflict { bad_bit } => one_label(*bad_bit, None),
        }
    }

    pub open spec fn spec_help(&self) -> Option<&'static str> {
        match self {
            ParserError::ComponentPartNotAllowed { help, .. } => *help,
            ParserError::ComponentPartInvalid { help, .. } => *help,
            ParserError::DuplicateModifiers { .. } => Some("Remove duplicate modifiers"),
            ParserError::DivisionByZero { .. } => Some(
                "Change this please, we don't want an infinite amount of anything",
            ),
            ParserError::QuantityScalingConflict { .. } => Some(
                "A quantity cannot have the auto scaling marker (*) and have fixed values at the same time",
            ),
            _ => None,
        }
    }

    /// A hint on how to fix the error, if there is one.
    pub fn help(&self) -> (r: Option<&'static str>)
        ensures
            r == self.spec_help(),
    {
        match self {
            ParserError::ComponentPartNotAllowed { help, .. } => *help,
            ParserError::ComponentPartInvalid { help, .. } => *help,
            ParserError::DuplicateModifiers { .. } => Some("Remove duplicate modifiers"),
            ParserError::DivisionByZero { .. } => Some(
                "Change this please, we don't want an infinite amount of anything",
            ),
            ParserError::QuantityScalingConflict { .. } => Some(
                "A quantity cannot have the auto scaling marker (*) and have fixed values at the same time",
            ),
            _ => None,
        }
    }

    /// The code of the pass that found the error.
    pub fn code(&self) -> (r: Option<&'static str>)
        ensures
            r == Some("parser"),
    {
        Some("parser")
    }
}

impl ParserWarning {
    pub open spec fn spec_labels(&self) -> Seq<Label> {
        match self {
            ParserWarning::EmptyMetadataValue { key } => seq![(key.span, None)],
            ParserWarning::ComponentPartIgnored { ignored, .. } => seq![(*ignored, Some("this is ignored"))],
        }
    }

    /// The spans to mark: the key whose value is empty, or what is ignored.
    pub fn labels(&self) -> (r: Vec<Label>)
        ensures
            r@ == self.spec_labels(),
    {
        match self {
            ParserWarning::EmptyMetadataValue { key } => one_label(key.span, None),
            ParserWarning::ComponentPartIgnored { ignored, .. } => one_label(*ignored, Some("this is ignored")),
        }
    }

    /// A hint on what to do, if there is one.
    pub fn help(&self) -> (r: Option<&'static str>)
        ensures
            self is EmptyMetadataValue ==> r.is_none(),
            self matches ParserWarning::ComponentPartIgnored { help, .. } ==> r == help,
    {
        match self {
            ParserWarning::EmptyMetadataValue { .. } => None,
            ParserWarning::ComponentPartIgnored { help, .. } => *help,
        }
    }

    /// The code of the pass that found the warning.
    pub fn code(&self) -> (r: Option<&'static str>)
        ensures
            r == Some("parser"),
    {
        Some("parser")
    }
}

} // verus!
