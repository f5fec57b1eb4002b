use vstd::prelude::*;
use crate::ast::{Number, Value};

verus! {

/// A scaling request: from `base` servings to `target` servings, and the
/// position of `target` among the servings a recipe declares, if it is one
/// of them.
#[derive(Debug, Clone, Copy, PartialEq, Eq, Structural)]
pub struct ScaleTarget {
    pub base: u32,
    pub target: u32,
    pub index: Option<usize>,
}

/// The first position of `x` in `s`, if it occurs.
pub open spec fn first_pos(s: Seq<u32>, x: u32) -> Option<usize> {
    if exists|i: int| 0 <= i < s.len() && s[i] == x {
        let i = choose|i: int|
            0 <= i < s.len() && s[i] == x && forall|j: int| 0 <= j < i ==> s[j] != x;
        Some(i as usize)
    } else {
        None
    }
}

impl ScaleTarget {
    /// A target of `target` servings for a recipe written for `base`, which
    /// declares the serving counts `declared_servings`.
    pub fn new(base: u32, target: u32, declared_servings: &[u32]) -> (r: ScaleTarget)
        ensures
            r.base == base,
            r.target == target,
            r.index == first_pos(declared_servings@, target),
    {
        let mut i: usize = 0;
        while i < declared_servings.len()
            invariant
                i <= declared_servings@.len(),
                forall|j: int| 0 <= j < i ==> declared_servings@[j] != target,
            decreases declared_servings@.len() - i,
        {
            if declared_servings[i] == target {
                let ghost s = declared_servings@;
                proof {
                    let k = choose|k: int| 0 <= k < s.len() && s[k] == target && forall|j: int| 0 <= j < k ==> s[j] != target;
                    if k < i {
                    } else if k > i {
                        assert(s[i as int] == target);
                    }
                }
                return ScaleTarget { base, target, index: Some(i) };
            }
            i += 1;
        }
        ScaleTarget { base, target, index: None }
    }

    /// The scaling factor `target / base`, exactly; its denominator is
    /// zero when the base is.
    pub fn factor(&self) -> (r: Number)
        ensures
            r.numer == self.target,
            r.denom == self.base,
    {
        Number { numer: self.target as u64, denom: self.base as u64 }
    }

    pub fn index(&self) -> (r: Option<usize>)
        ensures
            r == self.index,
    {
        self.index
    }

    pub fn target_servings(&self) -> (r: u32)
        ensures
            r == self.target,
    {
        self.target
    }
}

/// Why a quantity could not be scaled.
#[derive(Debug, Clone, PartialEq)]
pub enum ScaleError {
    /// A text value has no amount to scale.
    TextValueError(Value),
    /// The value has one entry per declared serving count, and the target
    /// is not one of them: it cannot be scaled linearly.
    NotScalable { value: ScalableValue, reason: &'static str },
    /// The value has no entry for the target's serving count.
    NotDefined { target: ScaleTarget, value: ScalableValue },
    /// The recipe's base serving count is zero, so the factor
    /// `target / base` has no finite value. A floating-point factor would be
    /// infinite; with exact numbers this is reported instead.
    ZeroBaseServings,
    /// The scaled number's numerator or denominator does not fit in 64
    /// bits. A floating-point result would lose precision; with exact
    /// numbers this is reported instead.
    Overflow,
}

/// What scaling did to one component.
#[derive(Debug, Clone, PartialEq)]
pub enum ScaleOutcome {
    Scaled,
    Fixed,
    NoQuantity,
    Error(ScaleError),
}

/// A value that depends on the number of servings.
#[derive(Debug, Clone, PartialEq)]
pub enum ScalableValue {
    /// Scales in proportion to the servings.
    Linear(Value),
    /// One value per declared serving count, in the order declared.
    ByServings(Vec<Value>),
}

/// A quantity's value in a recipe: fixed, or still to be scaled.
#[derive(Debug, Clone, PartialEq)]
pub enum QuantityValue {
    Fixed(Value),
    Scalable(ScalableValue),
}

/// A component of a recipe (an ingredient, a cookware item or a timer).
#[derive(Debug, Clone, PartialEq)]
pub struct Component {
    pub name: Vec<u8>,
    pub quantity: Option<QuantityValue>,
    pub unit: Option<Vec<u8>>,
}

/// A recipe whose quantities may still depend on the servings.
#[derive(Debug, Clone, PartialEq)]
pub struct Recipe {
    pub name: Vec<u8>,
    pub metadata: Vec<(Vec<u8>, Vec<u8>)>,
    /// The names of the recipe's sections, in order (`None` for an unnamed
    /// one).
    pub sections: Vec<Option<Vec<u8>>>,
    pub ingredients: Vec<Component>,
    pub cookware: Vec<Component>,
    pub timers: Vec<Timer>,
}

/// A timer of a recipe: it always has a quantity.
#[derive(Debug, Clone, PartialEq)]
pub struct Timer {
    pub name: Option<Vec<u8>>,
    pub quantity: QuantityValue,
    pub unit: Option<Vec<u8>>,
}

/// The outcome of each scaled component, in the order of the components.
#[derive(Debug, Clone, PartialEq)]
pub struct ScaledData {
    pub target: ScaleTarget,
    pub ingredients: Vec<ScaleOutcome>,
    pub cookware: Vec<ScaleOutcome>,
    pub timers: Vec<ScaleOutcome>,
}

/// Whether a recipe was scaled, and how.
#[derive(Debug, Clone, PartialEq)]
pub enum Scaled {
    SkippedScaling,
    Scaled(ScaledData),
}

/// A recipe after scaling, or after scaling was skipped.
#[derive(Debug, Clone, PartialEq)]
pub struct ScaledRecipe {
    pub name: Vec<u8>,
    pub metadata: Vec<(Vec<u8>, Vec<u8>)>,
    pub sections: Vec<Option<Vec<u8>>>,
    pub ingredients: Vec<Component>,
    pub cookware: Vec<Component>,
    pub timers: Vec<Timer>,
    pub data: Scaled,
}

/// `n` times `target / base`, when the base is not zero and the result
/// fits.
pub open spec fn scale_number(n: Number, t: ScaleTarget) -> Result<Number, ScaleError> {
    if t.base == 0 {
        Err(ScaleError::ZeroBaseServings)
    } else if n.numer * t.target > u64::MAX || n.denom * t.base > u64::MAX {
        Err(ScaleError::Overflow)
    } else {
        Ok(Number { numer: (n.numer * t.target) as u64, denom: (n.denom * t.base) as u64 })
    }
}

/// Why a value with one entry per serving count cannot be scaled linearly.
pub const NOT_LINEAR: &'static str = "tried to scale a value linearly when it has the scaling defined";

/// Whether two values are the same: equal numbers or ranges, or texts with
/// the same bytes.
pub open spec fn value_same(a: Value, b: Value) -> bool {
    match a {
        Value::Text(x) => match b {
            Value::Text(y) => x@ == y@,
            _ => false,
        },
        _ => a == b,
    }
}

/// Whether two scalable values are the same, value by value.
pub open spec fn scalable_same(a: ScalableValue, b: ScalableValue) -> bool {
    match a {
        ScalableValue::Linear(x) => match b {
            ScalableValue::Linear(y) => value_same(x, y),
            _ => false,
        },
        ScalableValue::ByServings(xs) => match b {
            ScalableValue::ByServings(ys) => xs@.len() == ys@.len() && forall|i: int|
                0 <= i < xs@.len() ==> value_same(#[trigger] xs@[i], ys@[i]),
            _ => false,
        },
    }
}

/// Whether two scale errors are the same, carrying the same values.
pub open spec fn error_same(a: ScaleError, b: ScaleError) -> bool {
    match a {
        ScaleError::TextValueError(x) => match b {
            ScaleError::TextValueError(y) => value_same(x, y),
            _ => false,
        },
        ScaleError::NotScalable { value: x, reason: r1 } => match b {
            ScaleError::NotScalable { value: y, reason: r2 } => scalable_same(x, y) && r1 == r2,
            _ => false,
        },
        ScaleError::NotDefined { target: t1, value: x } => match b {
            ScaleError::NotDefined { target: t2, value: y } => t1 == t2 && scalable_same(x, y),
            _ => false,
        },
        _ => a == b,
    }
}

/// Whether two outcomes are the same, errors compared by `error_same`.
pub open spec fn outcome_same(a: ScaleOutcome, b: ScaleOutcome) -> bool {
    match a {
        ScaleOutcome::Error(x) => match b {
            ScaleOutcome::Error(y) => error_same(x, y),
            _ => false,
        },
        _ => a == b,
    }
}

fn copy_value(v: &Value) -> (r: Value)
    ensures
        value_same(*v, r),
{
    match v {
        Value::Number(n) => {
            let r = Value::Number(*n);
            assert(r == *v);
            r
        },
        Value::Range { start, end } => {
            let r = Value::Range { start: *start, end: *end };
            assert(r == *v);
            r
        },
        Value::Text(b) => {
            let c = crate::block_parser::copy_range(b.as_slice(), 0, b.len());
            assert(c@ =~= b@);
            Value::Text(c)
        },
    }
}

fn copy_values(vs: &Vec<Value>) -> (r: Vec<Value>)
    ensures
        r@.len() == vs@.len(),
        forall|i: int| 0 <= i < vs@.len() ==> value_same(#[trigger] vs@[i], r@[i]),
{
    let mut r: Vec<Value> = Vec::new();
    let mut i: usize = 0;
    while i < vs.len()
        invariant
            i <= vs@.len(),
            r@.len() == i,
            forall|j: int| 0 <= j < i ==> value_same(#[trigger] vs@[j], r@[j]),
        decreases vs@.len() - i,
    {
        r.push(copy_value(&vs[i]));
        i += 1;
    }
    r
}

/// A value scaled linearly: numbers and both ends of ranges are multiplied
/// by the factor; text cannot be scaled.
pub open spec fn scale_value(v: Value, t: ScaleTarget) -> Result<Value, ScaleError> {
    match v {
        Value::Number(n) => match scale_number(n, t) {
            Ok(m) => Ok(Value::Number(m)),
            Err(e) => Err(e),
        },
        Value::Range { start, end } => match scale_number(start, t) {
            Err(e) => Err(e),
            Ok(a) => match scale_number(end, t) {
                Err(e) => Err(e),
                Ok(b) => Ok(Value::Range { start: a, end: b }),
            },
        },
        Value::Text(_) => Err(ScaleError::TextValueError(v)),
    }
}

/// A quantity scaled to the target, and the outcome. A fixed quantity stays
/// as it is; a scalable one becomes fixed; on an error the quantity is
/// left as it was.
pub open spec fn scale_quantity(q: QuantityValue, t: ScaleTarget) -> (QuantityValue, ScaleOutcome) {
    match q {
        QuantityValue::Fixed(_) => (q, ScaleOutcome::Fixed),
        QuantityValue::Scalable(ScalableValue::Linear(v)) => match scale_value(v, t) {
            Ok(x) => (QuantityValue::Fixed(x), ScaleOutcome::Scaled),
            Err(e) => (q, ScaleOutcome::Error(e)),
        },
        QuantityValue::Scalable(ScalableValue::ByServings(vs)) => match t.index {
            None => (q, ScaleOutcome::Error(ScaleError::NotScalable { value: ScalableValue::ByServings(vs), reason: NOT_LINEAR })),
            Some(i) => if i < vs@.len() {
                (QuantityValue::Fixed(vs@[i as int]), ScaleOutcome::Scaled)
            } else {
                (q, ScaleOutcome::Error(ScaleError::NotDefined { target: t, value: ScalableValue::ByServings(vs) }))
            },
        },
    }
}

/// A component scaled to the target, and the outcome.
pub open spec fn scale_component(c: Component, t: ScaleTarget) -> (Component, ScaleOutcome) {
    match c.quantity {
        None => (c, ScaleOutcome::NoQuantity),
        Some(q) => {
            let (q2, o) = scale_quantity(q, t);
            (Component { quantity: Some(q2), ..c }, o)
        },
    }
}

/// A timer scaled to the target, and the outcome.
pub open spec fn scale_timer(tm: Timer, t: ScaleTarget) -> (Timer, ScaleOutcome) {
    let (q2, o) = scale_quantity(tm.quantity, t);
    (Timer { quantity: q2, ..tm }, o)
}

/// Whether `out` and `outcomes` are `timers` scaled, one by one, in order.
pub open spec fn scaled_timers(out: Seq<Timer>, outcomes: Seq<ScaleOutcome>, timers: Seq<Timer>, t: ScaleTarget) -> bool {
    &&& out.len() == timers.len()
    &&& outcomes.len() == timers.len()
    &&& forall|i: int|
        0 <= i < timers.len() ==> out[i] == (#[trigger] scale_timer(timers[i], t)).0 && outcome_same(
            outcomes[i],
            scale_timer(timers[i], t).1,
        )
}

/// Whether `out` and `outcomes` are `comps` scaled, one by one, in order.
pub open spec fn scaled_list(out: Seq<Component>, outcomes: Seq<ScaleOutcome>, comps: Seq<Component>, t: ScaleTarget) -> bool {
    &&& out.len() == comps.len()
    &&& outcomes.len() == comps.len()
    &&& forall|i: int|
        0 <= i < comps.len() ==> out[i] == (#[trigger] scale_component(comps[i], t)).0 && outcome_same(
            outcomes[i],
            scale_component(comps[i], t).1,
        )
}

fn scale_num(n: Number, t: ScaleTarget) -> (r: Result<Number, ScaleError>)
    ensures
        r == scale_number(n, t),
{
    if t.base == 0 {
        return Err(ScaleError::ZeroBaseServings);
    }
    assert(n.numer as u128 * t.target as u128 <= u64::MAX as u128 * u32::MAX as u128) by (nonlinear_arith)
        requires n.numer <= u64::MAX, t.target <= u32::MAX;
    assert(n.denom as u128 * t.base as u128 <= u64::MAX as u128 * u32::MAX as u128) by (nonlinear_arith)
        requires n.denom <= u64::MAX, t.base <= u32::MAX;
    let numer: u128 = n.numer as u128 * t.target as u128;
    let denom: u128 = n.denom as u128 * t.base as u128;
    if numer > u64::MAX as u128 || denom > u64::MAX as u128 {
        Err(ScaleError::Overflow)
    } else {
        Ok(Number { numer: numer as u64, denom: denom as u64 })
    }
}

fn scale_quantity_value(q: QuantityValue, t: ScaleTarget) -> (r: (QuantityValue, ScaleOutcome))
    ensures
        r.0 == scale_quantity(q, t).0,
        outcome_same(r.1, scale_quantity(q, t).1),
{
    match q {
        QuantityValue::Fixed(v) => (QuantityValue::Fixed(v), ScaleOutcome::Fixed),
        QuantityValue::Scalable(ScalableValue::Linear(v)) => {
            let scaled = match &v {
                Value::Number(n) => match scale_num(*n, t) {
                    Ok(m) => Ok(Value::Number(m)),
                    Err(e) => Err(e),
                },
                Value::Range { start, end } => match scale_num(*start, t) {
                    Err(e) => Err(e),
                    Ok(a) => match scale_num(*end, t) {
                        Err(e) => Err(e),
                        Ok(b) => Ok(Value::Range { start: a, end: b }),
                    },
                },
                Value::Text(_) => Err(ScaleError::TextValueError(copy_value(&v))),
            };
            match scaled {
                Ok(x) => (QuantityValue::Fixed(x), ScaleOutcome::Scaled),
                Err(e) => (QuantityValue::Scalable(ScalableValue::Linear(v)), ScaleOutcome::Error(e)),
            }
        },
        QuantityValue::Scalable(ScalableValue::ByServings(vs)) => match t.index {
            None => {
                let copy = copy_values(&vs);
                (
                    QuantityValue::Scalable(ScalableValue::ByServings(vs)),
                    ScaleOutcome::Error(ScaleError::NotScalable { value: ScalableValue::ByServings(copy), reason: NOT_LINEAR }),
                )
            },
            Some(i) => if i < vs.len() {
                let mut vs = vs;
                let x = vs.swap_remove(i);
                (QuantityValue::Fixed(x), ScaleOutcome::Scaled)
            } else {
                let copy = copy_values(&vs);
                (
                    QuantityValue::Scalable(ScalableValue::ByServings(vs)),
                    ScaleOutcome::Error(ScaleError::NotDefined { target: t, value: ScalableValue::ByServings(copy) }),
                )
            },
        },
    }
}

/// Scales every component in order, giving one outcome per component.
pub fn scale_many(target: ScaleTarget, components: Vec<Component>) -> (r: (Vec<Component>, Vec<ScaleOutcome>))
    ensures
        scaled_list(r.0@, r.1@, components@, target),
{
    let mut rest = components;
    let mut out: Vec<Component> = Vec::new();
    let mut outcomes: Vec<ScaleOutcome> = Vec::new();
    let ghost all = rest@;
    while rest.len() > 0
        invariant
            out@.len() + rest@.len() == all.len(),
            rest@ == all.subrange(out@.len() as int, all.len() as int),
            scaled_list(out@, outcomes@, all.subrange(0, out@.len() as int), target),
        decreases rest@.len(),
    {
        let c = rest.remove(0);
        let ghost k = out@.len() as int;
        assert(c == all[k]);
        let Component { name, quantity, unit } = c;
        let (c2, o) = match quantity {
            None => (Component { name, quantity: None, unit }, ScaleOutcome::NoQuantity),
            Some(q) => {
                let (q2, o) = scale_quantity_value(q, target);
                (Component { name, quantity: Some(q2), unit }, o)
            },
        };
        out.push(c2);
        outcomes.push(o);
        proof {
            let pre = all.subrange(0, k + 1);
            assert forall|i: int| 0 <= i < pre.len() implies out@[i] == (#[trigger] scale_component(pre[i], target)).0
                && outcome_same(outcomes@[i], scale_component(pre[i], target).1) by {
                if i < k {
                    assert(pre[i] == all.subrange(0, k)[i]);
                }
            }
            assert(rest@ =~= all.subrange(k + 1, all.len() as int));
        }
    }
    assert(all.subrange(0, out@.len() as int) == all);
    (out, outcomes)
}

/// Scales every timer in order, giving one outcome per timer.
pub fn scale_timers(target: ScaleTarget, timers: Vec<Timer>) -> (r: (Vec<Timer>, Vec<ScaleOutcome>))
    ensures
        scaled_timers(r.0@, r.1@, timers@, target),
{
    let mut rest = timers;
    let mut out: Vec<Timer> = Vec::new();
    let mut outcomes: Vec<ScaleOutcome> = Vec::new();
    let ghost all = rest@;
    while rest.len() > 0
        invariant
            out@.len() + rest@.len() == all.len(),
            rest@ == all.subrange(out@.len() as int, all.len() as int),
            scaled_timers(out@, outcomes@, all.subrange(0, out@.len() as int), target),
        decreases rest@.len(),
    {
        let tm = rest.remove(0);
        let ghost k = out@.len() as int;
        assert(tm == all[k]);
        let Timer { name, quantity, unit } = tm;
        let (q2, o) = scale_quantity_value(quantity, target);
        out.push(Timer { name, quantity: q2, unit });
        outcomes.push(o);
        proof {
            let pre = all.subrange(0, k + 1);
            assert forall|i: int| 0 <= i < pre.len() implies out@[i] == (#[trigger] scale_timer(pre[i], target)).0
                && outcome_same(outcomes@[i], scale_timer(pre[i], target).1) by {
                if i < k {
                    assert(pre[i] == all.subrange(0, k)[i]);
                }
            }
            assert(rest@ =~= all.subrange(k + 1, all.len() as int));
        }
    }
    assert(all.subrange(0, out@.len() as int) == all);
    (out, outcomes)
}

impl Recipe {
    /// Scales every quantity of the recipe to `target`. Each ingredient,
    /// cookware item and timer gets one outcome, at its own position.
    pub fn scale(self, target: ScaleTarget) -> (r: ScaledRecipe)
        ensures
            r.name == self.name,
            r.metadata == self.metadata,
            r.sections == self.sections,
            r.data matches Scaled::Scaled(d) && d.target == target
                && scaled_list(r.ingredients@, d.ingredients@, self.ingredients@, target)
                && scaled_list(r.cookware@, d.cookware@, self.cookware@, target)
                && scaled_timers(r.timers@, d.timers@, self.timers@, target),
    {
        let (ingredients, ing_outcomes) = scale_many(target, self.ingredients);
        let (cookware, ck_outcomes) = scale_many(target, self.cookware);
        let (timers, tm_outcomes) = scale_timers(target, self.timers);
        let data = ScaledData { target, ingredients: ing_outcomes, cookware: ck_outcomes, timers: tm_outcomes };
        ScaledRecipe {
            name: self.name,
            metadata: self.metadata,
            sections: self.sections,
            ingredients,
            cookware,
            timers,
            data: Scaled::Scaled(data),
        }
    }

    /// Keeps every quantity as written, in the state that records that no
    /// scaling took place.
    pub fn skip_scaling(self) -> (r: ScaledRecipe)
        ensures
            r.name == self.name,
            r.metadata == self.metadata,
            r.sections == self.sections,
            r.ingredients == self.ingredients,
            r.cookware == self.cookware,
            r.timers == self.timers,
            r.data == Scaled::SkippedScaling,
    {
        ScaledRecipe {
            name: self.name,
            metadata: self.metadata,
            sections: self.sections,
            ingredients: self.ingredients,
            cookware: self.cookware,
            timers: self.timers,
            data: Scaled::SkippedScaling,
        }
    }
}

impl ScaledRecipe {
    /// The scaling outcomes, when the recipe was scaled.
    pub fn scaled_data(&self) -> (r: Option<&ScaledData>)
        ensures
            self.data matches Scaled::Scaled(d) ==> r == Some(&d),
            self.data matches Scaled::SkippedScaling ==> r.is_none(),
    {
        if let Scaled::Scaled(data) = &self.data {
            Some(data)
        } else {
            None
        }
    }
}

/// Skipping scaling leaves the components exactly as they were, so scaling
/// them afterwards gives the very components and outcomes that scaling the
/// recipe itself gives.
pub proof fn skip_scaling_then_scale(
    r: Recipe,
    skipped: ScaledRecipe,
    t: ScaleTarget,
    out: Seq<Component>,
    outcomes: Seq<ScaleOutcome>,
    out_timers: Seq<Timer>,
)
    requires
        skipped.ingredients == r.ingredients,
        skipped.cookware == r.cookware,
        skipped.timers == r.timers,
        skipped.data == Scaled::SkippedScaling,
    ensures
        scaled_list(out, outcomes, skipped.ingredients@, t) <==> scaled_list(out, outcomes, r.ingredients@, t),
        scaled_list(out, outcomes, skipped.cookware@, t) <==> scaled_list(out, outcomes, r.cookware@, t),
        scaled_timers(out_timers, outcomes, skipped.timers@, t) <==> scaled_timers(out_timers, outcomes, r.timers@, t),
{
}

/// The timer list and its outcome list have the same length, and each
/// timer, which always has a quantity, gets the outcome of scaling it.
pub proof fn timer_alignment(timers: Seq<Timer>, out: Seq<Timer>, outcomes: Seq<ScaleOutcome>, t: ScaleTarget, i: int)
    requires
        scaled_timers(out, outcomes, timers, t),
        0 <= i < timers.len(),
    ensures
        outcomes.len() == timers.len(),
        out.len() == timers.len(),
        outcome_same(outcomes[i], scale_quantity(timers[i].quantity, t).1),
        outcomes[i] != ScaleOutcome::NoQuantity,
{
    assert(outcome_same(outcomes[i], scale_timer(timers[i], t).1));
    assert(scale_quantity(timers[i].quantity, t).1 != ScaleOutcome::NoQuantity);
}

/// Each component list and its outcome list have the same length, and the
/// outcome at a position is the one of the component at that position.
pub proof fn outcome_alignment(
    comps: Seq<Component>,
    out: Seq<Component>,
    outcomes: Seq<ScaleOutcome>,
    t: ScaleTarget,
    i: int,
)
    requires
        scaled_list(out, outcomes, comps, t),
        0 <= i < comps.len(),
    ensures
        outcomes.len() == comps.len(),
        out.len() == comps.len(),
        outcome_same(outcomes[i], scale_component(comps[i], t).1),
        comps[i].quantity.is_none() <==> outcomes[i] == ScaleOutcome::NoQuantity,
{
    let c = comps[i];
    assert(outcome_same(outcomes[i], scale_component(c, t).1));
    if let Some(q) = c.quantity {
        assert(scale_quantity(q, t).1 != ScaleOutcome::NoQuantity);
        assert(outcomes[i] != ScaleOutcome::NoQuantity);
    }
}

} // verus!
