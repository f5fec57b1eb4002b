use recipe_parse::ast::{Number, Value};
use recipe_parse::scale::{
    Component, QuantityValue, Recipe, ScalableValue, ScaleError, ScaleOutcome, ScaleTarget, Scaled,
    Timer, NOT_LINEAR,
};

fn n(x: u64) -> Value {
    Value::Number(Number::integer(x))
}

fn comp(name: &str, q: Option<QuantityValue>) -> Component {
    Component { name: name.as_bytes().to_vec(), quantity: q, unit: None }
}

fn linear(v: Value) -> Option<QuantityValue> {
    Some(QuantityValue::Scalable(ScalableValue::Linear(v)))
}

fn sample() -> Recipe {
    Recipe {
        name: b"soup".to_vec(),
        metadata: vec![(b"servings".to_vec(), b"2|4".to_vec())],
        sections: vec![None, Some(b"Serve".to_vec())],
        ingredients: vec![
            comp("water", linear(n(100))),
            comp("salt", None),
            comp("pepper", Some(QuantityValue::Fixed(n(1)))),
            comp("note", linear(Value::Text(b"some".to_vec()))),
            comp(
                "stock",
                Some(QuantityValue::Scalable(ScalableValue::ByServings(vec![n(1), n(3)]))),
            ),
        ],
        cookware: vec![comp("pot", None)],
        timers: vec![Timer {
            name: Some(b"boil".to_vec()),
            quantity: QuantityValue::Scalable(ScalableValue::Linear(Value::Range {
                start: Number::integer(5),
                end: Number::integer(10),
            })),
            unit: Some(b"min".to_vec()),
        }],
    }
}

fn as_f64(v: &Value) -> f64 {
    match v {
        Value::Number(x) => x.numer as f64 / x.denom as f64,
        other => panic!("not a number: {other:?}"),
    }
}

#[test]
fn scale_target_finds_declared_servings() {
    let t = ScaleTarget::new(2, 4, &[2, 4, 4]);
    assert_eq!(t.index(), Some(1));
    assert_eq!(t.target_servings(), 4);
    let t = ScaleTarget::new(2, 3, &[2, 4]);
    assert_eq!(t.index(), None);
}

#[test]
fn linear_number_doubles() {
    let r = Recipe {
        name: Vec::new(),
        metadata: Vec::new(),
        sections: Vec::new(),
        ingredients: vec![comp("water", linear(n(100)))],
        cookware: Vec::new(),
        timers: Vec::new(),
    };
    let s = r.scale(ScaleTarget::new(2, 4, &[]));
    let data = s.scaled_data().unwrap();
    assert_eq!(data.ingredients, vec![ScaleOutcome::Scaled]);
    match &s.ingredients[0].quantity {
        Some(QuantityValue::Fixed(v)) => {
            assert_eq!(as_f64(v), 200.0);
            match v {
                Value::Number(x) => assert!(x.equals(&Number::integer(200))),
                _ => panic!("not a number"),
            }
        }
        other => panic!("not fixed: {other:?}"),
    }
}

#[test]
fn outcomes_line_up_with_components() {
    let r = sample();
    let (ni, nc, nt) = (r.ingredients.len(), r.cookware.len(), r.timers.len());
    let s = r.scale(ScaleTarget::new(2, 4, &[2, 4]));
    let data = s.scaled_data().unwrap();
    assert_eq!(data.ingredients.len(), ni);
    assert_eq!(data.cookware.len(), nc);
    assert_eq!(data.timers.len(), nt);
    assert_eq!(
        data.ingredients,
        vec![
            ScaleOutcome::Scaled,
            ScaleOutcome::NoQuantity,
            ScaleOutcome::Fixed,
            ScaleOutcome::Error(ScaleError::TextValueError(Value::Text(b"some".to_vec()))),
            ScaleOutcome::Scaled,
        ]
    );
    assert_eq!(data.cookware, vec![ScaleOutcome::NoQuantity]);
    assert_eq!(data.timers, vec![ScaleOutcome::Scaled]);
    // per-serving value picked by index, no arithmetic
    assert_eq!(s.ingredients[4].quantity, Some(QuantityValue::Fixed(n(3))));
    // a failed component keeps its quantity
    assert_eq!(s.ingredients[3].quantity, linear(Value::Text(b"some".to_vec())));
    match &s.timers[0].quantity {
        QuantityValue::Fixed(Value::Range { start, end }) => {
            assert_eq!(start.numer as f64 / start.denom as f64, 10.0);
            assert_eq!(end.numer as f64 / end.denom as f64, 20.0);
        }
        other => panic!("not a range: {other:?}"),
    }
}

#[test]
fn by_servings_outside_declared_is_not_scalable() {
    let r = sample();
    let s = r.scale(ScaleTarget::new(2, 3, &[2, 4]));
    let data = s.scaled_data().unwrap();
    assert_eq!(
        data.ingredients[4],
        ScaleOutcome::Error(ScaleError::NotScalable {
            value: ScalableValue::ByServings(vec![n(1), n(3)]),
            reason: NOT_LINEAR,
        })
    );
    // the component keeps its quantity
    assert_eq!(
        s.ingredients[4].quantity,
        Some(QuantityValue::Scalable(ScalableValue::ByServings(vec![n(1), n(3)])))
    );
}

#[test]
fn by_servings_without_entry_is_not_defined() {
    let r = sample();
    let t = ScaleTarget::new(2, 6, &[2, 4, 6]);
    let s = r.scale(t);
    let data = s.scaled_data().unwrap();
    assert_eq!(
        data.ingredients[4],
        ScaleOutcome::Error(ScaleError::NotDefined {
            target: t,
            value: ScalableValue::ByServings(vec![n(1), n(3)]),
        })
    );
}

#[test]
fn zero_base_and_overflow() {
    let r = sample();
    let s = r.scale(ScaleTarget::new(0, 4, &[]));
    assert_eq!(s.scaled_data().unwrap().ingredients[0], ScaleOutcome::Error(ScaleError::ZeroBaseServings));

    let r = Recipe {
        name: Vec::new(),
        metadata: Vec::new(),
        sections: Vec::new(),
        ingredients: vec![comp("lots", linear(n(u64::MAX)))],
        cookware: Vec::new(),
        timers: Vec::new(),
    };
    let s = r.scale(ScaleTarget::new(1, 2, &[]));
    assert_eq!(s.scaled_data().unwrap().ingredients[0], ScaleOutcome::Error(ScaleError::Overflow));
}

#[test]
fn skip_scaling_keeps_quantities() {
    let r = sample();
    let s = r.clone().skip_scaling();
    assert!(s.scaled_data().is_none());
    assert_eq!(s.data, Scaled::SkippedScaling);
    assert_eq!(s.ingredients, r.ingredients);
    assert_eq!(s.timers, r.timers);
    assert_eq!(s.sections, r.sections);

    // scaling what was skipped gives what scaling the original gives
    let t = ScaleTarget::new(2, 4, &[2, 4]);
    let again = Recipe {
        name: s.name,
        metadata: s.metadata,
        sections: s.sections,
        ingredients: s.ingredients,
        cookware: s.cookware,
        timers: s.timers,
    }
    .scale(t);
    let direct = r.scale(t);
    assert_eq!(again, direct);
}
