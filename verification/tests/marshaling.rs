use pyjsonata::decode::decode_value;
use pyjsonata::encode::{encode_input, encode_value};
use pyjsonata::errors::{Error, ErrorKind};
use pyjsonata::host::HostValue;
use pyjsonata::invoke::{finish_evaluation, prepare_request, Jsonata};
use pyjsonata::sentinel::{sentinel_repr, sentinel_truthy, SentinelRegistry};
use pyjsonata::value::{CanonicalValue, Number, RangeValue};

fn ready_registry() -> SentinelRegistry {
    let mut registry = SentinelRegistry::new();
    registry.install();
    registry
}

#[test]
fn round_trip_scalars() {
    let registry = ready_registry();
    let values = vec![
        HostValue::Null,
        HostValue::Bool(true),
        HostValue::Bool(false),
        HostValue::SignedInt(-7),
        HostValue::SignedInt(i64::MAX),
        HostValue::UnsignedInt(u64::MAX),
        HostValue::FloatBits(2.5f64.to_bits()),
        HostValue::Str(String::from("hello")),
    ];
    for v in values {
        let encoded = encode_value(&v).expect("scalar must encode");
        let decoded = decode_value(&encoded, &registry).expect("scalar must decode");
        assert_eq!(decoded, v);
    }
}

#[test]
fn round_trip_preserves_numeric_representation() {
    let registry = ready_registry();
    // 2^63 does not fit a signed 64-bit integer: it must stay unsigned.
    let v = HostValue::UnsignedInt(9_223_372_036_854_775_808);
    let encoded = encode_value(&v).unwrap();
    assert_eq!(
        encoded,
        CanonicalValue::Number(Number::UnsignedInt(9_223_372_036_854_775_808))
    );
    assert_eq!(decode_value(&encoded, &registry).unwrap(), v);
    // A float survives bit-exactly.
    let bits = 0.1f64.to_bits();
    let f = HostValue::FloatBits(bits);
    let encoded = encode_value(&f).unwrap();
    assert_eq!(encoded, CanonicalValue::Number(Number::FloatBits(bits)));
    assert_eq!(decode_value(&encoded, &registry).unwrap(), f);
}

#[test]
fn round_trip_nested_structure() {
    let registry = ready_registry();
    let v = HostValue::Dict(vec![
        (
            HostValue::Str(String::from("a")),
            HostValue::List(vec![
                HostValue::SignedInt(1),
                HostValue::FloatBits(2.5f64.to_bits()),
                HostValue::Str(String::from("x")),
            ]),
        ),
        (
            HostValue::Str(String::from("b")),
            HostValue::Dict(vec![(HostValue::Str(String::from("c")), HostValue::Null)]),
        ),
    ]);
    let encoded = encode_value(&v).expect("nested value must encode");
    let decoded = decode_value(&encoded, &registry).expect("nested value must decode");
    assert_eq!(decoded, v);
}

#[test]
fn round_trip_turns_tuple_into_list() {
    let registry = ready_registry();
    let v = HostValue::Tuple(vec![HostValue::Bool(true), HostValue::SignedInt(2)]);
    let encoded = encode_value(&v).unwrap();
    let decoded = decode_value(&encoded, &registry).unwrap();
    // Structural equivalence: a tuple encodes to the same array as a list.
    assert_eq!(
        decoded,
        HostValue::List(vec![HostValue::Bool(true), HostValue::SignedInt(2)])
    );
}

#[test]
fn non_finite_float_is_a_value_error() {
    for bits in [
        f64::NAN.to_bits(),
        f64::INFINITY.to_bits(),
        f64::NEG_INFINITY.to_bits(),
    ] {
        let e = encode_value(&HostValue::FloatBits(bits)).unwrap_err();
        assert!(matches!(e, Error::NonFiniteFloat));
        assert_eq!(e.kind(), ErrorKind::ValueError);
        assert_eq!(e.message(), "float value is not finite");
    }
}

#[test]
fn finite_float_encodes() {
    let e = encode_value(&HostValue::FloatBits(f64::MAX.to_bits()));
    assert!(e.is_ok());
}

#[test]
fn non_string_key_is_a_type_error() {
    let v = HostValue::Dict(vec![
        (HostValue::Str(String::from("fine")), HostValue::Null),
        (HostValue::SignedInt(3), HostValue::Bool(true)),
    ]);
    let e = encode_value(&v).unwrap_err();
    assert!(matches!(e, Error::NonStringKey));
    assert_eq!(e.kind(), ErrorKind::TypeError);
    assert_eq!(e.message(), "dict keys must be strings");
}

#[test]
fn unsupported_list_element_fails_without_partial_result() {
    // The sentinel nested inside a value is an unsupported element; the
    // element at index 2 poisons the whole list, and the caller sees only
    // the error, never a partial array.
    let v = HostValue::List(vec![
        HostValue::SignedInt(0),
        HostValue::SignedInt(1),
        HostValue::Sentinel,
        HostValue::SignedInt(3),
    ]);
    let r = encode_value(&v);
    match r {
        Err(e) => {
            assert!(matches!(e, Error::UnsupportedType));
            assert_eq!(e.kind(), ErrorKind::TypeError);
            assert_eq!(e.message(), "unsupported type for JSON conversion");
        }
        Ok(_) => panic!("a list with an unsupported element must not encode"),
    }
}

#[test]
fn first_error_wins_in_a_list() {
    // A non-finite float before the unsupported element: the float's value
    // error is the one reported.
    let v = HostValue::List(vec![
        HostValue::FloatBits(f64::NAN.to_bits()),
        HostValue::Sentinel,
    ]);
    let e = encode_value(&v).unwrap_err();
    assert!(matches!(e, Error::NonFiniteFloat));
}

#[test]
fn decoding_callables_is_a_type_error() {
    let registry = ready_registry();
    for c in [
        CanonicalValue::Regex,
        CanonicalValue::Lambda,
        CanonicalValue::NativeFn,
        CanonicalValue::Transformer,
    ] {
        let e = decode_value(&c, &registry).unwrap_err();
        assert!(matches!(e, Error::UnsupportedValue));
        assert_eq!(e.kind(), ErrorKind::TypeError);
        assert_eq!(
            e.message(),
            "unsupported JSONata value type for host conversion"
        );
    }
}

#[test]
fn callable_inside_array_poisons_the_whole_array() {
    let registry = ready_registry();
    let c = CanonicalValue::Array(vec![CanonicalValue::Null, CanonicalValue::Lambda]);
    let e = decode_value(&c, &registry).unwrap_err();
    assert!(matches!(e, Error::UnsupportedValue));
}

#[test]
fn sentinel_reads_are_stable() {
    let mut registry = SentinelRegistry::new();
    registry.install();
    // A second installation is a no-op, not an error.
    registry.install();
    let first = registry.sentinel().expect("installed slot must hold the sentinel");
    let second = registry.sentinel().expect("installed slot must hold the sentinel");
    assert_eq!(first, second);
    assert_eq!(first, HostValue::Sentinel);
    // Boolean coercion of the sentinel is false, and its text is fixed.
    assert!(!sentinel_truthy());
    assert_eq!(sentinel_repr(), "Undefined");
    // Decoding Undefined yields the same sentinel.
    let decoded = decode_value(&CanonicalValue::Undefined, &registry).unwrap();
    assert_eq!(decoded, first);
}

#[test]
fn sentinel_is_not_null() {
    let registry = ready_registry();
    let undefined = decode_value(&CanonicalValue::Undefined, &registry).unwrap();
    let null = decode_value(&CanonicalValue::Null, &registry).unwrap();
    assert_ne!(undefined, null);
}

#[test]
fn decoding_undefined_before_initialization_fails() {
    let registry = SentinelRegistry::new();
    let e = decode_value(&CanonicalValue::Undefined, &registry).unwrap_err();
    assert!(matches!(e, Error::SentinelUninitialized));
    assert_eq!(e.kind(), ErrorKind::ValueError);
    assert_eq!(e.message(), "UNDEFINED not initialized");
}

#[test]
fn range_materializes_eagerly() {
    let registry = ready_registry();
    let c = CanonicalValue::Range(RangeValue { start: 3, count: 4 });
    let decoded = decode_value(&c, &registry).unwrap();
    assert_eq!(
        decoded,
        HostValue::List(vec![
            HostValue::SignedInt(3),
            HostValue::SignedInt(4),
            HostValue::SignedInt(5),
            HostValue::SignedInt(6),
        ])
    );
}

#[test]
fn empty_range_is_an_empty_list() {
    let registry = ready_registry();
    let c = CanonicalValue::Range(RangeValue { start: -2, count: 0 });
    assert_eq!(decode_value(&c, &registry).unwrap(), HostValue::List(vec![]));
}

#[test]
fn sentinel_input_binds_no_input() {
    // Scenario: evaluating with the sentinel as input hands the engine "no
    // input bound", not JSON null.
    let req = prepare_request(Some(&HostValue::Sentinel), None).unwrap();
    assert!(req.input.is_none());
    let req = prepare_request(None, None).unwrap();
    assert!(req.input.is_none());
    let req = prepare_request(Some(&HostValue::Null), None).unwrap();
    assert_eq!(req.input, Some(CanonicalValue::Null));
}

#[test]
fn nested_sentinel_in_input_is_rejected() {
    let v = HostValue::List(vec![HostValue::Sentinel]);
    let e = prepare_request(Some(&v), None).unwrap_err();
    assert!(matches!(e, Error::UnsupportedType));
    // encode_input only short-circuits on the sentinel standing alone.
    assert_eq!(encode_input(&HostValue::Sentinel).unwrap(), None);
}

#[test]
fn bindings_require_string_keys() {
    let bindings = vec![(HostValue::SignedInt(1), HostValue::Bool(true))];
    let e = prepare_request(None, Some(&bindings)).unwrap_err();
    assert!(matches!(e, Error::NonStringBindingKey));
    assert_eq!(e.kind(), ErrorKind::TypeError);
    assert_eq!(e.message(), "bindings keys must be strings");
}

#[test]
fn bindings_are_encoded_in_order() {
    // Scenario: the bindings {"x": 41} around the expression "$x + 1".
    let expression = Jsonata::new(String::from("$x + 1"));
    assert_eq!(expression.source(), "$x + 1");
    let bindings = vec![(
        HostValue::Str(String::from("x")),
        HostValue::SignedInt(41),
    )];
    let req = prepare_request(None, Some(&bindings)).unwrap();
    assert!(req.input.is_none());
    assert_eq!(req.bindings.len(), 1);
    assert_eq!(req.bindings[0].0, "x");
    assert_eq!(
        req.bindings[0].1,
        CanonicalValue::Number(Number::SignedInt(41))
    );
    // The engine's documented result for this call decodes to the host 42.
    let registry = ready_registry();
    let out = finish_evaluation(
        Ok(CanonicalValue::Number(Number::SignedInt(42))),
        &registry,
    )
    .unwrap();
    assert_eq!(out, HostValue::SignedInt(42));
}

#[test]
fn path_evaluation_request_and_result() {
    // Scenario: the expression "a.b" over the input {"a": {"b": 42}} with no
    // bindings; the engine receives the encoded object and its documented
    // result decodes to the host 42.
    let expression = Jsonata::new(String::from("a.b"));
    assert_eq!(expression.source(), "a.b");
    let input = HostValue::Dict(vec![(
        HostValue::Str(String::from("a")),
        HostValue::Dict(vec![(
            HostValue::Str(String::from("b")),
            HostValue::SignedInt(42),
        )]),
    )]);
    let req = prepare_request(Some(&input), None).unwrap();
    assert_eq!(
        req.input,
        Some(CanonicalValue::Object(vec![(
            String::from("a"),
            CanonicalValue::Object(vec![(
                String::from("b"),
                CanonicalValue::Number(Number::SignedInt(42)),
            )]),
        )]))
    );
    assert!(req.bindings.is_empty());
    let registry = ready_registry();
    let out = finish_evaluation(
        Ok(CanonicalValue::Number(Number::SignedInt(42))),
        &registry,
    )
    .unwrap();
    assert_eq!(out, HostValue::SignedInt(42));
}

#[test]
fn engine_failure_is_a_value_error_with_the_message_kept() {
    // Scenario: a syntactically invalid expression; the collaborator's parse
    // failure is wrapped as a value error carrying its message verbatim.
    let registry = ready_registry();
    let e = finish_evaluation(
        Err(String::from("Syntax error: unexpected token ')'")),
        &registry,
    )
    .unwrap_err();
    assert_eq!(e.kind(), ErrorKind::ValueError);
    assert_eq!(e.message(), "Syntax error: unexpected token ')'");
}

#[test]
fn bindings_errors_come_before_input_errors() {
    let bindings = vec![(HostValue::SignedInt(1), HostValue::Bool(true))];
    let bad_input = HostValue::FloatBits(f64::NAN.to_bits());
    let e = prepare_request(Some(&bad_input), Some(&bindings)).unwrap_err();
    assert!(matches!(e, Error::NonStringBindingKey));
}

#[test]
fn decoded_object_keeps_canonical_entry_order() {
    let registry = ready_registry();
    let c = CanonicalValue::Object(vec![
        (String::from("z"), CanonicalValue::Bool(false)),
        (String::from("a"), CanonicalValue::Bool(true)),
    ]);
    let decoded = decode_value(&c, &registry).unwrap();
    assert_eq!(
        decoded,
        HostValue::Dict(vec![
            (HostValue::Str(String::from("z")), HostValue::Bool(false)),
            (HostValue::Str(String::from("a")), HostValue::Bool(true)),
        ])
    );
}
