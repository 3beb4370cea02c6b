use avro_derive::{
    derive_decodeable, decode_record, decode_value, parse_size, Action, BuildError, DecodeError, Decoded,
    DeploymentSize, FieldDef, Plan, RecordDecoder, RecordDef, State, StateExpr, StateKind, Strategy,
    TypeRef, Value, WireField,
};

fn field(name: &str, ty: TypeRef) -> FieldDef {
    FieldDef { name: name.to_string(), ty, factory: None, state_expr: None }
}

fn wire(name: &str, value: Value) -> WireField {
    WireField { name: name.to_string(), value }
}

fn xy_plan() -> Plan {
    let def = RecordDef {
        name: "Point".to_string(),
        state_kind: StateKind::Unit,
        fields: vec![field("x", TypeRef::Int), field("y", TypeRef::Long)],
    };
    derive_decodeable(&def, &Vec::new()).unwrap()
}

fn as_int(d: &Decoded) -> i32 {
    match d {
        Decoded::Int(v) => *v,
        other => panic!("not an int: {:?}", other),
    }
}

fn as_long(d: &Decoded) -> i64 {
    match d {
        Decoded::Long(v) => *v,
        other => panic!("not a long: {:?}", other),
    }
}

#[test]
fn wire_order_is_irrelevant() {
    let p = xy_plan();
    let r = decode_record(&Vec::new(), &p, State::Unit, &vec![wire("y", Value::Long(7)), wire("x", Value::Int(3))]).unwrap();
    assert_eq!(r.len(), 2);
    assert_eq!(as_int(&r[0]), 3);
    assert_eq!(as_long(&r[1]), 7);
}

#[test]
fn repeated_field_is_rejected() {
    let p = xy_plan();
    let r = decode_record(
        &Vec::new(),
        &p,
        State::Unit,
        &vec![wire("x", Value::Int(3)), wire("x", Value::Int(5)), wire("y", Value::Long(7))],
    );
    assert!(matches!(r, Err(DecodeError::DuplicateField(ref n)) if n == "x"));
}

#[test]
fn repetition_at_the_end_is_rejected() {
    let p = xy_plan();
    let r = decode_record(
        &Vec::new(),
        &p,
        State::Unit,
        &vec![wire("x", Value::Int(3)), wire("y", Value::Long(7)), wire("x", Value::Int(5))],
    );
    assert!(matches!(r, Err(DecodeError::DuplicateField(ref n)) if n == "x"));
}

#[test]
fn absent_field_is_rejected() {
    let p = xy_plan();
    let r = decode_record(&Vec::new(), &p, State::Unit, &vec![wire("x", Value::Int(3))]);
    assert!(matches!(r, Err(DecodeError::MissingField(ref n)) if n == "y"));
}

#[test]
fn empty_record_misses_first_field() {
    let p = xy_plan();
    let r = decode_record(&Vec::new(), &p, State::Unit, &vec![]);
    assert!(matches!(r, Err(DecodeError::MissingField(ref n)) if n == "x"));
}

#[test]
fn unknown_fields_are_skipped() {
    let p = xy_plan();
    let with_extra = vec![
        wire("z", Value::Str("ignored".to_string())),
        wire("y", Value::Long(7)),
        wire("w", Value::Record(vec![wire("q", Value::Null)])),
        wire("x", Value::Int(3)),
        wire("v", Value::Boolean(true)),
    ];
    let plain = vec![wire("y", Value::Long(7)), wire("x", Value::Int(3))];
    let a = decode_record(&Vec::new(), &p, State::Unit, &with_extra).unwrap();
    let b = decode_record(&Vec::new(), &p, State::Unit, &plain).unwrap();
    assert_eq!(as_int(&a[0]), as_int(&b[0]));
    assert_eq!(as_long(&a[1]), as_long(&b[1]));
}

#[test]
fn factory_takes_precedence_over_type() {
    let def = RecordDef {
        name: "Wrapped".to_string(),
        state_kind: StateKind::Unit,
        fields: vec![FieldDef {
            name: "inner".to_string(),
            ty: TypeRef::Record(0),
            factory: Some(TypeRef::Long),
            state_expr: None,
        }],
    };
    let schema = vec![xy_plan()];
    let p = derive_decodeable(&def, &schema).unwrap();
    assert_eq!(p.fields[0].strategy, Strategy::Factory(TypeRef::Long));
    let r = decode_record(&schema, &p, State::Unit, &vec![wire("inner", Value::Int(42))]).unwrap();
    assert_eq!(as_long(&r[0]), 42);
}

#[test]
fn string_fields_use_text_strategy() {
    let def = RecordDef {
        name: "Named".to_string(),
        state_kind: StateKind::Unit,
        fields: vec![field("label", TypeRef::Text)],
    };
    let p = derive_decodeable(&def, &Vec::new()).unwrap();
    assert_eq!(p.fields[0].strategy, Strategy::Text);
    let ok = decode_record(&Vec::new(), &p, State::Unit, &vec![wire("label", Value::Str("hi".to_string()))]).unwrap();
    assert!(matches!(&ok[0], Decoded::Text(s) if s == "hi"));
    let bad = decode_record(&Vec::new(), &p, State::Unit, &vec![wire("label", Value::Int(1))]);
    assert!(matches!(bad, Err(DecodeError::Mismatch)));
}

fn bounded_plan() -> Plan {
    let def = RecordDef {
        name: "Limited".to_string(),
        state_kind: StateKind::Int,
        fields: vec![FieldDef {
            name: "n".to_string(),
            ty: TypeRef::AtMost,
            factory: None,
            state_expr: Some(StateExpr::Inherit),
        }],
    };
    derive_decodeable(&def, &Vec::new()).unwrap()
}

#[test]
fn parent_state_reaches_nested_decoder() {
    let p = bounded_plan();
    let rec = vec![wire("n", Value::Long(10))];
    let r = decode_record(&Vec::new(), &p, State::Int(10), &rec).unwrap();
    assert_eq!(as_long(&r[0]), 10);
    let r = decode_record(&Vec::new(), &p, State::Int(9), &rec);
    assert!(matches!(r, Err(DecodeError::AboveLimit)));
}

#[test]
fn literal_state_expression_ignores_parent() {
    let def = RecordDef {
        name: "Fixed".to_string(),
        state_kind: StateKind::Unit,
        fields: vec![FieldDef {
            name: "n".to_string(),
            ty: TypeRef::AtMost,
            factory: None,
            state_expr: Some(StateExpr::Literal(5)),
        }],
    };
    let p = derive_decodeable(&def, &Vec::new()).unwrap();
    assert!(decode_record(&Vec::new(), &p, State::Unit, &vec![wire("n", Value::Int(5))]).is_ok());
    assert!(matches!(
        decode_record(&Vec::new(), &p, State::Unit, &vec![wire("n", Value::Int(6))]),
        Err(DecodeError::AboveLimit)
    ));
}

#[test]
fn plan_names_its_decoder() {
    let p = xy_plan();
    assert_eq!(p.name, "Point");
    assert_eq!(p.decoder_name, "Point_DECODER");
    assert_eq!(p.fields.len(), 2);
    assert_eq!(p.fields[0].name, "x");
    assert_eq!(p.fields[1].strategy, Strategy::Nested(TypeRef::Long));
    assert_eq!(p.fields[1].state_expr, StateExpr::Unit);
}

#[test]
fn build_rejects_unnamed_field() {
    let def = RecordDef {
        name: "T".to_string(),
        state_kind: StateKind::Unit,
        fields: vec![field("a", TypeRef::Int), field("", TypeRef::Int)],
    };
    assert!(matches!(derive_decodeable(&def, &Vec::new()), Err(BuildError::UnnamedField(1))));
}

#[test]
fn build_rejects_repeated_name() {
    let def = RecordDef {
        name: "T".to_string(),
        state_kind: StateKind::Unit,
        fields: vec![field("a", TypeRef::Int), field("a", TypeRef::Long)],
    };
    assert!(matches!(derive_decodeable(&def, &Vec::new()), Err(BuildError::DuplicateField(ref n)) if n == "a"));
}

#[test]
fn build_rejects_unknown_record_type() {
    let def = RecordDef {
        name: "T".to_string(),
        state_kind: StateKind::Unit,
        fields: vec![field("r", TypeRef::Record(3))],
    };
    assert!(matches!(derive_decodeable(&def, &Vec::new()), Err(BuildError::UnknownType(ref n)) if n == "r"));
}

#[test]
fn build_rejects_wrong_state_type() {
    let def = RecordDef {
        name: "T".to_string(),
        state_kind: StateKind::Unit,
        fields: vec![FieldDef {
            name: "n".to_string(),
            ty: TypeRef::AtMost,
            factory: None,
            state_expr: Some(StateExpr::Inherit),
        }],
    };
    assert!(matches!(derive_decodeable(&def, &Vec::new()), Err(BuildError::StateMismatch(ref n)) if n == "n"));
    let def = RecordDef {
        name: "T".to_string(),
        state_kind: StateKind::Int,
        fields: vec![FieldDef {
            name: "n".to_string(),
            ty: TypeRef::Long,
            factory: Some(TypeRef::AtMost),
            state_expr: None,
        }],
    };
    assert!(matches!(derive_decodeable(&def, &Vec::new()), Err(BuildError::StateMismatch(ref n)) if n == "n"));
}

#[test]
fn build_reports_first_bad_field() {
    let def = RecordDef {
        name: "T".to_string(),
        state_kind: StateKind::Unit,
        fields: vec![field("r", TypeRef::Record(0)), field("", TypeRef::Int)],
    };
    assert!(matches!(derive_decodeable(&def, &Vec::new()), Err(BuildError::UnknownType(ref n)) if n == "r"));
}

#[test]
fn nested_record_type_plans_state() {
    let inner = bounded_plan();
    let def = RecordDef {
        name: "Outer".to_string(),
        state_kind: StateKind::Unit,
        fields: vec![FieldDef {
            name: "limited".to_string(),
            ty: TypeRef::Record(0),
            factory: None,
            state_expr: Some(StateExpr::Literal(3)),
        }],
    };
    let p = derive_decodeable(&def, &vec![inner]).unwrap();
    let d = RecordDecoder::new(&p, State::Unit);
    match d.next(&p, &"limited".to_string()) {
        Ok(Action::Decode { index, decoder, state }) => {
            assert_eq!(index, 0);
            assert_eq!(decoder, TypeRef::Record(0));
            assert_eq!(state, State::Int(3));
        }
        other => panic!("unexpected action {:?}", other),
    }
}

#[test]
fn decoder_steps_by_hand() {
    let p = xy_plan();
    let mut d = RecordDecoder::new(&p, State::Unit);
    assert!(matches!(d.next(&p, &"other".to_string()), Ok(Action::Skip)));
    match d.next(&p, &"y".to_string()) {
        Ok(Action::Decode { index, decoder, state }) => {
            assert_eq!(index, 1);
            assert_eq!(decoder, TypeRef::Long);
            assert_eq!(state, State::Unit);
            d.store(index, Decoded::Long(7));
        }
        other => panic!("unexpected action {:?}", other),
    }
    assert!(matches!(d.next(&p, &"y".to_string()), Err(DecodeError::DuplicateField(ref n)) if n == "y"));
    d.store(0, Decoded::Int(3));
    let r = d.finish(&p).unwrap();
    assert_eq!(as_int(&r[0]), 3);
    assert_eq!(as_long(&r[1]), 7);
}

#[test]
fn int_decoder_narrows_longs() {
    assert_eq!(as_int(&decode_value(&Vec::new(), TypeRef::Int, State::Unit, &Value::Long(-5)).unwrap()), -5);
    assert!(matches!(
        decode_value(&Vec::new(), TypeRef::Int, State::Unit, &Value::Long(1i64 << 31)),
        Err(DecodeError::OutOfRange)
    ));
    assert!(matches!(decode_value(&Vec::new(), TypeRef::Int, State::Unit, &Value::Null), Err(DecodeError::Mismatch)));
}

#[test]
fn long_and_boolean_decoders() {
    assert_eq!(as_long(&decode_value(&Vec::new(), TypeRef::Long, State::Unit, &Value::Int(-2)).unwrap()), -2);
    assert!(matches!(
        decode_value(&Vec::new(), TypeRef::Boolean, State::Unit, &Value::Boolean(true)),
        Ok(Decoded::Boolean(true))
    ));
    assert!(matches!(
        decode_value(&Vec::new(), TypeRef::Boolean, State::Unit, &Value::Int(1)),
        Err(DecodeError::Mismatch)
    ));
    assert!(matches!(
        decode_value(&Vec::new(), TypeRef::Record(0), State::Unit, &Value::Record(vec![])),
        Err(DecodeError::UnknownType)
    ));
}

#[test]
fn bounded_decoder_without_state_is_unbounded() {
    assert_eq!(as_long(&decode_value(&Vec::new(), TypeRef::AtMost, State::Unit, &Value::Long(i64::MAX)).unwrap()), i64::MAX);
}

#[test]
fn state_expressions_evaluate() {
    assert_eq!(StateExpr::Unit.eval(State::Int(4)), State::Unit);
    assert_eq!(StateExpr::Inherit.eval(State::Int(4)), State::Int(4));
    assert_eq!(StateExpr::Literal(9).eval(State::Unit), State::Int(9));
}

#[test]
fn sizes_parse_by_name() {
    assert_eq!(parse_size("XS"), Ok(DeploymentSize::XS));
    assert_eq!(parse_size("S"), Ok(DeploymentSize::S));
    assert_eq!(parse_size("M"), Ok(DeploymentSize::M));
    assert_eq!(parse_size("L"), Ok(DeploymentSize::L));
    assert_eq!(parse_size("XL"), Ok(DeploymentSize::XL));
    assert_eq!(parse_size("xl"), Err("Invalid size.".to_string()));
    assert_eq!(parse_size(""), Err("Invalid size.".to_string()));
}

fn outer_plan(schema: &Vec<Plan>, expr: StateExpr) -> Plan {
    let def = RecordDef {
        name: "Outer".to_string(),
        state_kind: StateKind::Int,
        fields: vec![
            field("id", TypeRef::Long),
            FieldDef {
                name: "limited".to_string(),
                ty: TypeRef::Record(0),
                factory: None,
                state_expr: Some(expr),
            },
        ],
    };
    derive_decodeable(&def, schema).unwrap()
}

#[test]
fn nested_record_decodes_through_its_own_plan() {
    let schema = vec![bounded_plan()];
    let p = outer_plan(&schema, StateExpr::Literal(3));
    let rec = vec![
        wire("limited", Value::Record(vec![wire("skip", Value::Null), wire("n", Value::Int(3))])),
        wire("id", Value::Long(1)),
    ];
    let r = decode_record(&schema, &p, State::Int(0), &rec).unwrap();
    assert_eq!(as_long(&r[0]), 1);
    match &r[1] {
        Decoded::Record(inner) => {
            assert_eq!(inner.len(), 1);
            assert_eq!(as_long(&inner[0]), 3);
        }
        other => panic!("not a record: {:?}", other),
    }
}

#[test]
fn nested_decoder_sees_derived_state() {
    let schema = vec![bounded_plan()];
    let rec = vec![wire("id", Value::Long(1)), wire("limited", Value::Record(vec![wire("n", Value::Int(4))]))];
    let fixed = outer_plan(&schema, StateExpr::Literal(3));
    assert!(matches!(decode_record(&schema, &fixed, State::Int(100), &rec), Err(DecodeError::AboveLimit)));
    let inherited = outer_plan(&schema, StateExpr::Inherit);
    assert!(decode_record(&schema, &inherited, State::Int(4), &rec).is_ok());
    assert!(matches!(decode_record(&schema, &inherited, State::Int(3), &rec), Err(DecodeError::AboveLimit)));
}

#[test]
fn nested_errors_propagate_unchanged() {
    let schema = vec![bounded_plan()];
    let p = outer_plan(&schema, StateExpr::Inherit);
    let missing = vec![wire("id", Value::Long(1)), wire("limited", Value::Record(vec![]))];
    assert!(matches!(
        decode_record(&schema, &p, State::Int(1), &missing),
        Err(DecodeError::MissingField(ref n)) if n == "n"
    ));
    let not_record = vec![wire("id", Value::Long(1)), wire("limited", Value::Long(2))];
    assert!(matches!(decode_record(&schema, &p, State::Int(1), &not_record), Err(DecodeError::Mismatch)));
}
