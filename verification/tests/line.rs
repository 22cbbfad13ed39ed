use influxdb_line_protocol::{to_string, to_writer, DataPoint, Error, FieldValue};

#[test]
fn tests_test_to_string() {
    assert_eq!(
        DataPoint {
            measurement: "myMeasurement",
            tag_set: vec![("tag1", "value1"), ("tag2", "value2")],
            field_set: vec![("fieldKey", FieldValue::String("fieldValue"))],
            timestamp: Some(1556813561098000000),
        }
        .into_string()
        .unwrap(),
        format!(
            "{}\n",
            r#"myMeasurement,tag1=value1,tag2=value2 fieldKey="fieldValue" 1556813561098000000"#
        ),
    );
    assert_eq!(
        DataPoint {
            measurement: "my Measurement",
            tag_set: vec![],
            field_set: vec![("fieldKey", FieldValue::String(r#"string value"#))],
            timestamp: None,
        }
        .into_string()
        .unwrap(),
        format!("{}\n", r#"my\ Measurement fieldKey="string value""#),
    );
    assert_eq!(
        DataPoint {
            measurement: "myMeasurement",
            tag_set: vec![],
            field_set: vec![(
                "fieldKey",
                FieldValue::String(r#""string" within a string"#)
            )],
            timestamp: None,
        }
        .into_string()
        .unwrap(),
        format!(
            "{}\n",
            r#"myMeasurement fieldKey="\"string\" within a string""#
        ),
    );
    let hundred = format!("{}", 100.);
    assert_eq!(
        DataPoint {
            measurement: "myMeasurement",
            tag_set: vec![("tag Key1", "tag Value1"), ("tag Key2", "tag Value2")],
            field_set: vec![("fieldKey", FieldValue::Float(&hundred))],
            timestamp: None,
        }
        .into_string()
        .unwrap(),
        format!(
            "{}\n",
            r#"myMeasurement,tag\ Key1=tag\ Value1,tag\ Key2=tag\ Value2 fieldKey=100"#
        ),
    );
    assert_eq!(
        DataPoint {
            measurement: "myMeasurement",
            tag_set: vec![("tagKey", "🍭")],
            field_set: vec![("fieldKey", FieldValue::String(r#"Launch 🚀"#))],
            timestamp: Some(1556813561098000000),
        }
        .into_string()
        .unwrap(),
        format!(
            "{}\n",
            r#"myMeasurement,tagKey=🍭 fieldKey="Launch 🚀" 1556813561098000000"#
        ),
    );
    let one = format!("{}", 1.);
    assert_eq!(
        DataPoint {
            measurement: "myMeasurement",
            tag_set: vec![],
            field_set: vec![
                ("fieldKey1", FieldValue::Float(&one)),
                ("fieldKey2", FieldValue::Integer(2))
            ],
            timestamp: None,
        }
        .into_string()
        .unwrap(),
        format!("{}\n", r#"myMeasurement fieldKey1=1,fieldKey2=2i"#),
    );
}

#[test]
fn lib_test_to_string() {
    assert_eq!(
        to_string(
            "myMeasurement",
            &vec![("tag1", "value1"), ("tag2", "value2")],
            &vec![("fieldKey", FieldValue::String("fieldValue"))],
            Some(1556813561098000000),
        )
        .unwrap(),
        format!(
            "{}\n",
            r#"myMeasurement,tag1=value1,tag2=value2 fieldKey="fieldValue" 1556813561098000000"#
        ),
    );
    assert_eq!(
        to_string(
            "my Measurement",
            &[],
            &vec![("fieldKey", FieldValue::String(r#"string value"#))],
            None,
        )
        .unwrap(),
        format!("{}\n", r#"my\ Measurement fieldKey="string value""#),
    );
    assert_eq!(
        to_string(
            "myMeasurement",
            &[],
            &vec![(
                "fieldKey",
                FieldValue::String(r#""string" within a string"#)
            )],
            None,
        )
        .unwrap(),
        format!(
            "{}\n",
            r#"myMeasurement fieldKey="\"string\" within a string""#
        ),
    );
    let hundred = format!("{}", 100.);
    assert_eq!(
        to_string(
            "myMeasurement",
            &vec![("tag Key1", "tag Value1"), ("tag Key2", "tag Value2")],
            &vec![("fieldKey", FieldValue::Float(&hundred))],
            None,
        )
        .unwrap(),
        format!(
            "{}\n",
            r#"myMeasurement,tag\ Key1=tag\ Value1,tag\ Key2=tag\ Value2 fieldKey=100"#
        ),
    );
    assert_eq!(
        to_string(
            "myMeasurement",
            &vec![("tagKey", "ðŸ­")],
            &vec![("fieldKey", FieldValue::String(r#"Launch ðŸš€"#))],
            Some(1556813561098000000),
        )
        .unwrap(),
        format!(
            "{}\n",
            r#"myMeasurement,tagKey=ðŸ­ fieldKey="Launch ðŸš€" 1556813561098000000"#
        ),
    );
    let one = format!("{}", 1.);
    assert_eq!(
        to_string(
            "myMeasurement",
            &[],
            &vec![
                ("fieldKey1", FieldValue::Float(&one)),
                ("fieldKey2", FieldValue::Integer(2))
            ],
            None,
        )
        .unwrap(),
        format!("{}\n", r#"myMeasurement fieldKey1=1,fieldKey2=2i"#),
    );
}

#[test]
#[should_panic(expected = "NamingRestrictions")]
fn tests_test_to_string_naming_restrictions() {
    DataPoint {
        measurement: "_myMeasurement",
        tag_set: vec![],
        field_set: vec![("fieldKey", FieldValue::String("fieldValue"))],
        timestamp: None,
    }
    .into_string()
    .unwrap();
}

#[test]
#[should_panic(expected = "EmptyFieldSet")]
fn tests_test_to_string_empty_field_set() {
    DataPoint {
        measurement: "myMeasurement",
        tag_set: vec![],
        field_set: vec![],
        timestamp: None,
    }
    .into_string()
    .unwrap();
}

#[test]
#[should_panic(expected = "NamingRestrictions")]
fn lib_test_to_string_naming_restrictions() {
    to_string(
        "_myMeasurement",
        &[],
        &vec![("fieldKey", FieldValue::String("fieldValue"))],
        None,
    )
    .unwrap();
}

#[test]
#[should_panic(expected = "EmptyFieldSet")]
fn lib_test_to_string_empty_field_set() {
    to_string("myMeasurement", &[], &vec![], None).unwrap();
}

#[test]
fn free_function_and_data_point_agree() {
    let tags = vec![("host", "a,b"), ("dc", "eu=1")];
    let fields = vec![
        ("up", FieldValue::Boolean(true)),
        ("n", FieldValue::UInteger(7)),
    ];
    let line = to_string("cpu", &tags, &fields, Some(-5)).unwrap();
    assert_eq!(line, "cpu,host=a\\,b,dc=eu\\=1 up=true,n=7u -5\n");
    let point = DataPoint {
        measurement: "cpu",
        tag_set: tags.clone(),
        field_set: fields.clone(),
        timestamp: Some(-5),
    };
    assert_eq!(point.clone().into_string().unwrap(), line);
    let mut sink = String::from("head ");
    point.into_writer(&mut sink).unwrap();
    assert_eq!(sink, format!("head {}", line));
}

#[test]
fn same_arguments_same_line() {
    let tags = vec![("t", "v")];
    let fields = vec![("f", FieldValue::Integer(1))];
    let first = to_string("m", &tags, &fields, Some(9));
    let second = to_string("m", &tags, &fields, Some(9));
    assert_eq!(first.unwrap(), second.unwrap());
}

#[test]
fn tag_order_is_kept() {
    let line = to_string(
        "m",
        &[("z", "1"), ("a", "2"), ("m", "3")],
        &[("f", FieldValue::Integer(1))],
        None,
    )
    .unwrap();
    assert_eq!(line, "m,z=1,a=2,m=3 f=1i\n");
}

#[test]
fn measurement_keeps_equals_sign() {
    let line = to_string("a=b,c d", &[], &[("f", FieldValue::Integer(1))], None).unwrap();
    assert_eq!(line, "a=b\\,c\\ d f=1i\n");
}

#[test]
fn timestamp_is_decimal() {
    let fields = [("f", FieldValue::Boolean(false))];
    assert_eq!(to_string("m", &[], &fields, Some(0)).unwrap(), "m f=false 0\n");
    assert_eq!(
        to_string("m", &[], &fields, Some(i64::MIN)).unwrap(),
        "m f=false -9223372036854775808\n"
    );
    assert_eq!(
        to_string("m", &[], &fields, Some(i64::MAX)).unwrap(),
        "m f=false 9223372036854775807\n"
    );
}

#[test]
fn empty_field_set_whatever_the_tags() {
    assert!(matches!(
        to_string("m", &[], &[], None),
        Err(Error::EmptyFieldSet)
    ));
    assert!(matches!(
        to_string("m", &[("a", "b"), ("c d", "e=f")], &[], Some(3)),
        Err(Error::EmptyFieldSet)
    ));
    let mut sink = String::new();
    let r = to_writer(&mut sink, "m", &[("a", "b")], &[], None);
    assert!(matches!(r, Err(Error::EmptyFieldSet)));
    assert_eq!(sink, "m,a=b");
}

#[test]
fn earlier_error_comes_before_empty_field_set() {
    assert!(matches!(
        to_string("_m", &[], &[], None),
        Err(Error::NamingRestrictions)
    ));
    assert!(matches!(
        to_string("m", &[("_a", "b")], &[], None),
        Err(Error::NamingRestrictions)
    ));
}
