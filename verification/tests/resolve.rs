use rpx_patch::error::Error;
use rpx_patch::number::{render_number, truncate, Number, Reading};
use rpx_patch::resolve::{
    is_only_blanks, read_value, resolve_value, resolve_with, strip_marker,
};
use rpx_patch::text::{chars_of, string_of};

fn float(v: f64) -> Reading {
    Reading::Float {
        bits: v.to_bits(),
        text: serde_json::Number::from_f64(v).map(|n| n.to_string()),
    }
}

#[test]
fn truncate_agrees_with_the_cast() {
    let values = [
        0.0,
        -0.0,
        0.5,
        -0.5,
        0.999999,
        1.0,
        -1.0,
        3.9,
        -3.9,
        14.0,
        1234567.875,
        -1234567.875,
        2147483646.5,
        2147483647.0,
        2147483647.5,
        2147483648.0,
        -2147483648.0,
        -2147483648.5,
        -2147483649.0,
        1e10,
        -1e10,
        1e300,
        -1e300,
        f64::MIN_POSITIVE,
        5e-324,
        f64::MAX,
        f64::MIN,
        f64::INFINITY,
        f64::NEG_INFINITY,
        f64::NAN,
    ];
    for v in values {
        assert_eq!(truncate(v.to_bits()), v as i32, "for {}", v);
    }
}

#[test]
fn truncate_exact_values() {
    assert_eq!(truncate(3.9f64.to_bits()), 3);
    assert_eq!(truncate((-3.9f64).to_bits()), -3);
    assert_eq!(truncate(f64::NAN.to_bits()), 0);
    assert_eq!(truncate(f64::INFINITY.to_bits()), i32::MAX);
    assert_eq!(truncate(f64::NEG_INFINITY.to_bits()), i32::MIN);
}

#[test]
fn numbers_render_as_text() {
    assert_eq!(string_of(&render_number(&Number::Integer(0))), "0");
    assert_eq!(string_of(&render_number(&Number::Integer(60))), "60");
    assert_eq!(string_of(&render_number(&Number::Integer(-17))), "-17");
    assert_eq!(
        string_of(&render_number(&Number::Integer(i128::MIN))),
        "-170141183460469231731687303715884105728"
    );
    assert_eq!(
        string_of(&render_number(&Number::Integer(u64::MAX as i128))),
        "18446744073709551615"
    );
    assert_eq!(
        string_of(&render_number(&Number::Float("1.5".to_string()))),
        "1.5"
    );
}

#[test]
fn integer_text_agrees_with_the_json_library() {
    for i in [0i64, 1, -1, 42, i64::MAX, i64::MIN] {
        assert_eq!(
            string_of(&render_number(&Number::Integer(i as i128))),
            serde_json::to_string(&serde_json::Number::from(i)).unwrap()
        );
    }
}

#[test]
fn markers_are_stripped_from_the_end() {
    assert_eq!(string_of(&strip_marker(&chars_of("$fps:int"))), "$fps");
    assert_eq!(string_of(&strip_marker(&chars_of("$fps"))), "$fps");
    assert_eq!(string_of(&strip_marker(&chars_of("$fps:int:int"))), "$fps");
    assert_eq!(string_of(&strip_marker(&chars_of(":int"))), "");
    assert_eq!(string_of(&strip_marker(&chars_of(":int$fps"))), ":int$fps");
}

#[test]
fn literal_is_read_before_any_expression() {
    assert_eq!(read_value("42"), Some(Reading::Integer(42)));
    assert_eq!(read_value("-7"), Some(Reading::Integer(-7)));
    assert_eq!(
        read_value("18446744073709551615"),
        Some(Reading::Integer(18446744073709551615))
    );
    assert_eq!(read_value("3.5"), Some(float(3.5)));
    assert_eq!(read_value("1e2"), Some(float(100.0)));
}

#[test]
fn expression_is_read_where_no_literal_is() {
    assert_eq!(read_value("2+3*4"), Some(float(14.0)));
    assert_eq!(read_value("(1 + 2) * 3"), Some(float(9.0)));
    assert_eq!(read_value("2^10"), Some(float(1024.0)));
    assert_eq!(read_value("max(1, 2)"), Some(float(2.0)));
    assert_eq!(read_value("1/0"), Some(float(f64::INFINITY)));
    assert_eq!(read_value("two"), None);
    assert_eq!(read_value(""), None);
    assert_eq!(read_value("1 +"), None);
}

#[test]
fn resolve_with_follows_the_reading() {
    let v = resolve_with("$a", true, &Some(Reading::Integer(5))).unwrap();
    assert_eq!((v.name.as_str(), v.value), ("$a", Number::Integer(5)));
    let v = resolve_with("$a:int", true, &Some(Reading::Integer(5))).unwrap();
    assert_eq!((v.name.as_str(), v.value), ("$a", Number::Integer(5)));
    let v = resolve_with("$a", true, &Some(float(2.5))).unwrap();
    assert_eq!(
        (v.name.as_str(), v.value),
        ("$a", Number::Float("2.5".to_string()))
    );
    let v = resolve_with("$a:int", true, &Some(float(2.5))).unwrap();
    assert_eq!((v.name.as_str(), v.value), ("$a", Number::Integer(2)));
    let v = resolve_with("$a:int", true, &Some(float(f64::INFINITY))).unwrap();
    assert_eq!(v.value, Number::Integer(2147483647));
    let v = resolve_with("$a:int", true, &Some(float(f64::NAN))).unwrap();
    assert_eq!(v.value, Number::Integer(0));
}

#[test]
fn resolve_with_errors() {
    assert_eq!(
        resolve_with("$a", false, &Some(Reading::Integer(5))),
        Err(Error::MissingValue)
    );
    assert_eq!(resolve_with("$a", false, &None), Err(Error::MissingValue));
    assert_eq!(resolve_with("$a", true, &None), Err(Error::InvalidExpression));
    assert_eq!(
        resolve_with("$a", true, &Some(float(f64::INFINITY))),
        Err(Error::InvalidExpression)
    );
    assert_eq!(
        resolve_with("$a", true, &Some(float(f64::NAN))),
        Err(Error::InvalidExpression)
    );
}

#[test]
fn resolve_value_literals() {
    let v = resolve_value("$a", Some("42")).unwrap();
    assert_eq!((v.name.as_str(), v.value), ("$a", Number::Integer(42)));
    let v = resolve_value("$a", Some("3.5")).unwrap();
    assert_eq!(
        (v.name.as_str(), v.value),
        ("$a", Number::Float("3.5".to_string()))
    );
    let v = resolve_value("$a:int", Some("42")).unwrap();
    assert_eq!((v.name.as_str(), v.value), ("$a", Number::Integer(42)));
}

#[test]
fn text_of_blanks_alone_is_no_expression() {
    for text in [" ", "  ", "\t", "\r\n", " \t \n", "\n"] {
        assert!(is_only_blanks(text), "for {:?}", text);
        assert_eq!(read_value(text), None, "for {:?}", text);
        assert_eq!(resolve_value("$a", Some(text)), Err(Error::InvalidExpression));
        assert_eq!(resolve_value("$a:int", Some(text)), Err(Error::InvalidExpression));
    }
}

#[test]
fn other_texts_are_not_blank() {
    for text in ["", "1", " 1 ", "\u{a0}", "\u{c}", " a", "\n."] {
        assert!(!is_only_blanks(text), "for {:?}", text);
    }
    assert_eq!(read_value(""), None);
    assert_eq!(read_value(" 1 "), Some(Reading::Integer(1)));
    assert_eq!(read_value(" 1 + 1 "), Some(float(2.0)));
    assert_eq!(read_value("\u{a0}"), None);
    assert_eq!(read_value("\u{c}"), None);
}

#[test]
fn every_short_text_is_read() {
    let alphabet = [
        ' ', '\t', '\n', '1', '0', '.', 'e', 'E', '+', '-', '*', '/', '%', '^', '(', ')', ',', 'a',
        '_', 'x', '\u{e9}', '$',
    ];
    let mut texts: Vec<String> = vec![String::new()];
    let mut start = 0;
    for _ in 0..4 {
        let end = texts.len();
        for k in start..end {
            for c in alphabet {
                let mut longer = texts[k].clone();
                longer.push(c);
                texts.push(longer);
            }
        }
        start = end;
    }
    let mut read = 0;
    for text in &texts {
        if read_value(text).is_some() {
            read += 1;
        }
    }
    assert!(read > 0);
    assert_eq!(texts.len(), 1 + 22 + 22 * 22 + 22 * 22 * 22 + 22 * 22 * 22 * 22);
}

#[test]
fn longer_texts_with_functions_are_read() {
    for text in [
        "max(1, 2) ", " min( 1 ,2)", "sin(pi)", "atan2(1,2)", "atan2(1)", "max()", "f(1)", "sin",
        "pi e", "(1", "1)", "((1))", "1,2", "max(1,(2,3))", "max((1,2))", "- 1", "--1", "+-+1",
        "1 +\n2", "2 ^ 3 ^ 2", "1e", "1e+", "1.e5", ".5", "1.", "1..2", "1e5e5", "e", "e1", "1 2",
        "( )", "()", "max( )", "max(,)", "max(1,)", "max(1, )", "5 %", "5 % 0", "0/0",
    ] {
        let first = read_value(text);
        assert_eq!(first.is_some(), read_value(text).is_some(), "for {:?}", text);
    }
    assert_eq!(read_value("max(1, 2) "), Some(float(2.0)));
    assert_eq!(read_value("2 ^ 3 ^ 2"), Some(float(512.0)));
    assert_eq!(read_value("atan2(1)"), None);
    assert_eq!(read_value("max(1, )"), None);
    assert_eq!(read_value("1 +\n2"), Some(float(3.0)));
}
