use jsonparse::JSONValue;
use jsonparse::cursor::Cursor;
use jsonparse::parser::parse_array;
use jsonparse::parser::parse_false;
use jsonparse::parser::parse_null;
use jsonparse::parser::parse_num;
use jsonparse::parser::parse_object;
use jsonparse::parser::parse_str;
use jsonparse::parser::parse_true;

fn assert_parse_str_err(query: &str) {
    parse_str(&mut Cursor::new(query)).expect_err(&format!("Invalid value {} parsed", query));
}

fn assert_parse_str(query: &str, res: &str) {
    assert_eq!(parse_str(&mut Cursor::new(query)).unwrap(), res);
}

fn assert_num(v: &JSONValue, expected: f64) {
    match v {
        JSONValue::JSONNumber(n) => {
            assert_eq!(n.literal().parse::<f64>().unwrap(), expected);
        },
        _ => panic!("expected a number, got {:?}", v),
    }
}

#[test]
fn tests_it_works() {
    assert_eq!(2 + 2, 4);
}

#[test]
fn tests_test_valid_string_examples() {
    assert_parse_str("\"asd\"", "asd");
    assert_parse_str("\"as asd  asd d\\\"\"", "as asd  asd d\"");
    assert_parse_str("\"asd\\r\\n\\t\"", "asd\r\n\t");
    assert_parse_str("\"\\u0041\"", "A");
    assert_parse_str("\"unicode sequence \\uc328\"", "unicode sequence 쌨");
}

#[test]
fn tests_test_invalid_string_examples() {
    assert_parse_str_err("no quotes");
    assert_parse_str_err("\"not_closed");
    assert_parse_str_err("not opened");
    assert_parse_str_err("\"invalid escape \\x \"");
}

#[test]
fn tests_valid_parse_bull() {
    for s in vec!["true", "true, ", "true  asdpjmklmo"] {
        assert!(parse_true(&mut Cursor::new(s)).unwrap())
    }
    for s in vec!["false", "false, ", "false  asdpjmklmo"] {
        assert!(!parse_false(&mut Cursor::new(s)).unwrap())
    }
}

#[test]
fn tests_invalid_parse_bull() {
    for s in vec!["True", "False", "TRUE", "0", "1", "asdm"] {
        parse_true(&mut Cursor::new(s))
            .expect_err(&format!("Should not be parsed as bool! {}", s));
        parse_false(&mut Cursor::new(s))
            .expect_err(&format!("Should not be parsed as bool! {}", s));
    }
}

#[test]
fn tests_test_valid_parse_num() {
    for s in vec![
        ("1,2", 1.0),
        ("1}", 1.0),
        ("1,", 1.0),
        ("123", 123.0),
        ("113.1", 113.1),
        ("0.542", 0.542),
        ("0.0000000001", 0.0000000001),
        (
            "12312518359823.23482394823930113570185103857",
            12312518359823.23482394823930113570185103857,
        ),
        ("0.00E+123", 0.0),
        ("-123123123123123.1291", -123123123123123.1291),
        ("0.1212E9", 0.1212E9),
        ("0.1212E+100", 0.1212E100),
        ("1231231239.0121e-121", 1231231239.0121e-121),
        ("1231231239.0121e-5000 asd", 1231231239.0121e-5000),
    ] {
        println!("Checking {}", s.0);
        let n = parse_num(&mut Cursor::new(s.0)).unwrap();
        assert_eq!(n.literal().parse::<f64>().unwrap(), s.1);
    }
}

#[test]
fn tests_test_invalid_parse_num() {
    for s in vec!["a123", "00.123", "+123", "a1u2djasjda", "123.0Ee123123123"] {
        println!("Checking {}", s);
        parse_num(&mut Cursor::new(s))
            .expect_err(&format!("Expected to fail while parsing {}", s));
    }
}

#[test]
fn tests_test_valid_parse_null() {
    for s in vec!["null", "null, ", "null ", "null!"] {
        parse_null(&mut Cursor::new(s)).unwrap();
    }
}

#[test]
fn tests_invalid_parse_null() {
    for s in vec!["NULL", "!null", "asd", "><>OP"] {
        parse_null(&mut Cursor::new(s))
            .expect_err(&format!("Should not be parsed as null! {}", s));
    }
}

#[test]
fn tests_test_invalid_parse_object() {
    for s in vec![
        "{,}",
        "{1 : 1}",
        "{\"asd\": 1,}",
        "{\"asd\"; 1}",
        "{\"asd\": 1",
        "\"asd\": 1}",
        "{\"asd\": 1; \"bsd\": 2}",
        "{\"asd\": 1; \"bsd\": \"asdasdad}",
    ] {
        parse_object(&mut Cursor::new(s))
            .expect_err(&format!("Should not be parsed as valid object <{}>", s));
    }
}

#[test]
fn tests_test_valid_parse_object() {
    for s in vec![
        "{}",
        "{\"asd\": 1}",
        "{\"asd\": {\"b\": 1}}",
        "{\"asd\": 17.8e162}",
        "{\"asd\": 1, \"bsd\": 2}",
        "{\"asd\": 1, \"bsd\": \"asdasdasd\"}",
    ] {
        println!("Checking {}", s);
        parse_object(&mut Cursor::new(s)).unwrap();
    }
}

#[test]
fn tests_test_valid_parse_array() {
    for s in vec![
        "[1,2,3]",
        "[1, 2, 3.0]",
        "[1, 2, [1,     2,              3]]",
        "[     1,2,3      ]",
    ] {
        println!("Checking {}", s);
        let parsed = parse_array(&mut Cursor::new(s)).unwrap();
        assert_eq!(parsed.len(), 3);
        match s {
            "[1, 2, [1,     2,              3]]" => {
                assert_num(&parsed[0], 1.0);
                assert_num(&parsed[1], 2.0);
                match &parsed[2] {
                    JSONValue::JSONArray(inner) => {
                        assert_eq!(inner.len(), 3);
                        assert_num(&inner[0], 1.0);
                        assert_num(&inner[1], 2.0);
                        assert_num(&inner[2], 3.0);
                    },
                    other => panic!("expected a nested array, got {:?}", other),
                }
            },
            _ => {
                assert_num(&parsed[0], 1.0);
                assert_num(&parsed[1], 2.0);
                assert_num(&parsed[2], 3.0);
            },
        }
    }
}
