use jsonparse::JSONValue;
use jsonparse::parser::parse_json;

#[test]
fn lib_it_works() {
    assert_eq!(2 + 2, 4);
}

#[test]
fn from_str_parses() {
    let v: JSONValue = "true".parse().unwrap();
    assert_eq!(v, JSONValue::JSONBool(true));
    let bad: Result<JSONValue, _> = "truth".parse();
    assert!(bad.is_err());
    assert_eq!(parse_json("null").unwrap(), JSONValue::JSONNull());
}
