use json_parser::{parse, Error, JsonNumber, JsonParser, JsonValue};

const PASS1: &str = r##"[
    "JSON Test Pattern pass1",
    {"object with 1 member":["array with 1 element"]},
    {},
    [],
    -42,
    true,
    false,
    null,
    {
        "integer": 1234567890,
        "real": -9876.543210,
        "e": 0.123456789e-12,
        "E": 1.234567890E+34,
        "":  23456789012E66,
        "zero": 0,
        "one": 1,
        "space": " ",
        "quote": "\"",
        "backslash": "\\",
        "controls": "\b\f\n\r\t",
        "slash": "/ & \/",
        "alpha": "abcdefghijklmnopqrstuvwyz",
        "ALPHA": "ABCDEFGHIJKLMNOPQRSTUVWYZ",
        "digit": "0123456789",
        "0123456789": "digit",
        "special": "`1~!@#$%^&*()_+-={':[,]}|;.</>?",
        "hex": "\u0123\u4567\u89AB\uCDEF\uabcd\uef4A",
        "true": true,
        "false": false,
        "null": null,
        "array":[  ],
        "object":{  },
        "address": "50 St. James Street",
        "url": "http://www.JSON.org/",
        "comment": "// /* <!-- --",
        "# -- --> */": " ",
        " s p a c e d " :[1,2 , 3

,

4 , 5        ,          6           ,7        ],"compact":[1,2,3,4,5,6,7],
        "jsontext": "{\"object with 1 member\":[\"array with 1 element\"]}",
        "quotes": "&#34; \u0022 %22 0x22 034 &#x22;",
        "\/\\\"\uCAFE\uBABE\uAB98\uFCDE\ubcda\uef4A\b\f\n\r\t`1~!@#$%^&*()_+-=[]{}|;:',./<>?"
: "A key can be any string"
    },
    0.5 ,98.6
,
99.44
,

1066,
1e1,
0.1e1,
1e-1,
1e00,2e+00,2e-00
,"rosebud"]
"##;

const PASS2: &str = r#"[[[[[[[[[[[[[[[[[[["Not too deep"]]]]]]]]]]]]]]]]]]]"#;

const PASS3: &str = r#"{
    "JSON Test Pattern pass3": {
        "The outermost value": "must be an object or array.",
        "In this test": "It is an object."
    }
}
"#;

const FAILS: [&str; 32] = [
    r#""A JSON payload should be an object or array, not a string.""#,
    r#"["Unclosed array""#,
    r#"{unquoted_key: "keys must be quoted"}"#,
    r#"["extra comma",]"#,
    r#"["double extra comma",,]"#,
    r#"[   , "<-- missing value"]"#,
    r#"["Comma after the close"],"#,
    r#"["Extra close"]]"#,
    r#"{"Extra comma": true,}"#,
    r#"{"Extra value after close": true} "misplaced quoted value""#,
    r#"{"Illegal expression": 1 + 2}"#,
    r#"{"Illegal invocation": alert()}"#,
    r#"{"Numbers cannot have leading zeroes": 013}"#,
    r#"{"Numbers cannot be hex": 0x14}"#,
    r#"["Illegal backslash escape: \x15"]"#,
    r#"[\naked]"#,
    r#"["Illegal backslash escape: \017"]"#,
    r#"{"Missing colon" null}"#,
    r#"{"Double colon":: null}"#,
    r#"{"Comma instead of colon", null}"#,
    r#"["Colon instead of comma": false]"#,
    r#"["Bad value", truth]"#,
    r#"['single quote']"#,
    "[\"\ttab\tcharacter\tin\tstring\t\"]",
    r#"["tab\   character\   in\  string\  "]"#,
    "[\"line\nbreak\"]",
    "[\"line\\\nbreak\"]",
    r#"[0e]"#,
    r#"[0e+]"#,
    r#"[0e+-1]"#,
    r#"{"Comma instead if closing brace": true,"#,
    r#"["mismatch"}"#,
];

fn run(text: &str) -> Result<JsonValue, Error> {
    let mut parser = JsonParser::new(text);
    parser.parse()
}

fn number_of(v: &JsonValue) -> f64 {
    match v {
        JsonValue::Number(JsonNumber::Integer(i)) => *i as f64,
        JsonValue::Number(JsonNumber::Decimal(t)) => t.parse::<f64>().unwrap(),
        other => panic!("not a number: {:?}", other),
    }
}

fn members(v: JsonValue) -> Vec<(String, JsonValue)> {
    match v {
        JsonValue::Object(m) => m,
        other => panic!("not an object: {:?}", other),
    }
}

#[test]
fn simple() {
    let json_str = r#"
        {
            "name": "John",
            "surname": "Doe",
            "age": 15,
            "id": 555555,
            "is_student": true,
            "grades": [9, 8.5, 9.5, 10],
            "address": {
                "city": "Limassol",
                "zipcode": "4141"
            },
            "null": null,
        }
    "#;

    let mut parser = JsonParser::new(json_str);

    match parser.parse() {
        Ok(result) => println!("result: {:#?}\n", result),

        Err(err) => println!("Error: {}", err.message()),
    }
}

#[test]
fn advance() {
    assert!(run(PASS1).is_ok());
    assert!(run(PASS2).is_ok());
    assert!(run(PASS3).is_ok());

    for text in FAILS.iter() {
        assert!(run(text).is_err(), "accepted: {}", text);
    }
}

#[test]
fn empty_input_is_not_an_object_or_array() {
    assert_eq!(parse("").unwrap_err(), Error::NotObjectOrArray);
    assert_eq!(parse("   \n").unwrap_err(), Error::NotObjectOrArray);
}

#[test]
fn bare_scalar_is_rejected() {
    assert_eq!(parse("123").unwrap_err(), Error::NotObjectOrArray);
    assert_eq!(parse("\"a\"").unwrap_err(), Error::NotObjectOrArray);
    assert_eq!(parse("true").unwrap_err(), Error::NotObjectOrArray);
}

#[test]
fn trailing_comma_in_object() {
    assert_eq!(parse(r#"{"a":1,}"#).unwrap_err(), Error::TrailingComma);
    assert_eq!(parse(r#"[1,]"#).unwrap_err(), Error::TrailingComma);
}

#[test]
fn leading_zero() {
    assert_eq!(parse(r#"{"a": 012}"#).unwrap_err(), Error::LeadingZero);
    assert_eq!(parse("[00]").unwrap_err(), Error::LeadingZero);
}

#[test]
fn newline_in_string() {
    assert_eq!(parse("{\"a\": \"line1\nline2\"}").unwrap_err(), Error::NewlineInString);
}

#[test]
fn tab_in_string() {
    assert_eq!(parse("[\"a\tb\"]").unwrap_err(), Error::TabInString);
}

#[test]
fn array_of_numbers() {
    let m = members(parse(r#"{"a": [1, 2, 3]}"#).unwrap());
    assert_eq!(m.len(), 1);
    assert_eq!(m[0].0, "a");
    match &m[0].1 {
        JsonValue::Array(items) => {
            assert_eq!(items.len(), 3);
            assert_eq!(number_of(&items[0]), 1.0);
            assert_eq!(number_of(&items[1]), 2.0);
            assert_eq!(number_of(&items[2]), 3.0);
        }
        other => panic!("not an array: {:?}", other),
    }
}

#[test]
fn literals_in_key_order() {
    let m = members(parse(r#"{"a": true, "b": false, "c": null}"#).unwrap());
    assert_eq!(m.len(), 3);
    assert_eq!(m[0].0, "a");
    assert!(matches!(m[0].1, JsonValue::Boolean(true)));
    assert_eq!(m[1].0, "b");
    assert!(matches!(m[1].1, JsonValue::Boolean(false)));
    assert_eq!(m[2].0, "c");
    assert!(matches!(m[2].1, JsonValue::Null));
}

#[test]
fn same_input_gives_same_tree() {
    let first = format!("{:?}", parse(PASS3).unwrap());
    let second = format!("{:?}", parse(PASS3).unwrap());
    assert_eq!(first, second);
}

#[test]
fn distinct_documents_give_distinct_trees() {
    let docs = [r#"[1]"#, r#"[2]"#, r#"[[1]]"#, r#"{"a":1}"#, r#"{"b":1}"#, r#"["1"]"#, r#"[1.5]"#];
    let trees: Vec<String> = docs.iter().map(|d| format!("{:?}", parse(d).unwrap())).collect();
    for i in 0..trees.len() {
        for j in 0..trees.len() {
            if i != j {
                assert_ne!(trees[i], trees[j]);
            }
        }
    }
}

#[test]
fn duplicate_keys_are_kept_in_order() {
    let m = members(parse(r#"{"k": 1, "k": 2}"#).unwrap());
    assert_eq!(m.len(), 2);
    assert_eq!(m[0].0, "k");
    assert_eq!(m[1].0, "k");
    assert_eq!(number_of(&m[0].1), 1.0);
    assert_eq!(number_of(&m[1].1), 2.0);
}

#[test]
fn escapes_are_kept_verbatim() {
    let m = members(parse(r#"{"s": "a\"bA"}"#).unwrap());
    match &m[0].1 {
        JsonValue::String(t) => assert_eq!(t, r#"a\"bA"#),
        other => panic!("not a string: {:?}", other),
    }
}

#[test]
fn invalid_escape() {
    assert_eq!(parse(r#"["a\qb"]"#).unwrap_err(), Error::InvalidEscape);
}

#[test]
fn unterminated_string() {
    assert_eq!(parse(r#"["abc"#).unwrap_err(), Error::UnterminatedString);
    assert_eq!(parse(r#"["abc\"#).unwrap_err(), Error::UnterminatedString);
}

#[test]
fn unexpected_character() {
    assert_eq!(parse("[x]").unwrap_err(), Error::UnexpectedCharacter);
    assert_eq!(parse(r#"{"a" 1}"#).unwrap_err(), Error::UnexpectedCharacter);
}

#[test]
fn extra_characters() {
    assert_eq!(parse("[1] x").unwrap_err(), Error::ExtraCharacters);
}

#[test]
fn expected_comma_or_brace() {
    assert_eq!(parse(r#"{"a":1 "b":2}"#).unwrap_err(), Error::ExpectedCommaOrBrace);
}

#[test]
fn expected_comma_or_bracket() {
    assert_eq!(parse("[1 2]").unwrap_err(), Error::ExpectedCommaOrBracket);
}

#[test]
fn invalid_numbers() {
    assert_eq!(parse("[1E+]").unwrap_err(), Error::InvalidNumber);
    assert_eq!(parse("[0-1]").unwrap_err(), Error::InvalidNumber);
    assert_eq!(parse("[0+]").unwrap_err(), Error::InvalidNumber);
    assert_eq!(parse("[1.2.3]").unwrap_err(), Error::InvalidNumber);
    assert_eq!(parse("[9223372036854775808]").unwrap_err(), Error::InvalidNumber);
    assert_eq!(parse("[-]").unwrap_err(), Error::InvalidNumber);
}

#[test]
fn integer_limits() {
    let big = parse("[9223372036854775807, -9223372036854775808, -0]").unwrap();
    match big {
        JsonValue::Array(items) => {
            assert!(matches!(items[0], JsonValue::Number(JsonNumber::Integer(i64::MAX))));
            assert!(matches!(items[1], JsonValue::Number(JsonNumber::Integer(i64::MIN))));
            assert!(matches!(items[2], JsonValue::Number(JsonNumber::Integer(0))));
        }
        other => panic!("not an array: {:?}", other),
    }
}

#[test]
fn decimals_keep_their_text() {
    assert_eq!(parse("[.5]").unwrap_err(), Error::UnexpectedCharacter);
    match parse("[-1.5e3, 0.5, 2.]").unwrap() {
        JsonValue::Array(items) => {
            assert_eq!(number_of(&items[0]), -1500.0);
            assert!(matches!(&items[0], JsonValue::Number(JsonNumber::Decimal(t)) if t == "-1.5e3"));
            assert_eq!(number_of(&items[1]), 0.5);
            assert_eq!(number_of(&items[2]), 2.0);
        }
        other => panic!("not an array: {:?}", other),
    }
}

#[test]
fn literals_advance_by_their_length() {
    // the letters after the first one are not read
    match parse("[tXXX, fYYYY, nZZZ]").unwrap() {
        JsonValue::Array(items) => {
            assert!(matches!(items[0], JsonValue::Boolean(true)));
            assert!(matches!(items[1], JsonValue::Boolean(false)));
            assert!(matches!(items[2], JsonValue::Null));
        }
        other => panic!("not an array: {:?}", other),
    }
    assert_eq!(parse("[t]").unwrap_err(), Error::ExpectedCommaOrBracket);
}

#[test]
fn empty_containers() {
    assert!(matches!(parse("{}").unwrap(), JsonValue::Object(m) if m.is_empty()));
    assert!(matches!(parse("  []  ").unwrap(), JsonValue::Array(a) if a.is_empty()));
}

#[test]
fn unicode_whitespace_and_text() {
    let m = members(parse("\u{a0}{\"\u{e9}\":\u{2003}\"\u{4e2d}\"}\u{3000}").unwrap());
    assert_eq!(m[0].0, "\u{e9}");
    assert!(matches!(&m[0].1, JsonValue::String(t) if t == "\u{4e2d}"));
}

#[test]
fn error_messages() {
    assert_eq!(Error::TrailingComma.message(), "trailing comma detected");
    assert_eq!(Error::LeadingZero.message(), "a number cannot start with 0");
}

#[test]
fn layout_does_not_change_the_tree() {
    let compact = r#"{"a":[1,{"b":null}],"c":"x","d":-2.5e1}"#;
    let spaced = "\n {\n \"a\"\n :\n [\n 1\n ,\n {\n \"b\"\n :\n null\n }\n ]\n ,\n \"c\"\n :\n \"x\"\n ,\n \"d\"\n :\n -2.5e1\n }\n ";
    let first = format!("{:?}", parse(compact).unwrap());
    let second = format!("{:?}", parse(spaced).unwrap());
    assert_eq!(first, second);
    let m = members(parse(spaced).unwrap());
    assert_eq!(m.len(), 3);
    assert_eq!(m[0].0, "a");
    assert_eq!(m[1].0, "c");
    assert_eq!(m[2].0, "d");
    assert_eq!(number_of(&m[2].1), -25.0);
}

#[test]
fn whitespace_inside_empty_containers() {
    assert!(matches!(parse("[ ]").unwrap(), JsonValue::Array(a) if a.is_empty()));
    assert!(matches!(parse("{ }").unwrap(), JsonValue::Object(m) if m.is_empty()));
    assert!(matches!(parse("{\n\t}").unwrap(), JsonValue::Object(m) if m.is_empty()));
    let m = members(parse(r#"{"a": [ ], "b": { }}"#).unwrap());
    assert!(matches!(&m[0].1, JsonValue::Array(a) if a.is_empty()));
    assert!(matches!(&m[1].1, JsonValue::Object(o) if o.is_empty()));
    assert_eq!(parse("[ , ]").unwrap_err(), Error::UnexpectedCharacter);
}

#[test]
fn leading_whitespace_in_a_string_is_skipped() {
    let m = members(parse(r#"{"k": "  v"}"#).unwrap());
    assert!(matches!(&m[0].1, JsonValue::String(t) if t == "v"));
}

#[test]
fn capital_exponent_is_a_decimal() {
    let m = members(parse(r#"{"a": 1E5}"#).unwrap());
    assert!(matches!(&m[0].1, JsonValue::Number(JsonNumber::Decimal(t)) if t == "1E5"));
    assert_eq!(number_of(&m[0].1), 100000.0);
    match parse("[1E5]").unwrap() {
        JsonValue::Array(items) => assert_eq!(number_of(&items[0]), 100000.0),
        other => panic!("not an array: {:?}", other),
    }
}

#[test]
fn sanity_check_trims_leading_whitespace() {
    assert_eq!(JsonParser::new("  {}").sanity_check(), Ok(()));
    assert_eq!(JsonParser::new("\n[1,]").sanity_check(), Err(Error::TrailingComma));
    assert_eq!(JsonParser::new("  x").sanity_check(), Err(Error::NotObjectOrArray));
    assert_eq!(JsonParser::new("").sanity_check(), Err(Error::NotObjectOrArray));
    assert_eq!(parse("\n[1,]").unwrap_err(), Error::TrailingComma);
}

#[test]
fn leading_zero_only_before_digits() {
    assert_eq!(parse("[0]").is_ok(), true);
    assert_eq!(parse("[012]").unwrap_err(), Error::LeadingZero);
    assert_eq!(parse("[0-1]").unwrap_err(), Error::InvalidNumber);
}

#[test]
fn every_error_has_a_message() {
    assert_eq!(Error::UnexpectedCharacter.message(), "unexpected character");
    assert_eq!(Error::InvalidNullValue.message(), "invalid null value");
}
