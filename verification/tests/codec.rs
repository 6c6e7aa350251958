use json_codec::parse;
use json_codec::Generator;
use json_codec::JsonError;
use json_codec::JsonNumber;
use json_codec::JsonValue;
use json_codec::Parser;
use json_codec::Tab;
use json_codec::Token;
use json_codec::Tokenizer;

fn num(v: i64) -> JsonValue {
    JsonValue::Number(JsonNumber::from_i64(v))
}

fn text(s: &str) -> JsonValue {
    JsonValue::String(String::from(s))
}

fn obj(pairs: Vec<(&str, JsonValue)>) -> JsonValue {
    let mut entries: Vec<(String, JsonValue)> = Vec::new();
    for (k, v) in pairs {
        json_codec::object_insert(&mut entries, String::from(k), v);
    }
    JsonValue::Object(entries)
}

#[test]
fn indent_spaces() {
    let mut gen = Generator::new(false, 4);
    gen.write("abcd");
    gen.new_line(Tab::Right);
    gen.write("1234");
    gen.new_line(Tab::Right);
    gen.write("xyz");

    gen.write("abcd");
    gen.new_line(Tab::Left);
    gen.write("1234");
    gen.new_line(Tab::Left);
    gen.write("xyz");
    gen.new_line(Tab::Left);
    gen.write("xyz");

    println!("{}", gen.value());
}

#[test]
fn write_array() {
    let mut gen = Generator::new(false, 4);
    let str = r#"[ 1, 2, 3, "a", [ "b", "c" ] ]"#;
    let json = parse(str).unwrap();
    gen.write_json(&json);
    let ret = gen.value();
    println!("stringify\n {}", ret);
}

#[test]
fn write_object() {
    let mut gen = Generator::new(false, 4);
    let str = "{\n    \"a\": \"abc\",\n    \"b\": 123,\n    \"more\": {\n        \"phone\": null\n    }\n}";

    let json = obj(vec![
        ("a", text("abc")),
        ("b", num(123)),
        ("more", obj(vec![("phone", JsonValue::Null)])),
    ]);
    gen.write_json(&json);
    let ret = gen.value();
    println!("json\n {:?}", json);
    println!("stringify\n {}", ret);
    println!("str\n {}", str);
    assert_eq!(ret, str);
}

#[test]
fn test_stringify() {
    let json = obj(vec![
        ("code", num(200)),
        ("success", JsonValue::Boolen(true)),
        (
            "payload",
            obj(vec![(
                "features",
                JsonValue::Array(vec![
                    text("awesfome   fasfaf  "),
                    text("easyAPI  "),
                    text("lowLearningCurve"),
                ]),
            )]),
        ),
    ]);
    let s = r#"{"code":200,"payload":{"features":["awesfome   fasfaf  ","easyAPI  ","lowLearningCurve"]},"success":true}"#;

    let ret = json_codec::generator::stringify(json);
    println!("stringify {}", ret);
    assert_eq!(ret, s);
}

#[test]
fn write_escaped_string() {
    let json = r#" "\u67e5" "#;
    let obj = parse(&json).unwrap();
    println!("{:?}", obj);
}

#[test]
fn stringify_escaped_characters() {
    assert_eq!(
        json_codec::generator::stringify(text("\r\n\t\u{8}\u{c}\\\"")),
        r#""\r\n\t\b\f\\\"""#
    );
}

#[test]
fn parse_escaped_unicode() {
    let data = parse(r#" "\u2764\ufe0f\t\n\n\n\n" "#).unwrap();

    println!("{}", data.dump());
}

#[test]
fn parse_escaped_unicode_surrogate() {
    let data = parse(r#" "\uD834\uDD1E" "#).unwrap();
    println!("{}", data.dump());
    assert_eq!(data, text("\u{1D11E}"));
}

#[test]
fn generator_temp() {
    let vec = &mut [0; 4];
    let a = '𝄞'.encode_utf8(vec).as_bytes();
    println!("{:?}", a);
}

#[test]
fn macro_test() {
    let arr = JsonValue::Array(vec![num(1), num(2), text("3")]);
    let obj = obj(vec![("name", text("abc")), ("age", num(123))]);

    println!("arr {:?}", arr);
    println!("obj {:?}", obj);
}

#[test]
fn consume() {
    let s = r#",{[ null true false "abc  d " 1234 , :"#;
    let mut source = Parser::new(s);
    let token = source.consume().unwrap();
    assert_eq!(token, Token::Comma);
    let token = source.consume().unwrap();
    assert_eq!(token, Token::BraceOn);
    let token = source.consume().unwrap();
    assert_eq!(token, Token::BracketOn);
    let token = source.consume().unwrap();
    assert_eq!(token, Token::Null);
    let token = source.consume().unwrap();
    assert_eq!(token, Token::Boolen(true));
    let token = source.consume().unwrap();
    assert_eq!(token, Token::Boolen(false));
    let token = source.consume().unwrap();
    assert_eq!(token, Token::String("abc  d ".to_string()));
    let token = source.consume().unwrap();
    assert_eq!(token, Token::Number(JsonNumber::from_i64(1234)));
    let token = source.consume().unwrap();
    assert_eq!(token, Token::Comma);
    let token = source.consume().unwrap();
    assert_eq!(token, Token::Colon);
}

#[test]
fn parse_value() {
    let s = r#"[1,2 , "a",3]"#;
    let mut source = Parser::new(s);
    let a = source.value();
    println!("{:?}", a);
    let a = source.value();
    println!("{:?}", a);
}

#[test]
fn parse_array() {
    let s = r#"[1,2,3]"#;
    let mut source = Parser::new(s);
    let ret = source.value();
    println!("{:?}", ret.unwrap());
}

#[test]
fn parse_object() {
    let s = r#"{"name": "abc", "age": 123}"#;
    let mut source = Parser::new(s);
    let ret = source.value().unwrap();
    println!("object parsed {:?}", ret);
    let o = obj(vec![("name", text("abc")), ("age", num(123))]);
    assert_eq!(o, ret);
    assert_eq!(o, parse(s).unwrap())
}

#[test]
fn parse_object_with_array() {
    assert_eq!(
        parse(
            r#"
                {
                    "foo": [1, 2, 3]
                }
                "#
        )
        .unwrap(),
        obj(vec![("foo", JsonValue::Array(vec![num(1), num(2), num(3)]))])
    );
}

#[test]
fn parse_json() {
    let s = r#"
        {
            "code": 200    ,
            "success": true  ,
            "payload": {
                "features": [
                    "awesfome   fasfaf  ",
                    "easyAPI  ",
                    "lowLearningCurve"
                ]
            }
        }
    "#;
    let ret = parse(s).unwrap();
    let expect = obj(vec![
        ("code", num(200)),
        ("success", JsonValue::Boolen(true)),
        (
            "payload",
            obj(vec![(
                "features",
                JsonValue::Array(vec![
                    text("awesfome   fasfaf  "),
                    text("easyAPI  "),
                    text("lowLearningCurve"),
                ]),
            )]),
        ),
    ]);
    println!("{:?}", ret);
    assert_eq!(expect, ret);
}

#[test]
fn parse_string() {
    let s = "{\"name\":\"myname \\n\",\"password\":123456}";

    let ret = parse(s).unwrap();

    println!("{:?}", ret);
}

#[test]
fn parse_unicode() {
    let s = "{\"code\":1000,\"message\":\"\\u67e5\\u8be2\\u6210\\u529f\",\"data\":\"\\u5317\\u4eac\\u9996\\u90fd\"}";
    let ret = parse(s).unwrap();

    println!("{:?}", ret);
}

#[test]
fn parse_one_unicode() {
    let s = "\"\\u67e5 \\/12\"";
    let ret = parse(s).unwrap();

    println!("{:?}", ret);
}

#[test]
fn iter() {
    let s = r#"  {"a":  123,
        "b" :true,
        "c":false,
        "d":null,
        "e": {
            "f": "abca  fs  "
            "g": [1,2,3]
        },
        "h": ["x","y","z", 1,2,3]
    }  "#;
    let mut s = Tokenizer::new(s);

    while let Ok(token) = s.next() {
        println!("{:?}", token);
    }
}

#[test]
fn read_string() {
    let s = r#""abc\r\n\t\b\f\\\"""#;
    let mut de = Tokenizer::new(s);
    println!("{:?}", de.next());
}

#[test]
fn read_number() {
    assert_eq!(
        Tokenizer::new(r#" 1234 "#).next().unwrap(),
        Token::Number(JsonNumber::from_i64(1234))
    );
    assert_eq!(
        Tokenizer::new(r#" -1234 "#).next().unwrap(),
        Token::Number(JsonNumber::from_i64(-1234))
    );
    assert_eq!(
        Tokenizer::new(r#"   -1.23E4 "#).next().unwrap(),
        Token::Number(JsonNumber::from_i64(-12300))
    );
    assert_eq!(
        Tokenizer::new("1.23e4").next().unwrap(),
        Token::Number(JsonNumber::from_i64(12300))
    );
    assert_eq!(
        Tokenizer::new("-1.23e-4").next().unwrap(),
        Token::Number(JsonNumber::from_decimal(true, 123, -6))
    );
    assert_eq!(
        Tokenizer::new("-1.23e+4").next().unwrap(),
        Token::Number(JsonNumber::from_i64(-12300))
    );
    assert_eq!(
        Tokenizer::new(r#"   -1.23e"#).next().err().unwrap(),
        JsonError::InvalidNumber
    );
}

#[test]
fn tokenizer_temp() {
    let a = '\u{6c49}';

    println!("{:?}", a);
    println!("{:?}", "6c49".bytes());
    println!("{:?}", "0".bytes());
    println!("{:?}", "a".bytes());
    println!("{:?}", char::from_u32(99));
    let a = char::from_u32(0x6c49);
    println!("{:?}", a);
}
