use redis_lite::command::error_reply;
use redis_lite::value::magnitude_of;
use redis_lite::{decode, encode, execute, execute_command, CommandError, Db, DecodeError, RedisValue};

fn text(s: &str) -> RedisValue {
    RedisValue::String(s.to_string())
}

fn request(parts: &[&str]) -> RedisValue {
    RedisValue::Array(parts.iter().map(|p| text(p)).collect())
}

fn round_trip(v: RedisValue) {
    let bytes = encode(&v);
    assert_eq!(decode(&bytes), Ok(v));
}

#[test]
fn decode_ping_request() {
    let v = decode(b"*1\r\n$4\r\nPING\r\n");
    assert_eq!(v, Ok(RedisValue::Array(vec![text("PING")])));
}

#[test]
fn ping_answers_pong_whatever_the_store_holds() {
    let mut db = Db::new();
    assert_eq!(execute(request(&["PING"]), &mut db), Ok("+PONG\r\n".to_string()));
    assert_eq!(execute(request(&["SET", "a", "b"]), &mut db), Ok("+OK\r\n".to_string()));
    assert_eq!(execute(request(&["PING"]), &mut db), Ok("+PONG\r\n".to_string()));
}

#[test]
fn set_then_get() {
    let mut db = Db::new();
    assert_eq!(execute(request(&["SET", "k", "v"]), &mut db), Ok("+OK\r\n".to_string()));
    assert_eq!(execute(request(&["GET", "k"]), &mut db), Ok("+v\r\n".to_string()));
}

#[test]
fn get_missing_is_null() {
    let mut db = Db::new();
    assert_eq!(execute(request(&["GET", "missing"]), &mut db), Ok("$-1\r\n".to_string()));
}

#[test]
fn decode_unknown_prefix_fails() {
    let buffer: Vec<u8> = b"#abc\r\n".to_vec();
    assert_eq!(decode(&buffer), Err(DecodeError::UnknownPrefix(b'#')));
    assert_eq!(buffer, b"#abc\r\n".to_vec());
    assert_eq!(decode(&buffer), Err(DecodeError::UnknownPrefix(b'#')));
}

#[test]
fn repeated_get_gives_same_reply() {
    let mut db = Db::new();
    execute(request(&["SET", "k", "v"]), &mut db).unwrap();
    let first = execute(request(&["GET", "k"]), &mut db);
    let second = execute(request(&["GET", "k"]), &mut db);
    let third = execute(request(&["GET", "k"]), &mut db);
    assert_eq!(first, Ok("+v\r\n".to_string()));
    assert_eq!(first, second);
    assert_eq!(second, third);
}

#[test]
fn round_trip_of_each_kind() {
    round_trip(RedisValue::Null);
    round_trip(RedisValue::Integer(0));
    round_trip(RedisValue::Integer(-42));
    round_trip(RedisValue::Integer(i64::MAX));
    round_trip(RedisValue::Integer(i64::MIN));
    round_trip(text(""));
    round_trip(text("hello world"));
    round_trip(text("héllo"));
    round_trip(RedisValue::Array(vec![]));
    round_trip(RedisValue::Array(vec![
        RedisValue::Integer(1),
        RedisValue::Array(vec![text("a"), RedisValue::Null, RedisValue::Array(vec![])]),
        text("b"),
    ]));
}

#[test]
fn encode_writes_wire_form() {
    assert_eq!(encode(&RedisValue::Integer(-42)), b":-42\r\n".to_vec());
    assert_eq!(encode(&RedisValue::Null), b"$-1\r\n".to_vec());
    assert_eq!(encode(&text("hi")), b"$2\r\nhi\r\n".to_vec());
    assert_eq!(encode(&text("é")), b"$2\r\n\xc3\xa9\r\n".to_vec());
    assert_eq!(
        encode(&RedisValue::Array(vec![text("hi"), RedisValue::Null])),
        b"*2\r\n$2\r\nhi\r\n$-1\r\n".to_vec()
    );
    assert_eq!(encode(&RedisValue::Integer(1234567890)), b":1234567890\r\n".to_vec());
}

#[test]
fn decode_simple_string_and_integers() {
    assert_eq!(decode(b"+OK\r\n"), Ok(text("OK")));
    assert_eq!(decode(b":123\r\n"), Ok(RedisValue::Integer(123)));
    assert_eq!(decode(b":-7\r\n"), Ok(RedisValue::Integer(-7)));
    assert_eq!(decode(b":+7\r\n"), Ok(RedisValue::Integer(7)));
    assert_eq!(decode(b":9223372036854775807\r\n"), Ok(RedisValue::Integer(i64::MAX)));
    assert_eq!(decode(b":-9223372036854775808\r\n"), Ok(RedisValue::Integer(i64::MIN)));
}

#[test]
fn decode_null_and_empty_array() {
    assert_eq!(decode(b"$-1\r\n"), Ok(RedisValue::Null));
    assert_eq!(decode(b"*0\r\n"), Ok(RedisValue::Array(vec![])));
    assert_eq!(decode(b"*-1\r\n"), Ok(RedisValue::Array(vec![])));
}

#[test]
fn decode_ignores_bytes_after_the_frame() {
    assert_eq!(decode(b"+OK\r\n+more\r\n"), Ok(text("OK")));
    let mut buffer = b"*1\r\n$4\r\nPING\r\n".to_vec();
    buffer.resize(512, 0);
    assert_eq!(decode(&buffer), Ok(request(&["PING"])));
}

#[test]
fn decode_bulk_length_is_not_checked() {
    assert_eq!(decode(b"$10\r\nabc\r\n"), Ok(text("abc")));
}

#[test]
fn decode_integer_errors() {
    assert_eq!(decode(b":12x\r\n"), Err(DecodeError::NotAnInteger));
    assert_eq!(decode(b":\r\n"), Err(DecodeError::NotAnInteger));
    assert_eq!(decode(b":-\r\n"), Err(DecodeError::NotAnInteger));
    assert_eq!(decode(b":9223372036854775808\r\n"), Err(DecodeError::NotAnInteger));
    assert_eq!(decode(b":-9223372036854775809\r\n"), Err(DecodeError::NotAnInteger));
    assert_eq!(decode(b"$abc\r\nx\r\n"), Err(DecodeError::NotAnInteger));
    assert_eq!(decode(b"*x\r\n"), Err(DecodeError::NotAnInteger));
}

#[test]
fn decode_incomplete_input() {
    assert_eq!(decode(b""), Err(DecodeError::Incomplete));
    assert_eq!(decode(b"+OK"), Err(DecodeError::Incomplete));
    assert_eq!(decode(b"+OK\r"), Err(DecodeError::Incomplete));
    assert_eq!(decode(b"*2\r\n+a\r\n"), Err(DecodeError::Incomplete));
    assert_eq!(decode(b"$3\r\n"), Err(DecodeError::Incomplete));
}

#[test]
fn decode_text_must_be_utf8() {
    assert_eq!(decode(b"+\xff\r\n"), Err(DecodeError::NotText));
    assert_eq!(decode(b"+\xc3\xa9\r\n"), Ok(text("é")));
}

#[test]
fn decode_error_inside_array() {
    assert_eq!(decode(b"*2\r\n+a\r\n#\r\n"), Err(DecodeError::UnknownPrefix(b'#')));
}

#[test]
fn render_values_as_text() {
    assert_eq!(RedisValue::Null.to_string(), "\0");
    assert_eq!(RedisValue::Integer(-7).to_string(), "-7");
    assert_eq!(RedisValue::Integer(905).to_string(), "905");
    assert_eq!(text("abc").to_string(), "abc");
    assert_eq!(
        RedisValue::Array(vec![RedisValue::Integer(1), text("a"), RedisValue::Array(vec![text("b")])])
            .to_string(),
        "1ab"
    );
}

#[test]
fn set_stores_rendered_text() {
    let mut db = Db::new();
    let req = RedisValue::Array(vec![text("SET"), RedisValue::Integer(5), RedisValue::Integer(-12)]);
    assert_eq!(execute(req, &mut db), Ok("+OK\r\n".to_string()));
    assert_eq!(execute(request(&["GET", "5"]), &mut db), Ok("+-12\r\n".to_string()));
}

#[test]
fn set_overwrites() {
    let mut db = Db::new();
    execute(request(&["SET", "k", "one"]), &mut db).unwrap();
    execute(request(&["SET", "k", "two"]), &mut db).unwrap();
    assert_eq!(execute(request(&["GET", "k"]), &mut db), Ok("+two\r\n".to_string()));
}

#[test]
fn other_requests_are_acknowledged() {
    let mut db = Db::new();
    assert_eq!(execute(RedisValue::Integer(3), &mut db), Ok("+OK\r\n".to_string()));
    assert_eq!(execute(request(&["FLUSHALL"]), &mut db), Ok("+OK\r\n".to_string()));
    assert_eq!(execute(request(&["ping"]), &mut db), Ok("+OK\r\n".to_string()));
}

#[test]
fn missing_arguments_are_errors() {
    let mut db = Db::new();
    assert_eq!(execute(RedisValue::Array(vec![]), &mut db), Err(CommandError::WrongArity));
    assert_eq!(execute(request(&["SET", "k"]), &mut db), Err(CommandError::WrongArity));
    assert_eq!(execute(request(&["GET"]), &mut db), Err(CommandError::WrongArity));
    assert_eq!(execute(request(&["GET", "k"]), &mut db), Ok("$-1\r\n".to_string()));
    assert_eq!(error_reply(CommandError::WrongArity), "-ERR wrong number of arguments\r\n");
}

#[test]
fn execute_command_takes_name_and_arguments() {
    let mut db = Db::new();
    let values = vec![text("SET"), text("x"), text("y")];
    assert_eq!(execute_command(values, &mut db), Ok("+OK\r\n".to_string()));
    assert_eq!(execute_command(vec![text("GET"), text("x")], &mut db), Ok("+y\r\n".to_string()));
}

#[test]
fn store_insert_and_get() {
    let mut db = Db::new();
    assert_eq!(db.get(&"a".to_string()), None);
    db.insert("a".to_string(), RedisValue::Integer(1));
    db.insert("b".to_string(), text("x"));
    db.insert("a".to_string(), RedisValue::Integer(2));
    assert_eq!(db.get(&"a".to_string()), Some(&RedisValue::Integer(2)));
    assert_eq!(db.get(&"b".to_string()), Some(&text("x")));
}

#[test]
fn magnitude_of_extremes() {
    assert_eq!(magnitude_of(i64::MIN), 9223372036854775808);
    assert_eq!(magnitude_of(-5), 5);
    assert_eq!(magnitude_of(7), 7);
}
