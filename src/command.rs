use vstd::prelude::*;
use vstd::string::StringExecFns;

use crate::store::Db;
use crate::value::{push_char, render, views, RedisValue, Val};

verus! {

/// Why a request could not be carried out.
#[derive(Debug, Clone, Copy, PartialEq, Eq, Structural)]
pub enum CommandError {
    /// The command lacks a name or arguments that it needs.
    WrongArity,
}

/// A simple-string reply: `+`, the text, CR LF.
pub open spec fn simple(text: Seq<char>) -> Seq<char> {
    seq!['+'] + text + seq!['\r', '\n']
}

/// The reply for an absent value: the bulk string of length -1.
pub open spec fn null_reply() -> Seq<char> {
    "$-1\r\n"@
}

/// The reply to a command, given as its name and arguments, and the store
/// after it. PING answers PONG; SET stores the text of its second argument
/// under the text of its first and answers OK; GET answers the text stored
/// under the text of its argument, or null; any other name answers OK.
pub open spec fn spec_execute(values: Seq<Val>, m: Map<Seq<char>, Val>) -> (
    Result<Seq<char>, CommandError>,
    Map<Seq<char>, Val>,
) {
    if values.len() == 0 {
        (Err(CommandError::WrongArity), m)
    } else {
        let name = render(values[0]);
        if name == "PING"@ {
            (Ok(simple("PONG"@)), m)
        } else if name == "SET"@ {
            if values.len() < 3 {
                (Err(CommandError::WrongArity), m)
            } else {
                (Ok(simple("OK"@)), m.insert(render(values[1]), Val::Str(render(values[2]))))
            }
        } else if name == "GET"@ {
            if values.len() < 2 {
                (Err(CommandError::WrongArity), m)
            } else {
                let key = render(values[1]);
                if m.contains_key(key) {
                    (Ok(simple(render(m[key]))), m)
                } else {
                    (Ok(null_reply()), m)
                }
            }
        } else {
            (Ok(simple("OK"@)), m)
        }
    }
}

/// The reply to a request and the store after it: an array is a command, and
/// anything else is acknowledged with OK.
pub open spec fn spec_request(request: Val, m: Map<Seq<char>, Val>) -> (
    Result<Seq<char>, CommandError>,
    Map<Seq<char>, Val>,
) {
    match request {
        Val::Array(values) => spec_execute(values, m),
        _ => (Ok(simple("OK"@)), m),
    }
}

pub open spec fn reply_view(r: Result<String, CommandError>) -> Result<Seq<char>, CommandError> {
    match r {
        Ok(s) => Ok(s@),
        Err(e) => Err(e),
    }
}

proof fn lemma_names_differ()
    ensures
        "PING"@ != "SET"@,
        "PING"@ != "GET"@,
        "SET"@ != "GET"@,
{
    reveal_strlit("PING");
    reveal_strlit("SET");
    reveal_strlit("GET");
    assert("PING"@.len() == 4);
    assert("SET"@.len() == 3);
    assert("SET"@[0] == 'S');
    assert("GET"@[0] == 'G');
}

fn simple_string(text: &str) -> (r: String)
    ensures
        r@ == simple(text@),
{
    let mut r = String::new();
    push_char(&mut r, '+');
    r.append(text);
    push_char(&mut r, '\r');
    push_char(&mut r, '\n');
    assert(r@ =~= simple(text@));
    r
}

fn ping() -> (r: String)
    ensures
        r@ == simple("PONG"@),
{
    simple_string("PONG")
}

fn set(values: &Vec<RedisValue>, db: &mut Db) -> (r: Result<String, CommandError>)
    requires
        old(db).wf(),
        values@.len() >= 1,
        render(values@[0]@) == "SET"@,
    ensures
        final(db).wf(),
        spec_execute(views(values@), old(db)@) == (reply_view(r), final(db)@),
{
    proof {
        lemma_names_differ();
    }
    if values.len() < 3 {
        return Err(CommandError::WrongArity);
    }
    let key = values[1].to_string();
    let value = values[2].to_string();
    db.insert(key, RedisValue::String(value));
    Ok(simple_string("OK"))
}

fn get(values: &Vec<RedisValue>, db: &Db) -> (r: Result<String, CommandError>)
    requires
        db.wf(),
        values@.len() >= 1,
        render(values@[0]@) == "GET"@,
    ensures
        spec_execute(views(values@), db@) == (reply_view(r), db@),
{
    proof {
        lemma_names_differ();
    }
    if values.len() < 2 {
        return Err(CommandError::WrongArity);
    }
    let key = values[1].to_string();
    match db.get(&key) {
        Some(v) => Ok(simple_string(v.to_string().as_str())),
        None => Ok(String::from_str("$-1\r\n")),
    }
}

/// Carries out the command `values` (its name, then its arguments) on `db`.
pub fn execute_command(values: Vec<RedisValue>, db: &mut Db) -> (r: Result<String, CommandError>)
    requires
        old(db).wf(),
    ensures
        final(db).wf(),
        spec_execute(views(values@), old(db)@) == (reply_view(r), final(db)@),
{
    proof {
        lemma_names_differ();
    }
    if values.len() == 0 {
        return Err(CommandError::WrongArity);
    }
    let command = values[0].to_string();
    if command == String::from_str("PING") {
        Ok(ping())
    } else if command == String::from_str("SET") {
        set(&values, db)
    } else if command == String::from_str("GET") {
        get(&values, db)
    } else {
        Ok(simple_string("OK"))
    }
}

/// Carries out a decoded request on `db`.
pub fn execute(request: RedisValue, db: &mut Db) -> (r: Result<String, CommandError>)
    requires
        old(db).wf(),
    ensures
        final(db).wf(),
        spec_request(request@, old(db)@) == (reply_view(r), final(db)@),
{
    match request {
        RedisValue::Array(values) => {
            proof {
                crate::value::lemma_array_view(values);
            }
            execute_command(values, db)
        },
        _ => Ok(simple_string("OK")),
    }
}

/// The wire form of an error: `-ERR`, a message, CR LF.
pub fn error_reply(e: CommandError) -> (r: String)
    ensures
        r@ == "-ERR wrong number of arguments\r\n"@,
{
    match e {
        CommandError::WrongArity => String::from_str("-ERR wrong number of arguments\r\n"),
    }
}

/// A PING is answered with PONG whatever the store holds, and leaves it as it was.
pub proof fn lemma_ping(m: Map<Seq<char>, Val>)
    ensures
        spec_execute(seq![Val::Str("PING"@)], m) == (
            Ok::<Seq<char>, CommandError>(simple("PONG"@)),
            m,
        ),
{
}

/// After a SET of a key to a text, a GET of that key answers with that text.
pub proof fn lemma_set_then_get(key: Seq<char>, text: Seq<char>, m: Map<Seq<char>, Val>)
    ensures
        spec_execute(seq![Val::Str("SET"@), Val::Str(key), Val::Str(text)], m).0 == Ok::<
            Seq<char>,
            CommandError,
        >(simple("OK"@)),
        spec_execute(
            seq![Val::Str("GET"@), Val::Str(key)],
            spec_execute(seq![Val::Str("SET"@), Val::Str(key), Val::Str(text)], m).1,
        ).0 == Ok::<Seq<char>, CommandError>(simple(text)),
{
    lemma_names_differ();
}

/// A GET leaves the store as it was, so the same GET again gets the same reply.
pub proof fn lemma_get_idempotent(request: Seq<Val>, m: Map<Seq<char>, Val>)
    requires
        request.len() > 0,
        render(request[0]) == "GET"@,
    ensures
        spec_execute(request, m).1 == m,
        spec_execute(request, spec_execute(request, m).1).0 == spec_execute(request, m).0,
{
    lemma_names_differ();
}

} // verus!
