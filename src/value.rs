use vstd::prelude::*;
use vstd::string::StringExecFns;

use crate::parse::{MINUS, ZERO};

verus! {

/// The mathematical model of a protocol value.
pub enum Val {
    Null,
    Integer(int),
    Str(Seq<char>),
    Array(Seq<Val>),
}

/// A protocol value: null, a signed 64-bit integer, a text, or an ordered
/// sequence of values.
#[derive(Debug, PartialEq)]
pub enum RedisValue {
    Null,
    Integer(i64),
    String(String),
    Array(Vec<RedisValue>),
}

/// The models of a sequence of values, in order.
pub open spec fn views(items: Seq<RedisValue>) -> Seq<Val> {
    Seq::new(items.len(), |k: int| items[k]@)
}

impl View for RedisValue {
    type V = Val;

    open spec fn view(&self) -> Val
        decreases self,
    {
        match self {
            RedisValue::Null => Val::Null,
            RedisValue::Integer(i) => Val::Integer(*i as int),
            RedisValue::String(s) => Val::Str(s@),
            RedisValue::Array(items) => Val::Array(
                Seq::new(
                    items@.len(),
                    |k: int|
                        if 0 <= k < items@.len() {
                            items@[k].view()
                        } else {
                            Val::Null
                        },
                ),
            ),
        }
    }
}

pub proof fn lemma_array_view(items: Vec<RedisValue>)
    ensures
        RedisValue::Array(items)@ == Val::Array(views(items@)),
{
    let v = RedisValue::Array(items);
    let s = v@->Array_0;
    assert(views(items@) =~= s);
}

/// The decimal digits of a natural number, most significant first.
pub open spec fn decimal(n: nat) -> Seq<u8>
    decreases n,
{
    if n < 10 {
        seq![(n + ZERO) as u8]
    } else {
        decimal(n / 10).push((n % 10 + ZERO) as u8)
    }
}

/// A signed integer in base 10: a minus sign when it is negative, then its digits.
pub open spec fn int_bytes(i: int) -> Seq<u8> {
    if i < 0 {
        seq![MINUS] + decimal((-i) as nat)
    } else {
        decimal(i as nat)
    }
}

/// Bytes read as characters, one each.
pub open spec fn chars_of(b: Seq<u8>) -> Seq<char> {
    b.map_values(|x: u8| x as char)
}

/// The text form of a value: integers in base 10, texts as they are, the
/// elements of an array one after the other, and null as the NUL character.
pub open spec fn render(v: Val) -> Seq<char>
    decreases v,
{
    match v {
        Val::Null => seq![0u8 as char],
        Val::Integer(i) => chars_of(int_bytes(i)),
        Val::Str(s) => s,
        Val::Array(items) => render_items(items),
    }
}

/// The text forms of values, one after the other.
pub open spec fn render_items(items: Seq<Val>) -> Seq<char>
    decreases items,
{
    if items.len() == 0 {
        Seq::empty()
    } else {
        render(items[0]) + render_items(items.drop_first())
    }
}

pub proof fn lemma_render_array(vs: Seq<Val>)
    ensures
        render(Val::Array(vs)) == Seq::new(vs.len(), |k: int| render(vs[k])).flatten(),
    decreases vs.len(),
{
    if vs.len() > 0 {
        let rest = vs.drop_first();
        lemma_render_array(rest);
        assert(Seq::new(vs.len(), |k: int| render(vs[k])).drop_first() =~= Seq::new(
            rest.len(),
            |k: int| render(rest[k]),
        ));
    }
}

/// Relies on `String::push`: the character is appended at the end.
#[verifier::external_body]
pub(crate) fn push_char(s: &mut String, c: char)
    ensures
        final(s)@ == old(s)@.push(c),
{
    s.push(c)
}

/// The distance of an integer from zero.
pub fn magnitude_of(i: i64) -> (r: u64)
    ensures
        r == (if i < 0 {
            -i
        } else {
            i as int
        }),
{
    if i < 0 {
        (0 - (i as i128)) as u64
    } else {
        i as u64
    }
}

fn push_decimal(n: u64, out: &mut String)
    ensures
        final(out)@ == old(out)@ + chars_of(decimal(n as nat)),
    decreases n,
{
    if n >= 10 {
        push_decimal(n / 10, out);
    }
    let digit = ((n % 10) as u8 + ZERO) as char;
    push_char(out, digit);
    proof {
        if n >= 10 {
            assert(chars_of(decimal(n as nat)) =~= chars_of(decimal((n / 10) as nat)).push(digit));
        } else {
            assert(chars_of(decimal(n as nat)) =~= seq![digit]);
        }
    }
}

impl RedisValue {
    /// The text form of the value (see `render`).
    pub fn to_string(&self) -> (r: String)
        ensures
            r@ == render(self@),
        decreases self,
    {
        match self {
            RedisValue::Null => {
                let mut text = String::new();
                push_char(&mut text, 0u8 as char);
                assert(text@ =~= seq![0u8 as char]);
                text
            },
            RedisValue::Integer(i) => {
                let mut text = String::new();
                if *i < 0 {
                    push_char(&mut text, MINUS as char);
                }
                push_decimal(magnitude_of(*i), &mut text);
                proof {
                    if *i < 0 {
                        assert(chars_of(int_bytes(*i as int)) =~= seq![MINUS as char] + chars_of(
                            decimal((-*i) as nat),
                        ));
                    }
                }
                text
            },
            RedisValue::String(s) => s.clone(),
            RedisValue::Array(items) => {
                let ghost parts = Seq::new(items@.len(), |k: int| render(items@[k]@));
                let mut text = String::new();
                let mut k: usize = 0;
                assert(parts.subrange(0, 0) =~= Seq::<Seq<char>>::empty());
                proof {
                    lemma_array_view(*items);
                }
                while k < items.len()
                    invariant
                        k <= items@.len(),
                        self@ == Val::Array(views(items@)),
                        *self == RedisValue::Array(*items),
                        parts == Seq::new(items@.len(), |k: int| render(items@[k]@)),
                        text@ == parts.subrange(0, k as int).flatten(),
                    decreases items@.len() - k,
                {
                    proof {
                        broadcast use vstd::std_specs::vec::axiom_vec_index_decreases;

                        assert(decreases_to!(*self => *items));
                        assert(decreases_to!(*items => items[k as int]));
                    }
                    let part = items[k].to_string();
                    text.append(part.as_str());
                    proof {
                        assert(parts.subrange(0, k + 1) =~= parts.subrange(0, k as int).push(
                            part@,
                        ));
                        parts.subrange(0, k as int).lemma_flatten_push(part@);
                    }
                    k += 1;
                }
                proof {
                    let vs = views(items@);
                    lemma_render_array(vs);
                    assert(parts.subrange(0, k as int) =~= Seq::new(vs.len(), |j: int| render(vs[j])));
                }
                text
            },
        }
    }
}

} // verus!
