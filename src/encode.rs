use vstd::prelude::*;
use vstd::utf8::{
    encode_scalar, encode_utf8, encode_utf8_decode_utf8, encode_utf8_valid_utf8,
    has_width_1_encoding,
};

use crate::parse::{
    all_digits, digits_value, first_cr, is_digit, magnitude, spec_decode,
    spec_int, spec_int_field, spec_items, spec_line, spec_parse, spec_text, DecodeError, ARRAY,
    BULK, CR, INTEGER, LF, MINUS, ZERO,
};
use crate::value::{decimal, int_bytes, lemma_array_view, magnitude_of, views, RedisValue, Val};

verus! {

/// The end of every field on the wire.
pub open spec fn crlf() -> Seq<u8> {
    seq![CR, LF]
}

/// The wire form of a value. Texts go as bulk strings, null as the bulk
/// string of length -1.
pub open spec fn spec_encode(v: Val) -> Seq<u8>
    decreases v,
{
    match v {
        Val::Null => seq![BULK] + int_bytes(-1) + crlf(),
        Val::Integer(i) => seq![INTEGER] + int_bytes(i) + crlf(),
        Val::Str(s) => seq![BULK] + int_bytes(encode_utf8(s).len() as int) + crlf() + encode_utf8(s)
            + crlf(),
        Val::Array(items) => seq![ARRAY] + int_bytes(items.len() as int) + crlf() + encode_items(
            items,
        ),
    }
}

/// The wire forms of values, one after the other.
pub open spec fn encode_items(items: Seq<Val>) -> Seq<u8>
    decreases items,
{
    if items.len() == 0 {
        Seq::empty()
    } else {
        spec_encode(items[0]) + encode_items(items.drop_first())
    }
}

/// A value whose wire form reads back as itself: its integers fit in 64 bits,
/// its texts hold no carriage return (a field ends at the first one), and its
/// lengths and counts fit in a signed 64-bit field.
pub open spec fn encodable(v: Val) -> bool
    decreases v,
{
    match v {
        Val::Null => true,
        Val::Integer(i) => i64::MIN <= i <= i64::MAX,
        Val::Str(s) => (forall|k: int| 0 <= k < s.len() ==> #[trigger] s[k] as u32 != CR as u32)
            && encode_utf8(s).len() <= i64::MAX,
        Val::Array(items) => items.len() <= i64::MAX && encodable_items(items),
    }
}

pub open spec fn encodable_items(items: Seq<Val>) -> bool
    decreases items,
{
    items.len() == 0 || (encodable(items[0]) && encodable_items(items.drop_first()))
}

pub open spec fn free_of_cr(b: Seq<u8>) -> bool {
    forall|k: int| 0 <= k < b.len() ==> #[trigger] b[k] != CR
}

proof fn lemma_decimal(n: nat)
    ensures
        decimal(n).len() > 0,
        all_digits(decimal(n)),
        digits_value(decimal(n)) == n,
    decreases n,
{
    let d = decimal(n);
    if n >= 10 {
        lemma_decimal(n / 10);
        assert(d.drop_last() =~= decimal(n / 10));
        vstd::arithmetic::div_mod::lemma_fundamental_div_mod(n as int, 10);
        assert(d.last() == (n % 10 + ZERO) as u8);
        assert(((n % 10 + ZERO) as u8) - ZERO == n % 10);
        assert(digits_value(d) == (n / 10) * 10 + n % 10);
        assert((n / 10) * 10 + n % 10 == n) by (nonlinear_arith)
            requires
                n == 10 * (n / 10) + n % 10,
        ;
        assert(all_digits(d)) by {
            assert forall|k: int| 0 <= k < d.len() implies is_digit(#[trigger] d[k]) by {
                if k < d.len() - 1 {
                    assert(d[k] == decimal(n / 10)[k]);
                }
            }
        }
    } else {
        assert(d.drop_last() =~= Seq::<u8>::empty());
        assert(((n + ZERO) as u8) - ZERO == n);
        assert(digits_value(d.drop_last()) == 0);
        assert(d.last() == (n + ZERO) as u8);
    }
}

proof fn lemma_int_bytes(i: int)
    requires
        i64::MIN <= i <= i64::MAX,
    ensures
        spec_int(int_bytes(i)) == Some(i),
        free_of_cr(int_bytes(i)),
{
    let b = int_bytes(i);
    if i < 0 {
        lemma_decimal((-i) as nat);
        assert(magnitude(b) =~= decimal((-i) as nat));
        assert forall|k: int| 0 <= k < b.len() implies #[trigger] b[k] != CR by {
            if k > 0 {
                assert(b[k] == decimal((-i) as nat)[k - 1]);
                assert(is_digit(decimal((-i) as nat)[k - 1]));
            }
        }
    } else {
        lemma_decimal(i as nat);
        assert(is_digit(b[0]));
        assert(magnitude(b) == b);
        assert forall|k: int| 0 <= k < b.len() implies #[trigger] b[k] != CR by {
            assert(is_digit(b[k]));
        }
    }
}

proof fn lemma_scalar_free_of_cr(c: u32)
    requires
        c != CR as u32,
    ensures
        free_of_cr(encode_scalar(c)),
{
    assert(forall|y: u8| #[trigger] (0x80u8 | y) != 13u8) by (bit_vector);
    assert(forall|y: u8| #[trigger] (0xC0u8 | y) != 13u8) by (bit_vector);
    assert(forall|y: u8| #[trigger] (0xE0u8 | y) != 13u8) by (bit_vector);
    assert(forall|y: u8| #[trigger] (0xF0u8 | y) != 13u8) by (bit_vector);
    if has_width_1_encoding(c) {
        assert((c & 0x7F) as u8 != 13u8) by (bit_vector)
            requires
                c <= 0x7F,
                c != 13,
        ;
    }
}

proof fn lemma_utf8_free_of_cr(s: Seq<char>)
    requires
        forall|k: int| 0 <= k < s.len() ==> #[trigger] s[k] as u32 != CR as u32,
    ensures
        free_of_cr(encode_utf8(s)),
    decreases s.len(),
{
    if s.len() > 0 {
        let rest = s.drop_first();
        assert forall|k: int| 0 <= k < rest.len() implies #[trigger] rest[k] as u32 != CR as u32 by {
            assert(rest[k] == s[k + 1]);
        }
        lemma_utf8_free_of_cr(rest);
        assert(s[0] as u32 != CR as u32);
        lemma_scalar_free_of_cr(s[0] as u32);
        let a = encode_scalar(s[0] as u32);
        let b = encode_utf8(rest);
        assert forall|k: int| 0 <= k < (a + b).len() implies #[trigger] (a + b)[k] != CR by {
            if k >= a.len() {
                assert((a + b)[k] == b[k - a.len()]);
            }
        }
    }
}

/// A part of bytes that stand at `off` stands at `off` plus its start.
proof fn lemma_sub(buf: Seq<u8>, off: int, e: Seq<u8>, a: int, b: int)
    requires
        0 <= off,
        off + e.len() <= buf.len(),
        buf.subrange(off, off + e.len()) == e,
        0 <= a <= b <= e.len(),
    ensures
        buf.subrange(off + a, off + b) == e.subrange(a, b),
{
    assert forall|k: int| 0 <= k < b - a implies buf.subrange(off + a, off + b)[k] == e.subrange(
        a,
        b,
    )[k] by {
        assert(buf[off + a + k] == buf.subrange(off, off + e.len())[a + k]);
    }
    assert(buf.subrange(off + a, off + b) =~= e.subrange(a, b));
}

/// A field `t` followed by CR and one more byte at `off` reads as `t`.
proof fn lemma_line(buf: Seq<u8>, off: int, t: Seq<u8>)
    requires
        0 <= off,
        off + t.len() + 2 <= buf.len(),
        buf.subrange(off, off + t.len()) == t,
        buf[off + t.len()] == CR,
        free_of_cr(t),
    ensures
        spec_line(buf, off) == Ok::<(Seq<u8>, int), DecodeError>((t, off + t.len() + 2)),
{
    let i = off + t.len();
    assert forall|j: int| off <= j < i implies buf[j] != CR by {
        assert(buf[j] == buf.subrange(off, i)[j - off]);
    }
    assert(first_cr(buf, off, i));
    let c = choose|c: int| first_cr(buf, off, c);
    if c < i {
        assert(buf[c] == t[c - off]);
    }
}

/// An integer field `t` at `off`.
proof fn lemma_int_field(buf: Seq<u8>, off: int, n: int)
    requires
        0 <= off,
        i64::MIN <= n <= i64::MAX,
        off + int_bytes(n).len() + 2 <= buf.len(),
        buf.subrange(off, off + int_bytes(n).len() + 2) == int_bytes(n) + crlf(),
    ensures
        spec_int_field(buf, off) == Ok::<(int, int), DecodeError>(
            (n, off + int_bytes(n).len() + 2),
        ),
{
    let t = int_bytes(n);
    lemma_int_bytes(n);
    assert(buf.subrange(off, off + t.len()) =~= buf.subrange(off, off + t.len() + 2).subrange(
        0,
        t.len() as int,
    ));
    assert((t + crlf()).subrange(0, t.len() as int) =~= t);
    assert(buf[off + t.len()] == (t + crlf())[t.len() as int]);
    lemma_line(buf, off, t);
}

proof fn lemma_encode_nonempty(v: Val)
    ensures
        spec_encode(v).len() > 0,
        spec_encode(v)[0] == match v {
            Val::Null => BULK,
            Val::Integer(_) => INTEGER,
            Val::Str(_) => BULK,
            Val::Array(_) => ARRAY,
        },
{
}

proof fn lemma_parse_encoded(v: Val, buf: Seq<u8>, off: int)
    requires
        encodable(v),
        0 <= off,
        off + spec_encode(v).len() <= buf.len(),
        buf.subrange(off, off + spec_encode(v).len()) == spec_encode(v),
    ensures
        spec_parse(buf, off) == Ok::<(Val, int), DecodeError>((v, off + spec_encode(v).len())),
    decreases v,
{
    let e = spec_encode(v);
    lemma_encode_nonempty(v);
    assert(buf[off] == e[0]);
    match v {
        Val::Null => {
            let l = int_bytes(-1);
            let h: int = (1 + l.len() + 2) as int;
            lemma_sub(buf, off, e, 1, h);
            assert(e.subrange(1, h) =~= l + crlf());
            lemma_int_field(buf, off + 1, -1);
        },
        Val::Integer(i) => {
            let l = int_bytes(i);
            let h: int = (1 + l.len() + 2) as int;
            lemma_sub(buf, off, e, 1, h);
            assert(e.subrange(1, h) =~= l + crlf());
            lemma_int_field(buf, off + 1, i);
        },
        Val::Str(s) => {
            let p = encode_utf8(s);
            let l = int_bytes(p.len() as int);
            let h: int = (1 + l.len() + 2) as int;
            lemma_sub(buf, off, e, 1, h);
            assert(e.subrange(1, h) =~= l + crlf());
            lemma_int_field(buf, off + 1, p.len() as int);
            let o = off + h;
            let pl: int = p.len() as int;
            lemma_utf8_free_of_cr(s);
            lemma_sub(buf, off, e, h, h + pl);
            assert(e.subrange(h, h + pl) =~= p);
            assert(buf[o + pl] == buf.subrange(off, off + e.len())[h + pl]);
            assert(e[h + pl] == CR);
            lemma_line(buf, o, p);
            encode_utf8_valid_utf8(s);
            encode_utf8_decode_utf8(s);
            assert(spec_text(p) == Some(s));
        },
        Val::Array(items) => {
            let l = int_bytes(items.len() as int);
            let ei = encode_items(items);
            let h: int = (1 + l.len() + 2) as int;
            lemma_sub(buf, off, e, 1, h);
            assert(e.subrange(1, h) =~= l + crlf());
            lemma_int_field(buf, off + 1, items.len() as int);
            let o = off + h;
            lemma_sub(buf, off, e, h, e.len() as int);
            assert(e.subrange(h, e.len() as int) =~= ei);
            lemma_parse_items(items, buf, o);
        },
    }
}

proof fn lemma_parse_items(items: Seq<Val>, buf: Seq<u8>, off: int)
    requires
        encodable_items(items),
        0 <= off,
        off + encode_items(items).len() <= buf.len(),
        buf.subrange(off, off + encode_items(items).len()) == encode_items(items),
    ensures
        spec_items(buf, off, items.len() as int) == Ok::<(Seq<Val>, int), DecodeError>(
            (items, off + encode_items(items).len()),
        ),
    decreases items,
{
    if items.len() == 0 {
        assert(items =~= seq![]);
    } else {
        let first = items[0];
        let rest = items.drop_first();
        let e0 = spec_encode(first);
        let er = encode_items(rest);
        let ei = encode_items(items);
        lemma_sub(buf, off, ei, 0, e0.len() as int);
        assert(ei.subrange(0, e0.len() as int) =~= e0);
        lemma_parse_encoded(first, buf, off);
        lemma_encode_nonempty(first);
        lemma_sub(buf, off, ei, e0.len() as int, ei.len() as int);
        assert(ei.subrange(e0.len() as int, ei.len() as int) =~= er);
        lemma_parse_items(rest, buf, off + e0.len());
        assert(seq![first] + rest =~= items);
    }
}

/// Encoding a value and decoding the bytes gives the value back.
pub proof fn lemma_round_trip(v: Val)
    requires
        encodable(v),
    ensures
        spec_decode(spec_encode(v)) == Ok::<Val, DecodeError>(v),
{
    let e = spec_encode(v);
    assert(e.subrange(0, e.len() as int) =~= e);
    lemma_parse_encoded(v, e, 0);
}

pub proof fn lemma_encode_array(vs: Seq<Val>)
    ensures
        encode_items(vs) == Seq::new(vs.len(), |k: int| spec_encode(vs[k])).flatten(),
    decreases vs.len(),
{
    if vs.len() > 0 {
        let rest = vs.drop_first();
        lemma_encode_array(rest);
        assert(Seq::new(vs.len(), |k: int| spec_encode(vs[k])).drop_first() =~= Seq::new(
            rest.len(),
            |k: int| spec_encode(rest[k]),
        ));
    }
}

fn put_decimal(n: u64, out: &mut Vec<u8>)
    ensures
        final(out)@ == old(out)@ + decimal(n as nat),
    decreases n,
{
    if n >= 10 {
        put_decimal(n / 10, out);
    }
    let digit = (n % 10) as u8 + ZERO;
    out.push(digit);
    proof {
        if n >= 10 {
            assert(decimal(n as nat) =~= decimal((n / 10) as nat).push(digit));
        } else {
            assert(decimal(n as nat) =~= seq![digit]);
        }
    }
}

fn put_int(i: i64, out: &mut Vec<u8>)
    ensures
        final(out)@ == old(out)@ + int_bytes(i as int),
{
    if i < 0 {
        out.push(MINUS);
    }
    let ghost mid = out@;
    put_decimal(magnitude_of(i), out);
    proof {
        if i < 0 {
            assert(mid + decimal((-i) as nat) =~= old(out)@ + int_bytes(i as int));
        }
    }
}

fn put_crlf(out: &mut Vec<u8>)
    ensures
        final(out)@ == old(out)@ + crlf(),
{
    out.push(CR);
    out.push(LF);
    assert(final(out)@ =~= old(out)@ + crlf());
}

fn encode_into(value: &RedisValue, out: &mut Vec<u8>)
    ensures
        final(out)@ == old(out)@ + spec_encode(value@),
    decreases value,
{
    let ghost start = out@;
    match value {
        RedisValue::Null => {
            out.push(BULK);
            put_int(-1, out);
            put_crlf(out);
            assert(out@ =~= start + spec_encode(value@));
        },
        RedisValue::Integer(i) => {
            out.push(INTEGER);
            put_int(*i, out);
            put_crlf(out);
            assert(out@ =~= start + spec_encode(value@));
        },
        RedisValue::String(s) => {
            let bytes = s.as_str().as_bytes();
            out.push(BULK);
            put_decimal(bytes.len() as u64, out);
            put_crlf(out);
            let ghost head = out@;
            assert(head =~= start + seq![BULK] + int_bytes(bytes@.len() as int) + crlf());
            let mut k: usize = 0;
            while k < bytes.len()
                invariant
                    k <= bytes@.len(),
                    out@ == head + bytes@.subrange(0, k as int),
                    head == start + seq![BULK] + int_bytes(bytes@.len() as int) + crlf(),
                    bytes@ == encode_utf8(s@),
                decreases bytes@.len() - k,
            {
                out.push(bytes[k]);
                k += 1;
                assert(out@ =~= head + bytes@.subrange(0, k as int));
            }
            put_crlf(out);
            assert(bytes@.subrange(0, k as int) =~= encode_utf8(s@));
            assert(out@ =~= start + spec_encode(value@));
        },
        RedisValue::Array(items) => {
            let ghost parts = Seq::new(items@.len(), |k: int| spec_encode(items@[k]@));
            out.push(ARRAY);
            put_decimal(items.len() as u64, out);
            put_crlf(out);
            let ghost head = out@;
            assert(head =~= start + seq![ARRAY] + int_bytes(items@.len() as int) + crlf());
            let mut k: usize = 0;
            proof {
                lemma_array_view(*items);
            }
            assert(parts.subrange(0, 0) =~= Seq::<Seq<u8>>::empty());
            assert(head =~= head + parts.subrange(0, 0).flatten());
            while k < items.len()
                invariant
                    k <= items@.len(),
                    head == start + seq![ARRAY] + int_bytes(items@.len() as int) + crlf(),
                    value@ == Val::Array(views(items@)),
                    *value == RedisValue::Array(*items),
                    parts == Seq::new(items@.len(), |k: int| spec_encode(items@[k]@)),
                    out@ == head + parts.subrange(0, k as int).flatten(),
                decreases items@.len() - k,
            {
                proof {
                    broadcast use vstd::std_specs::vec::axiom_vec_index_decreases;

                    assert(decreases_to!(*value => *items));
                    assert(decreases_to!(*items => items[k as int]));
                }
                let ghost before = out@;
                encode_into(&items[k], out);
                proof {
                    assert(parts.subrange(0, k + 1) =~= parts.subrange(0, k as int).push(
                        parts[k as int],
                    ));
                    parts.subrange(0, k as int).lemma_flatten_push(parts[k as int]);
                    assert(out@ =~= head + parts.subrange(0, k + 1).flatten());
                }
                k += 1;
            }
            proof {
                let vs = views(items@);
                lemma_encode_array(vs);
                assert(parts.subrange(0, k as int) =~= Seq::new(
                    vs.len(),
                    |j: int| spec_encode(vs[j]),
                ));
                assert(out@ =~= start + spec_encode(value@));
            }
        },
    }
}

/// The wire form of a value.
pub fn encode(value: &RedisValue) -> (r: Vec<u8>)
    ensures
        r@ == spec_encode(value@),
{
    let mut out: Vec<u8> = Vec::new();
    encode_into(value, &mut out);
    assert(out@ =~= spec_encode(value@));
    out
}

} // verus!
