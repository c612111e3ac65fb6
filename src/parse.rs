use vstd::prelude::*;
use vstd::utf8::{decode_utf8, valid_utf8};

use crate::value::{lemma_array_view, views, RedisValue, Val};
use crate::Token;

verus! {

/// Carriage return, which ends every field.
pub const CR: u8 = 13;
/// Line feed, which follows the carriage return on the wire.
pub const LF: u8 = 10;
/// The prefix of a simple string, `+`.
pub const SIMPLE: u8 = 43;
/// The prefix of an integer, `:`.
pub const INTEGER: u8 = 58;
/// The prefix of a bulk string, `$`.
pub const BULK: u8 = 36;
/// The prefix of an array, `*`.
pub const ARRAY: u8 = 42;
/// The minus sign.
pub const MINUS: u8 = 45;
/// The plus sign.
pub const PLUS: u8 = 43;
/// The digit zero.
pub const ZERO: u8 = 48;
/// The digit nine.
pub const NINE: u8 = 57;

/// Why a buffer does not hold a frame.
#[derive(Debug, Clone, Copy, PartialEq, Eq, Structural)]
pub enum DecodeError {
    /// The frame starts with a byte that names no value type.
    UnknownPrefix(u8),
    /// The buffer ends before the frame does.
    Incomplete,
    /// A count, length or integer field is not a base-10 signed 64-bit number.
    NotAnInteger,
    /// A text field is not valid UTF-8.
    NotText,
}

/// `i` is the first CR at or after `off`.
pub open spec fn first_cr(buf: Seq<u8>, off: int, i: int) -> bool {
    &&& 0 <= off <= i < buf.len()
    &&& buf[i] == CR
    &&& forall|j: int| off <= j < i ==> buf[j] != CR
}

/// The field that starts at `off`: its bytes up to the next CR, and the
/// offset past that CR and the byte after it.
pub open spec fn spec_line(buf: Seq<u8>, off: int) -> Result<(Seq<u8>, int), DecodeError> {
    if exists|i: int| first_cr(buf, off, i) {
        let i = choose|i: int| first_cr(buf, off, i);
        if i + 1 < buf.len() {
            Ok((buf.subrange(off, i), i + 2))
        } else {
            Err(DecodeError::Incomplete)
        }
    } else {
        Err(DecodeError::Incomplete)
    }
}

pub open spec fn is_digit(b: u8) -> bool {
    ZERO <= b <= NINE
}

/// The number written by a sequence of decimal digits.
pub open spec fn digits_value(s: Seq<u8>) -> int
    decreases s.len(),
{
    if s.len() == 0 {
        0
    } else {
        digits_value(s.drop_last()) * 10 + (s.last() - ZERO)
    }
}

/// Whether the field has a sign of its own.
pub open spec fn has_sign(s: Seq<u8>) -> bool {
    s.len() > 0 && (s[0] == MINUS || s[0] == PLUS)
}

/// The digits of a field, after its sign if it has one.
pub open spec fn magnitude(s: Seq<u8>) -> Seq<u8> {
    if has_sign(s) {
        s.drop_first()
    } else {
        s
    }
}

pub open spec fn all_digits(d: Seq<u8>) -> bool {
    forall|k: int| 0 <= k < d.len() ==> is_digit(#[trigger] d[k])
}

/// The number that a field writes, sign included.
pub open spec fn signed_value(s: Seq<u8>) -> int {
    if s.len() > 0 && s[0] == MINUS {
        -digits_value(magnitude(s))
    } else {
        digits_value(magnitude(s))
    }
}

/// A base-10 signed 64-bit integer: an optional sign, then one digit or more.
pub open spec fn spec_int(s: Seq<u8>) -> Option<int> {
    if magnitude(s).len() > 0 && all_digits(magnitude(s)) && i64::MIN <= signed_value(s)
        <= i64::MAX {
        Some(signed_value(s))
    } else {
        None
    }
}

/// The text that a field's bytes encode, if they are valid UTF-8.
pub open spec fn spec_text(b: Seq<u8>) -> Option<Seq<char>> {
    if valid_utf8(b) {
        Some(decode_utf8(b))
    } else {
        None
    }
}

/// A text field at `off`.
pub open spec fn spec_simple(buf: Seq<u8>, off: int) -> Result<(Val, int), DecodeError> {
    match spec_line(buf, off) {
        Err(e) => Err(e),
        Ok((t, o)) => match spec_text(t) {
            Some(s) => Ok((Val::Str(s), o)),
            None => Err(DecodeError::NotText),
        },
    }
}

/// An integer field at `off`.
pub open spec fn spec_int_field(buf: Seq<u8>, off: int) -> Result<(int, int), DecodeError> {
    match spec_line(buf, off) {
        Err(e) => Err(e),
        Ok((t, o)) => match spec_int(t) {
            Some(n) => Ok((n, o)),
            None => Err(DecodeError::NotAnInteger),
        },
    }
}

/// The frame that starts at `off`, and the offset just past it.
pub open spec fn spec_parse(buf: Seq<u8>, off: int) -> Result<(Val, int), DecodeError>
    decreases buf.len() - off, 0int,
{
    if off < 0 || off >= buf.len() {
        Err(DecodeError::Incomplete)
    } else {
        let prefix = buf[off];
        if prefix == SIMPLE {
            spec_simple(buf, off + 1)
        } else if prefix == INTEGER {
            match spec_int_field(buf, off + 1) {
                Err(e) => Err(e),
                Ok((n, o)) => Ok((Val::Integer(n), o)),
            }
        } else if prefix == BULK {
            match spec_int_field(buf, off + 1) {
                Err(e) => Err(e),
                Ok((n, o)) => if n == -1 {
                    Ok((Val::Null, o))
                } else {
                    spec_simple(buf, o)
                },
            }
        } else if prefix == ARRAY {
            match spec_int_field(buf, off + 1) {
                Err(e) => Err(e),
                Ok((n, o)) => match spec_items(buf, o, n) {
                    Err(e) => Err(e),
                    Ok((vs, o2)) => Ok((Val::Array(vs), o2)),
                },
            }
        } else {
            Err(DecodeError::UnknownPrefix(prefix))
        }
    }
}

/// `n` frames one after the other from `off`, and the offset past the last.
/// Every frame ends past where it starts and within the buffer (see
/// `lemma_parse_advances`); the test on that only makes it plain that the
/// recursion ends.
pub open spec fn spec_items(buf: Seq<u8>, off: int, n: int) -> Result<
    (Seq<Val>, int),
    DecodeError,
>
    decreases buf.len() - off, 1int, n,
{
    if n <= 0 {
        Ok((seq![], off))
    } else {
        match spec_parse(buf, off) {
            Err(e) => Err(e),
            Ok((v, o)) => if off < o <= buf.len() {
                match spec_items(buf, o, n - 1) {
                    Err(e) => Err(e),
                    Ok((vs, o2)) => Ok((seq![v] + vs, o2)),
                }
            } else {
                Err(DecodeError::Incomplete)
            },
        }
    }
}

/// The value of the frame at the start of a buffer.
pub open spec fn spec_decode(buf: Seq<u8>) -> Result<Val, DecodeError> {
    match spec_parse(buf, 0) {
        Ok((v, _)) => Ok(v),
        Err(e) => Err(e),
    }
}

spec fn token_is(r: Result<Token, DecodeError>, s: Result<(Val, int), DecodeError>) -> bool {
    match s {
        Ok((v, o)) => r is Ok && r->Ok_0.value@ == v && r->Ok_0.offset == o,
        Err(e) => r == Err::<Token, DecodeError>(e),
    }
}

spec fn prepend(pre: Seq<Val>, s: Result<(Seq<Val>, int), DecodeError>) -> Result<
    (Seq<Val>, int),
    DecodeError,
> {
    match s {
        Ok((vs, o)) => Ok((pre + vs, o)),
        Err(e) => Err(e),
    }
}

/// A buffer whose first byte names no value type does not decode, and the
/// error names that byte.
pub proof fn lemma_unknown_prefix(buf: Seq<u8>)
    requires
        buf.len() > 0,
        buf[0] != SIMPLE && buf[0] != INTEGER && buf[0] != BULK && buf[0] != ARRAY,
    ensures
        spec_decode(buf) == Err::<Val, DecodeError>(DecodeError::UnknownPrefix(buf[0])),
{
}

/// Every frame ends past where it starts and within the buffer, and a run of
/// frames ends where it starts or later.
pub proof fn lemma_parse_advances(buf: Seq<u8>, off: int)
    ensures
        spec_parse(buf, off) is Ok ==> off < spec_parse(buf, off)->Ok_0.1 <= buf.len(),
    decreases buf.len() - off, 0int,
{
    if 0 <= off < buf.len() {
        let prefix = buf[off];
        if prefix == ARRAY {
            match spec_int_field(buf, off + 1) {
                Ok((n, o)) => {
                    lemma_int_field_advances(buf, off + 1);
                    lemma_items_advance(buf, o, n);
                },
                Err(_) => {},
            }
        } else {
            lemma_int_field_advances(buf, off + 1);
            lemma_simple_advances(buf, off + 1);
            match spec_int_field(buf, off + 1) {
                Ok((n, o)) => lemma_simple_advances(buf, o),
                Err(_) => {},
            }
        }
    }
}

proof fn lemma_items_advance(buf: Seq<u8>, off: int, n: int)
    ensures
        spec_items(buf, off, n) is Ok ==> off <= spec_items(buf, off, n)->Ok_0.1,
        spec_items(buf, off, n) is Ok && off <= buf.len() ==> spec_items(buf, off, n)->Ok_0.1
            <= buf.len(),
    decreases buf.len() - off, 1int, n,
{
    if n > 0 {
        lemma_parse_advances(buf, off);
        match spec_parse(buf, off) {
            Ok((v, o)) => {
                if off < o <= buf.len() {
                    lemma_items_advance(buf, o, n - 1);
                }
            },
            Err(_) => {},
        }
    }
}

proof fn lemma_line_advances(buf: Seq<u8>, off: int)
    ensures
        spec_line(buf, off) is Ok ==> off + 2 <= spec_line(buf, off)->Ok_0.1 <= buf.len(),
{
}

proof fn lemma_simple_advances(buf: Seq<u8>, off: int)
    ensures
        spec_simple(buf, off) is Ok ==> off + 2 <= spec_simple(buf, off)->Ok_0.1 <= buf.len(),
{
    lemma_line_advances(buf, off);
}

proof fn lemma_int_field_advances(buf: Seq<u8>, off: int)
    ensures
        spec_int_field(buf, off) is Ok ==> off + 2 <= spec_int_field(buf, off)->Ok_0.1
            <= buf.len(),
{
    lemma_line_advances(buf, off);
}

/// Relies on `String::from_utf8`: it succeeds exactly on valid UTF-8, and the
/// string then holds the characters that the bytes encode.
#[verifier::external_body]
fn utf8_string(bytes: Vec<u8>) -> (r: Option<String>)
    ensures
        r is Some <==> valid_utf8(bytes@),
        r is Some ==> r->Some_0@ == decode_utf8(bytes@),
{
    String::from_utf8(bytes).ok()
}

/// The index of the CR that ends the field at `offset`.
fn find_line_end(buf: &[u8], offset: usize) -> (r: Result<usize, DecodeError>)
    ensures
        r is Ok <==> spec_line(buf@, offset as int) is Ok,
        r is Ok ==> {
            &&& offset <= r->Ok_0
            &&& r->Ok_0 + 2 <= buf@.len() <= usize::MAX
            &&& spec_line(buf@, offset as int)->Ok_0 == (
                buf@.subrange(offset as int, r->Ok_0 as int),
                r->Ok_0 + 2,
            )
        },
        r is Err ==> r == Err::<usize, DecodeError>(DecodeError::Incomplete) && spec_line(
            buf@,
            offset as int,
        ) == Err::<(Seq<u8>, int), DecodeError>(DecodeError::Incomplete),
{
    let mut i: usize = offset;
    while i < buf.len()
        invariant
            offset <= i,
            forall|j: int| offset <= j < i && j < buf@.len() ==> buf@[j] != CR,
        decreases buf@.len() - i,
    {
        if buf[i] == CR {
            assert(first_cr(buf@, offset as int, i as int));
            if i + 1 < buf.len() {
                return Ok(i);
            } else {
                return Err(DecodeError::Incomplete);
            }
        }
        i += 1;
    }
    assert(!exists|k: int| first_cr(buf@, offset as int, k));
    Err(DecodeError::Incomplete)
}

/// An integer frame whose prefix stands just before `off`.
spec fn integer_at(buf: Seq<u8>, off: int) -> Result<(Val, int), DecodeError> {
    match spec_int_field(buf, off) {
        Err(e) => Err(e),
        Ok((n, o)) => Ok((Val::Integer(n), o)),
    }
}

/// A bulk string frame whose prefix stands just before `off`.
spec fn bulk_at(buf: Seq<u8>, off: int) -> Result<(Val, int), DecodeError> {
    match spec_int_field(buf, off) {
        Err(e) => Err(e),
        Ok((n, o)) => if n == -1 {
            Ok((Val::Null, o))
        } else {
            spec_simple(buf, o)
        },
    }
}

/// An array frame whose prefix stands just before `off`.
spec fn array_at(buf: Seq<u8>, off: int) -> Result<(Val, int), DecodeError> {
    match spec_int_field(buf, off) {
        Err(e) => Err(e),
        Ok((n, o)) => match spec_items(buf, o, n) {
            Err(e) => Err(e),
            Ok((vs, o2)) => Ok((Val::Array(vs), o2)),
        },
    }
}

proof fn lemma_digits_prefix(s: Seq<u8>, j: int)
    requires
        0 <= j <= s.len(),
        forall|k: int| 0 <= k < s.len() ==> is_digit(#[trigger] s[k]),
    ensures
        0 <= digits_value(s.subrange(0, j)) <= digits_value(s),
    decreases s.len(),
{
    if s.len() > 0 {
        let dl = s.drop_last();
        let jj = if j < s.len() { j } else { j - 1 };
        lemma_digits_prefix(dl, jj);
        assert(dl.subrange(0, jj) =~= s.subrange(0, jj));
        assert(is_digit(s[s.len() - 1]));
        if j == s.len() {
            assert(s.subrange(0, j) =~= s);
            assert(dl.subrange(0, jj) =~= dl);
        }
    }
}

/// The integer written in `buf[start..end]`.
fn parse_int(buf: &[u8], start: usize, end: usize) -> (r: Option<i64>)
    requires
        start <= end <= buf@.len(),
    ensures
        match r {
            Some(n) => spec_int(buf@.subrange(start as int, end as int)) == Some(n as int),
            None => spec_int(buf@.subrange(start as int, end as int)) is None,
        },
{
    let ghost s = buf@.subrange(start as int, end as int);
    if start == end {
        return None;
    }
    let neg = buf[start] == MINUS;
    let first: usize = if buf[start] == MINUS || buf[start] == PLUS {
        start + 1
    } else {
        start
    };
    let ghost d = buf@.subrange(first as int, end as int);
    assert(d =~= magnitude(s));
    if first == end {
        return None;
    }
    let limit: u128 = if neg {
        9223372036854775808
    } else {
        9223372036854775807
    };
    let mut acc: u128 = 0;
    let mut i: usize = first;
    assert(buf@.subrange(first as int, first as int) =~= Seq::<u8>::empty());
    while i < end
        invariant
            start <= first <= i <= end <= buf@.len(),
            d == buf@.subrange(first as int, end as int),
            s == buf@.subrange(start as int, end as int),
            d == magnitude(s),
            neg == (s.len() > 0 && s[0] == MINUS),
            limit == (if neg {
                9223372036854775808u128
            } else {
                9223372036854775807u128
            }),
            acc == digits_value(buf@.subrange(first as int, i as int)),
            acc <= limit,
            limit <= 9223372036854775808,
            forall|k: int| first <= k < i ==> is_digit(#[trigger] buf@[k]),
        decreases end - i,
    {
        let b = buf[i];
        if b < ZERO || b > NINE {
            assert(!is_digit(d[i - first]));
            assert(!all_digits(d));
            assert(spec_int(s) is None);
            return None;
        }
        assert(buf@.subrange(first as int, i + 1).drop_last() =~= buf@.subrange(
            first as int,
            i as int,
        ));
        let next: u128 = acc * 10 + (b - ZERO) as u128;
        if next > limit {
            proof {
                if all_digits(d) {
                    lemma_digits_prefix(d, i + 1 - first);
                    assert(d.subrange(0, i + 1 - first) =~= buf@.subrange(first as int, i + 1));
                    assert(digits_value(d) > limit);
                }
                assert(spec_int(s) is None);
            }
            return None;
        }
        acc = next;
        i += 1;
    }
    assert(buf@.subrange(first as int, i as int) =~= d);
    assert(all_digits(d)) by {
        assert forall|k: int| 0 <= k < d.len() implies is_digit(#[trigger] d[k]) by {
            assert(is_digit(buf@[first + k]));
        }
    }
    if neg {
        Some((0 - acc as i128) as i64)
    } else {
        Some(acc as i64)
    }
}

/// Reads the integer field that starts at `offset`.
fn read_int(buf: &[u8], offset: usize) -> (r: Result<(i64, usize), DecodeError>)
    ensures
        match r {
            Ok((n, o)) => spec_int_field(buf@, offset as int) == Ok::<(int, int), DecodeError>(
                (n as int, o as int),
            ) && offset + 2 <= o <= buf@.len(),
            Err(e) => spec_int_field(buf@, offset as int) == Err::<(int, int), DecodeError>(e),
        },
{
    let end = match find_line_end(buf, offset) {
        Ok(end) => end,
        Err(e) => return Err(e),
    };
    match parse_int(buf, offset, end) {
        Some(n) => Ok((n, end + 2)),
        None => Err(DecodeError::NotAnInteger),
    }
}

/// Reads the text field that starts at `offset`: the bytes up to the next CR,
/// as a string.
fn read_next(buf: &[u8], offset: usize) -> (r: Result<Token, DecodeError>)
    ensures
        token_is(r, spec_simple(buf@, offset as int)),
        r is Ok ==> offset + 2 <= r->Ok_0.offset <= buf@.len(),
{
    let end = match find_line_end(buf, offset) {
        Ok(end) => end,
        Err(e) => return Err(e),
    };
    let mut bytes: Vec<u8> = Vec::new();
    let mut i: usize = offset;
    while i < end
        invariant
            offset <= i <= end < buf@.len(),
            bytes@ == buf@.subrange(offset as int, i as int),
        decreases end - i,
    {
        bytes.push(buf[i]);
        i += 1;
        assert(bytes@ =~= buf@.subrange(offset as int, i as int));
    }
    match utf8_string(bytes) {
        Some(text) => Ok(Token { value: RedisValue::String(text), offset: end + 2 }),
        None => Err(DecodeError::NotText),
    }
}

fn decode_simple_string(buf: &[u8], offset: usize) -> (r: Result<Token, DecodeError>)
    ensures
        token_is(r, spec_simple(buf@, offset as int)),
        r is Ok ==> offset < r->Ok_0.offset <= buf@.len(),
{
    read_next(buf, offset)
}

fn decode_integer(buf: &[u8], offset: usize) -> (r: Result<Token, DecodeError>)
    ensures
        token_is(r, integer_at(buf@, offset as int)),
        r is Ok ==> offset < r->Ok_0.offset <= buf@.len(),
{
    match read_int(buf, offset) {
        Ok((n, o)) => Ok(Token { value: RedisValue::Integer(n), offset: o }),
        Err(e) => Err(e),
    }
}

fn decode_bulk_string(buf: &[u8], offset: usize) -> (r: Result<Token, DecodeError>)
    ensures
        token_is(r, bulk_at(buf@, offset as int)),
        r is Ok ==> offset < r->Ok_0.offset <= buf@.len(),
{
    let (length, o) = match read_int(buf, offset) {
        Ok(p) => p,
        Err(e) => return Err(e),
    };
    if length == -1 {
        return Ok(Token { value: RedisValue::Null, offset: o });
    }
    read_next(buf, o)
}

fn decode_array(buf: &[u8], offset: usize) -> (r: Result<Token, DecodeError>)
    requires
        offset <= buf@.len(),
    ensures
        token_is(r, array_at(buf@, offset as int)),
        r is Ok ==> offset < r->Ok_0.offset <= buf@.len(),
    decreases buf@.len() - offset,
{
    let (count, start) = match read_int(buf, offset) {
        Ok(p) => p,
        Err(e) => return Err(e),
    };
    let mut elements: Vec<RedisValue> = Vec::new();
    let mut o: usize = start;
    let mut i: i64 = 0;
    assert(views(elements@) =~= Seq::<Val>::empty());
    assert(prepend(seq![], spec_items(buf@, start as int, count as int)) == spec_items(
        buf@,
        start as int,
        count as int,
    )) by {
        match spec_items(buf@, start as int, count as int) {
            Ok((vs, _)) => {
                assert(Seq::<Val>::empty() + vs =~= vs);
            },
            Err(_) => {},
        }
    }
    while i < count
        invariant
            offset < start <= o <= buf@.len(),
            spec_int_field(buf@, offset as int) == Ok::<(int, int), DecodeError>(
                (count as int, start as int),
            ),
            0 <= i,
            i <= count || i == 0,
            spec_items(buf@, start as int, count as int) == prepend(
                views(elements@),
                spec_items(buf@, o as int, count - i),
            ),
        decreases count - i,
    {
        let t = match parse(buf, o) {
            Ok(t) => t,
            Err(e) => {
                assert(spec_items(buf@, o as int, count - i) == Err::<(Seq<Val>, int), DecodeError>(
                    e,
                ));
                return Err(e);
            },
        };
        let ghost pre = views(elements@);
        let ghost v = t.value@;
        let ghost n = count - i;
        elements.push(t.value);
        proof {
            assert(views(elements@) =~= pre.push(v));
            match spec_items(buf@, t.offset as int, n - 1) {
                Ok((vs, _)) => {
                    assert(pre + (seq![v] + vs) =~= pre.push(v) + vs);
                },
                Err(_) => {},
            }
        }
        o = t.offset;
        i += 1;
    }
    assert(views(elements@) + seq![] =~= views(elements@));
    proof {
        lemma_array_view(elements);
    }
    Ok(Token { value: RedisValue::Array(elements), offset: o })
}

/// Decodes the frame that starts at `offset`.
fn parse(buf: &[u8], offset: usize) -> (r: Result<Token, DecodeError>)
    requires
        offset <= buf@.len(),
    ensures
        token_is(r, spec_parse(buf@, offset as int)),
        r is Ok ==> offset < r->Ok_0.offset <= buf@.len(),
    decreases buf@.len() - offset,
{
    if offset >= buf.len() {
        return Err(DecodeError::Incomplete);
    }
    let prefix = buf[offset];
    let next = offset + 1;
    if prefix == SIMPLE {
        decode_simple_string(buf, next)
    } else if prefix == BULK {
        decode_bulk_string(buf, next)
    } else if prefix == ARRAY {
        decode_array(buf, next)
    } else if prefix == INTEGER {
        decode_integer(buf, next)
    } else {
        Err(DecodeError::UnknownPrefix(prefix))
    }
}

/// Decodes the one frame at the start of `buffer`; bytes after it are ignored.
pub fn decode(buffer: &[u8]) -> (r: Result<RedisValue, DecodeError>)
    ensures
        match spec_decode(buffer@) {
            Ok(v) => r is Ok && r->Ok_0@ == v,
            Err(e) => r == Err::<RedisValue, DecodeError>(e),
        },
{
    match parse(buffer, 0) {
        Ok(token) => Ok(token.value),
        Err(e) => Err(e),
    }
}

} // verus!
