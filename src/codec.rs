//! The checkpoint text format.
//!
//! A state is written as `{"state":[v1,v2,...]}`. Each element is a record
//! with an explicit type discriminant: `{"type":"Int32","value":7}`, or for a
//! list `{"type":"List","item":"Int32","value":[r1,r2,...]}` whose items are
//! such records. Nulls are written `null`; text is quoted, with `"`, `\`,
//! newline, carriage return and tab escaped by a backslash.
//!
//! Every state has exactly one encoding, and decoding accepts exactly the
//! encodings, so decoding an encoded state gives that state back.
use vstd::prelude::*;
use crate::value::{DataType, Scalar, ScalarModel, Value, ValueModel, scalars_model, values_model};

verus! {

// ---------------------------------------------------------------- the format

/// `t` occurs in `s` at position `p`.
pub open spec fn prefix_at(t: Seq<char>, s: Seq<char>, p: int) -> bool {
    0 <= p && p + t.len() <= s.len() && s.subrange(p, p + t.len()) == t
}

pub open spec fn type_tag(dt: DataType) -> Seq<char> {
    match dt {
        DataType::Null => seq!['N', 'u', 'l', 'l'],
        DataType::Boolean => seq!['B', 'o', 'o', 'l', 'e', 'a', 'n'],
        DataType::Int32 => seq!['I', 'n', 't', '3', '2'],
        DataType::Int64 => seq!['I', 'n', 't', '6', '4'],
        DataType::Utf8 => seq!['U', 't', 'f', '8'],
    }
}

pub open spec fn list_tag() -> Seq<char> {
    seq!['L', 'i', 's', 't']
}

/// `{"type":"`
pub open spec fn record_open() -> Seq<char> {
    seq!['{', '"', 't', 'y', 'p', 'e', '"', ':', '"']
}

/// `","value":`
pub open spec fn value_key() -> Seq<char> {
    seq!['"', ',', '"', 'v', 'a', 'l', 'u', 'e', '"', ':']
}

/// `","item":"`
pub open spec fn item_key() -> Seq<char> {
    seq!['"', ',', '"', 'i', 't', 'e', 'm', '"', ':', '"']
}

/// `{"state":[`
pub open spec fn state_open() -> Seq<char> {
    seq!['{', '"', 's', 't', 'a', 't', 'e', '"', ':', '[']
}

pub open spec fn null_text() -> Seq<char> {
    seq!['n', 'u', 'l', 'l']
}

pub open spec fn true_text() -> Seq<char> {
    seq!['t', 'r', 'u', 'e']
}

pub open spec fn false_text() -> Seq<char> {
    seq!['f', 'a', 'l', 's', 'e']
}

pub open spec fn digit_char(d: nat) -> char {
    ((d + 48) as u8) as char
}

pub open spec fn is_digit(c: char) -> bool {
    '0' <= c && c <= '9'
}

/// The decimal digits of `n`, without leading zeros.
pub open spec fn digits(n: nat) -> Seq<char>
    decreases n,
{
    if n < 10 {
        seq![digit_char(n)]
    } else {
        digits(n / 10).push(digit_char(n % 10))
    }
}

pub open spec fn int_text(x: int) -> Seq<char> {
    if x < 0 {
        seq!['-'] + digits((-x) as nat)
    } else {
        digits(x as nat)
    }
}

pub open spec fn escape_char(c: char) -> Seq<char> {
    if c == '"' {
        seq!['\\', '"']
    } else if c == '\\' {
        seq!['\\', '\\']
    } else if c == '\n' {
        seq!['\\', 'n']
    } else if c == '\r' {
        seq!['\\', 'r']
    } else if c == '\t' {
        seq!['\\', 't']
    } else {
        seq![c]
    }
}

pub open spec fn escape(t: Seq<char>) -> Seq<char>
    decreases t.len(),
{
    if t.len() == 0 {
        Seq::empty()
    } else {
        escape(t.drop_last()) + escape_char(t.last())
    }
}

pub open spec fn text_literal(t: Seq<char>) -> Seq<char> {
    seq!['"'] + escape(t) + seq!['"']
}

pub open spec fn payload_text(m: ScalarModel) -> Seq<char> {
    match m {
        ScalarModel::Null => null_text(),
        ScalarModel::Boolean(None) => null_text(),
        ScalarModel::Boolean(Some(b)) => if b {
            true_text()
        } else {
            false_text()
        },
        ScalarModel::Int32(None) => null_text(),
        ScalarModel::Int32(Some(x)) => int_text(x as int),
        ScalarModel::Int64(None) => null_text(),
        ScalarModel::Int64(Some(x)) => int_text(x as int),
        ScalarModel::Utf8(None) => null_text(),
        ScalarModel::Utf8(Some(t)) => text_literal(t),
    }
}

/// The record of a primitive value.
pub open spec fn scalar_text(m: ScalarModel) -> Seq<char> {
    record_open() + type_tag(crate::value::model_type(m)) + value_key() + payload_text(m) + seq![
        '}',
    ]
}

/// The texts in `parts`, separated by commas.
pub open spec fn join(parts: Seq<Seq<char>>) -> Seq<char>
    decreases parts.len(),
{
    if parts.len() == 0 {
        Seq::empty()
    } else if parts.len() == 1 {
        parts[0]
    } else {
        join(parts.drop_last()) + seq![','] + parts.last()
    }
}

pub open spec fn scalar_parts(items: Seq<ScalarModel>) -> Seq<Seq<char>> {
    items.map_values(|m: ScalarModel| scalar_text(m))
}

pub open spec fn scalars_text(items: Seq<ScalarModel>) -> Seq<char> {
    join(scalar_parts(items))
}

/// The record of a state element.
pub open spec fn value_text(v: ValueModel) -> Seq<char> {
    match v {
        ValueModel::Scalar(m) => scalar_text(m),
        ValueModel::List(dt, items) => record_open() + list_tag() + item_key() + type_tag(dt)
            + value_key() + seq!['['] + scalars_text(items) + seq![']', '}'],
    }
}

/// The checkpoint blob of a state.
pub open spec fn value_parts(vs: Seq<ValueModel>) -> Seq<Seq<char>> {
    vs.map_values(|v: ValueModel| value_text(v))
}

pub open spec fn state_text(vs: Seq<ValueModel>) -> Seq<char> {
    state_open() + join(value_parts(vs)) + seq![']', '}']
}

} // verus!

verus! {

// ---------------------------------------------------------------- characters

/// Relies on `String::push`: the character is appended at the end.
#[verifier::external_body]
fn push_char(s: &mut String, c: char)
    ensures
        final(s)@ == old(s)@.push(c),
{
    s.push(c)
}

/// The characters of `s`, in order.
pub fn chars_of(s: &str) -> (r: Vec<char>)
    ensures
        r@ == s@,
{
    broadcast use vstd::string::group_string_axioms;
    let mut r: Vec<char> = Vec::new();
    for c in it: s.chars()
        invariant
            it.seq() == s@,
            r@ == it.seq().take(it.index() as int),
    {
        r.push(c);
        assert(r@ =~= it.seq().take(it.index() + 1));
    }
    assert(r@ =~= s@);
    r
}

/// The string made of the characters of `v`.
pub fn string_of(v: &Vec<char>) -> (r: String)
    ensures
        r@ == v@,
{
    let mut r = String::new();
    let mut i: usize = 0;
    while i < v.len()
        invariant
            i <= v.len(),
            r@ == v@.take(i as int),
        decreases v.len() - i,
    {
        push_char(&mut r, v[i]);
        i = i + 1;
        assert(r@ =~= v@.take(i as int));
    }
    assert(r@ =~= v@);
    r
}

// ---------------------------------------------------------------- encoding

fn push_all(out: &mut Vec<char>, lit: &[char])
    ensures
        final(out)@ == old(out)@ + lit@,
{
    let mut i: usize = 0;
    while i < lit.len()
        invariant
            i <= lit@.len(),
            out@ == old(out)@ + lit@.take(i as int),
        decreases lit@.len() - i,
    {
        out.push(lit[i]);
        i = i + 1;
        assert(out@ =~= old(out)@ + lit@.take(i as int));
    }
    assert(lit@.take(i as int) =~= lit@);
}

fn push_digits(out: &mut Vec<char>, n: u64)
    ensures
        final(out)@ == old(out)@ + digits(n as nat),
    decreases n,
{
    if n >= 10 {
        push_digits(out, n / 10);
    }
    let d: u8 = (n % 10) as u8;
    out.push((d + 48) as char);
    assert(out@ =~= old(out)@ + digits(n as nat));
}

fn push_int(out: &mut Vec<char>, x: i64)
    ensures
        final(out)@ == old(out)@ + int_text(x as int),
{
    if x < 0 {
        out.push('-');
        let m: u64 = (0i128 - x as i128) as u64;
        push_digits(out, m);
        assert(out@ =~= old(out)@ + int_text(x as int));
    } else {
        push_digits(out, x as u64);
    }
}

fn push_text(out: &mut Vec<char>, t: &Vec<char>)
    ensures
        final(out)@ == old(out)@ + text_literal(t@),
{
    out.push('"');
    let ghost start = out@;
    let mut i: usize = 0;
    while i < t.len()
        invariant
            i <= t.len(),
            out@ == start + escape(t@.take(i as int)),
        decreases t.len() - i,
    {
        let c = t[i];
        if c == '"' {
            out.push('\\');
            out.push('"');
        } else if c == '\\' {
            out.push('\\');
            out.push('\\');
        } else if c == '\n' {
            out.push('\\');
            out.push('n');
        } else if c == '\r' {
            out.push('\\');
            out.push('r');
        } else if c == '\t' {
            out.push('\\');
            out.push('t');
        } else {
            out.push(c);
        }
        proof {
            assert(t@.take(i + 1).drop_last() =~= t@.take(i as int));
        }
        i = i + 1;
        assert(out@ =~= start + escape(t@.take(i as int)));
    }
    assert(t@.take(i as int) =~= t@);
    out.push('"');
    assert(out@ =~= old(out)@ + text_literal(t@));
}

fn push_tag(out: &mut Vec<char>, dt: DataType)
    ensures
        final(out)@ == old(out)@ + type_tag(dt),
{
    match dt {
        DataType::Null => push_all(out, &['N', 'u', 'l', 'l']),
        DataType::Boolean => push_all(out, &['B', 'o', 'o', 'l', 'e', 'a', 'n']),
        DataType::Int32 => push_all(out, &['I', 'n', 't', '3', '2']),
        DataType::Int64 => push_all(out, &['I', 'n', 't', '6', '4']),
        DataType::Utf8 => push_all(out, &['U', 't', 'f', '8']),
    }
}

fn push_scalar(out: &mut Vec<char>, x: &Scalar)
    ensures
        final(out)@ == old(out)@ + scalar_text(x@),
{
    push_all(out, &['{', '"', 't', 'y', 'p', 'e', '"', ':', '"']);
    push_tag(out, x.data_type());
    push_all(out, &['"', ',', '"', 'v', 'a', 'l', 'u', 'e', '"', ':']);
    let ghost before = out@;
    match x {
        Scalar::Boolean(Some(true)) => push_all(out, &['t', 'r', 'u', 'e']),
        Scalar::Boolean(Some(false)) => push_all(out, &['f', 'a', 'l', 's', 'e']),
        Scalar::Int32(Some(v)) => push_int(out, *v as i64),
        Scalar::Int64(Some(v)) => push_int(out, *v),
        Scalar::Utf8(Some(t)) => {
            let cs = chars_of(t.as_str());
            push_text(out, &cs);
        },
        _ => push_all(out, &['n', 'u', 'l', 'l']),
    }
    assert(out@ == before + payload_text(x@));
    out.push('}');
    assert(out@ =~= old(out)@ + scalar_text(x@));
}

} // verus!

verus! {

fn push_scalars(out: &mut Vec<char>, items: &Vec<Scalar>)
    ensures
        final(out)@ == old(out)@ + scalars_text(scalars_model(items@)),
{
    let ghost parts = scalar_parts(scalars_model(items@));
    let mut i: usize = 0;
    while i < items.len()
        invariant
            i <= items.len(),
            parts == scalar_parts(scalars_model(items@)),
            out@ == old(out)@ + join(parts.take(i as int)),
        decreases items.len() - i,
    {
        let ghost before = out@;
        if i > 0 {
            out.push(',');
        }
        push_scalar(out, &items[i]);
        proof {
            assert(parts.take(i + 1).drop_last() =~= parts.take(i as int));
            assert(parts.take(i + 1).last() == scalar_text(items@[i as int]@));
            if i == 0 {
                assert(parts.take(1)[0] == scalar_text(items@[0]@));
            }
        }
        i = i + 1;
        assert(out@ =~= old(out)@ + join(parts.take(i as int)));
    }
    assert(parts.take(i as int) =~= parts);
}

fn push_value(out: &mut Vec<char>, v: &Value)
    ensures
        final(out)@ == old(out)@ + value_text(v@),
{
    match v {
        Value::Scalar(x) => push_scalar(out, x),
        Value::List(dt, items) => {
            push_all(out, &['{', '"', 't', 'y', 'p', 'e', '"', ':', '"']);
            push_all(out, &['L', 'i', 's', 't']);
            push_all(out, &['"', ',', '"', 'i', 't', 'e', 'm', '"', ':', '"']);
            push_tag(out, *dt);
            push_all(out, &['"', ',', '"', 'v', 'a', 'l', 'u', 'e', '"', ':']);
            out.push('[');
            push_scalars(out, items);
            out.push(']');
            out.push('}');
            assert(out@ =~= old(out)@ + value_text(v@));
        },
    }
}

/// The checkpoint blob of the state `vs`.
pub fn encode_state(vs: &Vec<Value>) -> (r: String)
    ensures
        r@ == state_text(values_model(vs@)),
{
    let mut out: Vec<char> = Vec::new();
    push_all(&mut out, &['{', '"', 's', 't', 'a', 't', 'e', '"', ':', '[']);
    let ghost start = out@;
    let ghost parts = value_parts(values_model(vs@));
    let mut i: usize = 0;
    while i < vs.len()
        invariant
            i <= vs.len(),
            parts == value_parts(values_model(vs@)),
            out@ == start + join(parts.take(i as int)),
        decreases vs.len() - i,
    {
        if i > 0 {
            out.push(',');
        }
        push_value(&mut out, &vs[i]);
        proof {
            assert(parts.take(i + 1).drop_last() =~= parts.take(i as int));
            assert(parts.take(i + 1).last() == value_text(vs@[i as int]@));
            if i == 0 {
                assert(parts.take(1)[0] == value_text(vs@[0]@));
            }
        }
        i = i + 1;
        assert(out@ =~= start + join(parts.take(i as int)));
    }
    assert(parts.take(i as int) =~= parts);
    out.push(']');
    out.push('}');
    assert(out@ =~= state_text(values_model(vs@)));
    string_of(&out)
}

} // verus!

verus! {

// ---------------------------------------------------------------- decoding

pub open spec fn digits_value(ds: Seq<char>) -> nat
    decreases ds.len(),
{
    if ds.len() == 0 {
        0
    } else {
        digits_value(ds.drop_last()) * 10 + ((ds.last() as u32) - 48) as nat
    }
}

pub open spec fn pow10(k: nat) -> nat
    decreases k,
{
    if k == 0 {
        1
    } else {
        10 * pow10((k - 1) as nat)
    }
}

proof fn lemma_digits(n: nat)
    ensures
        digits_value(digits(n)) == n,
        digits(n).len() >= 1,
        forall|j: int| 0 <= j < digits(n).len() ==> is_digit(#[trigger] digits(n)[j]),
    decreases n,
{
    let d = n % 10;
    assert((digit_char(d) as u32) == d + 48);
    if n >= 10 {
        lemma_digits(n / 10);
        assert(digits(n).drop_last() =~= digits(n / 10));
        assert(digits(n).last() == digit_char(d));
        assert(digits_value(digits(n)) == digits_value(digits(n / 10)) * 10 + d);
        assert((n / 10) * 10 + n % 10 == n) by (nonlinear_arith);
    } else {
        assert(digits(n).drop_last() =~= Seq::<char>::empty());
        assert(digits_value(Seq::<char>::empty()) == 0);
        assert(digits(n).last() == digit_char(d));
        assert(digits_value(digits(n)) == d);
    }
}

} // verus!

verus! {

proof fn lemma_pow10_mono(a: nat, b: nat)
    requires
        a <= b,
    ensures
        pow10(a) <= pow10(b),
    decreases b,
{
    if a < b {
        lemma_pow10_mono(a, (b - 1) as nat);
    }
}

proof fn lemma_pow10_values()
    ensures
        pow10(18) == 1000000000000000000,
        pow10(19) == 10000000000000000000,
{
    reveal_with_fuel(pow10, 20);
}

proof fn lemma_digits_len(n: nat, k: nat)
    requires
        k >= 1,
        n < pow10(k),
    ensures
        digits(n).len() <= k,
    decreases k,
{
    if n >= 10 {
        assert(k >= 2) by {
            if k == 1 {
                assert(pow10(1) == 10 * pow10(0));
            }
        }
        let k1 = (k - 1) as nat;
        assert(pow10(k) == 10 * pow10(k1));
        assert(n / 10 < pow10(k1)) by (nonlinear_arith)
            requires
                n < 10 * pow10(k1),
        ;
        lemma_digits_len(n / 10, k1);
    }
}

/// Whether `lit` occurs in `s` at `pos`.
fn matches_at(s: &Vec<char>, pos: usize, lit: &[char]) -> (r: bool)
    ensures
        r == prefix_at(lit@, s@, pos as int),
        r ==> pos + lit@.len() <= s.len(),
{
    if pos > s.len() || lit.len() > s.len() - pos {
        return false;
    }
    let mut i: usize = 0;
    while i < lit.len()
        invariant
            i <= lit@.len(),
            pos + lit@.len() <= s@.len(),
            s@.len() == s.len(),
            s@.subrange(pos as int, pos + i) == lit@.take(i as int),
        decreases lit@.len() - i,
    {
        if s[pos + i] != lit[i] {
            assert(s@.subrange(pos as int, pos + lit@.len())[i as int] == s@[pos + i]);
            return false;
        }
        i = i + 1;
        assert(s@.subrange(pos as int, pos + i) =~= lit@.take(i as int));
    }
    assert(lit@.take(i as int) =~= lit@);
    true
}

/// Reads an integer in `lo..=hi` written in its canonical decimal form.
fn parse_int(s: &Vec<char>, pos: usize, lo: i64, hi: i64) -> (r: Option<(i64, usize)>)
    ensures
        r matches Some((x, e)) ==> lo <= x <= hi && e == pos + int_text(x as int).len()
            && prefix_at(int_text(x as int), s@, pos as int),
        forall|x: int|
            #![trigger int_text(x)]
            lo <= x <= hi && prefix_at(int_text(x) + seq!['}'], s@, pos as int) ==> r == Some(
                (x as i64, (pos + int_text(x).len()) as usize),
            ),
{
    if pos >= s.len() {
        return None;
    }
    let neg = s[pos] == '-';
    let p: usize = if neg { pos + 1 } else { pos };
    let mut q: usize = p;
    let mut acc: u128 = 0;
    proof {
        assert(s@.subrange(p as int, q as int) =~= Seq::<char>::empty());
    }
    while q < s.len() && s[q] >= '0' && s[q] <= '9' && q - p < 19
        invariant
            p <= q <= s@.len(),
            q - p <= 19,
            forall|j: int| p <= j < q ==> is_digit(#[trigger] s@[j]),
            acc == digits_value(s@.subrange(p as int, q as int)),
            acc < pow10((q - p) as nat),
        decreases s@.len() - q,
    {
        let d: u128 = (s[q] as u32 - 48) as u128;
        proof {
            lemma_pow10_mono((q - p) as nat, 18);
            lemma_pow10_values();
            assert(s@.subrange(p as int, q + 1).drop_last() =~= s@.subrange(p as int, q as int));
        }
        acc = acc * 10 + d;
        q = q + 1;
    }
    proof {
        lemma_pow10_values();
        assert forall|x: int|
            #![trigger int_text(x)]
            lo <= x <= hi && prefix_at(int_text(x) + seq!['}'], s@, pos as int) implies (neg == (x
                < 0) && q == p + digits(if x < 0 { -x } else { x } as nat).len() && acc == (if x
                < 0 { -x } else { x })) by {
            let m: nat = if x < 0 { (-x) as nat } else { x as nat };
            let ds = digits(m);
            let t = int_text(x) + seq!['}'];
            lemma_digits(m);
            assert(m <= 9223372036854775808);
            lemma_digits_len(m, 19);
            assert(s@.subrange(pos as int, pos + t.len()) == t);
            assert(s@[pos as int] == t[0]);
            if x < 0 {
                assert(t[0] == '-');
            } else {
                assert(t[0] == ds[0]);
            }
            assert(p == pos + (if x < 0 { 1int } else { 0int }));
            assert forall|j: int| 0 <= j < ds.len() implies s@[p + j] == ds[j] by {
                let off: int = if x < 0 { 1 } else { 0 };
                assert(t[off + j] == ds[j]);
                assert(s@[pos + off + j] == t[off + j]);
            }
            let off: int = if x < 0 { 1 } else { 0 };
            assert(t[off + ds.len()] == '}');
            assert(s@[pos + off + ds.len()] == t[off + ds.len()]);
            if q < p + ds.len() {
                assert(is_digit(ds[q - p]));
                assert(false);
            }
            if q > p + ds.len() {
                assert(is_digit(s@[p + ds.len()]));
                assert(false);
            }
            assert(s@.subrange(p as int, q as int) =~= ds);
        }
    }
    if q == p {
        return None;
    }
    proof {
        lemma_pow10_mono((q - p) as nat, 19);
    }
    let v: i128 = if neg { 0i128 - acc as i128 } else { acc as i128 };
    if v < lo as i128 || v > hi as i128 {
        return None;
    }
    let x: i64 = v as i64;
    let mut text: Vec<char> = Vec::new();
    push_int(&mut text, x);
    proof {
        assert forall|y: int|
            #![trigger int_text(y)]
            lo <= y <= hi && prefix_at(int_text(y) + seq!['}'], s@, pos as int) implies y == x
            && prefix_at(int_text(y), s@, pos as int) by {
            let t = int_text(y) + seq!['}'];
            assert(s@.subrange(pos as int, pos + int_text(y).len()) =~= t.subrange(
                0,
                int_text(y).len() as int,
            ));
            assert(t.subrange(0, int_text(y).len() as int) =~= int_text(y));
        }
    }
    if !matches_at(s, pos, text.as_slice()) {
        return None;
    }
    Some((x, pos + text.len()))
}

} // verus!

verus! {

proof fn lemma_escape_concat(a: Seq<char>, b: Seq<char>)
    ensures
        escape(a + b) == escape(a) + escape(b),
    decreases b.len(),
{
    if b.len() == 0 {
        assert(a + b =~= a);
        assert(escape(a) + escape(b) =~= escape(a));
    } else {
        lemma_escape_concat(a, b.drop_last());
        assert((a + b).drop_last() =~= a + b.drop_last());
        assert(escape(a) + escape(b) =~= escape(a) + escape(b.drop_last()) + escape_char(b.last()));
    }
}

/// The escaped text of `t` splits at its `k`-th character.
proof fn lemma_escape_split(t: Seq<char>, k: int)
    requires
        0 <= k < t.len(),
    ensures
        escape(t) == escape(t.take(k)) + escape_char(t[k]) + escape(t.skip(k + 1)),
        escape(t.take(k + 1)) == escape(t.take(k)) + escape_char(t[k]),
{
    let c = seq![t[k]];
    assert(t =~= t.take(k) + c + t.skip(k + 1));
    lemma_escape_concat(t.take(k) + c, t.skip(k + 1));
    lemma_escape_concat(t.take(k), c);
    assert(c.drop_last() =~= Seq::<char>::empty());
    assert(escape(Seq::<char>::empty()) =~= Seq::<char>::empty());
    assert(escape(c) =~= escape_char(t[k]));
    assert(t.take(k + 1) =~= t.take(k) + c);
}

/// Reads a quoted, escaped text.
fn parse_text(s: &Vec<char>, pos: usize) -> (r: Option<(Vec<char>, usize)>)
    ensures
        r matches Some((t, e)) ==> e == pos + text_literal(t@).len() && prefix_at(
            text_literal(t@),
            s@,
            pos as int,
        ),
        forall|t: Seq<char>|
            #![trigger text_literal(t)]
            prefix_at(text_literal(t), s@, pos as int) ==> (r matches Some((u, e)) && u@ == t && e
                == pos + text_literal(t).len()),
{
    if pos >= s.len() || s[pos] != '"' {
        proof {
            assert forall|t: Seq<char>|
                #![trigger text_literal(t)]
                prefix_at(text_literal(t), s@, pos as int) implies false by {
                assert(s@[pos as int] == s@.subrange(pos as int, pos + text_literal(t).len())[0]);
            }
        }
        return None;
    }
    let mut out: Vec<char> = Vec::new();
    let mut i: usize = pos + 1;
    proof {
        assert(s@.subrange(pos + 1, i as int) =~= escape(out@));
        assert forall|t: Seq<char>|
            #![trigger text_literal(t)]
            prefix_at(text_literal(t), s@, pos as int) implies (out@.len() <= t.len() && out@
                == t.take(out@.len() as int) && i == pos + 1 + escape(out@).len()) by {
            assert(out@ =~= t.take(0));
        }
    }
    loop
        invariant
            pos < i <= s@.len(),
            s@[pos as int] == '"',
            s@.subrange(pos + 1, i as int) == escape(out@),
            forall|t: Seq<char>|
                #![trigger text_literal(t)]
                prefix_at(text_literal(t), s@, pos as int) ==> (out@.len() <= t.len() && out@
                    == t.take(out@.len() as int) && i == pos + 1 + escape(out@).len()),
        decreases s@.len() - i,
    {
        let ghost k = out@.len() as int;
        // Where a text is encoded at `pos`, its next escaped character starts at `i`.
        proof {
            assert forall|t: Seq<char>|
                #![trigger text_literal(t)]
                prefix_at(text_literal(t), s@, pos as int) && k < t.len() implies i + escape_char(
                    t[k],
                ).len() < s@.len() && s@.subrange(i as int, i + escape_char(t[k]).len())
                == escape_char(t[k]) by {
                lemma_escape_split(t, k);
                let lit = text_literal(t);
                let ec = escape_char(t[k]);
                assert(s@.subrange(pos as int, pos + lit.len()) == lit);
                assert forall|j: int| 0 <= j < ec.len() implies s@[i + j] == ec[j] by {
                    assert(lit[1 + escape(out@).len() + j] == ec[j]);
                    assert(s@[pos + 1 + escape(out@).len() + j] == lit[1 + escape(out@).len()
                        + j]);
                }
                assert(s@.subrange(i as int, i + ec.len()) =~= ec);
            }
            assert forall|t: Seq<char>|
                #![trigger text_literal(t)]
                prefix_at(text_literal(t), s@, pos as int) && k == t.len() implies i < s@.len()
                && s@[i as int] == '"' by {
                let lit = text_literal(t);
                assert(out@ =~= t);
                assert(s@.subrange(pos as int, pos + lit.len()) == lit);
                assert(s@[pos + lit.len() - 1] == lit[lit.len() - 1]);
            }
        }
        if i >= s.len() {
            return None;
        }
        let c = s[i];
        if c == '"' {
            proof {
                assert forall|t: Seq<char>|
                    #![trigger text_literal(t)]
                    prefix_at(text_literal(t), s@, pos as int) implies out@ == t && i + 1 == pos
                        + text_literal(t).len() by {
                    if k < t.len() {
                        assert(s@.subrange(i as int, i + escape_char(t[k]).len())[0] == s@[i as int]);
                    }
                    assert(out@ =~= t);
                }
                assert(s@.subrange(pos as int, i + 1) =~= text_literal(out@));
            }
            return Some((out, i + 1));
        }
        if c == '\n' || c == '\r' || c == '\t' {
            proof {
                assert forall|t: Seq<char>|
                    #![trigger text_literal(t)]
                    prefix_at(text_literal(t), s@, pos as int) implies false by {
                    if k < t.len() {
                        assert(s@.subrange(i as int, i + escape_char(t[k]).len())[0] == s@[i as int]);
                    }
                }
            }
            return None;
        }
        let ghost before = out@;
        if c == '\\' {
            if i + 1 >= s.len() {
                proof {
                    assert forall|t: Seq<char>|
                        #![trigger text_literal(t)]
                        prefix_at(text_literal(t), s@, pos as int) implies false by {
                        if k < t.len() {
                            assert(s@.subrange(i as int, i + escape_char(t[k]).len())[0] == s@[i as int]);
                        }
                    }
                }
                return None;
            }
            let e = s[i + 1];
            let d: char = if e == '"' {
                '"'
            } else if e == '\\' {
                '\\'
            } else if e == 'n' {
                '\n'
            } else if e == 'r' {
                '\r'
            } else if e == 't' {
                '\t'
            } else {
                proof {
                    assert forall|t: Seq<char>|
                        #![trigger text_literal(t)]
                        prefix_at(text_literal(t), s@, pos as int) implies false by {
                        if k < t.len() {
                            let w = s@.subrange(i as int, i + escape_char(t[k]).len());
                            assert(w[0] == s@[i as int]);
                            assert(w[1] == s@[i + 1]);
                        }
                    }
                }
                return None;
            };
            out.push(d);
            i = i + 2;
            proof {
                assert(escape_char(d) =~= seq![c, e]);
                assert(out@.drop_last() =~= before);
                assert(s@.subrange(pos + 1, i as int) =~= escape(out@));
                assert forall|t: Seq<char>|
                    #![trigger text_literal(t)]
                    prefix_at(text_literal(t), s@, pos as int) implies (out@.len() <= t.len()
                        && out@ == t.take(out@.len() as int) && i == pos + 1 + escape(
                        out@,
                    ).len()) by {
                    assert(k < t.len());
                    let w = s@.subrange((i - 2) as int, i - 2 + escape_char(t[k]).len());
                    assert(w[0] == c);
                    assert(w[1] == e);
                    assert(t[k] == d);
                    lemma_escape_split(t, k);
                    assert(out@ =~= t.take(k + 1));
                }
            }
        } else {
            out.push(c);
            i = i + 1;
            proof {
                assert(escape_char(c) =~= seq![c]);
                assert(out@.drop_last() =~= before);
                assert(s@.subrange(pos + 1, i as int) =~= escape(out@));
                assert forall|t: Seq<char>|
                    #![trigger text_literal(t)]
                    prefix_at(text_literal(t), s@, pos as int) implies (out@.len() <= t.len()
                        && out@ == t.take(out@.len() as int) && i == pos + 1 + escape(
                        out@,
                    ).len()) by {
                    assert(k < t.len());
                    let w = s@.subrange((i - 1) as int, i - 1 + escape_char(t[k]).len());
                    assert(w[0] == c);
                    assert(t[k] == c);
                    lemma_escape_split(t, k);
                    assert(out@ =~= t.take(k + 1));
                }
            }
        }
    }
}

} // verus!

verus! {

proof fn lemma_prefix_split(a: Seq<char>, b: Seq<char>, s: Seq<char>, p: int)
    ensures
        prefix_at(a + b, s, p) <==> (prefix_at(a, s, p) && prefix_at(b, s, p + a.len())),
{
    if prefix_at(a + b, s, p) {
        assert(s.subrange(p, p + a.len()) =~= (a + b).subrange(0, a.len() as int));
        assert(s.subrange(p + a.len(), p + a.len() + b.len()) =~= (a + b).subrange(
            a.len() as int,
            (a.len() + b.len()) as int,
        ));
        assert((a + b).subrange(0, a.len() as int) =~= a);
        assert((a + b).subrange(a.len() as int, (a.len() + b.len()) as int) =~= b);
    }
    if prefix_at(a, s, p) && prefix_at(b, s, p + a.len()) {
        assert forall|j: int| 0 <= j < a.len() + b.len() implies s.subrange(
            p,
            p + a.len() + b.len(),
        )[j] == (a + b)[j] by {
            if j < a.len() {
                assert(s.subrange(p, p + a.len())[j] == s[p + j]);
            } else {
                assert(s.subrange(p + a.len(), p + a.len() + b.len())[j - a.len()] == s[p + j]);
            }
        }
        assert(s.subrange(p, p + a.len() + b.len()) =~= a + b);
    }
}

proof fn lemma_tag_unique(a: DataType, b: DataType, s: Seq<char>, p: int)
    requires
        prefix_at(type_tag(a), s, p),
        prefix_at(type_tag(b), s, p),
    ensures
        a == b,
{
    assert(s[p] == s.subrange(p, p + type_tag(a).len())[0]);
    assert(s[p] == s.subrange(p, p + type_tag(b).len())[0]);
    assert(s[p + 3] == s.subrange(p, p + type_tag(a).len())[3]);
    assert(s[p + 3] == s.subrange(p, p + type_tag(b).len())[3]);
}

fn parse_tag(s: &Vec<char>, pos: usize) -> (r: Option<(DataType, usize)>)
    ensures
        r matches Some((dt, e)) ==> e == pos + type_tag(dt).len() && prefix_at(
            type_tag(dt),
            s@,
            pos as int,
        ),
        forall|dt: DataType|
            #![trigger type_tag(dt)]
            prefix_at(type_tag(dt), s@, pos as int) ==> r == Some((dt, (pos + type_tag(dt).len()) as usize)),
{
    let r = if matches_at(s, pos, &['N', 'u', 'l', 'l']) {
        Some((DataType::Null, pos + 4))
    } else if matches_at(s, pos, &['B', 'o', 'o', 'l', 'e', 'a', 'n']) {
        Some((DataType::Boolean, pos + 7))
    } else if matches_at(s, pos, &['I', 'n', 't', '3', '2']) {
        Some((DataType::Int32, pos + 5))
    } else if matches_at(s, pos, &['I', 'n', 't', '6', '4']) {
        Some((DataType::Int64, pos + 5))
    } else if matches_at(s, pos, &['U', 't', 'f', '8']) {
        Some((DataType::Utf8, pos + 4))
    } else {
        None
    };
    proof {
        assert forall|dt: DataType|
            #![trigger type_tag(dt)]
            prefix_at(type_tag(dt), s@, pos as int) implies r == Some(
                (dt, (pos + type_tag(dt).len()) as usize),
            ) by {
            match r {
                Some((d, _)) => lemma_tag_unique(d, dt, s@, pos as int),
                None => {},
            }
        }
    }
    r
}

fn null_of(dt: DataType) -> (r: Scalar)
    ensures
        crate::value::model_type(r@) == dt,
        payload_text(r@) == null_text(),
        r@ == null_model(dt),
{
    match dt {
        DataType::Null => Scalar::Null,
        DataType::Boolean => Scalar::Boolean(None),
        DataType::Int32 => Scalar::Int32(None),
        DataType::Int64 => Scalar::Int64(None),
        DataType::Utf8 => Scalar::Utf8(None),
    }
}

/// The payload of `m` is `null` exactly when `m` is a null.
proof fn lemma_payload_null(m: ScalarModel, s: Seq<char>, p: int)
    requires
        prefix_at(payload_text(m), s, p),
    ensures
        prefix_at(null_text(), s, p) <==> payload_text(m) == null_text(),
{
    let t = payload_text(m);
    if let ScalarModel::Int32(Some(x)) = m {
        lemma_digits((-(x as int)) as nat);
        lemma_digits(x as nat);
    }
    if let ScalarModel::Int64(Some(x)) = m {
        lemma_digits((-(x as int)) as nat);
        lemma_digits(x as nat);
    }
    assert(t.len() > 0);
    assert(s[p] == s.subrange(p, p + t.len())[0]);
    if prefix_at(null_text(), s, p) {
        assert(s[p] == s.subrange(p, p + 4)[0]);
        assert(s[p] == 'n');
    }
}

} // verus!

verus! {

pub open spec fn null_model(dt: DataType) -> ScalarModel {
    match dt {
        DataType::Null => ScalarModel::Null,
        DataType::Boolean => ScalarModel::Boolean(None),
        DataType::Int32 => ScalarModel::Int32(None),
        DataType::Int64 => ScalarModel::Int64(None),
        DataType::Utf8 => ScalarModel::Utf8(None),
    }
}

/// Only nulls have the payload `null`; a payload is never empty.
proof fn lemma_payload_is_null(m: ScalarModel)
    ensures
        payload_text(m).len() > 0,
        payload_text(m) == null_text() ==> m == null_model(crate::value::model_type(m)),
{
    let t = payload_text(m);
    match m {
        ScalarModel::Int32(Some(x)) => {
            lemma_digits((-(x as int)) as nat);
            lemma_digits(x as nat);
            if x < 0 {
                assert(t[0] == '-');
            } else {
                assert(is_digit(t[0]));
            }
        },
        ScalarModel::Int64(Some(x)) => {
            lemma_digits((-(x as int)) as nat);
            lemma_digits(x as nat);
            if x < 0 {
                assert(t[0] == '-');
            } else {
                assert(is_digit(t[0]));
            }
        },
        ScalarModel::Utf8(Some(x)) => {
            assert(t[0] == '"');
        },
        ScalarModel::Boolean(Some(b)) => {
            assert(t[0] == if b {
                't'
            } else {
                'f'
            });
        },
        _ => {},
    }
    if t == null_text() {
        assert(t[0] == 'n');
    }
}

proof fn lemma_scalar_split(m: ScalarModel, s: Seq<char>, p: int)
    ensures
        prefix_at(scalar_text(m), s, p) <==> (prefix_at(record_open(), s, p) && prefix_at(
            type_tag(crate::value::model_type(m)),
            s,
            p + 9,
        ) && prefix_at(value_key(), s, p + 9 + type_tag(crate::value::model_type(m)).len())
            && prefix_at(
            payload_text(m) + seq!['}'],
            s,
            p + 19 + type_tag(crate::value::model_type(m)).len(),
        )),
{
    let tag = type_tag(crate::value::model_type(m));
    let pay = payload_text(m) + seq!['}'];
    assert(scalar_text(m) =~= record_open() + (tag + (value_key() + pay)));
    lemma_prefix_split(record_open(), tag + (value_key() + pay), s, p);
    lemma_prefix_split(tag, value_key() + pay, s, p + 9);
    lemma_prefix_split(value_key(), pay, s, p + 9 + tag.len());
}

/// Reads the record of a primitive value.
fn parse_scalar(s: &Vec<char>, pos: usize) -> (r: Option<(Scalar, usize)>)
    ensures
        r matches Some((x, e)) ==> e == pos + scalar_text(x@).len() && prefix_at(
            scalar_text(x@),
            s@,
            pos as int,
        ),
        forall|m: ScalarModel|
            #![trigger scalar_text(m)]
            prefix_at(scalar_text(m), s@, pos as int) ==> (r matches Some((x, e)) && x@ == m && e
                == pos + scalar_text(m).len()),
{
    proof {
        assert forall|m: ScalarModel|
            #![trigger scalar_text(m)]
            prefix_at(scalar_text(m), s@, pos as int) implies prefix_at(record_open(), s@, pos as int)
            && prefix_at(type_tag(crate::value::model_type(m)), s@, pos + 9) && prefix_at(
            value_key(),
            s@,
            pos + 9 + type_tag(crate::value::model_type(m)).len(),
        ) && prefix_at(
            payload_text(m) + seq!['}'],
            s@,
            pos + 19 + type_tag(crate::value::model_type(m)).len(),
        ) by {
            lemma_scalar_split(m, s@, pos as int);
        }
    }
    if !matches_at(s, pos, &['{', '"', 't', 'y', 'p', 'e', '"', ':', '"']) {
        return None;
    }
    let (dt, tag_end) = match parse_tag(s, pos + 9) {
        Some(x) => x,
        None => {
            return None;
        },
    };
    if !matches_at(s, tag_end, &['"', ',', '"', 'v', 'a', 'l', 'u', 'e', '"', ':']) {
        return None;
    }
    let pay_at = tag_end + 10;
    // For a record of `m` at `pos`, its payload and the closing brace follow at `pay_at`.
    proof {
        assert forall|m: ScalarModel|
            #![trigger scalar_text(m)]
            prefix_at(scalar_text(m), s@, pos as int) implies crate::value::model_type(m) == dt
            && prefix_at(payload_text(m), s@, pay_at as int) && prefix_at(
            seq!['}'],
            s@,
            pay_at + payload_text(m).len(),
        ) by {
            lemma_prefix_split(payload_text(m), seq!['}'], s@, pay_at as int);
        }
    }
    let (x, pay_end) = match parse_payload(s, pay_at, dt) {
        Some(y) => y,
        None => {
            return None;
        },
    };
    proof {
        assert forall|m: ScalarModel|
            #![trigger scalar_text(m)]
            prefix_at(scalar_text(m), s@, pos as int) implies x@ == m && pay_end == pay_at + payload_text(
                m,
            ).len() && prefix_at(seq!['}'], s@, pay_end as int) by {
            lemma_prefix_split(payload_text(m), seq!['}'], s@, pay_at as int);
            assert(prefix_at(payload_text(m) + seq!['}'], s@, pay_at as int));
        }
    }
    let brace: [char; 1] = ['}'];
    let brace_slice: &[char] = &brace;
    assert(brace_slice@ == seq!['}']);
    if !matches_at(s, pay_end, brace_slice) {
        return None;
    }
    proof {
        let ghost close: Seq<char> = seq!['}'];
        assert(prefix_at(close, s@, pay_end as int));
        lemma_prefix_split(payload_text(x@), close, s@, pay_at as int);
        assert(prefix_at(payload_text(x@) + close, s@, pay_at as int));
        assert(prefix_at(type_tag(dt), s@, pos + 9));
        lemma_scalar_split(x@, s@, pos as int);
        assert(prefix_at(scalar_text(x@), s@, pos as int));
    }
    Some((x, pay_end + 1))
}

} // verus!

verus! {

/// Reads the payload of a value of type `dt`.
#[verifier::spinoff_prover]
fn parse_payload(s: &Vec<char>, pay_at: usize, dt: DataType) -> (r: Option<(Scalar, usize)>)
    ensures
        r matches Some((x, e)) ==> crate::value::model_type(x@) == dt && e == pay_at + payload_text(
            x@,
        ).len() && prefix_at(payload_text(x@), s@, pay_at as int),
        forall|m: ScalarModel|
            #![trigger payload_text(m)]
            crate::value::model_type(m) == dt && prefix_at(payload_text(m) + seq!['}'], s@, pay_at as int)
                ==> (r matches Some((x, e)) && x@ == m && e == pay_at + payload_text(m).len()),
{
    let is_null = matches_at(s, pay_at, &['n', 'u', 'l', 'l']);
    proof {
        assert forall|m: ScalarModel|
            #![trigger payload_text(m)]
            crate::value::model_type(m) == dt && prefix_at(payload_text(m) + seq!['}'], s@, pay_at as int) implies (is_null <==> m == null_model(dt)) by {
            lemma_prefix_split(payload_text(m), seq!['}'], s@, pay_at as int);
            lemma_payload_null(m, s@, pay_at as int);
            lemma_payload_is_null(m);
        }
    }
    let (x, pay_end) = if is_null {
        (null_of(dt), pay_at + 4)
    } else {
        match dt {
            DataType::Null => {
                return None;
            },
            DataType::Boolean => {
                if matches_at(s, pay_at, &['t', 'r', 'u', 'e']) {
                    (Scalar::Boolean(Some(true)), pay_at + 4)
                } else if matches_at(s, pay_at, &['f', 'a', 'l', 's', 'e']) {
                    (Scalar::Boolean(Some(false)), pay_at + 5)
                } else {
                    proof {
                        assert forall|m: ScalarModel|
                            #![trigger payload_text(m)]
                            crate::value::model_type(m) == dt && prefix_at(
                                payload_text(m) + seq!['}'],
                                s@,
                                pay_at as int,
                            ) implies false by {
                            lemma_prefix_split(payload_text(m), seq!['}'], s@, pay_at as int);
                        }
                    }
                    return None;
                }
            },
            DataType::Int32 => {
                match parse_int(s, pay_at, i32::MIN as i64, i32::MAX as i64) {
                    Some((v, e)) => (Scalar::Int32(Some(v as i32)), e),
                    None => {
                        return None;
                    },
                }
            },
            DataType::Int64 => {
                match parse_int(s, pay_at, i64::MIN, i64::MAX) {
                    Some((v, e)) => (Scalar::Int64(Some(v)), e),
                    None => {
                        return None;
                    },
                }
            },
            DataType::Utf8 => {
                match parse_text(s, pay_at) {
                    Some((t, e)) => (Scalar::Utf8(Some(string_of(&t))), e),
                    None => {
                        proof {
                            assert forall|m: ScalarModel|
                                #![trigger payload_text(m)]
                                crate::value::model_type(m) == dt && prefix_at(
                                    payload_text(m) + seq!['}'],
                                    s@,
                                    pay_at as int,
                                ) implies false by {
                                lemma_prefix_split(payload_text(m), seq!['}'], s@, pay_at as int);
                                if let ScalarModel::Utf8(Some(t)) = m {
                                    assert(prefix_at(text_literal(t), s@, pay_at as int));
                                }
                            }
                        }
                        return None;
                    },
                }
            },
        }
    };
    proof {
        assert(crate::value::model_type(x@) == dt);
        assert(pay_end == pay_at + payload_text(x@).len());
        assert(prefix_at(payload_text(x@), s@, pay_at as int));
        assert forall|m: ScalarModel|
            #![trigger payload_text(m)]
            crate::value::model_type(m) == dt && prefix_at(payload_text(m) + seq!['}'], s@, pay_at as int) implies x@ == m by {
            lemma_prefix_split(payload_text(m), seq!['}'], s@, pay_at as int);
            if !is_null {
                let pm = payload_text(m);
                let px = payload_text(x@);
                lemma_payload_is_null(m);
                assert(s@[pay_at as int] == s@.subrange(pay_at as int, pay_at + pm.len())[0]);
                assert(s@[pay_at as int] == s@.subrange(pay_at as int, pay_at + px.len())[0]);
            }
        }
    }
    Some((x, pay_end))
}

} // verus!

verus! {

/// The join of the first `j` parts begins the join of all of them, and is
/// followed by a comma when parts remain.
proof fn lemma_join_prefix(parts: Seq<Seq<char>>, j: int)
    requires
        0 <= j <= parts.len(),
    ensures
        join(parts.take(j)).len() <= join(parts).len(),
        join(parts).subrange(0, join(parts.take(j)).len() as int) == join(parts.take(j)),
        1 <= j < parts.len() ==> join(parts.take(j)).len() < join(parts).len() && join(parts)[join(
            parts.take(j),
        ).len() as int] == ',',
    decreases parts.len(),
{
    let n = parts.len() as int;
    if j == n {
        assert(parts.take(j) =~= parts);
    } else {
        let d = parts.drop_last();
        lemma_join_prefix(d, j);
        assert(d.take(j) =~= parts.take(j));
        if n >= 2 {
            assert(join(parts) == join(d) + seq![','] + parts.last());
            assert(join(parts).subrange(0, join(parts.take(j)).len() as int) =~= join(
                d,
            ).subrange(0, join(parts.take(j)).len() as int));
            if j == n - 1 && j >= 1 {
                assert(d =~= parts.take(j));
            }
        } else {
            assert(j == 0);
            assert(parts.take(0) =~= Seq::<Seq<char>>::empty());
            assert(join(parts).subrange(0, 0) =~= Seq::<char>::empty());
        }
    }
}

/// The join of the first `k + 1` parts, from the join of the first `k`.
proof fn lemma_join_step(parts: Seq<Seq<char>>, k: int)
    requires
        0 <= k < parts.len(),
    ensures
        join(parts.take(k + 1)) == if k == 0 {
            parts[0]
        } else {
            join(parts.take(k)) + seq![','] + parts[k]
        },
{
    assert(parts.take(k + 1).drop_last() =~= parts.take(k));
    if k == 0 {
        assert(parts.take(1)[0] == parts[0]);
    }
}

} // verus!

verus! {

pub open spec fn part_offset(parts: Seq<Seq<char>>, k: int) -> int {
    if k == 0 {
        0
    } else {
        join(parts.take(k)).len() + 1int
    }
}

/// Where the parts joined by commas and closed by `]` stand in `s`, the `k`-th
/// part stands at its offset, followed by a comma or by the `]`.
proof fn lemma_part_at(parts: Seq<Seq<char>>, k: int, s: Seq<char>, p0: int)
    requires
        0 <= k < parts.len(),
        prefix_at(join(parts) + seq![']'], s, p0),
    ensures
        prefix_at(parts[k], s, p0 + part_offset(parts, k)),
        p0 + part_offset(parts, k) + parts[k].len() == p0 + join(parts.take(k + 1)).len(),
        p0 + join(parts.take(k + 1)).len() < s.len(),
        s[p0 + join(parts.take(k + 1)).len()] == if k + 1 < parts.len() {
            ','
        } else {
            ']'
        },
{
    let whole = join(parts) + seq![']'];
    lemma_join_prefix(parts, k + 1);
    lemma_join_step(parts, k);
    let jk1 = join(parts.take(k + 1));
    let off = part_offset(parts, k);
    assert(s.subrange(p0, p0 + whole.len()) == whole);
    assert forall|j: int| 0 <= j < parts[k].len() implies s[p0 + off + j] == parts[k][j] by {
        assert(jk1[off + j] == parts[k][j]);
        assert(join(parts).subrange(0, jk1.len() as int)[off + j] == join(parts)[off + j]);
        assert(whole[off + j] == s.subrange(p0, p0 + whole.len())[off + j]);
    }
    assert(s.subrange(p0 + off, p0 + off + parts[k].len()) =~= parts[k]);
    assert(whole[jk1.len() as int] == s.subrange(p0, p0 + whole.len())[jk1.len() as int]);
    if k + 1 == parts.len() {
        assert(parts.take(k + 1) =~= parts);
        assert(whole[join(parts).len() as int] == ']');
    } else {
        assert(whole[jk1.len() as int] == join(parts)[jk1.len() as int]);
    }
}

} // verus!

verus! {

proof fn lemma_scalar_parts_take(items: Seq<ScalarModel>, k: int)
    requires
        0 <= k <= items.len(),
    ensures
        scalar_parts(items).take(k) == scalar_parts(items.take(k)),
        scalar_parts(items).len() == items.len(),
{
    assert(scalar_parts(items).take(k) =~= scalar_parts(items.take(k)));
}

/// Reads comma-separated records of primitive values, up to a closing `]`
/// which is not consumed.
#[verifier::spinoff_prover]
#[verifier::rlimit(40)]
fn parse_scalars(s: &Vec<char>, p0: usize) -> (r: Option<(Vec<Scalar>, usize)>)
    ensures
        r matches Some((v, e)) ==> e == p0 + scalars_text(scalars_model(v@)).len() && prefix_at(
            scalars_text(scalars_model(v@)),
            s@,
            p0 as int,
        ),
        forall|items: Seq<ScalarModel>|
            #![trigger scalars_text(items)]
            prefix_at(scalars_text(items) + seq![']'], s@, p0 as int) ==> (r matches Some((v, e))
                && scalars_model(v@) == items && e == p0 + scalars_text(items).len()),
{
    let mut out: Vec<Scalar> = Vec::new();
    if p0 >= s.len() {
        proof {
            assert forall|items: Seq<ScalarModel>|
                #![trigger scalars_text(items)]
                prefix_at(scalars_text(items) + seq![']'], s@, p0 as int) implies false by {}
        }
        return None;
    }
    if s[p0] == ']' {
        proof {
            assert(scalars_model(out@) =~= Seq::<ScalarModel>::empty());
            assert(scalar_parts(Seq::<ScalarModel>::empty()) =~= Seq::<Seq<char>>::empty());
            assert(s@.subrange(p0 as int, p0 as int) =~= Seq::<char>::empty());
            assert forall|items: Seq<ScalarModel>|
                #![trigger scalars_text(items)]
                prefix_at(scalars_text(items) + seq![']'], s@, p0 as int) implies items.len()
                == 0 by {
                if items.len() > 0 {
                    lemma_part_at(scalar_parts(items), 0, s@, p0 as int);
                    let first = scalar_text(items[0]);
                    assert(scalar_parts(items)[0] == first);
                    assert(s@[p0 as int] == s@.subrange(p0 as int, p0 + first.len())[0]);
                    assert(first[0] == '{');
                }
                assert(items =~= Seq::<ScalarModel>::empty());
            }
        }
        return Some((out, p0));
    }
    let mut i: usize = p0;
    proof {
        assert(scalars_model(out@) =~= Seq::<ScalarModel>::empty());
        assert(scalar_parts(Seq::<ScalarModel>::empty()) =~= Seq::<Seq<char>>::empty());
        assert(s@.subrange(p0 as int, p0 as int) =~= Seq::<char>::empty());
        assert forall|items: Seq<ScalarModel>|
            #![trigger scalars_text(items)]
            prefix_at(scalars_text(items) + seq![']'], s@, p0 as int) implies 0 < items.len()
            && scalars_model(out@) == items.take(0) by {
            assert(items.take(0) =~= Seq::<ScalarModel>::empty());
            if items.len() == 0 {
                assert(scalar_parts(items) =~= Seq::<Seq<char>>::empty());
                assert(s@[p0 as int] == (scalars_text(items) + seq![']'])[0]);
            }
        }
    }
    loop
        invariant
            p0 <= i <= s@.len(),
            prefix_at(scalars_text(scalars_model(out@)), s@, p0 as int),
            i == p0 + part_offset(scalar_parts(scalars_model(out@)), out@.len() as int),
            out@.len() > 0 ==> i == p0 + scalars_text(scalars_model(out@)).len() + 1,
            out@.len() > 0 ==> s@[i - 1] == ',',
            forall|items: Seq<ScalarModel>|
                #![trigger scalars_text(items)]
                prefix_at(scalars_text(items) + seq![']'], s@, p0 as int) ==> (out@.len()
                    < items.len() && scalars_model(out@) == items.take(out@.len() as int)),
        decreases s@.len() - i,
    {
        let ghost k = out@.len() as int;
        let ghost before = scalars_model(out@);
        proof {
            assert forall|items: Seq<ScalarModel>|
                #![trigger scalars_text(items)]
                prefix_at(scalars_text(items) + seq![']'], s@, p0 as int) implies prefix_at(
                scalar_text(items[k]),
                s@,
                i as int,
            ) by {
                lemma_scalar_parts_take(items, k);
                lemma_part_at(scalar_parts(items), k, s@, p0 as int);
            }
        }
        let (x, e) = match parse_scalar(s, i) {
            Some(y) => y,
            None => {
                return None;
            },
        };
        out.push(x);
        proof {
            assert(scalars_model(out@) =~= before.push(x@));
            lemma_scalar_parts_take(scalars_model(out@), k);
            assert(scalars_model(out@).take(k) =~= before);
            lemma_join_step(scalar_parts(scalars_model(out@)), k);
            assert(scalar_parts(scalars_model(out@)).take(k + 1) =~= scalar_parts(
                scalars_model(out@),
            ));
            assert(s@.subrange(p0 as int, e as int) =~= scalars_text(scalars_model(out@)));
            assert forall|items: Seq<ScalarModel>|
                #![trigger scalars_text(items)]
                prefix_at(scalars_text(items) + seq![']'], s@, p0 as int) implies scalars_model(
                out@,
            ) == items.take(k + 1) && e == p0 + join(scalar_parts(items).take(k + 1)).len() && e
                < s@.len() && s@[e as int] == if k + 1 < items.len() {
                ','
            } else {
                ']'
            } by {
                lemma_scalar_parts_take(items, k);
                lemma_scalar_parts_take(items, k + 1);
                lemma_part_at(scalar_parts(items), k, s@, p0 as int);
                assert(items.take(k + 1) =~= items.take(k).push(items[k]));
            }
        }
        if e >= s.len() {
            return None;
        }
        if s[e] == ',' {
            i = e + 1;
        } else if s[e] == ']' {
            proof {
                assert forall|items: Seq<ScalarModel>|
                    #![trigger scalars_text(items)]
                    prefix_at(scalars_text(items) + seq![']'], s@, p0 as int) implies scalars_model(
                    out@,
                ) == items by {
                    assert(items.take(k + 1) =~= items);
                }
            }
            return Some((out, e));
        } else {
            return None;
        }
    }
}

} // verus!

verus! {

proof fn lemma_list_split(dt: DataType, items: Seq<ScalarModel>, s: Seq<char>, p: int)
    ensures
        prefix_at(value_text(ValueModel::List(dt, items)), s, p) <==> (prefix_at(
            record_open() + list_tag() + item_key(),
            s,
            p,
        ) && prefix_at(type_tag(dt), s, p + 23) && prefix_at(
            value_key() + seq!['['],
            s,
            p + 23 + type_tag(dt).len(),
        ) && prefix_at(scalars_text(items), s, p + 34 + type_tag(dt).len()) && prefix_at(
            seq![']', '}'],
            s,
            p + 34 + type_tag(dt).len() + scalars_text(items).len(),
        )),
{
    let head = record_open() + list_tag() + item_key();
    let tag = type_tag(dt);
    let key = value_key() + seq!['['];
    let st = scalars_text(items);
    let close = seq![']', '}'];
    assert(value_text(ValueModel::List(dt, items)) =~= head + (tag + (key + (st + close))));
    lemma_prefix_split(head, tag + (key + (st + close)), s, p);
    lemma_prefix_split(tag, key + (st + close), s, p + 23);
    lemma_prefix_split(key, st + close, s, p + 23 + tag.len());
    lemma_prefix_split(st, close, s, p + 34 + tag.len());
}

/// Reads the record of a list, whose head `{"type":"List","item":"` stands at `pos`.
#[verifier::spinoff_prover]
fn parse_list(s: &Vec<char>, pos: usize) -> (r: Option<(Value, usize)>)
    requires
        prefix_at(record_open() + list_tag() + item_key(), s@, pos as int),
        pos + 23 <= s.len(),
    ensures
        r matches Some((x, e)) ==> e == pos + value_text(x@).len() && prefix_at(
            value_text(x@),
            s@,
            pos as int,
        ),
        forall|dt: DataType, items: Seq<ScalarModel>|
            #![trigger value_text(ValueModel::List(dt, items))]
            prefix_at(value_text(ValueModel::List(dt, items)), s@, pos as int) ==> (r matches Some(
                (x, e),
            ) && x@ == ValueModel::List(dt, items) && e == pos + value_text(
                ValueModel::List(dt, items),
            ).len()),
{
    let (dt, tag_end) = match parse_tag(s, pos + 23) {
        Some(y) => y,
        None => {
            proof {
                assert forall|d: DataType, items: Seq<ScalarModel>|
                    #![trigger value_text(ValueModel::List(d, items))]
                    prefix_at(value_text(ValueModel::List(d, items)), s@, pos as int) implies false by {
                    lemma_list_split(d, items, s@, pos as int);
                }
            }
            return None;
        },
    };
    let key: [char; 11] = ['"', ',', '"', 'v', 'a', 'l', 'u', 'e', '"', ':', '['];
    let key_slice: &[char] = &key;
    assert(key_slice@ == value_key() + seq!['[']);
    let key_ok = matches_at(s, tag_end, key_slice);
    proof {
        assert forall|d: DataType, items: Seq<ScalarModel>|
            #![trigger value_text(ValueModel::List(d, items))]
            prefix_at(value_text(ValueModel::List(d, items)), s@, pos as int) implies key_ok && d
            == dt && prefix_at(scalars_text(items) + seq![']'], s@, tag_end + 11) && prefix_at(
            seq![']', '}'],
            s@,
            tag_end + 11 + scalars_text(items).len(),
        ) by {
            lemma_list_split(d, items, s@, pos as int);
            let close: Seq<char> = seq![']', '}'];
            let st = scalars_text(items);
            assert(s@[tag_end + 11 + st.len()] == s@.subrange(
                tag_end + 11 + st.len(),
                tag_end + 11 + st.len() + 2,
            )[0]);
            assert(s@.subrange(tag_end + 11, tag_end + 11 + st.len() + 1) =~= st + seq![']']);
        }
    }
    if !key_ok {
        return None;
    }
    let (items, e) = match parse_scalars(s, tag_end + 11) {
        Some(y) => y,
        None => {
            return None;
        },
    };
    let close: [char; 2] = [']', '}'];
    let close_slice: &[char] = &close;
    assert(close_slice@ == seq![']', '}']);
    if !matches_at(s, e, close_slice) {
        return None;
    }
    let x = Value::List(dt, items);
    proof {
        lemma_list_split(dt, scalars_model(items@), s@, pos as int);
    }
    Some((x, e + 2))
}

/// Reads the record of a state element.
fn parse_value(s: &Vec<char>, pos: usize) -> (r: Option<(Value, usize)>)
    ensures
        r matches Some((x, e)) ==> e == pos + value_text(x@).len() && prefix_at(
            value_text(x@),
            s@,
            pos as int,
        ),
        forall|v: ValueModel|
            #![trigger value_text(v)]
            prefix_at(value_text(v), s@, pos as int) ==> (r matches Some((x, e)) && x@ == v && e
                == pos + value_text(v).len()),
{
    let head: [char; 23] = [
        '{', '"', 't', 'y', 'p', 'e', '"', ':', '"', 'L', 'i', 's', 't', '"', ',', '"', 'i', 't',
        'e', 'm', '"', ':', '"',
    ];
    let head_slice: &[char] = &head;
    assert(head_slice@ == record_open() + list_tag() + item_key());
    if !matches_at(s, pos, head_slice) {
        proof {
            assert forall|v: ValueModel|
                #![trigger value_text(v)]
                prefix_at(value_text(v), s@, pos as int) implies !(v is List) by {
                if let ValueModel::List(dt, items) = v {
                    lemma_list_split(dt, items, s@, pos as int);
                }
            }
        }
        return match parse_scalar(s, pos) {
            Some((x, e)) => Some((Value::Scalar(x), e)),
            None => None,
        };
    }
    proof {
        assert forall|v: ValueModel|
            #![trigger value_text(v)]
            prefix_at(value_text(v), s@, pos as int) implies v is List by {
            if let ValueModel::Scalar(m) = v {
                let t = scalar_text(m);
                let tag = type_tag(crate::value::model_type(m));
                assert(t[9] == tag[0]);
                assert(s@[pos + 9] == s@.subrange(pos as int, pos + t.len())[9]);
                assert(s@[pos + 9] == s@.subrange(pos as int, pos + 23)[9]);
            }
        }
    }
    parse_list(s, pos)
}

} // verus!

verus! {

pub open spec fn values_text(vs: Seq<ValueModel>) -> Seq<char> {
    join(value_parts(vs))
}

proof fn lemma_value_parts_take(items: Seq<ValueModel>, k: int)
    requires
        0 <= k <= items.len(),
    ensures
        value_parts(items).take(k) == value_parts(items.take(k)),
        value_parts(items).len() == items.len(),
{
    assert(value_parts(items).take(k) =~= value_parts(items.take(k)));
}

/// Reads comma-separated records of state elements, up to a closing `]`
/// which is not consumed.
#[verifier::spinoff_prover]
#[verifier::rlimit(40)]
fn parse_values(s: &Vec<char>, p0: usize) -> (r: Option<(Vec<Value>, usize)>)
    ensures
        r matches Some((v, e)) ==> e == p0 + values_text(values_model(v@)).len() && prefix_at(
            values_text(values_model(v@)),
            s@,
            p0 as int,
        ),
        forall|items: Seq<ValueModel>|
            #![trigger values_text(items)]
            prefix_at(values_text(items) + seq![']'], s@, p0 as int) ==> (r matches Some((v, e))
                && values_model(v@) == items && e == p0 + values_text(items).len()),
{
    let mut out: Vec<Value> = Vec::new();
    if p0 >= s.len() {
        proof {
            assert forall|items: Seq<ValueModel>|
                #![trigger values_text(items)]
                prefix_at(values_text(items) + seq![']'], s@, p0 as int) implies false by {}
        }
        return None;
    }
    if s[p0] == ']' {
        proof {
            assert(values_model(out@) =~= Seq::<ValueModel>::empty());
            assert(value_parts(Seq::<ValueModel>::empty()) =~= Seq::<Seq<char>>::empty());
            assert(s@.subrange(p0 as int, p0 as int) =~= Seq::<char>::empty());
            assert forall|items: Seq<ValueModel>|
                #![trigger values_text(items)]
                prefix_at(values_text(items) + seq![']'], s@, p0 as int) implies items.len()
                == 0 by {
                if items.len() > 0 {
                    lemma_part_at(value_parts(items), 0, s@, p0 as int);
                    let first = value_text(items[0]);
                    assert(value_parts(items)[0] == first);
                    assert(s@[p0 as int] == s@.subrange(p0 as int, p0 + first.len())[0]);
                    assert(first[0] == '{');
                }
                assert(items =~= Seq::<ValueModel>::empty());
            }
        }
        return Some((out, p0));
    }
    let mut i: usize = p0;
    proof {
        assert(values_model(out@) =~= Seq::<ValueModel>::empty());
        assert(value_parts(Seq::<ValueModel>::empty()) =~= Seq::<Seq<char>>::empty());
        assert(s@.subrange(p0 as int, p0 as int) =~= Seq::<char>::empty());
        assert forall|items: Seq<ValueModel>|
            #![trigger values_text(items)]
            prefix_at(values_text(items) + seq![']'], s@, p0 as int) implies 0 < items.len()
            && values_model(out@) == items.take(0) by {
            assert(items.take(0) =~= Seq::<ValueModel>::empty());
            if items.len() == 0 {
                assert(value_parts(items) =~= Seq::<Seq<char>>::empty());
                assert(s@[p0 as int] == (values_text(items) + seq![']'])[0]);
            }
        }
    }
    loop
        invariant
            p0 <= i <= s@.len(),
            prefix_at(values_text(values_model(out@)), s@, p0 as int),
            i == p0 + part_offset(value_parts(values_model(out@)), out@.len() as int),
            out@.len() > 0 ==> i == p0 + values_text(values_model(out@)).len() + 1,
            out@.len() > 0 ==> s@[i - 1] == ',',
            forall|items: Seq<ValueModel>|
                #![trigger values_text(items)]
                prefix_at(values_text(items) + seq![']'], s@, p0 as int) ==> (out@.len()
                    < items.len() && values_model(out@) == items.take(out@.len() as int)),
        decreases s@.len() - i,
    {
        let ghost k = out@.len() as int;
        let ghost before = values_model(out@);
        proof {
            assert forall|items: Seq<ValueModel>|
                #![trigger values_text(items)]
                prefix_at(values_text(items) + seq![']'], s@, p0 as int) implies prefix_at(
                value_text(items[k]),
                s@,
                i as int,
            ) by {
                lemma_value_parts_take(items, k);
                lemma_part_at(value_parts(items), k, s@, p0 as int);
            }
        }
        let (x, e) = match parse_value(s, i) {
            Some(y) => y,
            None => {
                return None;
            },
        };
        out.push(x);
        proof {
            assert(values_model(out@) =~= before.push(x@));
            lemma_value_parts_take(values_model(out@), k);
            assert(values_model(out@).take(k) =~= before);
            lemma_join_step(value_parts(values_model(out@)), k);
            assert(value_parts(values_model(out@)).take(k + 1) =~= value_parts(
                values_model(out@),
            ));
            assert(s@.subrange(p0 as int, e as int) =~= values_text(values_model(out@)));
            assert forall|items: Seq<ValueModel>|
                #![trigger values_text(items)]
                prefix_at(values_text(items) + seq![']'], s@, p0 as int) implies values_model(
                out@,
            ) == items.take(k + 1) && e == p0 + join(value_parts(items).take(k + 1)).len() && e
                < s@.len() && s@[e as int] == if k + 1 < items.len() {
                ','
            } else {
                ']'
            } by {
                lemma_value_parts_take(items, k);
                lemma_value_parts_take(items, k + 1);
                lemma_part_at(value_parts(items), k, s@, p0 as int);
                assert(items.take(k + 1) =~= items.take(k).push(items[k]));
            }
        }
        if e >= s.len() {
            return None;
        }
        if s[e] == ',' {
            i = e + 1;
        } else if s[e] == ']' {
            proof {
                assert forall|items: Seq<ValueModel>|
                    #![trigger values_text(items)]
                    prefix_at(values_text(items) + seq![']'], s@, p0 as int) implies values_model(
                    out@,
                ) == items by {
                    assert(items.take(k + 1) =~= items);
                }
            }
            return Some((out, e));
        } else {
            return None;
        }
    }
}

} // verus!

verus! {

/// The state whose checkpoint blob is `blob`, if `blob` is one.
///
/// Each state has one blob, and this gives it back: decoding the blob of
/// `m` yields `m`, and any other text yields `None`.
pub fn decode_state(blob: &str) -> (r: Option<Vec<Value>>)
    ensures
        r matches Some(vs) ==> state_text(values_model(vs@)) == blob@,
        forall|m: Seq<ValueModel>|
            #![trigger state_text(m)]
            state_text(m) == blob@ ==> (r matches Some(vs) && values_model(vs@) == m),
{
    let s = chars_of(blob);
    let open: [char; 10] = ['{', '"', 's', 't', 'a', 't', 'e', '"', ':', '['];
    let open_slice: &[char] = &open;
    assert(open_slice@ == state_open());
    let close: [char; 2] = [']', '}'];
    let close_slice: &[char] = &close;
    assert(close_slice@ == seq![']', '}']);
    // Where `blob` is the text of `m`, each part stands where it should.
    proof {
        assert forall|m: Seq<ValueModel>|
            #![trigger state_text(m)]
            state_text(m) == blob@ implies prefix_at(state_open(), s@, 0) && prefix_at(
                values_text(m) + seq![']'],
                s@,
                10,
            ) && prefix_at(seq![']', '}'], s@, 10 + values_text(m).len() as int) && s@.len() == 12
                + values_text(m).len() by {
            let vt = values_text(m);
            assert(state_text(m) =~= state_open() + (vt + seq![']', '}']));
            lemma_prefix_split(state_open(), vt + seq![']', '}'], s@, 0);
            assert(s@.subrange(0, s@.len() as int) =~= s@);
            lemma_prefix_split(vt, seq![']', '}'], s@, 10);
            assert(s@.subrange(10, 10 + vt.len() as int + 1) =~= vt + seq![']']);
        }
    }
    if !matches_at(&s, 0, open_slice) {
        return None;
    }
    let (vs, e) = match parse_values(&s, 10) {
        Some(y) => y,
        None => {
            return None;
        },
    };
    if !matches_at(&s, e, close_slice) || e + 2 != s.len() {
        return None;
    }
    proof {
        let vt = values_text(values_model(vs@));
        lemma_prefix_split(vt, seq![']', '}'], s@, 10);
        lemma_prefix_split(state_open(), vt + seq![']', '}'], s@, 0);
        assert(state_text(values_model(vs@)) =~= state_open() + (vt + seq![']', '}']));
        assert(s@.subrange(0, s@.len() as int) =~= s@);
    }
    Some(vs)
}

} // verus!
