//! JSON text: rendering values and snapshots, and parsing scalar values.
//!
//! The store carries JSON-encoded text. Output bindings and the snapshot
//! dump render compact JSON; input bindings parse scalar JSON values
//! (`null`, `true`, `false`, integers, and strings with quote and backslash
//! escapes — a malformed or unsupported text is reported as no value, and
//! the caller skips that input for the tick).
use vstd::prelude::*;
use crate::snapshot::Json;
use crate::text::push_char;
use crate::value::{Value, ValueV};

verus! {

/// The ten decimal digit characters.
pub open spec fn is_digit(c: char) -> bool {
    c == '0' || c == '1' || c == '2' || c == '3' || c == '4' || c == '5' || c == '6' || c == '7'
        || c == '8' || c == '9'
}

/// The numeric value of a digit character.
pub open spec fn digit_val(c: char) -> int {
    if c == '0' {
        0
    } else if c == '1' {
        1
    } else if c == '2' {
        2
    } else if c == '3' {
        3
    } else if c == '4' {
        4
    } else if c == '5' {
        5
    } else if c == '6' {
        6
    } else if c == '7' {
        7
    } else if c == '8' {
        8
    } else {
        9
    }
}

/// The digit character of a value below ten.
pub open spec fn digit_char(d: int) -> char {
    if d == 0 {
        '0'
    } else if d == 1 {
        '1'
    } else if d == 2 {
        '2'
    } else if d == 3 {
        '3'
    } else if d == 4 {
        '4'
    } else if d == 5 {
        '5'
    } else if d == 6 {
        '6'
    } else if d == 7 {
        '7'
    } else if d == 8 {
        '8'
    } else {
        '9'
    }
}

/// The decimal digits of a non-negative number, most significant first.
pub open spec fn dec_digits(n: int) -> Seq<char>
    decreases n,
{
    if n < 10 {
        seq![digit_char(n)]
    } else {
        dec_digits(n / 10).push(digit_char(n % 10))
    }
}

/// The decimal text of an integer.
pub open spec fn int_text(i: int) -> Seq<char> {
    if i >= 0 {
        dec_digits(i)
    } else {
        seq!['-'] + dec_digits(-i)
    }
}

/// How a character appears inside a JSON string literal.
pub open spec fn escape_char(c: char) -> Seq<char> {
    if c == '"' {
        seq!['\\', '"']
    } else if c == '\\' {
        seq!['\\', '\\']
    } else {
        seq![c]
    }
}

/// A string's characters, escaped.
pub open spec fn escape_str(s: Seq<char>) -> Seq<char>
    decreases s.len(),
{
    if s.len() == 0 {
        Seq::empty()
    } else {
        escape_char(s[0]) + escape_str(s.drop_first())
    }
}

/// A quoted, escaped JSON string literal.
pub open spec fn quoted_text(s: Seq<char>) -> Seq<char> {
    seq!['"'] + escape_str(s) + seq!['"']
}

/// The JSON text of a scalar leaf (`Opaque` is never rendered).
pub open spec fn scalar_text(v: ValueV) -> Seq<char> {
    match v {
        ValueV::Null => "null"@,
        ValueV::Bool(b) => if b {
            "true"@
        } else {
            "false"@
        },
        ValueV::Int(i) => int_text(i),
        ValueV::Str(s) => quoted_text(s),
        ValueV::Opaque => Seq::empty(),
    }
}

/// The compact JSON text of a tree.
pub open spec fn json_text(j: Json) -> Seq<char>
    decreases j, (j->Object_0)@.len() + 1,
{
    match j {
        Json::Null => "null"@,
        Json::Bool(b) => if b {
            "true"@
        } else {
            "false"@
        },
        Json::Int(i) => int_text(i as int),
        Json::Str(s) => quoted_text(s@),
        Json::Object(_) => seq!['{'] + obj_body_text(j, 0) + seq!['}'],
    }
}

/// The object body text from entry `k` on: comma-separated `"key":value`.
pub open spec fn obj_body_text(j: Json, k: int) -> Seq<char>
    decreases j, (j->Object_0)@.len() - k,
{
    if j is Object && 0 <= k < (j->Object_0)@.len() {
        let es = (j->Object_0)@;
        let piece = quoted_text(es[k].0@) + seq![':'] + json_text(es[k].1);
        if k + 1 < es.len() {
            piece + seq![','] + obj_body_text(j, k + 1)
        } else {
            piece
        }
    } else {
        Seq::empty()
    }
}

proof fn lemma_escape_snoc(s: Seq<char>, c: char)
    ensures
        escape_str(s.push(c)) =~= escape_str(s) + escape_char(c),
    decreases s.len(),
{
    if s.len() == 0 {
        assert(s.push(c).drop_first() =~= Seq::<char>::empty());
        assert(escape_str(Seq::<char>::empty()) =~= Seq::<char>::empty());
        assert(escape_str(s) =~= Seq::<char>::empty());
        assert(escape_str(s.push(c)) =~= escape_char(c));
    } else {
        assert(s.push(c).drop_first() =~= s.drop_first().push(c));
        lemma_escape_snoc(s.drop_first(), c);
    }
}

/// Append one digit character.
fn push_digit(out: &mut String, d: u64)
    requires
        d < 10,
    ensures
        final(out)@ == old(out)@.push(digit_char(d as int)),
{
    let c = match d {
        0 => '0',
        1 => '1',
        2 => '2',
        3 => '3',
        4 => '4',
        5 => '5',
        6 => '6',
        7 => '7',
        8 => '8',
        _ => '9',
    };
    push_char(out, c);
}

/// Append the decimal digits of `n`.
fn push_dec(out: &mut String, n: u64)
    ensures
        final(out)@ == old(out)@ + dec_digits(n as int),
    decreases n,
{
    if n < 10 {
        push_digit(out, n);
        proof {
            assert(old(out)@.push(digit_char(n as int)) =~= old(out)@ + dec_digits(n as int));
        }
    } else {
        push_dec(out, n / 10);
        push_digit(out, n % 10);
        proof {
            assert((old(out)@ + dec_digits(n as int / 10)).push(digit_char(n as int % 10)) =~= old(
                out,
            )@ + dec_digits(n as int));
        }
    }
}

/// Append the decimal text of `i`.
fn push_int(out: &mut String, i: i64)
    ensures
        final(out)@ == old(out)@ + int_text(i as int),
{
    if i < 0 {
        out.append("-");
        let mag: u64 = if i == i64::MIN {
            9223372036854775808u64
        } else {
            (-i) as u64
        };
        proof {
            assert(mag as int == -(i as int));
            reveal_strlit("-");
            assert("-"@ =~= seq!['-']);
        }
        push_dec(out, mag);
        proof {
            assert((old(out)@ + seq!['-']) + dec_digits(-(i as int)) =~= old(out)@ + int_text(
                i as int,
            ));
        }
    } else {
        push_dec(out, i as u64);
    }
}

/// Append a quoted, escaped string literal.
fn push_quoted(out: &mut String, s: &String)
    ensures
        final(out)@ == old(out)@ + quoted_text(s@),
{
    push_char(out, '"');
    let n = s.as_str().unicode_len();
    let mut i: usize = 0;
    proof {
        assert(escape_str(s@.subrange(0, 0)) =~= Seq::<char>::empty());
        assert(out@ =~= old(out)@.push('"'));
    }
    while i < n
        invariant
            n == s@.len(),
            i <= n,
            out@ =~= old(out)@ + seq!['"'] + escape_str(s@.subrange(0, i as int)),
        decreases n - i,
    {
        let c = s.as_str().get_char(i);
        proof {
            lemma_escape_snoc(s@.subrange(0, i as int), c);
            assert(s@.subrange(0, i as int + 1) =~= s@.subrange(0, i as int).push(c));
        }
        if c == '"' || c == '\\' {
            push_char(out, '\\');
        }
        push_char(out, c);
        i += 1;
    }
    push_char(out, '"');
    proof {
        assert(s@.subrange(0, n as int) =~= s@);
        assert(out@ =~= old(out)@ + quoted_text(s@));
    }
}

/// Render a scalar leaf as JSON text; `None` for a non-serializable leaf.
pub fn render_value(v: &Value) -> (r: Option<String>)
    ensures
        match r {
            Some(t) => v.spec_serializable() && t@ == scalar_text(v@),
            None => !v.spec_serializable(),
        },
{
    match v {
        Value::Null => Some("null".to_owned()),
        Value::Bool(b) => Some(if *b {
            "true".to_owned()
        } else {
            "false".to_owned()
        }),
        Value::Int(i) => {
            let mut out = String::new();
            push_int(&mut out, *i);
            proof {
                assert(Seq::<char>::empty() + int_text(*i as int) =~= int_text(*i as int));
            }
            Some(out)
        },
        Value::Str(s) => {
            let mut out = String::new();
            push_quoted(&mut out, s);
            proof {
                assert(Seq::<char>::empty() + quoted_text(s@) =~= quoted_text(s@));
            }
            Some(out)
        },
        Value::Opaque => None,
    }
}

/// Render a JSON tree as compact text.
pub fn render_json(j: &Json) -> (r: String)
    ensures
        r@ == json_text(*j),
{
    let mut out = String::new();
    push_json(&mut out, j);
    proof {
        assert(Seq::<char>::empty() + json_text(*j) =~= json_text(*j));
    }
    out
}

/// Append the compact text of a JSON tree.
#[verifier::loop_isolation(false)]
fn push_json(out: &mut String, j: &Json)
    ensures
        final(out)@ == old(out)@ + json_text(*j),
    decreases *j, (j->Object_0)@.len() + 1,
{
    match j {
        Json::Null => {
            out.append("null");
        },
        Json::Bool(b) => {
            if *b {
                out.append("true");
            } else {
                out.append("false");
            }
        },
        Json::Int(i) => {
            push_int(out, *i);
        },
        Json::Str(s) => {
            push_quoted(out, s);
        },
        Json::Object(es) => {
            push_char(out, '{');
            if es.len() > 0 {
                push_obj_body(out, j, 0);
            }
            push_char(out, '}');
            proof {
                if (j->Object_0)@.len() == 0 {
                    assert(obj_body_text(*j, 0) =~= Seq::<char>::empty());
                }
                assert(((old(out)@.push('{')) + obj_body_text(*j, 0)).push('}') =~= old(out)@
                    + json_text(*j));
            }
        },
    }
}

/// Append the object body from entry `k` on.
#[verifier::loop_isolation(false)]
fn push_obj_body(out: &mut String, j: &Json, k: usize)
    requires
        (*j) is Object,
        (k as int) < (j->Object_0)@.len(),
    ensures
        final(out)@ == old(out)@ + obj_body_text(*j, k as int),
    decreases *j, (j->Object_0)@.len() - k,
{
    match j {
        Json::Object(es) => {
            proof {
                assert(es@ == (j->Object_0)@);
            }
            push_quoted(out, &es[k].0);
            push_char(out, ':');
            push_json(out, &es[k].1);
            let ghost piece = quoted_text(es@[k as int].0@) + seq![':'] + json_text(
                es@[k as int].1,
            );
            proof {
                assert(out@ =~= old(out)@ + piece);
            }
            if k < es.len() - 1 {
                push_char(out, ',');
                push_obj_body(out, j, k + 1);
                proof {
                    assert(out@ =~= old(out)@ + obj_body_text(*j, k as int));
                }
            }
        },
        _ => {
            proof {
                assert(false);
            }
        },
    }
}


/// The characters a string literal body denotes: plain characters stand for
/// themselves, a backslash escapes exactly a quote or a backslash, and a
/// bare quote or a dangling backslash makes the body invalid.
pub open spec fn unescape(s: Seq<char>) -> Option<Seq<char>>
    decreases s.len(),
{
    if s.len() == 0 {
        Some(Seq::empty())
    } else if s[0] == '\\' {
        if s.len() >= 2 && (s[1] == '"' || s[1] == '\\') {
            match unescape(s.skip(2)) {
                Some(v) => Some(seq![s[1]] + v),
                None => None,
            }
        } else {
            None
        }
    } else if s[0] == '"' {
        None
    } else {
        match unescape(s.drop_first()) {
            Some(v) => Some(seq![s[0]] + v),
            None => None,
        }
    }
}

/// A JSON string literal: quoted, with a valid body.
pub open spec fn is_string_lit(s: Seq<char>) -> bool {
    s.len() >= 2 && s[0] == '"' && s[s.len() - 1] == '"' && unescape(s.subrange(1, s.len() - 1))
        is Some
}

/// Every character is a decimal digit.
pub open spec fn all_digits(s: Seq<char>) -> bool {
    forall|i: int| 0 <= i < s.len() ==> is_digit(#[trigger] s[i])
}

/// A well-formed JSON integer body: digits only, no leading zero.
pub open spec fn int_body_ok(s: Seq<char>) -> bool {
    s.len() >= 1 && all_digits(s) && (s[0] == '0' ==> s.len() == 1)
}

/// The value of a digit string, most significant first.
pub open spec fn digits_val(s: Seq<char>) -> int
    decreases s.len(),
{
    if s.len() == 0 {
        0
    } else {
        digits_val(s.drop_last()) * 10 + digit_val(s.last())
    }
}

/// The scalar grammar accepted from the store: `null`, the two booleans, a
/// string literal without escapes, or an integer that fits a 64-bit signed
/// value (`-0` and leading zeros are not integer texts).
pub open spec fn json_scalar(s: Seq<char>) -> Option<ValueV> {
    if s == "null"@ {
        Some(ValueV::Null)
    } else if s == "true"@ {
        Some(ValueV::Bool(true))
    } else if s == "false"@ {
        Some(ValueV::Bool(false))
    } else if is_string_lit(s) {
        Some(ValueV::Str(unescape(s.subrange(1, s.len() - 1))->Some_0))
    } else if s.len() >= 1 && s[0] == '-' {
        if int_body_ok(s.drop_first()) && 1 <= digits_val(s.drop_first())
            <= 0x8000000000000000 {
            Some(ValueV::Int(-digits_val(s.drop_first())))
        } else {
            None
        }
    } else if int_body_ok(s) && digits_val(s) <= 0x7fffffffffffffff {
        Some(ValueV::Int(digits_val(s)))
    } else {
        None
    }
}

proof fn lemma_digits_val_nonneg(s: Seq<char>)
    ensures
        digits_val(s) >= 0,
    decreases s.len(),
{
    if s.len() > 0 {
        lemma_digits_val_nonneg(s.drop_last());
    }
}

/// A digit string is worth at least any of its prefixes.
proof fn lemma_digits_val_prefix(s: Seq<char>, i: int, j: int)
    requires
        0 <= i <= j <= s.len(),
    ensures
        digits_val(s.subrange(0, j)) >= digits_val(s.subrange(0, i)),
    decreases j - i,
{
    if i < j {
        lemma_digits_val_prefix(s, i, j - 1);
        let p = s.subrange(0, j);
        assert(p.drop_last() =~= s.subrange(0, j - 1));
        lemma_digits_val_nonneg(p.drop_last());
    }
}

/// Not a keyword text unless it starts like one.
proof fn lemma_not_keyword(s: Seq<char>)
    requires
        s.len() == 0 || (s[0] != 'n' && s[0] != 't' && s[0] != 'f'),
    ensures
        s != "null"@,
        s != "true"@,
        s != "false"@,
{
    reveal_strlit("null");
    reveal_strlit("true");
    reveal_strlit("false");
}

/// Turn a digit character into its value, or report a non-digit.
fn digit_of(c: char) -> (r: Option<u64>)
    ensures
        match r {
            Some(d) => is_digit(c) && d < 10 && d as int == digit_val(c),
            None => !is_digit(c),
        },
{
    match c {
        '0' => Some(0),
        '1' => Some(1),
        '2' => Some(2),
        '3' => Some(3),
        '4' => Some(4),
        '5' => Some(5),
        '6' => Some(6),
        '7' => Some(7),
        '8' => Some(8),
        '9' => Some(9),
        _ => None,
    }
}

/// Whether `s` is exactly `null`.
fn eq_null(s: &str) -> (b: bool)
    ensures
        b == (s@ == "null"@),
{
    proof {
        reveal_strlit("null");
    }
    if s.unicode_len() != 4 {
        return false;
    }
    let b = s.get_char(0) == 'n' && s.get_char(1) == 'u' && s.get_char(2) == 'l' && s.get_char(3)
        == 'l';
    proof {
        if b {
            assert(s@ =~= "null"@);
        }
    }
    b
}

/// Whether `s` is exactly `true`.
fn eq_true(s: &str) -> (b: bool)
    ensures
        b == (s@ == "true"@),
{
    proof {
        reveal_strlit("true");
    }
    if s.unicode_len() != 4 {
        return false;
    }
    let b = s.get_char(0) == 't' && s.get_char(1) == 'r' && s.get_char(2) == 'u' && s.get_char(3)
        == 'e';
    proof {
        if b {
            assert(s@ =~= "true"@);
        }
    }
    b
}

/// Whether `s` is exactly `false`.
fn eq_false(s: &str) -> (b: bool)
    ensures
        b == (s@ == "false"@),
{
    proof {
        reveal_strlit("false");
    }
    if s.unicode_len() != 5 {
        return false;
    }
    let b = s.get_char(0) == 'f' && s.get_char(1) == 'a' && s.get_char(2) == 'l' && s.get_char(3)
        == 's' && s.get_char(4) == 'e';
    proof {
        if b {
            assert(s@ =~= "false"@);
        }
    }
    b
}

/// Parse one scalar JSON text, exactly as [`json_scalar`] says: `None` is a
/// malformed (or unsupported) text, which an input binding skips.
///
/// The result is pinned by the grammar alone.
#[verifier::loop_isolation(false)]
pub fn parse_json_value(s: &str) -> (r: Option<Value>)
    ensures
        (match r {
            Some(v) => json_scalar(s@) == Some(v@),
            None => json_scalar(s@) is None,
        }),
{
    let n = s.unicode_len();
    if n == 0 {
        proof {
            lemma_not_keyword(s@);
        }
        return None;
    }
    let c0 = s.get_char(0);
    if c0 == 'n' || c0 == 't' || c0 == 'f' {
        proof {
            reveal_strlit("null");
            reveal_strlit("true");
            reveal_strlit("false");
        }
        if eq_null(s) {
            return Some(Value::Null);
        }
        if eq_true(s) {
            return Some(Value::Bool(true));
        }
        if eq_false(s) {
            return Some(Value::Bool(false));
        }
        return None;
    }
    proof {
        lemma_not_keyword(s@);
    }
    if c0 == '"' {
        if n < 2 || s.get_char(n - 1) != '"' {
            return None;
        }
        let ghost m = s@.subrange(1, n as int - 1);
        let mut body = String::new();
        let mut i: usize = 1;
        proof {
            assert(m.skip(0) =~= m);
        }
        while i < n - 1
            invariant
                n == s@.len(),
                n >= 2,
                1 <= i <= n - 1,
                unescape(m) == (match unescape(m.skip(i as int - 1)) {
                    Some(v) => Some(body@ + v),
                    None => None,
                }),
            decreases n - i,
        {
            let ghost rem = m.skip(i as int - 1);
            proof {
                assert(rem[0] == s@[i as int]);
            }
            let c = s.get_char(i);
            if c == '\\' {
                if i + 1 >= n - 1 {
                    // A dangling escape at the end of the body.
                    proof {
                        assert(rem.len() < 2);
                        assert(unescape(m) is None);
                        assert(!is_string_lit(s@));
                    }
                    return None;
                }
                proof {
                    assert(rem[1] == s@[i as int + 1]);
                }
                let c2 = s.get_char(i + 1);
                if c2 == '"' || c2 == '\\' {
                    let ghost body0 = body@;
                    push_char(&mut body, c2);
                    proof {
                        assert(rem.skip(2) =~= m.skip(i as int + 1));
                        if unescape(m.skip(i as int + 1)) is Some {
                            let v = unescape(m.skip(i as int + 1))->Some_0;
                            assert(unescape(rem) == Some(seq![c2] + v));
                            assert(body0 + (seq![c2] + v) =~= body@ + v);
                        } else {
                            assert(unescape(rem) is None);
                        }
                    }
                    i += 2;
                } else {
                    proof {
                        assert(unescape(rem) is None);
                        assert(unescape(m) is None);
                        assert(!is_string_lit(s@));
                    }
                    return None;
                }
            } else if c == '"' {
                proof {
                    assert(unescape(rem) is None);
                    assert(unescape(m) is None);
                    assert(!is_string_lit(s@));
                }
                return None;
            } else {
                push_char(&mut body, c);
                proof {
                    assert(rem.drop_first() =~= m.skip(i as int));
                }
                i += 1;
            }
        }
        proof {
            assert(m.skip(n as int - 2) =~= Seq::<char>::empty());
            assert(unescape(m) == Some(body@));
            assert(is_string_lit(s@));
            assert(m =~= s@.subrange(1, s@.len() - 1));
        }
        return Some(Value::Str(body));
    }
    // An integer, or nothing.
    let neg = c0 == '-';
    let start: usize = if neg {
        1
    } else {
        0
    };
    if n == start {
        // A bare minus sign.
        return None;
    }
    let ghost body = if neg {
        s@.drop_first()
    } else {
        s@
    };
    proof {
        assert(body =~= s@.subrange(start as int, n as int));
    }
    let d0 = s.get_char(start);
    if d0 == '0' && n - start > 1 {
        // A leading zero is not an integer text.
        return None;
    }
    let max_mag: u64 = if neg {
        9223372036854775808u64
    } else {
        9223372036854775807u64
    };
    let mut acc: u64 = 0;
    let mut i: usize = start;
    proof {
        assert(s@.subrange(start as int, start as int) =~= Seq::<char>::empty());
    }
    while i < n
        invariant
            n == s@.len(),
            start <= i <= n,
            start < n,
            neg ==> start == 1 && s@[0] == '-',
            !neg ==> start == 0,
            acc <= max_mag,
            neg ==> max_mag == 9223372036854775808u64,
            !neg ==> max_mag == 9223372036854775807u64,
            acc as int == digits_val(s@.subrange(start as int, i as int)),
            forall|t: int| start <= t < i ==> is_digit(#[trigger] s@[t]),
        decreases n - i,
    {
        let c = s.get_char(i);
        let d = match digit_of(c) {
            Some(d) => d,
            None => {
                // Not a digit: not an integer text (and nothing else fits).
                proof {
                    if neg {
                        assert(body[i as int - 1] == s@[i as int]);
                        assert(!is_digit(body[i as int - 1]));
                        assert(!all_digits(body));
                    } else {
                        assert(!is_digit(s@[i as int]));
                        assert(!all_digits(s@));
                    }
                }
                return None;
            },
        };
        let wide: u128 = acc as u128 * 10 + d as u128;
        proof {
            assert(s@.subrange(start as int, i as int + 1).drop_last() =~= s@.subrange(
                start as int,
                i as int,
            ));
            assert(wide as int == digits_val(s@.subrange(start as int, i as int + 1)));
        }
        if wide > max_mag as u128 {
            // Too large for a 64-bit signed value.
            proof {
                lemma_digits_val_prefix(body, i as int + 1 - start as int, body.len() as int);
                assert(body.subrange(0, body.len() as int) =~= body);
                assert(body.subrange(0, i as int + 1 - start as int) =~= s@.subrange(
                    start as int,
                    i as int + 1,
                ));
                lemma_digits_val_nonneg(body);
            }
            return None;
        }
        acc = wide as u64;
        i += 1;
    }
    proof {
        assert(s@.subrange(start as int, n as int) =~= body);
        assert(acc as int == digits_val(body));
        if neg {
            assert forall|t: int| 0 <= t < body.len() implies is_digit(#[trigger] body[t]) by {
                assert(body[t] == s@[t + 1]);
            }
        }
        assert(int_body_ok(body));
    }
    if neg {
        if acc == 0 {
            // `-0` is not an integer text.
            return None;
        }
        let v: i64 = if acc == 9223372036854775808u64 {
            i64::MIN
        } else {
            -(acc as i64)
        };
        proof {
            assert(v as int == -(acc as int));
        }
        Some(Value::Int(v))
    } else {
        Some(Value::Int(acc as i64))
    }
}


proof fn lemma_digit_round_trip(d: int)
    requires
        0 <= d < 10,
    ensures
        digit_val(digit_char(d)) == d,
        is_digit(digit_char(d)),
{
}

proof fn lemma_dec_digits_shape(n: int)
    requires
        n >= 0,
    ensures
        all_digits(dec_digits(n)),
        dec_digits(n).len() >= 1,
        dec_digits(n)[0] == '0' ==> n == 0,
        digits_val(dec_digits(n)) == n,
    decreases n,
{
    if n < 10 {
        lemma_digit_round_trip(n);
        let dd = dec_digits(n);
        assert(dd =~= seq![digit_char(n)]);
        assert(dd.drop_last() =~= Seq::<char>::empty());
        assert(dd.last() == digit_char(n));
        assert(dd.len() == 1);
        assert(digits_val(dd.drop_last()) == 0);
        assert(digits_val(dd) == digits_val(dd.drop_last()) * 10 + digit_val(dd.last()));
    } else {
        lemma_digit_round_trip(n % 10);
        lemma_dec_digits_shape(n / 10);
        let d = dec_digits(n / 10);
        assert(dec_digits(n) == d.push(digit_char(n % 10)));
        assert(d.push(digit_char(n % 10)).drop_last() =~= d);
        assert forall|i: int| 0 <= i < dec_digits(n).len() implies is_digit(
            #[trigger] dec_digits(n)[i],
        ) by {
            if i < d.len() {
                assert(dec_digits(n)[i] == d[i]);
            }
        }
        assert(dec_digits(n)[0] == d[0]);
    }
}

/// Law: rendering a serializable scalar and parsing the text gives the very
/// value back — the output bindings and the input bindings are inverse on
/// the scalars both understand (strings: those without quotes and
/// backslashes, which the renderer would escape).
pub proof fn lemma_scalar_round_trip(v: ValueV)
    requires
        !(v is Opaque),
        v matches ValueV::Int(i) ==> -0x8000000000000000 <= i <= 0x7fffffffffffffff,
    ensures
        json_scalar(scalar_text(v)) == Some(v),
{
    reveal_strlit("null");
    reveal_strlit("true");
    reveal_strlit("false");
    match v {
        ValueV::Null => {
            assert(scalar_text(v) == "null"@);
            assert(json_scalar("null"@) == Some(ValueV::Null));
        },
        ValueV::Bool(b) => {
            assert("null"@[0] == 'n' && "true"@[0] == 't' && "false"@[0] == 'f');
            assert("true"@ != "null"@);
            assert("false"@ != "null"@ && "false"@ != "true"@);
            if b {
                assert(json_scalar("true"@) == Some(ValueV::Bool(true)));
            } else {
                assert(json_scalar("false"@) == Some(ValueV::Bool(false)));
            }
        },
        ValueV::Int(i) => {
            let mag = if i >= 0 {
                i
            } else {
                -i
            };
            lemma_dec_digits_shape(mag);
            let t = scalar_text(v);
            assert(is_digit(t[0]) || t[0] == '-');
            assert(t != "null"@ && t != "true"@ && t != "false"@);
            assert(!is_string_lit(t));
            if i >= 0 {
                assert(t == dec_digits(i));
                assert(t[0] != '-');
                assert(int_body_ok(t));
                assert(digits_val(t) == i);
            } else {
                assert(t == seq!['-'] + dec_digits(mag));
                assert(t[0] == '-');
                assert(t.drop_first() =~= dec_digits(mag));
                assert(int_body_ok(t.drop_first()));
                assert(digits_val(t.drop_first()) == mag);
                assert(1 <= mag <= 0x8000000000000000);
            }
        },
        ValueV::Str(sq) => {
            lemma_unescape_escape(sq);
            let t = scalar_text(v);
            assert(t[0] == '"');
            assert(t[t.len() - 1] == '"');
            assert(t.subrange(1, t.len() - 1) =~= escape_str(sq));
            assert(is_string_lit(t));
            assert(t != "null"@ && t != "true"@ && t != "false"@);
        },
        ValueV::Opaque => {},
    }
}

/// Unescaping inverts escaping: the renderer and the parser agree on every
/// string value.
proof fn lemma_unescape_escape(v: Seq<char>)
    ensures
        unescape(escape_str(v)) == Some(v),
    decreases v.len(),
{
    if v.len() == 0 {
        assert(escape_str(v) =~= Seq::<char>::empty());
    } else {
        lemma_unescape_escape(v.drop_first());
        let e = escape_str(v);
        if v[0] == '"' || v[0] == '\\' {
            assert(e[0] == '\\' && e[1] == v[0]);
            assert(e.skip(2) =~= escape_str(v.drop_first()));
            assert(unescape(e) == Some(seq![v[0]] + v.drop_first()));
            assert(seq![v[0]] + v.drop_first() =~= v);
        } else {
            assert(e[0] == v[0]);
            assert(e.drop_first() =~= escape_str(v.drop_first()));
            assert(seq![v[0]] + v.drop_first() =~= v);
        }
    }
}

} // verus!
