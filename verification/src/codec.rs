//! The line codec: compact JSON text for the value model, with an exact
//! serialization spec, an encoder proved against it, and a decoder that
//! inverts the encoder.

use vstd::prelude::*;
use crate::json::{Json, JsonField, JsonV, json_view, json_views, field_views, wf_json};
use crate::json::{wf_jsons, wf_fields, chars_to_string_range};
use crate::json::{chars_to_string, str_to_chars};

verus! {

// ---------------------------------------------------------------------
// Character classes
// ---------------------------------------------------------------------

pub open spec fn is_digit(c: char) -> bool {
    0x30 <= c as u32 <= 0x39
}

pub open spec fn digit_val(c: char) -> int {
    c as u32 - 0x30
}

pub open spec fn digit_char(d: int) -> char {
    if d == 0 {
        '0'
    } else if d == 1 {
        '1'
    } else if d == 2 {
        '2'
    } else if d == 3 {
        '3'
    } else if d == 4 {
        '4'
    } else if d == 5 {
        '5'
    } else if d == 6 {
        '6'
    } else if d == 7 {
        '7'
    } else if d == 8 {
        '8'
    } else {
        '9'
    }
}

pub open spec fn is_ws(c: char) -> bool {
    c == ' ' || c == '\t' || c == '\n' || c == '\r'
}

// ---------------------------------------------------------------------
// Serialization spec
// ---------------------------------------------------------------------

/// The decimal digits of `n`, most significant first.
pub open spec fn ser_digits(n: nat) -> Seq<char>
    decreases n,
{
    if n < 10 {
        seq![digit_char(n as int)]
    } else {
        ser_digits(n / 10).push(digit_char((n % 10) as int))
    }
}

/// The decimal rendering of `n`, with a leading `-` when negative.
pub open spec fn ser_int(n: int) -> Seq<char> {
    if n < 0 {
        seq!['-'] + ser_digits((-n) as nat)
    } else {
        ser_digits(n as nat)
    }
}

/// The lowercase hex digit for a value below 16.
pub open spec fn hex_char(d: int) -> char {
    if d == 0 {
        '0'
    } else if d == 1 {
        '1'
    } else if d == 2 {
        '2'
    } else if d == 3 {
        '3'
    } else if d == 4 {
        '4'
    } else if d == 5 {
        '5'
    } else if d == 6 {
        '6'
    } else if d == 7 {
        '7'
    } else if d == 8 {
        '8'
    } else if d == 9 {
        '9'
    } else if d == 10 {
        'a'
    } else if d == 11 {
        'b'
    } else if d == 12 {
        'c'
    } else if d == 13 {
        'd'
    } else if d == 14 {
        'e'
    } else {
        'f'
    }
}

pub open spec fn is_hex(c: char) -> bool {
    (0x30 <= c as u32 && c as u32 <= 0x39) || (0x61 <= c as u32 && c as u32 <= 0x66) || (0x41
        <= c as u32 && c as u32 <= 0x46)
}

/// The value of a hex digit, either case.
pub open spec fn hex_val(c: char) -> int {
    if 0x30 <= c as u32 && c as u32 <= 0x39 {
        c as u32 - 0x30
    } else if 0x61 <= c as u32 && c as u32 <= 0x66 {
        c as u32 - 0x61 + 10
    } else {
        c as u32 - 0x41 + 10
    }
}

/// How one character appears inside a string literal: itself when
/// printable, a two-character escape for the common control characters,
/// and a `\u00XX` escape for the rest of them.
pub open spec fn esc_char(c: char) -> Seq<char> {
    if c == '"' {
        seq!['\\', '"']
    } else if c == '\\' {
        seq!['\\', '\\']
    } else if c == '\n' {
        seq!['\\', 'n']
    } else if c == '\t' {
        seq!['\\', 't']
    } else if c == '\r' {
        seq!['\\', 'r']
    } else if c == '\u{8}' {
        seq!['\\', 'b']
    } else if c == '\u{c}' {
        seq!['\\', 'f']
    } else if (c as u32) < 0x20 {
        seq!['\\', 'u', '0', '0', hex_char(c as u32 as int / 16), hex_char(c as u32 as int % 16)]
    } else {
        seq![c]
    }
}

/// The body of a string literal, without the surrounding quotes.
pub open spec fn ser_str_body(s: Seq<char>) -> Seq<char>
    decreases s.len(),
{
    if s.len() == 0 {
        Seq::empty()
    } else {
        esc_char(s[0]) + ser_str_body(s.subrange(1, s.len() as int))
    }
}

/// A quoted string literal.
pub open spec fn ser_str(s: Seq<char>) -> Seq<char> {
    seq!['"'] + ser_str_body(s) + seq!['"']
}

/// The compact (no whitespace) rendering of a value.
pub open spec fn ser_json(v: JsonV) -> Seq<char>
    decreases v,
{
    match v {
        JsonV::Null => seq!['n', 'u', 'l', 'l'],
        JsonV::Bool(b) => if b {
            seq!['t', 'r', 'u', 'e']
        } else {
            seq!['f', 'a', 'l', 's', 'e']
        },
        JsonV::Int(n) => ser_int(n),
        JsonV::Num(m) => m,
        JsonV::Str(s) => ser_str(s),
        JsonV::Arr(items) => seq!['['] + ser_items(items) + seq![']'],
        JsonV::Obj(fields) => seq!['{'] + ser_fields(fields) + seq!['}'],
    }
}

/// Array elements, comma-separated.
pub open spec fn ser_items(items: Seq<JsonV>) -> Seq<char>
    decreases items,
{
    if items.len() == 0 {
        Seq::empty()
    } else {
        ser_json(items[0]) + ser_rest(items.subrange(1, items.len() as int))
    }
}

/// Array elements each preceded by a comma.
pub open spec fn ser_rest(items: Seq<JsonV>) -> Seq<char>
    decreases items,
{
    if items.len() == 0 {
        Seq::empty()
    } else {
        seq![','] + ser_json(items[0]) + ser_rest(items.subrange(1, items.len() as int))
    }
}

/// Object members, comma-separated.
pub open spec fn ser_fields(fields: Seq<(Seq<char>, JsonV)>) -> Seq<char>
    decreases fields,
{
    if fields.len() == 0 {
        Seq::empty()
    } else {
        ser_str(fields[0].0) + seq![':'] + ser_json(fields[0].1) + ser_frest(
            fields.subrange(1, fields.len() as int),
        )
    }
}

/// Object members each preceded by a comma.
pub open spec fn ser_frest(fields: Seq<(Seq<char>, JsonV)>) -> Seq<char>
    decreases fields,
{
    if fields.len() == 0 {
        Seq::empty()
    } else {
        seq![','] + ser_str(fields[0].0) + seq![':'] + ser_json(fields[0].1) + ser_frest(
            fields.subrange(1, fields.len() as int),
        )
    }
}

// ---------------------------------------------------------------------
// Encoder
// ---------------------------------------------------------------------

/// The character for one decimal digit.
fn digit_to_char(d: u64) -> (r: char)
    requires
        d < 10,
    ensures
        r == digit_char(d as int),
{
    if d == 0 {
        '0'
    } else if d == 1 {
        '1'
    } else if d == 2 {
        '2'
    } else if d == 3 {
        '3'
    } else if d == 4 {
        '4'
    } else if d == 5 {
        '5'
    } else if d == 6 {
        '6'
    } else if d == 7 {
        '7'
    } else if d == 8 {
        '8'
    } else {
        '9'
    }
}

/// The lowercase hex digit character for a value below 16.
fn hex_to_char(d: u32) -> (r: char)
    requires
        d < 16,
    ensures
        r == hex_char(d as int),
{
    if d == 0 {
        '0'
    } else if d == 1 {
        '1'
    } else if d == 2 {
        '2'
    } else if d == 3 {
        '3'
    } else if d == 4 {
        '4'
    } else if d == 5 {
        '5'
    } else if d == 6 {
        '6'
    } else if d == 7 {
        '7'
    } else if d == 8 {
        '8'
    } else if d == 9 {
        '9'
    } else if d == 10 {
        'a'
    } else if d == 11 {
        'b'
    } else if d == 12 {
        'c'
    } else if d == 13 {
        'd'
    } else if d == 14 {
        'e'
    } else {
        'f'
    }
}

/// Appends the decimal digits of `m`.
fn push_digits(m: u64, out: &mut Vec<char>)
    ensures
        final(out)@ == old(out)@ + ser_digits(m as nat),
{
    if m == 0 {
        out.push('0');
        proof {
            assert(ser_digits(0) =~= seq!['0']);
            assert(final(out)@ =~= old(out)@ + ser_digits(0));
        }
        return ;
    }
    let mut temp: Vec<char> = Vec::new();
    let mut cur: u64 = m;
    while cur > 0
        invariant
            cur > 0 ==> ser_digits(m as nat) =~= ser_digits(cur as nat) + temp@.reverse(),
            cur == 0 ==> ser_digits(m as nat) =~= temp@.reverse(),
        decreases cur,
    {
        let ghost temp0 = temp@;
        let ghost cur0 = cur as nat;
        let d = cur % 10;
        temp.push(digit_to_char(d));
        cur = cur / 10;
        proof {
            assert(temp@.reverse() =~= seq![digit_char(d as int)] + temp0.reverse());
            if cur0 < 10 {
                assert(cur == 0);
                assert(d == cur0);
                assert(ser_digits(cur0) =~= seq![digit_char(d as int)]);
                assert(ser_digits(m as nat) =~= temp@.reverse());
            } else {
                assert(cur as nat == cur0 / 10);
                assert(ser_digits(cur0) =~= ser_digits(cur0 / 10).push(digit_char((cur0 % 10) as int)));
                assert(ser_digits(cur0) =~= ser_digits(cur as nat) + seq![digit_char(d as int)]);
                assert(ser_digits(m as nat) =~= ser_digits(cur as nat) + temp@.reverse());
            }
        }
    }
    let ghost base = out@;
    let mut k: usize = temp.len();
    while k > 0
        invariant
            k <= temp@.len(),
            ser_digits(m as nat) =~= temp@.reverse(),
            out@ =~= base + temp@.reverse().subrange(0, temp@.len() - k),
        decreases k,
    {
        out.push(temp[k - 1]);
        k = k - 1;
        proof {
            assert(temp@.reverse()[temp@.len() - 1 - (k as int)] == temp@[k as int]);
            assert(out@ =~= base + temp@.reverse().subrange(0, temp@.len() - k));
        }
    }
    proof {
        assert(temp@.reverse().subrange(0, temp@.len() as int) =~= temp@.reverse());
        assert(out@ =~= base + ser_digits(m as nat));
    }
}

/// Appends the decimal rendering of `n`.
fn push_int(n: i64, out: &mut Vec<char>)
    ensures
        final(out)@ == old(out)@ + ser_int(n as int),
{
    if n >= 0 {
        push_digits(n as u64, out);
    } else {
        out.push('-');
        let m: u64 = ((-1 - n) as u64) + 1;
        proof {
            assert(m as nat == (-(n as int)) as nat);
        }
        let ghost mid = out@;
        push_digits(m, out);
        proof {
            assert(out@ =~= old(out)@ + ser_int(n as int));
        }
    }
}

/// Splitting a string splits its literal body.
pub proof fn lemma_ser_str_body_concat(a: Seq<char>, b: Seq<char>)
    ensures
        ser_str_body(a + b) == ser_str_body(a) + ser_str_body(b),
    decreases a.len(),
{
    if a.len() == 0 {
        assert(a + b =~= b);
        assert(ser_str_body(a) + ser_str_body(b) =~= ser_str_body(b));
    } else {
        let at = a.subrange(1, a.len() as int);
        lemma_ser_str_body_concat(at, b);
        assert((a + b).subrange(1, (a + b).len() as int) =~= at + b);
        assert((a + b)[0] == a[0]);
        assert(ser_str_body(a + b) =~= esc_char(a[0]) + (ser_str_body(at) + ser_str_body(b)));
        assert(ser_str_body(a) + ser_str_body(b) =~= (esc_char(a[0]) + ser_str_body(at))
            + ser_str_body(b));
    }
}

/// Appends a quoted string literal.
fn push_str_lit(s: &str, out: &mut Vec<char>)
    ensures
        final(out)@ == old(out)@ + ser_str(s@),
{
    out.push('"');
    let cs = str_to_chars(s);
    let ghost base = out@;
    let mut i: usize = 0;
    while i < cs.len()
        invariant
            i <= cs@.len(),
            cs@ == s@,
            out@ =~= base + ser_str_body(s@.subrange(0, i as int)),
        decreases cs@.len() - i,
    {
        let c = cs[i];
        if c == '"' {
            out.push('\\');
            out.push('"');
        } else if c == '\\' {
            out.push('\\');
            out.push('\\');
        } else if c == '\n' {
            out.push('\\');
            out.push('n');
        } else if c == '\t' {
            out.push('\\');
            out.push('t');
        } else if c == '\r' {
            out.push('\\');
            out.push('r');
        } else if c == '\u{8}' {
            out.push('\\');
            out.push('b');
        } else if c == '\u{c}' {
            out.push('\\');
            out.push('f');
        } else if (c as u32) < 0x20 {
            let u = c as u32;
            out.push('\\');
            out.push('u');
            out.push('0');
            out.push('0');
            out.push(hex_to_char(u / 16));
            out.push(hex_to_char(u % 16));
        } else {
            out.push(c);
        }
        i = i + 1;
        proof {
            let pre = s@.subrange(0, i - 1);
            let one = seq![s@[i - 1]];
            lemma_ser_str_body_concat(pre, one);
            assert(s@.subrange(0, i as int) =~= pre + one);
            assert(one.subrange(1, 1) =~= Seq::<char>::empty());
            assert(ser_str_body(Seq::<char>::empty()) =~= Seq::<char>::empty());
            assert(ser_str_body(one) =~= esc_char(s@[i - 1]));
            assert(out@ =~= base + ser_str_body(s@.subrange(0, i as int)));
        }
    }
    proof {
        assert(s@.subrange(0, s@.len() as int) =~= s@);
    }
    out.push('"');
    proof {
        assert(out@ =~= old(out)@ + ser_str(s@));
    }
}

/// Appends the rendering of a value.
fn write_json(j: &Json, out: &mut Vec<char>)
    requires
        wf_json(json_view(*j)),
    ensures
        final(out)@ == old(out)@ + ser_json(json_view(*j)),
    decreases *j, 0int,
{
    match j {
        Json::Null => {
            out.push('n');
            out.push('u');
            out.push('l');
            out.push('l');
            proof {
                assert(out@ =~= old(out)@ + ser_json(json_view(*j)));
            }
        },
        Json::Bool(b) => {
            if *b {
                out.push('t');
                out.push('r');
                out.push('u');
                out.push('e');
            } else {
                out.push('f');
                out.push('a');
                out.push('l');
                out.push('s');
                out.push('e');
            }
            proof {
                assert(out@ =~= old(out)@ + ser_json(json_view(*j)));
            }
        },
        Json::Int(n) => {
            push_int(*n, out);
        },
        Json::Num(m) => {
            let cs = str_to_chars(m.as_str());
            let ghost base = out@;
            let mut k: usize = 0;
            while k < cs.len()
                invariant
                    0 <= k <= cs@.len(),
                    cs@ == m@,
                    out@ =~= base + m@.subrange(0, k as int),
                decreases cs@.len() - k,
            {
                out.push(cs[k]);
                k = k + 1;
                proof {
                    assert(out@ =~= base + m@.subrange(0, k as int));
                }
            }
            proof {
                assert(m@.subrange(0, m@.len() as int) =~= m@);
                assert(out@ =~= old(out)@ + ser_json(json_view(*j)));
            }
        },
        Json::Str(s) => {
            push_str_lit(s.as_str(), out);
        },
        Json::Arr(items) => {
            proof {
                assert(decreases_to!(*j => *items));
                assert(decreases_to!(*items => items@));
            }
            let ghost vs = json_views(items@);
            proof {
                crate::json::lemma_json_views(items@);
            }
            out.push('[');
            if items.len() > 0 {
                proof {
                    assert(decreases_to!(items@ => items@[0]));
                    crate::json::lemma_wf_jsons(vs);
                    assert(wf_json(vs[0]));
                }
                write_json(&items[0], out);
                write_rest(items, 1, out);
            }
            out.push(']');
            proof {
                if items@.len() > 0 {
                    assert(vs.subrange(1, vs.len() as int) =~= json_views(items@).subrange(
                        1,
                        items@.len() as int,
                    ));
                    assert(ser_items(vs) =~= ser_json(vs[0]) + ser_rest(
                        vs.subrange(1, vs.len() as int),
                    ));
                } else {
                    assert(ser_items(vs) =~= Seq::<char>::empty());
                }
                assert(out@ =~= old(out)@ + ser_json(json_view(*j)));
            }
        },
        Json::Obj(fields) => {
            proof {
                assert(decreases_to!(*j => *fields));
                assert(decreases_to!(*fields => fields@));
            }
            let ghost fs = field_views(fields@);
            proof {
                crate::json::lemma_field_views(fields@);
            }
            out.push('{');
            if fields.len() > 0 {
                proof {
                    assert(decreases_to!(fields@ => fields@[0]));
                    crate::json::lemma_wf_fields(fs);
                    assert(wf_json(fs[0].1));
                }
                push_str_lit(fields[0].key.as_str(), out);
                out.push(':');
                write_json(&fields[0].value, out);
                write_frest(fields, 1, out);
            }
            out.push('}');
            proof {
                if fields@.len() > 0 {
                    assert(fs.subrange(1, fs.len() as int) =~= field_views(fields@).subrange(
                        1,
                        fields@.len() as int,
                    ));
                    assert(ser_fields(fs) =~= ser_str(fs[0].0) + seq![':'] + ser_json(fs[0].1)
                        + ser_frest(fs.subrange(1, fs.len() as int)));
                } else {
                    assert(ser_fields(fs) =~= Seq::<char>::empty());
                }
                assert(out@ =~= old(out)@ + ser_json(json_view(*j)));
            }
        },
    }
}

/// Appends `,element` for each element from `from` on.
fn write_rest(items: &Vec<Json>, from: usize, out: &mut Vec<char>)
    requires
        1 <= from <= items@.len(),
        wf_json(JsonV::Arr(json_views(items@))),
    ensures
        final(out)@ == old(out)@ + ser_rest(
            json_views(items@).subrange(from as int, items@.len() as int),
        ),
    decreases *items, items@.len() - from,
{
    let ghost vs = json_views(items@);
    proof {
        crate::json::lemma_json_views(items@);
    }
    if from < items.len() {
        proof {
            assert(decreases_to!(*items => items@));
            assert(decreases_to!(items@ => items@[from as int]));
            crate::json::lemma_wf_jsons(vs);
            assert(wf_json(vs[from as int]));
        }
        out.push(',');
        write_json(&items[from], out);
        write_rest(items, from + 1, out);
        proof {
            let sub = vs.subrange(from as int, vs.len() as int);
            assert(sub[0] == vs[from as int]);
            assert(sub.subrange(1, sub.len() as int) =~= vs.subrange(from + 1, vs.len() as int));
            assert(ser_rest(sub) =~= seq![','] + ser_json(vs[from as int]) + ser_rest(
                vs.subrange(from + 1, vs.len() as int),
            ));
            assert(out@ =~= old(out)@ + ser_rest(sub));
        }
    } else {
        proof {
            assert(vs.subrange(from as int, vs.len() as int) =~= Seq::<JsonV>::empty());
            assert(out@ =~= old(out)@ + ser_rest(vs.subrange(from as int, vs.len() as int)));
        }
    }
}

/// Appends `,"key":value` for each member from `from` on.
fn write_frest(fields: &Vec<JsonField>, from: usize, out: &mut Vec<char>)
    requires
        1 <= from <= fields@.len(),
        wf_json(JsonV::Obj(field_views(fields@))),
    ensures
        final(out)@ == old(out)@ + ser_frest(
            field_views(fields@).subrange(from as int, fields@.len() as int),
        ),
    decreases *fields, fields@.len() - from,
{
    let ghost fs = field_views(fields@);
    proof {
        crate::json::lemma_field_views(fields@);
    }
    if from < fields.len() {
        proof {
            assert(decreases_to!(*fields => fields@));
            assert(decreases_to!(fields@ => fields@[from as int]));
            crate::json::lemma_wf_fields(fs);
            assert(wf_json(fs[from as int].1));
        }
        out.push(',');
        push_str_lit(fields[from].key.as_str(), out);
        out.push(':');
        write_json(&fields[from].value, out);
        write_frest(fields, from + 1, out);
        proof {
            let sub = fs.subrange(from as int, fs.len() as int);
            assert(sub[0] == fs[from as int]);
            assert(sub.subrange(1, sub.len() as int) =~= fs.subrange(from + 1, fs.len() as int));
            assert(ser_frest(sub) =~= seq![','] + ser_str(fs[from as int].0) + seq![':']
                + ser_json(fs[from as int].1) + ser_frest(fs.subrange(from + 1, fs.len() as int)));
            assert(out@ =~= old(out)@ + ser_frest(sub));
        }
    } else {
        proof {
            assert(fs.subrange(from as int, fs.len() as int) =~= Seq::<(Seq<char>, JsonV)>::empty());
            assert(out@ =~= old(out)@ + ser_frest(fs.subrange(from as int, fs.len() as int)));
        }
    }
}

// ---------------------------------------------------------------------
// Decoder
// ---------------------------------------------------------------------

/// `pat` occurs in `s` starting at `i`.
pub open spec fn matches_at(s: Seq<char>, i: int, pat: Seq<char>) -> bool {
    0 <= i && i + pat.len() <= s.len() && s.subrange(i, i + pat.len()) == pat
}

/// A character that could extend a number token.
pub open spec fn num_cont(c: char) -> bool {
    is_digit(c) || c == '.' || c == 'e' || c == 'E'
}

/// Position `j` does not continue a number token: the end of input or a
/// character no number contains.
pub open spec fn delim_at(s: Seq<char>, j: int) -> bool {
    j >= s.len() || !num_cont(s[j])
}

/// The value of a digit string, most significant digit first.
pub open spec fn digits_val(s: Seq<char>) -> int
    decreases s.len(),
{
    if s.len() == 0 {
        0
    } else {
        digits_val(s.subrange(0, s.len() - 1)) * 10 + digit_val(s[s.len() - 1])
    }
}

/// The digits of `n` are decimal digits, at least one of them, starting
/// with `0` only for `n == 0`.
pub proof fn lemma_ser_digits_shape(n: nat)
    ensures
        ser_digits(n).len() >= 1,
        forall|i: int| 0 <= i < ser_digits(n).len() ==> is_digit(#[trigger] ser_digits(n)[i]),
        ser_digits(n)[0] == '0' ==> n == 0,
        n < 10 ==> ser_digits(n) == seq![digit_char(n as int)],
    decreases n,
{
    if n < 10 {
        assert(is_digit(digit_char(n as int)));
        assert(digit_char(n as int) == '0' ==> n == 0);
    } else {
        lemma_ser_digits_shape(n / 10);
        let pre = ser_digits(n / 10);
        assert(ser_digits(n) == pre.push(digit_char((n % 10) as int)));
        assert(ser_digits(n)[0] == pre[0]);
        assert(n / 10 >= 1);
        assert forall|i: int| 0 <= i < ser_digits(n).len() implies is_digit(
            #[trigger] ser_digits(n)[i],
        ) by {
            if i < pre.len() {
                assert(ser_digits(n)[i] == pre[i]);
            } else {
                assert(ser_digits(n)[i] == digit_char((n % 10) as int));
            }
        }
    }
}

/// Reading the digits of `n` back gives `n`.
pub proof fn lemma_digits_val_ser(n: nat)
    ensures
        digits_val(ser_digits(n)) == n,
    decreases n,
{
    if n < 10 {
        let s = ser_digits(n);
        assert(s.subrange(0, 0) =~= Seq::<char>::empty());
        assert(digits_val(Seq::<char>::empty()) == 0);
        assert(digit_val(digit_char(n as int)) == n);
        assert(digits_val(s) == digits_val(s.subrange(0, 0)) * 10 + digit_val(s[0]));
    } else {
        lemma_digits_val_ser(n / 10);
        let pre = ser_digits(n / 10);
        let s = ser_digits(n);
        assert(s == pre.push(digit_char((n % 10) as int)));
        assert(s.subrange(0, s.len() - 1) =~= pre);
        assert(digit_val(digit_char((n % 10) as int)) == n % 10);
        assert(digits_val(s) == (n / 10) * 10 + n % 10);
        assert((n / 10) * 10 + n % 10 == n) by {
            vstd::arithmetic::div_mod::lemma_fundamental_div_mod(n as int, 10);
        }
    }
}

/// A digit string's value is nonnegative.
pub proof fn lemma_digits_val_nonneg(s: Seq<char>)
    requires
        forall|i: int| 0 <= i < s.len() ==> is_digit(#[trigger] s[i]),
    ensures
        digits_val(s) >= 0,
    decreases s.len(),
{
    if s.len() > 0 {
        lemma_digits_val_nonneg(s.subrange(0, s.len() - 1));
        assert(digit_val(s[s.len() - 1]) >= 0);
        assert(digits_val(s.subrange(0, s.len() - 1)) * 10 >= 0) by (nonlinear_arith)
            requires digits_val(s.subrange(0, s.len() - 1)) >= 0;
    }
}

/// A prefix of a digit string is worth no more than the whole.
pub proof fn lemma_digits_val_prefix(s: Seq<char>, k: int)
    requires
        forall|i: int| 0 <= i < s.len() ==> is_digit(#[trigger] s[i]),
        0 <= k <= s.len(),
    ensures
        digits_val(s.subrange(0, k)) <= digits_val(s),
    decreases s.len() - k,
{
    if k == s.len() {
        assert(s.subrange(0, k) =~= s);
    } else {
        lemma_digits_val_prefix(s, k + 1);
        let a = s.subrange(0, k);
        let b = s.subrange(0, k + 1);
        assert(b.subrange(0, b.len() - 1) =~= a);
        assert(b[b.len() - 1] == s[k]);
        assert(digits_val(b) == digits_val(a) * 10 + digit_val(s[k]));
        assert forall|i: int| 0 <= i < a.len() implies is_digit(#[trigger] a[i]) by {
            assert(a[i] == s[i]);
        }
        lemma_digits_val_nonneg(a);
        assert(digits_val(a) <= digits_val(a) * 10 + digit_val(s[k])) by (nonlinear_arith)
            requires digits_val(a) >= 0, digit_val(s[k]) >= 0;
    }
}

/// The first position at or after `i` that is not whitespace.
fn skip_ws(s: &Vec<char>, i: usize) -> (r: usize)
    requires
        i <= s@.len(),
    ensures
        i <= r <= s@.len(),
        forall|k: int| i <= k < r ==> is_ws(s@[k]),
        r < s@.len() ==> !is_ws(s@[r as int]),
{
    let mut j = i;
    while j < s.len() && (s[j] == ' ' || s[j] == '\t' || s[j] == '\n' || s[j] == '\r')
        invariant
            i <= j <= s@.len(),
            forall|k: int| i <= k < j ==> is_ws(s@[k]),
        decreases s@.len() - j,
    {
        j = j + 1;
    }
    j
}

/// The end of the digit run starting at `i`.
fn scan_digits(s: &Vec<char>, i: usize) -> (r: usize)
    requires
        i <= s@.len(),
    ensures
        i <= r <= s@.len(),
        forall|k: int| i <= k < r ==> is_digit(s@[k]),
        r < s@.len() ==> !is_digit(s@[r as int]),
{
    let mut j = i;
    while j < s.len() && is_digit_c(s[j])
        invariant
            i <= j <= s@.len(),
            forall|k: int| i <= k < j ==> is_digit(s@[k]),
        decreases s@.len() - j,
    {
        j = j + 1;
    }
    j
}

/// Whether `c` is a decimal digit.
fn is_digit_c(c: char) -> (r: bool)
    ensures
        r == is_digit(c),
{
    let u = c as u32;
    0x30 <= u && u <= 0x39
}

/// The numeric value of the digit run `s[from..to]`, when it fits.
fn digits_to_u64(s: &Vec<char>, from: usize, to: usize) -> (r: Option<u64>)
    requires
        from <= to <= s@.len(),
        forall|k: int| from <= k < to ==> is_digit(s@[k]),
    ensures
        r matches Some(x) ==> x as int == digits_val(s@.subrange(from as int, to as int)),
        digits_val(s@.subrange(from as int, to as int)) <= u64::MAX ==> r is Some,
{
    let ghost whole = s@.subrange(from as int, to as int);
    proof {
        assert forall|i: int| 0 <= i < whole.len() implies is_digit(#[trigger] whole[i]) by {
            assert(whole[i] == s@[from + i]);
        }
    }
    let mut acc: u64 = 0;
    let mut k = from;
    while k < to
        invariant
            from <= k <= to <= s@.len(),
            forall|kk: int| from <= kk < to ==> is_digit(s@[kk]),
            whole == s@.subrange(from as int, to as int),
            forall|i: int| 0 <= i < whole.len() ==> is_digit(#[trigger] whole[i]),
            acc as int == digits_val(s@.subrange(from as int, k as int)),
        decreases to - k,
    {
        let c = s[k];
        let d: u64 = (c as u32 as u64) - 0x30;
        proof {
            assert(is_digit(s@[k as int]));
            assert(d < 10);
            assert(d as int == digit_val(s@[k as int]));
        }
        if acc > (0xFFFF_FFFF_FFFF_FFFFu64 - d) / 10 {
            proof {
                let pre = s@.subrange(from as int, k as int);
                let pre1 = s@.subrange(from as int, k + 1);
                assert(pre1.subrange(0, pre1.len() - 1) =~= pre);
                assert(pre1[pre1.len() - 1] == s@[k as int]);
                assert(digits_val(pre1) == digits_val(pre) * 10 + digit_val(s@[k as int]));
                assert(pre1 =~= whole.subrange(0, k + 1 - from));
                lemma_digits_val_prefix(whole, k + 1 - from);
                // acc too large: the whole run cannot fit either
                assert(acc as int * 10 + d as int > u64::MAX as int) by (nonlinear_arith)
                    requires
                        acc as int > (u64::MAX as int - d as int) / 10,
                        0 <= d < 10,
                        acc >= 0;
                assert(digits_val(whole) > u64::MAX);
            }
            return None;
        }
        proof {
            assert(acc as int * 10 + d as int <= u64::MAX as int) by (nonlinear_arith)
                requires
                    acc as int <= (u64::MAX as int - d as int) / 10,
                    0 <= d < 10,
                    acc >= 0;
        }
        acc = acc * 10 + d;
        k = k + 1;
        proof {
            let pre = s@.subrange(from as int, k - 1);
            let pre1 = s@.subrange(from as int, k as int);
            assert(pre1.subrange(0, pre1.len() - 1) =~= pre);
            assert(pre1[pre1.len() - 1] == s@[k - 1]);
        }
    }
    proof {
        assert(s@.subrange(from as int, k as int) =~= whole);
    }
    Some(acc)
}

// ---------------------------------------------------------------------
// Number tokens
// ---------------------------------------------------------------------

/// The end of the digit run starting at `i`.
pub open spec fn digits_end(s: Seq<char>, i: int) -> int
    decreases s.len() - i when 0 <= i <= s.len()
{
    if 0 <= i && i < s.len() && is_digit(s[i]) {
        digits_end(s, i + 1)
    } else {
        i
    }
}

/// Where the sign of an exponent ends.
pub open spec fn exp_digits_start(s: Seq<char>, c: int) -> int {
    if c + 1 < s.len() && (s[c + 1] == '+' || s[c + 1] == '-') {
        c + 2
    } else {
        c + 1
    }
}

/// Where the number token starting at `i` ends, when the text at `i`
/// begins with a well-formed JSON number: optional sign, an integer
/// part without leading zeros, an optional fraction, an optional
/// exponent.
pub open spec fn num_end(s: Seq<char>, i: int) -> Option<int> {
    let a = if i < s.len() && s[i] == '-' {
        i + 1
    } else {
        i
    };
    if a < s.len() && is_digit(s[a]) {
        let b = if s[a] == '0' {
            a + 1
        } else {
            digits_end(s, a)
        };
        let c = if b < s.len() && s[b] == '.' {
            digits_end(s, b + 1)
        } else {
            b
        };
        if b < s.len() && s[b] == '.' && c == b + 1 {
            None
        } else {
            let e = if c < s.len() && (s[c] == 'e' || s[c] == 'E') {
                digits_end(s, exp_digits_start(s, c))
            } else {
                c
            };
            if c < s.len() && (s[c] == 'e' || s[c] == 'E') && e == exp_digits_start(s, c) {
                None
            } else {
                Some(e)
            }
        }
    } else {
        None
    }
}

/// `t` is the canonical rendering of some 64-bit integer.
pub open spec fn int_fits(t: Seq<char>) -> bool {
    exists|n: int| i64::MIN <= n <= i64::MAX && t == ser_int(n)
}

/// A number the codec carries as literal text: a whole well-formed
/// number token that is not itself a canonical 64-bit integer (those
/// are carried as integers).
pub open spec fn wf_num(t: Seq<char>) -> bool {
    num_end(t, 0) == Some(t.len() as int) && !int_fits(t)
}

proof fn lemma_digits_end_char(s: Seq<char>, i: int)
    requires
        0 <= i <= s.len(),
    ensures
        i <= digits_end(s, i) <= s.len(),
        forall|k: int| i <= k < digits_end(s, i) ==> is_digit(s[k]),
        digits_end(s, i) == s.len() || !is_digit(s[digits_end(s, i)]),
    decreases s.len() - i,
{
    if i < s.len() && is_digit(s[i]) {
        lemma_digits_end_char(s, i + 1);
    }
}

/// The digit run's end is the only position with the run's shape.
proof fn lemma_run_unique(s: Seq<char>, i: int, r: int)
    requires
        0 <= i <= r <= s.len(),
        forall|k: int| i <= k < r ==> is_digit(s[k]),
        r == s.len() || !is_digit(s[r]),
    ensures
        r == digits_end(s, i),
{
    lemma_digits_end_char(s, i);
    let e = digits_end(s, i);
    if r < e {
        assert(is_digit(s[r]));
        assert(false);
    }
    if r > e {
        assert(is_digit(s[e]));
        assert(e == s.len() || !is_digit(s[e]));
        assert(false);
    }
}

/// A digit run inside an embedded copy of `t` sits at the shifted
/// position, provided nothing right after the copy extends a run that
/// reaches its end.
proof fn lemma_digits_end_shift(s: Seq<char>, t: Seq<char>, i: int, k: int)
    requires
        matches_at(s, i, t),
        0 <= k <= t.len(),
        i + t.len() == s.len() || !is_digit(s[i + t.len()]),
    ensures
        digits_end(s, i + k) == i + digits_end(t, k),
{
    lemma_digits_end_char(t, k);
    let e = digits_end(t, k);
    assert forall|w: int| i + k <= w < i + e implies is_digit(s[w]) by {
        lemma_matches_index(s, i, t, w - i);
        assert(is_digit(t[w - i]));
    }
    if e < t.len() {
        lemma_matches_index(s, i, t, e);
        assert(!is_digit(s[i + e]));
    }
    lemma_run_unique(s, i + k, i + e);
}

/// The characters of an integer's rendering: a possible leading minus,
/// then decimal digits with no leading zero.
proof fn lemma_ser_int_shape(n: int)
    requires
        i64::MIN <= n <= i64::MAX,
    ensures
        ser_int(n).len() >= 1,
        n >= 0 ==> ser_int(n) == ser_digits(n as nat),
        n < 0 ==> ser_int(n) == seq!['-'] + ser_digits((-n) as nat) && ser_int(n)[0] == '-',
        forall|k: int|
            0 <= k < ser_int(n).len() && !(n < 0 && k == 0) ==> is_digit(#[trigger] ser_int(n)[k]),
{
    let m = (if n >= 0 { n } else { -n }) as nat;
    lemma_ser_digits_shape(m);
    if n < 0 {
        assert forall|k: int|
            0 <= k < ser_int(n).len() && !(n < 0 && k == 0) implies is_digit(
            #[trigger] ser_int(n)[k],
        ) by {
            assert(ser_int(n)[k] == ser_digits(m)[k - 1]);
        }
    }
}

/// A digit character is the rendering of its value.
proof fn lemma_digit_char_val(c: char)
    requires
        is_digit(c),
    ensures
        digit_char(digit_val(c)) == c,
        0 <= digit_val(c) < 10,
{
    let u = c as u32;
    if u == 0x30 {
        assert(c == '0');
    } else if u == 0x31 {
        assert(c == '1');
    } else if u == 0x32 {
        assert(c == '2');
    } else if u == 0x33 {
        assert(c == '3');
    } else if u == 0x34 {
        assert(c == '4');
    } else if u == 0x35 {
        assert(c == '5');
    } else if u == 0x36 {
        assert(c == '6');
    } else if u == 0x37 {
        assert(c == '7');
    } else if u == 0x38 {
        assert(c == '8');
    } else {
        assert(c == '9');
    }
}

/// A nonzero-leading digit run has a positive value.
proof fn lemma_digits_val_pos(d: Seq<char>)
    requires
        d.len() >= 1,
        forall|k: int| 0 <= k < d.len() ==> is_digit(#[trigger] d[k]),
        d[0] != '0',
    ensures
        digits_val(d) >= 1,
    decreases d.len(),
{
    if d.len() == 1 {
        assert(d.subrange(0, 0) =~= Seq::<char>::empty());
        assert(digits_val(Seq::<char>::empty()) == 0);
        assert(digits_val(d) == digits_val(d.subrange(0, 0)) * 10 + digit_val(d[0]));
        lemma_digit_char_val(d[0]);
        assert(d[0] as u32 != 0x30);
        assert(digit_val(d[0]) >= 1);
    } else {
        let pre = d.subrange(0, d.len() - 1);
        assert forall|k: int| 0 <= k < pre.len() implies is_digit(#[trigger] pre[k]) by {
            assert(pre[k] == d[k]);
        }
        lemma_digits_val_pos(pre);
        assert(digits_val(d) == digits_val(pre) * 10 + digit_val(d[d.len() - 1]));
        assert(digits_val(pre) * 10 >= 10) by (nonlinear_arith)
            requires digits_val(pre) >= 1;
        assert(digit_val(d[d.len() - 1]) >= 0);
    }
}

/// A digit run with no leading zero is the canonical rendering of its
/// value.
proof fn lemma_canonical_digits(d: Seq<char>)
    requires
        d.len() >= 1,
        forall|k: int| 0 <= k < d.len() ==> is_digit(#[trigger] d[k]),
        d[0] == '0' ==> d.len() == 1,
    ensures
        d == ser_digits(digits_val(d) as nat),
        digits_val(d) >= 0,
    decreases d.len(),
{
    lemma_digits_val_nonneg(d);
    if d.len() == 1 {
        assert(d.subrange(0, 0) =~= Seq::<char>::empty());
        assert(digits_val(Seq::<char>::empty()) == 0);
        assert(digits_val(d) == digits_val(d.subrange(0, 0)) * 10 + digit_val(d[0]));
        lemma_digit_char_val(d[0]);
        assert(ser_digits(digit_val(d[0]) as nat) == seq![digit_char(digit_val(d[0]))]);
        assert(d =~= ser_digits(digits_val(d) as nat));
    } else {
        let pre = d.subrange(0, d.len() - 1);
        assert forall|k: int| 0 <= k < pre.len() implies is_digit(#[trigger] pre[k]) by {
            assert(pre[k] == d[k]);
        }
        assert(pre[0] == d[0]);
        assert(d[0] != '0');
        lemma_canonical_digits(pre);
        lemma_digits_val_pos(pre);
        let vp = digits_val(pre);
        let dl = digit_val(d[d.len() - 1]);
        let v = digits_val(d);
        assert(v == vp * 10 + dl);
        assert(0 <= dl < 10);
        vstd::arithmetic::div_mod::lemma_fundamental_div_mod_converse(v, 10, vp, dl);
        assert(v / 10 == vp && v % 10 == dl);
        assert(v >= 10) by (nonlinear_arith)
            requires vp >= 1, dl >= 0, v == vp * 10 + dl;
        assert(ser_digits(v as nat) == ser_digits((v as nat) / 10).push(
            digit_char(((v as nat) % 10) as int),
        ));
        assert((v as nat) / 10 == vp as nat && ((v as nat) % 10) as int == dl);
        lemma_digit_char_val(d[d.len() - 1]);
        assert(digit_char(dl) == d[d.len() - 1]);
        assert(d =~= pre.push(d[d.len() - 1]));
        assert(d =~= ser_digits(v as nat));
    }
}

/// The rendering of an integer occurs at `i`, with nothing after it that
/// could extend the number token.
pub open spec fn num_hyp(s: Seq<char>, i: int, n: int) -> bool {
    i64::MIN <= n <= i64::MAX && matches_at(s, i, ser_int(n)) && delim_at(s, i + ser_int(n).len())
}

/// When an integer's rendering sits at `i` and a maximal digit run ends at
/// `end`, the run is exactly the rendering's digits.
proof fn lemma_num_canonical(s: Seq<char>, i: int, n: int, start: int, end: int)
    requires
        num_hyp(s, i, n),
        0 <= i < s.len(),
        start == if s[i] == '-' { i + 1 } else { i },
        start <= end <= s.len(),
        forall|k: int| start <= k < end ==> is_digit(s[k]),
        end == s.len() || !is_digit(s[end]),
    ensures
        (n >= 0) == (s[i] != '-'),
        end == i + ser_int(n).len(),
        end > start,
        s.subrange(start, end) == ser_digits((if n >= 0 { n } else { -n }) as nat),
        digits_val(s.subrange(start, end)) == if n >= 0 { n } else { -n },
        s[start] == '0' ==> end - start == 1,
{
    let m = (if n >= 0 { n } else { -n }) as nat;
    let d = ser_digits(m);
    let l = ser_int(n).len();
    lemma_ser_digits_shape(m);
    lemma_digits_val_ser(m);
    assert(!is_digit('-'));
    if n >= 0 {
        assert(ser_int(n) == d);
        assert(s.subrange(i, i + l) == d);
        assert forall|k: int| i <= k < i + l implies is_digit(s[k]) && s[k] == d[k - i] by {
            assert(s.subrange(i, i + l)[k - i] == s[k]);
        }
        assert(s[i] == d[0]);
        assert(s[i] != '-');
        assert(start == i);
        if end < i + l {
            assert(is_digit(s[end]));
            assert(false);
        }
        if end > i + l {
            assert(i + l < s.len());
            assert(is_digit(s[i + l]));
            assert(num_cont(s[i + l]));
            assert(false);
        }
        assert(end == i + l);
        assert(s.subrange(start, end) =~= d);
    } else {
        assert(ser_int(n) == seq!['-'] + d);
        assert(l == 1 + d.len());
        assert(s.subrange(i, i + l) == seq!['-'] + d);
        assert forall|k: int| i <= k < i + l implies s[k] == (seq!['-'] + d)[k - i] by {
            assert(s.subrange(i, i + l)[k - i] == s[k]);
        }
        assert(s[i] == '-');
        assert(start == i + 1);
        assert forall|k: int| i + 1 <= k < i + l implies is_digit(s[k]) by {
            assert(s[k] == d[k - i - 1]);
        }
        if end < i + l {
            assert(is_digit(s[end]));
            assert(false);
        }
        if end > i + l {
            assert(i + l < s.len());
            assert(is_digit(s[i + l]));
            assert(num_cont(s[i + l]));
            assert(false);
        }
        assert(end == i + l);
        assert(s.subrange(start, end) =~= d);
    }
    if s[start] == '0' {
        assert(d[0] == '0');
        assert(m == 0);
    }
}

/// The canonical rendering of an integer is a whole number token.
proof fn lemma_ser_int_is_token(n: int)
    requires
        i64::MIN <= n <= i64::MAX,
    ensures
        num_end(ser_int(n), 0) == Some(ser_int(n).len() as int),
{
    lemma_ser_int_shape(n);
    let s = ser_int(n);
    let m = (if n >= 0 { n } else { -n }) as nat;
    lemma_ser_digits_shape(m);
    let a: int = if n < 0 { 1 } else { 0 };
    assert(s[0] == ser_int(n)[0]);
    if n < 0 {
        assert(s[a] == ser_digits(m)[0]);
    }
    assert(is_digit(s[a]));
    assert forall|k: int| a <= k < s.len() implies is_digit(s[k]) by {}
    if s[a] == '0' {
        // only zero renders with a leading zero, as the single digit
        if n < 0 {
            assert(ser_digits(m)[0] == '0');
            assert(m == 0);
            assert(false);
        }
        assert(ser_digits(m)[0] == '0');
        assert(m == 0);
        assert(s.len() == a + 1);
    } else {
        lemma_run_unique(s, a, s.len() as int);
    }
}

/// The rendering of a number carried as text occurs at `i`, with
/// nothing after it that could extend the token.
pub open spec fn numtext_hyp(s: Seq<char>, i: int, t: Seq<char>) -> bool {
    wf_num(t) && matches_at(s, i, t) && delim_at(s, i + t.len())
}

/// A whole number token embedded at `i`, with a token break after it,
/// is where the token scan at `i` ends.
proof fn lemma_num_end_shift(s: Seq<char>, t: Seq<char>, i: int)
    requires
        num_end(t, 0) == Some(t.len() as int),
        matches_at(s, i, t),
        delim_at(s, i + t.len()),
    ensures
        num_end(s, i) == Some(i + t.len()),
{
    let tl = t.len() as int;
    assert forall|k: int| 0 <= k < tl implies s[i + k] == t[k] by {
        lemma_matches_index(s, i, t, k);
    }
    let ta: int = if 0 < t.len() && t[0] == '-' {
        1
    } else {
        0
    };
    // the guard of the token scan held on t
    assert(ta < tl && is_digit(t[ta]));
    assert(t.len() >= 1);
    let sa: int = if i < s.len() && s[i] == '-' {
        i + 1
    } else {
        i
    };
    assert(sa == i + ta);
    assert(is_digit(s[sa]));
    let end_cond = i + tl == s.len() || !is_digit(s[i + tl]);
    assert(end_cond);
    let tb: int = if t[ta] == '0' {
        ta + 1
    } else {
        digits_end(t, ta)
    };
    lemma_digits_end_char(t, ta);
    let sb: int = if s[sa] == '0' {
        sa + 1
    } else {
        digits_end(s, sa)
    };
    if t[ta] != '0' {
        lemma_digits_end_shift(s, t, i, ta);
    }
    assert(sb == i + tb);
    assert(tb <= tl);
    // fraction part
    let t_has_frac = tb < tl && t[tb] == '.';
    if tb < tl {
        assert(s[i + tb] == t[tb]);
    } else {
        assert(!num_cont(s[i + tb]) || i + tb == s.len());
    }
    assert((sb < s.len() && s[sb] == '.') == t_has_frac);
    let tc: int = if t_has_frac {
        digits_end(t, tb + 1)
    } else {
        tb
    };
    let sc: int = if sb < s.len() && s[sb] == '.' {
        digits_end(s, sb + 1)
    } else {
        sb
    };
    if t_has_frac {
        lemma_digits_end_shift(s, t, i, tb + 1);
        lemma_digits_end_char(t, tb + 1);
        assert(tc != tb + 1);
    }
    assert(sc == i + tc);
    assert(tc <= tl);
    // exponent part
    let t_has_exp = tc < tl && (t[tc] == 'e' || t[tc] == 'E');
    if tc < tl {
        assert(s[i + tc] == t[tc]);
    } else {
        assert(!num_cont(s[i + tc]) || i + tc == s.len());
    }
    assert((sc < s.len() && (s[sc] == 'e' || s[sc] == 'E')) == t_has_exp);
    if t_has_exp {
        let tf = exp_digits_start(t, tc);
        let sf = exp_digits_start(s, sc);
        assert(tf == tc + 1 || tf == tc + 2);
        // the exponent has at least one digit, so the sign test sees
        // the same character on both sides
        lemma_digits_end_char(t, tf);
        assert(digits_end(t, tf) == tl && digits_end(t, tf) != tf);
        assert(tc + 1 < tl);
        assert(s[i + tc + 1] == t[tc + 1]);
        assert(sf == i + tf);
        lemma_digits_end_shift(s, t, i, tf);
        assert(digits_end(s, sf) == i + tl);
        assert(num_end(s, i) == Some(i + tl));
    } else {
        assert(tc == tl);
        assert(num_end(s, i) == Some(i + tl));
    }
}

/// Parses a number token at `i`: a canonical 64-bit integer becomes an
/// integer value; any other number is carried as its literal text.
#[verifier::rlimit(100)]
fn parse_number(s: &Vec<char>, i: usize) -> (r: Result<(Json, usize), ()>)
    requires
        i < s@.len(),
    ensures
        r matches Ok(p) ==> i < p.1 <= s@.len() && wf_json(p.0@) && (p.0 is Int || p.0 is Num) && (
        p.0 matches Json::Int(x) ==> s@.subrange(i as int, p.1 as int) == ser_int(x as int)) && (
        p.0 matches Json::Num(tx) ==> tx@ == s@.subrange(i as int, p.1 as int)),
        forall|n: int| #![trigger ser_int(n)]
            num_hyp(s@, i as int, n) ==> (r matches Ok(p) && p.0@ == JsonV::Int(n) && p.1 as int
                == i + ser_int(n).len()),
        forall|t: Seq<char>| #![trigger wf_num(t)]
            numtext_hyp(s@, i as int, t) ==> (r matches Ok(p) && p.0@ == JsonV::Num(t) && p.1
                as int == i + t.len()),
{
    let len = s.len();
    let neg = s[i] == '-';
    let a = if neg {
        i + 1
    } else {
        i
    };
    if a >= len || !is_digit_c(s[a]) {
        proof {
            assert(num_end(s@, i as int) is None);
            assert forall|n: int| num_hyp(s@, i as int, n) implies false by {
                lemma_ser_int_is_token(n);
                lemma_num_end_shift(s@, ser_int(n), i as int);
            }
            assert forall|t: Seq<char>| numtext_hyp(s@, i as int, t) implies false by {
                lemma_num_end_shift(s@, t, i as int);
            }
        }
        return Err(());
    }
    let int_end = if s[a] == '0' {
        a + 1
    } else {
        scan_digits(s, a)
    };
    proof {
        if s@[a as int] != '0' {
            lemma_run_unique(s@, a as int, int_end as int);
        }
        // int_end is the token scan's integer-part end
        assert(int_end as int == (if s@[a as int] == '0' {
            a + 1
        } else {
            digits_end(s@, a as int)
        }));
    }
    // fraction part
    let frac_end: usize;
    if int_end < len && s[int_end] == '.' {
        let fd = scan_digits(s, int_end + 1);
        proof {
            lemma_run_unique(s@, int_end + 1, fd as int);
        }
        if fd == int_end + 1 {
            proof {
                assert(num_end(s@, i as int) is None);
                assert forall|n: int| num_hyp(s@, i as int, n) implies false by {
                    lemma_ser_int_is_token(n);
                    lemma_num_end_shift(s@, ser_int(n), i as int);
                }
                assert forall|t: Seq<char>| numtext_hyp(s@, i as int, t) implies false by {
                    lemma_num_end_shift(s@, t, i as int);
                }
            }
            return Err(());
        }
        frac_end = fd;
    } else {
        frac_end = int_end;
    }
    // exponent part
    let end: usize;
    if frac_end < len && (s[frac_end] == 'e' || s[frac_end] == 'E') {
        let f = if frac_end + 1 < len && (s[frac_end + 1] == '+' || s[frac_end + 1] == '-') {
            frac_end + 2
        } else {
            frac_end + 1
        };
        let ed = scan_digits(s, f);
        proof {
            lemma_run_unique(s@, f as int, ed as int);
            assert(f as int == exp_digits_start(s@, frac_end as int));
        }
        if ed == f {
            proof {
                assert(num_end(s@, i as int) is None);
                assert forall|n: int| num_hyp(s@, i as int, n) implies false by {
                    lemma_ser_int_is_token(n);
                    lemma_num_end_shift(s@, ser_int(n), i as int);
                }
                assert forall|t: Seq<char>| numtext_hyp(s@, i as int, t) implies false by {
                    lemma_num_end_shift(s@, t, i as int);
                }
            }
            return Err(());
        }
        end = ed;
    } else {
        end = frac_end;
    }
    proof {
        assert(num_end(s@, i as int) == Some(end as int));
    }
    let ghost run = s@.subrange(a as int, int_end as int);
    proof {
        assert forall|k: int| 0 <= k < run.len() implies is_digit(#[trigger] run[k]) by {
            assert(run[k] == s@[a + k]);
        }
        assert(run[0] == s@[a as int]);
        assert(run.len() >= 1);
        if s@[a as int] == '0' {
            assert(run.len() == 1);
        }
    }
    if end == int_end && !(neg && s[a] == '0') {
        match digits_to_u64(s, a, int_end) {
            Some(val) => {
                proof {
                    lemma_canonical_digits(run);
                }
                if neg {
                    if val <= 0x8000_0000_0000_0000u64 {
                        let x: i64 = if val == 0x8000_0000_0000_0000u64 {
                            i64::MIN
                        } else {
                            -(val as i64)
                        };
                        proof {
                            lemma_ser_int_shape(x as int);
                            assert(s@.subrange(i as int, end as int) =~= seq!['-'] + run);
                            assert(s@.subrange(i as int, end as int) == ser_int(x as int));
                            assert forall|n: int| num_hyp(s@, i as int, n) implies x as int == n
                                && end as int == i + ser_int(n).len() by {
                                lemma_ser_int_is_token(n);
                                lemma_num_end_shift(s@, ser_int(n), i as int);
                                assert(end as int == i + ser_int(n).len());
                                assert(s@.subrange(i as int, end as int) == ser_int(n));
                                lemma_ser_int_shape(n);
                                assert(ser_int(x as int) == ser_int(n));
                                lemma_num_canonical(s@, i as int, n, a as int, int_end as int);
                            }
                            assert forall|t: Seq<char>| numtext_hyp(s@, i as int, t) implies false by {
                                lemma_num_end_shift(s@, t, i as int);
                                assert(end as int == i + t.len());
                                assert(t =~= s@.subrange(i as int, end as int));
                                assert(int_fits(t));
                            }
                        }
                        return Ok((Json::Int(x), end));
                    }
                } else {
                    if val <= 0x7FFF_FFFF_FFFF_FFFFu64 {
                        let x: i64 = val as i64;
                        proof {
                            lemma_ser_int_shape(x as int);
                            assert(s@.subrange(i as int, end as int) =~= run);
                            assert(s@.subrange(i as int, end as int) == ser_int(x as int));
                            assert forall|n: int| num_hyp(s@, i as int, n) implies x as int == n
                                && end as int == i + ser_int(n).len() by {
                                lemma_ser_int_is_token(n);
                                lemma_num_end_shift(s@, ser_int(n), i as int);
                                assert(end as int == i + ser_int(n).len());
                                assert(s@.subrange(i as int, end as int) == ser_int(n));
                                lemma_ser_int_shape(n);
                                assert(ser_int(x as int) == ser_int(n));
                                lemma_num_canonical(s@, i as int, n, a as int, int_end as int);
                            }
                            assert forall|t: Seq<char>| numtext_hyp(s@, i as int, t) implies false by {
                                lemma_num_end_shift(s@, t, i as int);
                                assert(end as int == i + t.len());
                                assert(t =~= s@.subrange(i as int, end as int));
                                assert(int_fits(t));
                            }
                        }
                        return Ok((Json::Int(x), end));
                    }
                }
            },
            None => {},
        }
    }
    // not a canonical 64-bit integer: carry the token text through
    let text = chars_to_string_range(s, i, end);
    proof {
        assert(end != int_end || (s@[i as int] == '-' && s@[a as int] == '0') || digits_val(
            s@.subrange(a as int, int_end as int),
        ) > (if s@[i as int] == '-' {
            0x8000_0000_0000_0000 as int
        } else {
            0x7FFF_FFFF_FFFF_FFFF as int
        }));
        lemma_num_scan_wf(s@, i as int, a as int, int_end as int, end as int);
        let tx = s@.subrange(i as int, end as int);
        assert(wf_num(tx));
        assert(text@ == tx);
        assert forall|n: int| num_hyp(s@, i as int, n) implies false by {
            lemma_ser_int_is_token(n);
            lemma_num_end_shift(s@, ser_int(n), i as int);
            assert(end as int == i + ser_int(n).len());
            assert(ser_int(n) =~= tx);
            assert(int_fits(tx));
        }
        assert forall|t2: Seq<char>| numtext_hyp(s@, i as int, t2) implies text@ == t2 && end
            as int == i + t2.len() by {
            lemma_num_end_shift(s@, t2, i as int);
            assert(end as int == i + t2.len());
            assert(t2 =~= tx);
        }
    }
    Ok((Json::Num(text), end))
}

/// The scanned token, when it is not taken as a canonical 64-bit
/// integer, is a well-formed number text of its own.
proof fn lemma_num_scan_wf(s: Seq<char>, i: int, a: int, int_end: int, end: int)
    requires
        0 <= i < s.len(),
        a == (if s[i] == '-' {
            i + 1
        } else {
            i
        }),
        a < s.len(),
        is_digit(s[a]),
        int_end == (if s[a] == '0' {
            a + 1
        } else {
            digits_end(s, a)
        }),
        a < int_end <= end <= s.len(),
        num_end(s, i) == Some(end),
        end != int_end || (s[i] == '-' && s[a] == '0') || digits_val(s.subrange(a, int_end)) > (
        if s[i] == '-' {
            0x8000_0000_0000_0000 as int
        } else {
            0x7FFF_FFFF_FFFF_FFFF as int
        }),
    ensures
        wf_num(s.subrange(i, end)),
{
    let tx = s.subrange(i, end);
    lemma_num_end_unshift(s, i, end);
    if int_fits(tx) {
        let n = choose|n: int| i64::MIN <= n <= i64::MAX && tx == ser_int(n);
        lemma_ser_int_shape(n);
        let m = (if n >= 0 {
            n
        } else {
            -n
        }) as nat;
        lemma_ser_digits_shape(m);
        let neg = s[i] == '-';
        assert(s[i] == tx[0]);
        assert(neg == (n < 0));
        assert forall|k: int| a <= k < end implies is_digit(s[k]) by {
            assert(tx[k - i] == ser_int(n)[k - i]);
        }
        if s[a] != '0' {
            lemma_digits_end_char(s, a);
            if int_end < end {
                assert(is_digit(s[int_end]));
                assert(false);
            }
        } else {
            assert(tx[a - i] == '0');
            if neg {
                assert(tx[1] == ser_digits(m)[0]);
                assert(ser_digits(m)[0] == '0');
                assert(m == 0);
                assert(false);
            }
            assert(tx[0] == ser_digits(m)[0]);
            assert(ser_digits(m)[0] == '0');
            assert(m == 0);
            assert(tx == ser_digits(0));
            assert(tx.len() == 1);
        }
        assert(end == int_end);
        let run = s.subrange(a, int_end);
        assert forall|k: int| 0 <= k < run.len() implies run[k] == ser_digits(m)[k] by {
            assert(run[k] == s[a + k]);
            assert(tx[a - i + k] == ser_int(n)[a - i + k]);
        }
        assert(run =~= ser_digits(m));
        lemma_digits_val_ser(m);
        assert(digits_val(run) == m);
        assert(!(neg && s[a] == '0'));
        assert(false);
    }
}

/// A whole scanned token is a token of its own text.
proof fn lemma_num_end_unshift(s: Seq<char>, i: int, end: int)
    requires
        0 <= i < end <= s.len(),
        num_end(s, i) == Some(end),
    ensures
        num_end(s.subrange(i, end), 0) == Some(end - i),
{
    let t = s.subrange(i, end);
    let tl = end - i;
    assert forall|k: int| 0 <= k < tl implies t[k] == s[i + k] by {}
    let sa: int = if i < s.len() && s[i] == '-' {
        i + 1
    } else {
        i
    };
    // the scan succeeded, so its guard held
    assert(sa < s.len() && is_digit(s[sa]));
    let sb: int = if s[sa] == '0' {
        sa + 1
    } else {
        digits_end(s, sa)
    };
    let s_has_frac = sb < s.len() && s[sb] == '.';
    let sc: int = if s_has_frac {
        digits_end(s, sb + 1)
    } else {
        sb
    };
    let s_has_exp = sc < s.len() && (s[sc] == 'e' || s[sc] == 'E');
    let se: int = if s_has_exp {
        digits_end(s, exp_digits_start(s, sc))
    } else {
        sc
    };
    assert(se == end);
    lemma_digits_end_char(s, sa);
    if s_has_frac {
        lemma_digits_end_char(s, sb + 1);
    }
    if s_has_exp {
        lemma_digits_end_char(s, exp_digits_start(s, sc));
    }
    assert(sa <= sb <= sc <= se);
    // positions inside the token shift down by i
    let ta: int = if 0 < t.len() && t[0] == '-' {
        1
    } else {
        0
    };
    assert(sa - i < tl && t[sa - i] == s[sa]);
    assert(ta == sa - i);
    assert(is_digit(t[ta]));
    let tb: int = if t[ta] == '0' {
        ta + 1
    } else {
        digits_end(t, ta)
    };
    if s[sa] != '0' {
        // the run inside t matches the run inside s, cut at the end
        lemma_digits_end_char(t, ta);
        if sb <= end {
            assert forall|k: int| ta <= k < sb - i implies is_digit(t[k]) by {
                assert(t[k] == s[i + k]);
            }
            if sb - i < tl {
                assert(t[sb - i] == s[sb]);
                assert(!is_digit(t[sb - i]));
            }
            lemma_run_unique(t, ta, sb - i);
        }
    }
    assert(tb == sb - i);
    let t_has_frac = tb < tl && t[tb] == '.';
    assert(t_has_frac == s_has_frac || sb >= end);
    if sb < end {
        assert(t_has_frac == s_has_frac);
    } else {
        assert(sb == end);
        assert(!t_has_frac);
        assert(!s_has_frac || sc == sb + 1 || sc > sb);
    }
    let tc: int = if t_has_frac {
        digits_end(t, tb + 1)
    } else {
        tb
    };
    if t_has_frac {
        assert forall|k: int| tb + 1 <= k < sc - i implies is_digit(t[k]) by {
            assert(t[k] == s[i + k]);
        }
        if sc - i < tl {
            assert(t[sc - i] == s[sc]);
            assert(!is_digit(t[sc - i]));
        }
        lemma_run_unique(t, tb + 1, sc - i);
        assert(tc == sc - i);
        assert(tc != tb + 1);
    }
    let t_has_exp = tc < tl && (t[tc] == 'e' || t[tc] == 'E');
    if t_has_frac || !s_has_frac {
        assert(tc == sc - i);
        if sc < end {
            assert(t[tc] == s[sc]);
        }
        assert(t_has_exp == s_has_exp || sc >= end);
        if s_has_exp {
            assert(sc < se);
            assert(t_has_exp);
            let sf = exp_digits_start(s, sc);
            let tf = exp_digits_start(t, tc);
            assert(sf == sc + 1 || sf == sc + 2);
            assert(se > sf);
            assert(sc + 1 < end);
            assert(t[tc + 1] == s[sc + 1]);
            assert(tf == sf - i);
            assert forall|k: int| tf <= k < se - i implies is_digit(t[k]) by {
                assert(t[k] == s[i + k]);
            }
            lemma_run_unique(t, tf, se - i);
            assert(num_end(t, 0) == Some(tl));
        } else {
            assert(!t_has_exp);
            assert(num_end(t, 0) == Some(tl));
        }
    }
}

/// The shape of a character's rendering inside a string literal.
proof fn lemma_esc_shape(c: char)
    ensures
        esc_char(c).len() == 1 || esc_char(c).len() == 2 || esc_char(c).len() == 6,
        esc_char(c)[0] != '"',
        esc_char(c).len() >= 2 ==> esc_char(c)[0] == '\\',
        esc_char(c).len() == 1 ==> esc_char(c)[0] == c && c != '"' && c != '\\' && c as u32 >= 0x20,
        esc_char(c).len() == 2 ==> (esc_char(c)[1] == '"' || esc_char(c)[1] == '\\' || esc_char(
            c,
        )[1] == 'n' || esc_char(c)[1] == 't' || esc_char(c)[1] == 'r' || esc_char(c)[1] == 'b'
            || esc_char(c)[1] == 'f'),
        esc_char(c).len() == 6 ==> esc_char(c)[1] == 'u' && esc_char(c)[2] == '0' && esc_char(
            c,
        )[3] == '0' && is_hex(esc_char(c)[4]) && is_hex(esc_char(c)[5]) && hex_val(esc_char(c)[4])
            * 16 + hex_val(esc_char(c)[5]) == c as u32 && (c as u32) < 0x20,
{
    if c != '"' && c != '\\' && c != '\n' && c != '\t' && c != '\r' && c != '\u{8}' && c != '\u{c}'
        && (c as u32) < 0x20 {
        let u = c as u32 as int;
        let hi = u / 16;
        let lo = u % 16;
        vstd::arithmetic::div_mod::lemma_fundamental_div_mod(u, 16);
        assert(0 <= hi < 2 && 0 <= lo < 16);
        assert(is_hex(hex_char(hi)) && hex_val(hex_char(hi)) == hi);
        assert(is_hex(hex_char(lo)) && hex_val(hex_char(lo)) == lo);
    }
}

/// Parses the body of a string literal at `i` (the opening quote already
/// consumed), appending the characters to `acc` and returning the
/// position after the closing quote.
#[verifier::rlimit(100)]
#[verifier::spinoff_prover]
fn parse_str_body(s: &Vec<char>, i: usize, acc: &mut Vec<char>) -> (r: Result<usize, ()>)
    requires
        i <= s@.len(),
    ensures
        r matches Ok(j) ==> i < j <= s@.len(),
        forall|w: Seq<char>| #![trigger ser_str_body(w)]
            matches_at(s@, i as int, ser_str_body(w) + seq!['"']) ==> (r matches Ok(j) && j as int
                == i + ser_str_body(w).len() + 1 && final(acc)@ == old(acc)@ + w),
    decreases s@.len() - i,
{
    if i >= s.len() {
        proof {
            assert forall|w: Seq<char>|
                matches_at(s@, i as int, ser_str_body(w) + seq!['"']) implies false by {
                assert((ser_str_body(w) + seq!['"']).len() >= 1);
            }
        }
        return Err(());
    }
    let c = s[i];
    if c == '"' {
        let r: Result<usize, ()> = Ok(i + 1);
        proof {
            assert forall|w: Seq<char>| #![trigger ser_str_body(w)]
                matches_at(s@, i as int, ser_str_body(w) + seq!['"']) implies (r matches Ok(j)
                && j as int == i + ser_str_body(w).len() + 1 && acc@ == old(acc)@ + w) by {
                if w.len() > 0 {
                    let w1 = w.subrange(1, w.len() as int);
                    assert(ser_str_body(w) == esc_char(w[0]) + ser_str_body(w1));
                    lemma_esc_shape(w[0]);
                    let total = ser_str_body(w) + seq!['"'];
                    assert(s@.subrange(i as int, i + total.len())[0] == s@[i as int]);
                    assert(total[0] == esc_char(w[0])[0]);
                    assert(false);
                }
                assert(ser_str_body(w) =~= Seq::<char>::empty());
                assert(acc@ =~= old(acc)@ + w);
            }
        }
        return r;
    }
    // any matching body is nonempty and its first rendering begins here
    proof {
        assert forall|w: Seq<char>|
            matches_at(s@, i as int, ser_str_body(w) + seq!['"']) implies w.len() > 0 && s@[
        i as int] == esc_char(w[0])[0] && matches_at(s@, i as int, esc_char(w[0])) && matches_at(
            s@,
            i + esc_char(w[0]).len(),
            ser_str_body(w.subrange(1, w.len() as int)) + seq!['"'],
        ) by {
            let total = ser_str_body(w) + seq!['"'];
            assert(s@.subrange(i as int, i + total.len())[0] == s@[i as int]);
            if w.len() == 0 {
                assert(ser_str_body(w) =~= Seq::<char>::empty());
                assert(total[0] == '"');
                assert(false);
            } else {
                let w1 = w.subrange(1, w.len() as int);
                let sub = ser_str_body(w1) + seq!['"'];
                assert(ser_str_body(w) == esc_char(w[0]) + ser_str_body(w1));
                assert(total[0] == esc_char(w[0])[0]);
                assert(total =~= esc_char(w[0]) + sub);
                lemma_matches_split(s@, i as int, esc_char(w[0]), sub);
            }
        }
    }
    let step = if c == '\\' {
        parse_escape(s, i, acc)
    } else {
        // a raw character renders as itself
        proof {
            assert forall|w: Seq<char>|
                matches_at(s@, i as int, ser_str_body(w) + seq!['"']) implies w[0] == c
                && esc_char(w[0]).len() == 1 by {
                lemma_esc_shape(w[0]);
                if esc_char(w[0]).len() >= 2 {
                    assert(s@[i as int] == '\\');
                    assert(false);
                }
            }
        }
        acc.push(c);
        Ok(i + 1)
    };
    let ghost accm = acc@;
    match step {
        Ok(ni) => {
            let res = parse_str_body(s, ni, acc);
            match res {
                Ok(j) => {
                    proof {
                        assert forall|w: Seq<char>|
                            matches_at(s@, i as int, ser_str_body(w) + seq!['"']) implies j as int
                            == i + ser_str_body(w).len() + 1 && acc@ == old(acc)@ + w by {
                            let w1 = w.subrange(1, w.len() as int);
                            assert(ser_str_body(w) == esc_char(w[0]) + ser_str_body(w1));
                            assert(ni as int == i + esc_char(w[0]).len() && accm == old(acc)@.push(
                                w[0],
                            ));
                            assert(matches_at(s@, ni as int, ser_str_body(w1) + seq!['"']));
                            assert(acc@ == accm + w1);
                            assert(old(acc)@.push(w[0]) + w1 =~= old(acc)@ + (seq![w[0]] + w1));
                            assert(seq![w[0]] + w1 =~= w);
                        }
                    }
                    Ok(j)
                },
                Err(()) => {
                    proof {
                        assert forall|w: Seq<char>|
                            matches_at(s@, i as int, ser_str_body(w) + seq!['"']) implies false by {
                            let w1 = w.subrange(1, w.len() as int);
                            assert(ni as int == i + esc_char(w[0]).len());
                            assert(matches_at(s@, ni as int, ser_str_body(w1) + seq!['"']));
                        }
                    }
                    Err(())
                },
            }
        },
        Err(()) => {
            proof {
                assert forall|w: Seq<char>|
                    matches_at(s@, i as int, ser_str_body(w) + seq!['"']) implies false by {
                    assert(s@[i as int] == esc_char(w[0])[0]);
                }
            }
            Err(())
        },
    }
}

/// Consumes one escape sequence at `i` (`s[i]` is the backslash) and
/// appends the character it denotes: the short escapes, and `\uXXXX`
/// with surrogate pairs combined.
fn parse_escape(s: &Vec<char>, i: usize, acc: &mut Vec<char>) -> (r: Result<usize, ()>)
    requires
        i < s@.len(),
        s@[i as int] == '\\',
    ensures
        r matches Ok(j) ==> i + 2 <= j <= s@.len() && final(acc)@.len() == old(acc)@.len() + 1,
        forall|w: Seq<char>| #![trigger ser_str_body(w)]
            (w.len() > 0 && matches_at(s@, i as int, esc_char(w[0])) && s@[i as int] == esc_char(
                w[0],
            )[0]) ==> (r matches Ok(j) && j as int == i + esc_char(w[0]).len() && final(acc)@
                == old(acc)@.push(w[0])),
{
    // any escaped character's rendering is at least two characters
    proof {
        assert forall|w: Seq<char>|
            w.len() > 0 && matches_at(s@, i as int, esc_char(w[0])) && s@[i as int] == esc_char(
                w[0],
            )[0] implies esc_char(w[0]).len() >= 2 && i + esc_char(w[0]).len() <= s@.len() && s@[i
            + 1] == esc_char(w[0])[1] by {
            lemma_esc_shape(w[0]);
            if esc_char(w[0]).len() == 1 {
                assert(esc_char(w[0])[0] == w[0] && w[0] != '\\');
            }
            lemma_matches_index(s@, i as int, esc_char(w[0]), 1);
        }
    }
    let len = s.len();
    if len - i < 2 {
        proof {
            assert forall|w: Seq<char>|
                w.len() > 0 && matches_at(s@, i as int, esc_char(w[0])) && s@[i as int]
                    == esc_char(w[0])[0] implies false by {}
        }
        return Err(());
    }
    let e = s[i + 1];
    let mapped: Option<char> = if e == '"' {
        Some('"')
    } else if e == '\\' {
        Some('\\')
    } else if e == '/' {
        Some('/')
    } else if e == 'n' {
        Some('\n')
    } else if e == 't' {
        Some('\t')
    } else if e == 'r' {
        Some('\r')
    } else if e == 'b' {
        Some('\u{8}')
    } else if e == 'f' {
        Some('\u{c}')
    } else {
        None
    };
    match mapped {
        Some(m) => {
            // the escape letter pins the escaped character
            proof {
                assert forall|w: Seq<char>|
                    w.len() > 0 && matches_at(s@, i as int, esc_char(w[0])) && s@[i as int]
                        == esc_char(w[0])[0] implies w[0] == m && esc_char(w[0]).len() == 2 by {
                    lemma_esc_shape(w[0]);
                    if esc_char(w[0]).len() == 6 {
                        assert(esc_char(w[0])[1] == 'u');
                        assert(false);
                    }
                    assert(esc_char(w[0])[1] == e);
                }
            }
            acc.push(m);
            return Ok(i + 2);
        },
        None => {},
    }
    if e != 'u' {
        proof {
            assert forall|w: Seq<char>|
                w.len() > 0 && matches_at(s@, i as int, esc_char(w[0])) && s@[i as int]
                    == esc_char(w[0])[0] implies false by {
                lemma_esc_shape(w[0]);
            }
        }
        return Err(());
    }
    // a \uXXXX escape
    proof {
        assert forall|w: Seq<char>|
            w.len() > 0 && matches_at(s@, i as int, esc_char(w[0])) && s@[i as int] == esc_char(
                w[0],
            )[0] implies esc_char(w[0]).len() == 6 by {
            lemma_esc_shape(w[0]);
        }
    }
    match read_u_escape(s, i) {
        Ok((c2, ni)) => {
            proof {
                assert forall|w: Seq<char>|
                    w.len() > 0 && matches_at(s@, i as int, esc_char(w[0])) && s@[i as int]
                        == esc_char(w[0])[0] implies c2 == w[0] && ni == i + 6 by {}
            }
            acc.push(c2);
            Ok(ni)
        },
        Err(()) => {
            proof {
                assert forall|w: Seq<char>|
                    w.len() > 0 && matches_at(s@, i as int, esc_char(w[0])) && s@[i as int]
                        == esc_char(w[0])[0] implies false by {}
            }
            Err(())
        },
    }
}

/// Two characters with one scalar value are one character.
proof fn lemma_char_scalar(c1: char, c2: char)
    requires
        c1 as u32 == c2 as u32,
    ensures
        c1 == c2,
{
}

/// Relies on `char::from_u32`: for a valid scalar value — at most
/// 0x10FFFF and outside the surrogate range — it returns the character
/// with exactly that value, and `None` otherwise.
#[verifier::external_body]
fn char_from_u32(u: u32) -> (r: Option<char>)
    ensures
        r matches Some(c) ==> c as u32 == u,
        (u < 0xD800 || (0xE000 <= u && u <= 0x10FFFF)) ==> r is Some,
{
    char::from_u32(u)
}

/// The value of a hex digit character.
fn hex_digit_v(c: char) -> (r: Option<u32>)
    ensures
        match r {
            Some(v) => is_hex(c) && v as int == hex_val(c) && v < 16,
            None => !is_hex(c),
        },
{
    let u = c as u32;
    if 0x30 <= u && u <= 0x39 {
        Some(u - 0x30)
    } else if 0x61 <= u && u <= 0x66 {
        Some(u - 0x61 + 10)
    } else if 0x41 <= u && u <= 0x46 {
        Some(u - 0x41 + 10)
    } else {
        None
    }
}

/// Reads four hex digits at `i`.
fn read_hex4(s: &Vec<char>, i: usize) -> (r: Option<u32>)
    requires
        i + 4 <= s@.len(),
    ensures
        match r {
            Some(u) => is_hex(s@[i as int]) && is_hex(s@[i + 1]) && is_hex(s@[i + 2]) && is_hex(
                s@[i + 3],
            ) && u as int == ((hex_val(s@[i as int]) * 16 + hex_val(s@[i + 1])) * 16 + hex_val(
                s@[i + 2],
            )) * 16 + hex_val(s@[i + 3]) && u < 0x10000,
            None => !(is_hex(s@[i as int]) && is_hex(s@[i + 1]) && is_hex(s@[i + 2]) && is_hex(
                s@[i + 3],
            )),
        },
{
    let l = s.len();
    let v0 = match hex_digit_v(s[i]) {
        Some(v) => v,
        None => {
            return None;
        },
    };
    let v1 = match hex_digit_v(s[i + 1]) {
        Some(v) => v,
        None => {
            return None;
        },
    };
    let v2 = match hex_digit_v(s[i + 2]) {
        Some(v) => v,
        None => {
            return None;
        },
    };
    let v3 = match hex_digit_v(s[i + 3]) {
        Some(v) => v,
        None => {
            return None;
        },
    };
    Some(((v0 * 16 + v1) * 16 + v2) * 16 + v3)
}

/// One position of a match.
proof fn lemma_matches_index(s: Seq<char>, i: int, pat: Seq<char>, k: int)
    requires
        matches_at(s, i, pat),
        0 <= k < pat.len(),
    ensures
        s[i + k] == pat[k],
{
    assert(s.subrange(i, i + pat.len())[k] == s[i + k]);
}

/// A match of a concatenation is a match of each part.
proof fn lemma_matches_split(s: Seq<char>, i: int, a: Seq<char>, b: Seq<char>)
    requires
        matches_at(s, i, a + b),
    ensures
        matches_at(s, i, a),
        matches_at(s, i + a.len(), b),
{
    assert forall|k: int| 0 <= k < a.len() implies s.subrange(i, i + a.len())[k] == a[k] by {
        lemma_matches_index(s, i, a + b, k);
        assert((a + b)[k] == a[k]);
    }
    assert(s.subrange(i, i + a.len()) =~= a);
    assert forall|k: int| 0 <= k < b.len() implies s.subrange(
        i + a.len(),
        i + a.len() + b.len(),
    )[k] == b[k] by {
        lemma_matches_index(s, i, a + b, a.len() + k);
        assert((a + b)[a.len() + k] == b[k]);
    }
    assert(s.subrange(i + a.len(), i + a.len() + b.len()) =~= b);
}

/// The first character of a value's rendering, by variant.
proof fn lemma_ser_first(v: JsonV)
    requires
        wf_json(v),
    ensures
        ser_json(v).len() >= 1,
        v is Null ==> ser_json(v)[0] == 'n',
        v == JsonV::Bool(true) ==> ser_json(v)[0] == 't',
        v == JsonV::Bool(false) ==> ser_json(v)[0] == 'f',
        v is Int ==> ser_json(v)[0] == '-' || is_digit(ser_json(v)[0]),
        v is Num ==> ser_json(v)[0] == '-' || is_digit(ser_json(v)[0]),
        v is Str ==> ser_json(v)[0] == '"',
        v is Arr ==> ser_json(v)[0] == '[',
        v is Obj ==> ser_json(v)[0] == '{',
        !is_ws(ser_json(v)[0]),
        ser_json(v)[0] != ']' && ser_json(v)[0] != '}' && ser_json(v)[0] != ',' && ser_json(v)[0]
            != ':',
{
    match v {
        JsonV::Int(n) => {
            let m = (if n >= 0 { n } else { -n }) as nat;
            lemma_ser_digits_shape(m);
            if n >= 0 {
                assert(ser_json(v) == ser_digits(m));
            } else {
                assert(ser_json(v) == seq!['-'] + ser_digits(m));
            }
        },
        JsonV::Num(m) => {
            // a number token starts with its sign or a digit
            assert(num_end(m, 0) == Some(m.len() as int));
            assert(m.len() >= 1);
            if m[0] != '-' {
                assert(is_digit(m[0]));
            }
        },
        _ => {},
    }
}

/// The rendering of a value occurs at `i`, with a token break after it.
pub open spec fn val_hyp(s: Seq<char>, i: int, v: JsonV) -> bool {
    wf_json(v) && matches_at(s, i, ser_json(v)) && delim_at(s, i + ser_json(v).len())
}


/// Parses an array whose `[` stands at `j`.
#[verifier::rlimit(100)]
fn parse_array(s: &Vec<char>, j: usize) -> (r: Result<(Json, usize), ()>)
    requires
        j < s@.len(),
        s@[j as int] == '[',
    ensures
        r matches Ok(p) ==> j < p.1 <= s@.len() && wf_json(p.0@),
        forall|v: JsonV| #![trigger ser_json(v)]
            val_hyp(s@, j as int, v) ==> (r matches Ok(p) && p.0@ == v && p.1 as int == j
                + ser_json(v).len()),
    decreases s@.len() - j, 0int,
{
    proof {
        assert forall|v: JsonV| val_hyp(s@, j as int, v) implies s@[j as int] == ser_json(v)[0] by {
            lemma_ser_first(v);
            lemma_matches_index(s@, j as int, ser_json(v), 0);
        }
    }

        proof {
            assert forall|v: JsonV| val_hyp(s@, j as int, v) implies v is Arr && matches_at(
                s@,
                j + 1,
                ser_items(v->Arr_0) + seq![']'],
            ) by {
                lemma_ser_first(v);
                assert(v is Arr);
                let vs = v->Arr_0;
                assert(ser_json(v) =~= seq!['['] + (ser_items(vs) + seq![']']));
                lemma_matches_split(s@, j as int, seq!['['], ser_items(vs) + seq![']']);
            }
        }
        let len = s.len();
        assert(j < len);
        let j1 = skip_ws(s, j + 1);
        proof {
            assert forall|v: JsonV| val_hyp(s@, j as int, v) implies j1 == j + 1 by {
                let vs = v->Arr_0;
                let tail = ser_items(vs) + seq![']'];
                lemma_matches_index(s@, j + 1, tail, 0);
                if vs.len() == 0 {
                    assert(tail[0] == ']');
                } else {
                    crate::json::lemma_wf_jsons(vs);
                    lemma_ser_first(vs[0]);
                    assert(ser_items(vs) == ser_json(vs[0]) + ser_rest(
                        vs.subrange(1, vs.len() as int),
                    ));
                    assert(tail[0] == ser_json(vs[0])[0]);
                }
                if j1 > j + 1 {
                    assert(is_ws(s@[j + 1]));
                }
            }
        }
        if j1 < s.len() && s[j1] == ']' {
            proof {
                assert forall|v: JsonV| val_hyp(s@, j as int, v) implies JsonV::Arr(
                    json_views(Seq::<Json>::empty()),
                ) == v && j1 + 1 == j + ser_json(v).len() by {
                    let vs = v->Arr_0;
                    let tail = ser_items(vs) + seq![']'];
                    lemma_matches_index(s@, j + 1, tail, 0);
                    if vs.len() > 0 {
                        crate::json::lemma_wf_jsons(vs);
                        lemma_ser_first(vs[0]);
                        assert(ser_items(vs) == ser_json(vs[0]) + ser_rest(
                            vs.subrange(1, vs.len() as int),
                        ));
                        assert(tail[0] == ser_json(vs[0])[0]);
                        assert(false);
                    }
                    assert(ser_items(vs) =~= Seq::<char>::empty());
                    assert(ser_json(v).len() == 2);
                    assert(json_views(Seq::<Json>::empty()) =~= Seq::<JsonV>::empty());
                    assert(vs =~= Seq::<JsonV>::empty());
                }
            }
            let items: Vec<Json> = Vec::new();
            proof {
                assert(json_view(Json::Arr(items)) == JsonV::Arr(json_views(items@)));
                assert(wf_json(json_view(Json::Arr(items))));
            }
            return Ok((Json::Arr(items), j1 + 1));
        }
        // a nonempty element list
        proof {
            assert forall|v: JsonV| val_hyp(s@, j as int, v) implies v->Arr_0.len() > 0 && val_hyp(
                s@,
                j1 as int,
                v->Arr_0[0],
            ) by {
                let vs = v->Arr_0;
                let tail = ser_items(vs) + seq![']'];
                if vs.len() == 0 {
                    assert(ser_items(vs) =~= Seq::<char>::empty());
                    lemma_matches_index(s@, j + 1, tail, 0);
                    assert(s@[j + 1] == ']');
                    assert(j1 == j + 1);
                    assert(j1 < s@.len());
                    assert(false);
                }
                crate::json::lemma_wf_jsons(vs);
                let vs1 = vs.subrange(1, vs.len() as int);
                assert(ser_items(vs) == ser_json(vs[0]) + ser_rest(vs1));
                assert(tail =~= ser_json(vs[0]) + (ser_rest(vs1) + seq![']']));
                lemma_matches_split(s@, j + 1, ser_json(vs[0]), ser_rest(vs1) + seq![']']);
                // the element is followed by ',' or ']'
                let after = j + 1 + ser_json(vs[0]).len();
                lemma_matches_index(s@, after, ser_rest(vs1) + seq![']'], 0);
                if vs1.len() == 0 {
                    assert(ser_rest(vs1) =~= Seq::<char>::empty());
                    assert(s@[after] == ']');
                } else {
                    assert((ser_rest(vs1) + seq![']'])[0] == ',');
                }
                assert(delim_at(s@, after));
            }
        }
        let mut items: Vec<Json> = Vec::new();
        match parse_value(s, j1) {
            Err(()) => {
                proof {
                    assert forall|v: JsonV| val_hyp(s@, j as int, v) implies false by {
                        assert(val_hyp(s@, j1 as int, v->Arr_0[0]));
                        assert(ser_json(v->Arr_0[0]) == ser_json(v->Arr_0[0]));
                    }
                }
                return Err(());
            },
            Ok((e0, p0)) => {
                items.push(e0);
                proof {
                    crate::json::lemma_json_views_push(Seq::<Json>::empty(), e0);
                    assert(json_views(Seq::<Json>::empty()) =~= Seq::<JsonV>::empty());
                    assert(json_views(items@) =~= seq![json_view(e0)]);
                    assert(wf_jsons(json_views(items@))) by {
                        crate::json::lemma_wf_jsons(json_views(items@));
                    }
                    assert forall|v: JsonV| val_hyp(s@, j as int, v) implies matches_at(
                        s@,
                        p0 as int,
                        ser_rest(v->Arr_0.subrange(1, v->Arr_0.len() as int)) + seq![']'],
                    ) && wf_jsons(v->Arr_0.subrange(1, v->Arr_0.len() as int)) && json_view(e0)
                        == v->Arr_0[0] by {
                        let vs = v->Arr_0;
                        let vs1 = vs.subrange(1, vs.len() as int);
                        assert(val_hyp(s@, j1 as int, vs[0]));
                        assert(p0 as int == j1 + ser_json(vs[0]).len());
                        assert(ser_items(vs) == ser_json(vs[0]) + ser_rest(vs1));
                        assert(ser_items(vs) + seq![']'] =~= ser_json(vs[0]) + (ser_rest(vs1)
                            + seq![']']));
                        lemma_matches_split(s@, j + 1, ser_json(vs[0]), ser_rest(vs1) + seq![']']);
                    }
                }
                match parse_arr_rest(s, p0, &mut items) {
                    Err(()) => {
                        proof {
                            assert forall|v: JsonV| val_hyp(s@, j as int, v) implies false by {
                                let vs1 = v->Arr_0.subrange(1, v->Arr_0.len() as int);
                                assert(matches_at(s@, p0 as int, ser_rest(vs1) + seq![']']));
                            }
                        }
                        return Err(());
                    },
                    Ok(end) => {
                        proof {
                            assert(wf_json(json_view(Json::Arr(items))));
                            assert forall|v: JsonV| val_hyp(s@, j as int, v) implies json_view(
                                Json::Arr(items),
                            ) == v && end as int == j + ser_json(v).len() by {
                                let vs = v->Arr_0;
                                let vs1 = vs.subrange(1, vs.len() as int);
                                assert(matches_at(s@, p0 as int, ser_rest(vs1) + seq![']']));
                                assert(json_views(items@) == seq![json_view(e0)] + vs1);
                                assert(seq![json_view(e0)] + vs1 =~= vs);
                                assert(ser_json(v).len() == 1 + ser_json(vs[0]).len() + ser_rest(
                                    vs1,
                                ).len() + 1);
                            }
                        }
                        return Ok((Json::Arr(items), end));
                    },
                }
            },
        }
    }

/// Parses an object whose `{` stands at `j`.
#[verifier::rlimit(100)]
fn parse_object(s: &Vec<char>, j: usize) -> (r: Result<(Json, usize), ()>)
    requires
        j < s@.len(),
        s@[j as int] == '{',
    ensures
        r matches Ok(p) ==> j < p.1 <= s@.len() && wf_json(p.0@),
        forall|v: JsonV| #![trigger ser_json(v)]
            val_hyp(s@, j as int, v) ==> (r matches Ok(p) && p.0@ == v && p.1 as int == j
                + ser_json(v).len()),
    decreases s@.len() - j, 0int,
{
    proof {
        assert forall|v: JsonV| val_hyp(s@, j as int, v) implies s@[j as int] == ser_json(v)[0] by {
            lemma_ser_first(v);
            lemma_matches_index(s@, j as int, ser_json(v), 0);
        }
    }

        proof {
            assert forall|v: JsonV| val_hyp(s@, j as int, v) implies v is Obj && matches_at(
                s@,
                j + 1,
                ser_fields(v->Obj_0) + seq!['}'],
            ) by {
                lemma_ser_first(v);
                assert(v is Obj);
                let fs = v->Obj_0;
                assert(ser_json(v) =~= seq!['{'] + (ser_fields(fs) + seq!['}']));
                lemma_matches_split(s@, j as int, seq!['{'], ser_fields(fs) + seq!['}']);
            }
        }
        let len = s.len();
        assert(j < len);
        let j1 = skip_ws(s, j + 1);
        proof {
            assert forall|v: JsonV| val_hyp(s@, j as int, v) implies j1 == j + 1 by {
                let fs = v->Obj_0;
                let tail = ser_fields(fs) + seq!['}'];
                lemma_matches_index(s@, j + 1, tail, 0);
                if fs.len() == 0 {
                    assert(tail[0] == '}');
                } else {
                    assert(ser_fields(fs) == ser_str(fs[0].0) + seq![':'] + ser_json(fs[0].1)
                        + ser_frest(fs.subrange(1, fs.len() as int)));
                    assert(tail[0] == '"');
                }
                if j1 > j + 1 {
                    assert(is_ws(s@[j + 1]));
                }
            }
        }
        if j1 < s.len() && s[j1] == '}' {
            proof {
                assert forall|v: JsonV| val_hyp(s@, j as int, v) implies JsonV::Obj(
                    field_views(Seq::<JsonField>::empty()),
                ) == v && j1 + 1 == j + ser_json(v).len() by {
                    let fs = v->Obj_0;
                    let tail = ser_fields(fs) + seq!['}'];
                    lemma_matches_index(s@, j + 1, tail, 0);
                    if fs.len() > 0 {
                        assert(ser_fields(fs) == ser_str(fs[0].0) + seq![':'] + ser_json(fs[0].1)
                            + ser_frest(fs.subrange(1, fs.len() as int)));
                        assert(tail[0] == '"');
                        assert(false);
                    }
                    assert(ser_fields(fs) =~= Seq::<char>::empty());
                    assert(ser_json(v).len() == 2);
                    assert(field_views(Seq::<JsonField>::empty()) =~= Seq::<(Seq<char>, JsonV)>::empty());
                    assert(fs =~= Seq::<(Seq<char>, JsonV)>::empty());
                }
            }
            let fields: Vec<JsonField> = Vec::new();
            proof {
                assert(json_view(Json::Obj(fields)) == JsonV::Obj(field_views(fields@)));
                assert(wf_json(json_view(Json::Obj(fields))));
            }
            return Ok((Json::Obj(fields), j1 + 1));
        }
        // a nonempty member list
        proof {
            assert forall|v: JsonV| val_hyp(s@, j as int, v) implies v->Obj_0.len() > 0
                && member_hyp(s@, j1 as int, v->Obj_0[0]) by {
                let fs = v->Obj_0;
                let tail = ser_fields(fs) + seq!['}'];
                if fs.len() == 0 {
                    assert(ser_fields(fs) =~= Seq::<char>::empty());
                    lemma_matches_index(s@, j + 1, tail, 0);
                    assert(s@[j + 1] == '}');
                    assert(j1 == j + 1);
                    assert(false);
                }
                crate::json::lemma_wf_fields(fs);
                let fs1 = fs.subrange(1, fs.len() as int);
                let m0 = ser_str(fs[0].0) + seq![':'] + ser_json(fs[0].1);
                assert(ser_fields(fs) == m0 + ser_frest(fs1));
                assert(tail =~= m0 + (ser_frest(fs1) + seq!['}']));
                lemma_matches_split(s@, j + 1, m0, ser_frest(fs1) + seq!['}']);
                let after = j + 1 + m0.len();
                lemma_matches_index(s@, after, ser_frest(fs1) + seq!['}'], 0);
                if fs1.len() == 0 {
                    assert(ser_frest(fs1) =~= Seq::<char>::empty());
                    assert(s@[after] == '}');
                } else {
                    assert((ser_frest(fs1) + seq!['}'])[0] == ',');
                }
                assert(delim_at(s@, after));
            }
        }
        let mut fields: Vec<JsonField> = Vec::new();
        match parse_member(s, j1) {
            Err(()) => {
                proof {
                    assert forall|v: JsonV| val_hyp(s@, j as int, v) implies false by {
                        assert(member_hyp(s@, j1 as int, v->Obj_0[0]));
                        assert(ser_str(v->Obj_0[0].0) == ser_str(v->Obj_0[0].0));
                        assert(ser_json(v->Obj_0[0].1) == ser_json(v->Obj_0[0].1));
                    }
                }
                return Err(());
            },
            Ok((f0, p0)) => {
                fields.push(f0);
                proof {
                    crate::json::lemma_field_views_push(Seq::<JsonField>::empty(), f0);
                    assert(field_views(Seq::<JsonField>::empty()) =~= Seq::<(Seq<char>, JsonV)>::empty());
                    assert(field_views(fields@) =~= seq![f0@]);
                    assert(wf_fields(field_views(fields@))) by {
                        crate::json::lemma_wf_fields(field_views(fields@));
                    }
                    assert forall|v: JsonV| val_hyp(s@, j as int, v) implies matches_at(
                        s@,
                        p0 as int,
                        ser_frest(v->Obj_0.subrange(1, v->Obj_0.len() as int)) + seq!['}'],
                    ) && wf_fields(v->Obj_0.subrange(1, v->Obj_0.len() as int)) && f0@
                        == v->Obj_0[0] by {
                        let fs = v->Obj_0;
                        let fs1 = fs.subrange(1, fs.len() as int);
                        assert(member_hyp(s@, j1 as int, fs[0]));
                        let m0 = ser_str(fs[0].0) + seq![':'] + ser_json(fs[0].1);
                        assert(p0 as int == j1 + m0.len());
                        assert(ser_fields(fs) == m0 + ser_frest(fs1));
                        assert(ser_fields(fs) + seq!['}'] =~= m0 + (ser_frest(fs1) + seq!['}']));
                        lemma_matches_split(s@, j + 1, m0, ser_frest(fs1) + seq!['}']);
                        crate::json::lemma_wf_fields(fs);
                        crate::json::lemma_wf_fields(fs1);
                        assert forall|k: int| 0 <= k < fs1.len() implies wf_json(
                            (#[trigger] fs1[k]).1,
                        ) by {
                            assert(fs1[k] == fs[k + 1]);
                        }
                    }
                }
                match parse_obj_rest(s, p0, &mut fields) {
                    Err(()) => {
                        proof {
                            assert forall|v: JsonV| val_hyp(s@, j as int, v) implies false by {
                                let fs1 = v->Obj_0.subrange(1, v->Obj_0.len() as int);
                                assert(matches_at(s@, p0 as int, ser_frest(fs1) + seq!['}']));
                            }
                        }
                        return Err(());
                    },
                    Ok(end) => {
                        proof {
                            assert(wf_json(json_view(Json::Obj(fields))));
                            assert forall|v: JsonV| val_hyp(s@, j as int, v) implies json_view(
                                Json::Obj(fields),
                            ) == v && end as int == j + ser_json(v).len() by {
                                let fs = v->Obj_0;
                                let fs1 = fs.subrange(1, fs.len() as int);
                                assert(matches_at(s@, p0 as int, ser_frest(fs1) + seq!['}']));
                                assert(field_views(fields@) == seq![f0@] + fs1);
                                assert(seq![f0@] + fs1 =~= fs);
                                let m0 = ser_str(fs[0].0) + seq![':'] + ser_json(fs[0].1);
                                assert(ser_json(v).len() == 1 + m0.len() + ser_frest(fs1).len()
                                    + 1);
                            }
                        }
                        return Ok((Json::Obj(fields), end));
                    },
                }
            },
        }
    }

/// Reads one `\uXXXX` escape at `i` (`s[i]` is the backslash),
/// combining a surrogate pair when one follows.  When the six
/// characters are exactly a control character's escape, the result is
/// that character.
fn read_u_escape(s: &Vec<char>, i: usize) -> (r: Result<(char, usize), ()>)
    requires
        i + 1 < s@.len(),
        s@[i as int] == '\\',
        s@[i + 1] == 'u',
    ensures
        r matches Ok(p) ==> i + 6 <= p.1 <= s@.len(),
        forall|c: char| #![trigger esc_char(c)]
            (esc_char(c).len() == 6 && matches_at(s@, i as int, esc_char(c))) ==> (r matches Ok(p)
                && p.0 == c && p.1 == i + 6),
{
    let len = s.len();
    proof {
        assert forall|c: char|
            esc_char(c).len() == 6 && matches_at(s@, i as int, esc_char(c)) implies s@[i + 2]
            == '0' && s@[i + 3] == '0' && is_hex(s@[i + 4]) && is_hex(s@[i + 5]) && hex_val(
            s@[i + 4],
        ) * 16 + hex_val(s@[i + 5]) == c as u32 && (c as u32) < 0x20 && i + 6 <= s@.len() by {
            lemma_esc_shape(c);
            lemma_matches_index(s@, i as int, esc_char(c), 2);
            lemma_matches_index(s@, i as int, esc_char(c), 3);
            lemma_matches_index(s@, i as int, esc_char(c), 4);
            lemma_matches_index(s@, i as int, esc_char(c), 5);
        }
    }
    if len - i < 6 {
        return Err(());
    }
    let u1 = match read_hex4(s, i + 2) {
        Some(u) => u,
        None => {
            return Err(());
        },
    };
    proof {
        assert forall|c: char|
            esc_char(c).len() == 6 && matches_at(s@, i as int, esc_char(c)) implies u1 == c as u32
            && u1 < 0x20 by {
            lemma_esc_shape(c);
        }
    }
    if 0xD800 <= u1 && u1 < 0xDC00 {
        // a high surrogate: a low surrogate escape must follow
        if len - i < 12 {
            return Err(());
        }
        if !(s[i + 6] == '\\' && s[i + 7] == 'u') {
            return Err(());
        }
        let u2 = match read_hex4(s, i + 8) {
            Some(u) => u,
            None => {
                return Err(());
            },
        };
        if !(0xDC00 <= u2 && u2 < 0xE000) {
            return Err(());
        }
        let code = 0x10000 + (u1 - 0xD800) * 0x400 + (u2 - 0xDC00);
        match char_from_u32(code) {
            Some(c2) => {
                return Ok((c2, i + 12));
            },
            None => {
                return Err(());
            },
        }
    }
    if 0xDC00 <= u1 && u1 < 0xE000 {
        // a lone low surrogate
        return Err(());
    }
    match char_from_u32(u1) {
        Some(c2) => {
            proof {
                assert forall|c: char|
                    esc_char(c).len() == 6 && matches_at(s@, i as int, esc_char(c)) implies c2
                    == c by {
                    assert(u1 == c as u32);
                    assert(c2 as u32 == c as u32);
                    lemma_char_scalar(c2, c);
                }
            }
            Ok((c2, i + 6))
        },
        None => {
            proof {
                assert forall|c: char|
                    esc_char(c).len() == 6 && matches_at(s@, i as int, esc_char(c)) implies false by {
                    assert(u1 == c as u32 && u1 < 0x20);
                }
            }
            Err(())
        },
    }
}

/// Parses one value at `i`, after optional whitespace.
#[verifier::rlimit(100)]
fn parse_value(s: &Vec<char>, i: usize) -> (r: Result<(Json, usize), ()>)
    requires
        i <= s@.len(),
    ensures
        r matches Ok(p) ==> i < p.1 <= s@.len() && wf_json(p.0@),
        forall|v: JsonV| #![trigger ser_json(v)]
            val_hyp(s@, i as int, v) ==> (r matches Ok(p) && p.0@ == v && p.1 as int == i
                + ser_json(v).len()),
    decreases s@.len() - i, 1int,
{
    let j = skip_ws(s, i);
    proof {
        assert forall|v: JsonV| val_hyp(s@, i as int, v) implies j == i by {
            lemma_ser_first(v);
            lemma_matches_index(s@, i as int, ser_json(v), 0);
            if j > i {
                assert(is_ws(s@[i as int]));
            }
        }
    }
    if j >= s.len() {
        proof {
            assert forall|v: JsonV| val_hyp(s@, i as int, v) implies false by {
                lemma_ser_first(v);
            }
        }
        return Err(());
    }
    let c = s[j];
    proof {
        assert forall|v: JsonV| val_hyp(s@, i as int, v) implies s@[j as int] == ser_json(v)[0] by {
            lemma_ser_first(v);
            lemma_matches_index(s@, i as int, ser_json(v), 0);
        }
    }
    if c == 'n' {
        if s.len() - j >= 4 {
            let ok = s[j + 1] == 'u' && s[j + 2] == 'l' && s[j + 3] == 'l';
            if ok {
                proof {
                    assert forall|v: JsonV| val_hyp(s@, i as int, v) implies JsonV::Null == v && j
                        + 4 == i + ser_json(v).len() by {
                        lemma_ser_first(v);
                    }
                }
                return Ok((Json::Null, j + 4));
            }
        }
        proof {
            assert forall|v: JsonV| val_hyp(s@, i as int, v) implies false by {
                lemma_ser_first(v);
                assert(v is Null);
                lemma_matches_index(s@, i as int, ser_json(v), 1);
                lemma_matches_index(s@, i as int, ser_json(v), 2);
                lemma_matches_index(s@, i as int, ser_json(v), 3);
            }
        }
        return Err(());
    }
    if c == 't' {
        if s.len() - j >= 4 {
            let ok = s[j + 1] == 'r' && s[j + 2] == 'u' && s[j + 3] == 'e';
            if ok {
                proof {
                    assert forall|v: JsonV| val_hyp(s@, i as int, v) implies JsonV::Bool(true) == v
                        && j + 4 == i + ser_json(v).len() by {
                        lemma_ser_first(v);
                    }
                }
                return Ok((Json::Bool(true), j + 4));
            }
        }
        proof {
            assert forall|v: JsonV| val_hyp(s@, i as int, v) implies false by {
                lemma_ser_first(v);
                assert(v == JsonV::Bool(true));
                lemma_matches_index(s@, i as int, ser_json(v), 1);
                lemma_matches_index(s@, i as int, ser_json(v), 2);
                lemma_matches_index(s@, i as int, ser_json(v), 3);
            }
        }
        return Err(());
    }
    if c == 'f' {
        if s.len() - j >= 5 {
            let ok = s[j + 1] == 'a' && s[j + 2] == 'l' && s[j + 3] == 's' && s[j + 4] == 'e';
            if ok {
                proof {
                    assert forall|v: JsonV| val_hyp(s@, i as int, v) implies JsonV::Bool(false) == v
                        && j + 5 == i + ser_json(v).len() by {
                        lemma_ser_first(v);
                    }
                }
                return Ok((Json::Bool(false), j + 5));
            }
        }
        proof {
            assert forall|v: JsonV| val_hyp(s@, i as int, v) implies false by {
                lemma_ser_first(v);
                assert(v == JsonV::Bool(false));
                lemma_matches_index(s@, i as int, ser_json(v), 1);
                lemma_matches_index(s@, i as int, ser_json(v), 2);
                lemma_matches_index(s@, i as int, ser_json(v), 3);
                lemma_matches_index(s@, i as int, ser_json(v), 4);
            }
        }
        return Err(());
    }
    if c == '"' {
        let mut buf: Vec<char> = Vec::new();
        proof {
            assert forall|v: JsonV| val_hyp(s@, i as int, v) implies v is Str && matches_at(
                s@,
                j + 1,
                ser_str_body(v->Str_0) + seq!['"'],
            ) by {
                lemma_ser_first(v);
                assert(v is Str);
                let w = v->Str_0;
                assert(ser_json(v) == ser_str(w));
                assert(ser_str(w) =~= seq!['"'] + (ser_str_body(w) + seq!['"']));
                lemma_matches_split(s@, i as int, seq!['"'], ser_str_body(w) + seq!['"']);
            }
        }
        match parse_str_body(s, j + 1, &mut buf) {
            Ok(p2) => {
                let st = chars_to_string(&buf);
                proof {
                    assert forall|v: JsonV| val_hyp(s@, i as int, v) implies json_view(
                        Json::Str(st),
                    ) == v && p2 as int == i + ser_json(v).len() by {
                        let w = v->Str_0;
                        assert(buf@ == Seq::<char>::empty() + w);
                        assert(Seq::<char>::empty() + w =~= w);
                        assert(ser_json(v).len() == ser_str_body(w).len() + 2);
                    }
                }
                return Ok((Json::Str(st), p2));
            },
            Err(()) => {
                proof {
                    assert forall|v: JsonV| val_hyp(s@, i as int, v) implies false by {
                        assert(matches_at(s@, j + 1, ser_str_body(v->Str_0) + seq!['"']));
                    }
                }
                return Err(());
            },
        }
    }
    if c == '[' {
        let r = parse_array(s, j);
        proof {
            assert forall|v: JsonV| val_hyp(s@, i as int, v) implies (r matches Ok(p) && p.0@ == v
                && p.1 as int == i + ser_json(v).len()) by {
                assert(val_hyp(s@, j as int, v));
            }
        }
        return r;
    }
    if c == '{' {
        let r = parse_object(s, j);
        proof {
            assert forall|v: JsonV| val_hyp(s@, i as int, v) implies (r matches Ok(p) && p.0@ == v
                && p.1 as int == i + ser_json(v).len()) by {
                assert(val_hyp(s@, j as int, v));
            }
        }
        return r;
    }
    if c == '-' || is_digit_c(c) {
        proof {
            assert forall|v: JsonV| val_hyp(s@, i as int, v) implies (v is Int && num_hyp(
                s@,
                j as int,
                v->Int_0,
            )) || (v is Num && numtext_hyp(s@, j as int, v->Num_0)) by {
                lemma_ser_first(v);
                if v is Int {
                    assert(ser_json(v) == ser_int(v->Int_0));
                } else {
                    assert(v is Num);
                    assert(ser_json(v) == v->Num_0);
                }
            }
        }
        match parse_number(s, j) {
            Err(()) => {
                proof {
                    assert forall|v: JsonV| val_hyp(s@, i as int, v) implies false by {
                        if v is Int {
                            assert(num_hyp(s@, j as int, v->Int_0));
                            assert(ser_int(v->Int_0) == ser_int(v->Int_0));
                        } else {
                            assert(numtext_hyp(s@, j as int, v->Num_0));
                            assert(wf_num(v->Num_0));
                        }
                    }
                }
                return Err(());
            },
            Ok((jn, p2)) => {
                proof {
                    assert forall|v: JsonV| val_hyp(s@, i as int, v) implies json_view(jn) == v
                        && p2 as int == i + ser_json(v).len() by {
                        if v is Int {
                            assert(num_hyp(s@, j as int, v->Int_0));
                            assert(ser_int(v->Int_0) == ser_int(v->Int_0));
                        } else {
                            assert(numtext_hyp(s@, j as int, v->Num_0));
                            assert(wf_num(v->Num_0));
                        }
                    }
                }
                return Ok((jn, p2));
            },
        }
    }
    proof {
        assert forall|v: JsonV| val_hyp(s@, i as int, v) implies false by {
            lemma_ser_first(v);
        }
    }
    Err(())
}

/// Parses `,element` repetitions up to and including the closing `]`.
fn parse_arr_rest(s: &Vec<char>, i: usize, items: &mut Vec<Json>) -> (r: Result<usize, ()>)
    requires
        i <= s@.len(),
    ensures
        r matches Ok(j) ==> i < j <= s@.len()
            && (wf_jsons(json_views(old(items)@)) ==> wf_jsons(json_views(final(items)@))),
        forall|vs: Seq<JsonV>| #![trigger ser_rest(vs)]
            (wf_jsons(vs) && matches_at(s@, i as int, ser_rest(vs) + seq![']']))
                ==> (r matches Ok(j) && j as int == i + ser_rest(vs).len() + 1
                    && json_views(final(items)@) == json_views(old(items)@) + vs),
    decreases s@.len() - i, 0int,
{
    let j = skip_ws(s, i);
    proof {
        assert forall|vs: Seq<JsonV>|
            wf_jsons(vs) && matches_at(s@, i as int, ser_rest(vs) + seq![']']) implies j == i by {
            lemma_matches_index(s@, i as int, ser_rest(vs) + seq![']'], 0);
            if vs.len() == 0 {
                assert(ser_rest(vs) =~= Seq::<char>::empty());
                assert((ser_rest(vs) + seq![']'])[0] == ']');
            } else {
                assert((ser_rest(vs) + seq![']'])[0] == ',');
            }
            if j > i {
                assert(is_ws(s@[i as int]));
            }
        }
    }
    if j >= s.len() {
        proof {
            assert forall|vs: Seq<JsonV>|
                wf_jsons(vs) && matches_at(s@, i as int, ser_rest(vs) + seq![']']) implies false by {
                assert((ser_rest(vs) + seq![']']).len() >= 1);
            }
        }
        return Err(());
    }
    if s[j] == ']' {
        proof {
            assert forall|vs: Seq<JsonV>|
                wf_jsons(vs) && matches_at(s@, i as int, ser_rest(vs) + seq![']']) implies j + 1
                == i + ser_rest(vs).len() + 1 && json_views(items@) == json_views(items@) + vs by {
                lemma_matches_index(s@, i as int, ser_rest(vs) + seq![']'], 0);
                if vs.len() > 0 {
                    assert((ser_rest(vs) + seq![']'])[0] == ',');
                    assert(false);
                }
                assert(ser_rest(vs) =~= Seq::<char>::empty());
                assert(json_views(items@) =~= json_views(items@) + vs);
            }
        }
        return Ok(j + 1);
    }
    if s[j] != ',' {
        proof {
            assert forall|vs: Seq<JsonV>|
                wf_jsons(vs) && matches_at(s@, i as int, ser_rest(vs) + seq![']']) implies false by {
                lemma_matches_index(s@, i as int, ser_rest(vs) + seq![']'], 0);
                if vs.len() == 0 {
                    assert(ser_rest(vs) =~= Seq::<char>::empty());
                    assert((ser_rest(vs) + seq![']'])[0] == ']');
                } else {
                    assert((ser_rest(vs) + seq![']'])[0] == ',');
                }
            }
        }
        return Err(());
    }
    // s[j] == ','
    proof {
        assert forall|vs: Seq<JsonV>|
            wf_jsons(vs) && matches_at(s@, i as int, ser_rest(vs) + seq![']']) implies vs.len() > 0
            && val_hyp(s@, j + 1, vs[0]) by {
            lemma_matches_index(s@, i as int, ser_rest(vs) + seq![']'], 0);
            if vs.len() == 0 {
                assert(ser_rest(vs) =~= Seq::<char>::empty());
                assert((ser_rest(vs) + seq![']'])[0] == ']');
                assert(false);
            }
            crate::json::lemma_wf_jsons(vs);
            let vs1 = vs.subrange(1, vs.len() as int);
            assert(ser_rest(vs) == seq![','] + ser_json(vs[0]) + ser_rest(vs1));
            assert(ser_rest(vs) + seq![']'] =~= seq![','] + (ser_json(vs[0]) + (ser_rest(vs1)
                + seq![']'])));
            lemma_matches_split(s@, i as int, seq![','], ser_json(vs[0]) + (ser_rest(vs1)
                + seq![']']));
            lemma_matches_split(s@, i + 1, ser_json(vs[0]), ser_rest(vs1) + seq![']']);
            let after = i + 1 + ser_json(vs[0]).len();
            lemma_matches_index(s@, after, ser_rest(vs1) + seq![']'], 0);
            if vs1.len() == 0 {
                assert(ser_rest(vs1) =~= Seq::<char>::empty());
                assert(s@[after] == ']');
            } else {
                assert((ser_rest(vs1) + seq![']'])[0] == ',');
            }
            assert(delim_at(s@, after));
        }
    }
    match parse_value(s, j + 1) {
        Err(()) => {
            proof {
                assert forall|vs: Seq<JsonV>|
                    wf_jsons(vs) && matches_at(s@, i as int, ser_rest(vs) + seq![']']) implies false by {
                    assert(val_hyp(s@, j + 1, vs[0]));
                    assert(ser_json(vs[0]) == ser_json(vs[0]));
                }
            }
            return Err(());
        },
        Ok((e, p)) => {
            let ghost items0 = items@;
            items.push(e);
            proof {
                crate::json::lemma_json_views_push(items0, e);
                crate::json::lemma_wf_jsons(json_views(items0));
                crate::json::lemma_wf_jsons(json_views(items0.push(e)));
                if wf_jsons(json_views(items0)) {
                    assert forall|k: int| 0 <= k < json_views(items0.push(e)).len() implies
                        wf_json(#[trigger] json_views(items0.push(e))[k]) by {
                        if k < json_views(items0).len() {
                            assert(json_views(items0.push(e))[k] == json_views(items0)[k]);
                        } else {
                            assert(json_views(items0.push(e))[k] == json_view(e));
                        }
                    }
                }
                assert forall|vs: Seq<JsonV>|
                    wf_jsons(vs) && matches_at(s@, i as int, ser_rest(vs) + seq![']']) implies
                    json_view(e) == vs[0] && wf_jsons(vs.subrange(1, vs.len() as int))
                    && matches_at(
                    s@,
                    p as int,
                    ser_rest(vs.subrange(1, vs.len() as int)) + seq![']'],
                ) by {
                    let vs1 = vs.subrange(1, vs.len() as int);
                    assert(val_hyp(s@, j + 1, vs[0]));
                    assert(p as int == j + 1 + ser_json(vs[0]).len());
                    assert(ser_rest(vs) == seq![','] + ser_json(vs[0]) + ser_rest(vs1));
                    assert(ser_rest(vs) + seq![']'] =~= seq![','] + (ser_json(vs[0]) + (ser_rest(
                        vs1,
                    ) + seq![']'])));
                    lemma_matches_split(s@, i as int, seq![','], ser_json(vs[0]) + (ser_rest(vs1)
                        + seq![']']));
                    lemma_matches_split(s@, i + 1, ser_json(vs[0]), ser_rest(vs1) + seq![']']);
                }
            }
            match parse_arr_rest(s, p, items) {
                Err(()) => {
                    proof {
                        assert forall|vs: Seq<JsonV>|
                            wf_jsons(vs) && matches_at(s@, i as int, ser_rest(vs) + seq![']'])
                            implies false by {
                            let vs1 = vs.subrange(1, vs.len() as int);
                            assert(matches_at(s@, p as int, ser_rest(vs1) + seq![']']));
                        }
                    }
                    return Err(());
                },
                Ok(end) => {
                    proof {
                        assert forall|vs: Seq<JsonV>|
                            wf_jsons(vs) && matches_at(s@, i as int, ser_rest(vs) + seq![']'])
                            implies end as int == i + ser_rest(vs).len() + 1 && json_views(items@)
                            == json_views(items0) + vs by {
                            let vs1 = vs.subrange(1, vs.len() as int);
                            assert(matches_at(s@, p as int, ser_rest(vs1) + seq![']']));
                            assert(json_views(items@) == json_views(items0.push(e)) + vs1);
                            assert(json_views(items0.push(e)) == json_views(items0).push(
                                json_view(e),
                            ));
                            assert(json_views(items0).push(vs[0]) + vs1 =~= json_views(items0)
                                + vs);
                            assert(ser_rest(vs).len() == 1 + ser_json(vs[0]).len() + ser_rest(
                                vs1,
                            ).len());
                        }
                    }
                    return Ok(end);
                },
            }
        },
    }
}

/// The rendering of one `key:value` member occurs at `i`, with a token
/// break after it.
pub open spec fn member_hyp(s: Seq<char>, i: int, f: (Seq<char>, JsonV)) -> bool {
    wf_json(f.1) && matches_at(s, i, ser_str(f.0) + seq![':'] + ser_json(f.1)) && delim_at(
        s,
        i + ser_str(f.0).len() + 1 + ser_json(f.1).len(),
    )
}

/// Parses one `"key":value` member at `i`.
fn parse_member(s: &Vec<char>, i: usize) -> (r: Result<(JsonField, usize), ()>)
    requires
        i <= s@.len(),
    ensures
        r matches Ok(p) ==> i < p.1 <= s@.len() && wf_json(json_view(p.0.value)),
        forall|f: (Seq<char>, JsonV)| #![trigger ser_str(f.0), ser_json(f.1)]
            member_hyp(s@, i as int, f) ==> (r matches Ok(p) && p.0@ == f && p.1 as int == i
                + ser_str(f.0).len() + 1 + ser_json(f.1).len()),
    decreases s@.len() - i, 0int,
{
    let j = skip_ws(s, i);
    proof {
        assert forall|f: (Seq<char>, JsonV)| member_hyp(s@, i as int, f) implies j == i
            && matches_at(s@, i + 1, ser_str_body(f.0) + seq!['"']) by {
            let m = ser_str(f.0) + seq![':'] + ser_json(f.1);
            assert(m =~= seq!['"'] + ((ser_str_body(f.0) + seq!['"']) + (seq![':'] + ser_json(
                f.1,
            ))));
            lemma_matches_split(s@, i as int, seq!['"'], (ser_str_body(f.0) + seq!['"']) + (
            seq![':'] + ser_json(f.1)));
            lemma_matches_split(s@, i + 1, ser_str_body(f.0) + seq!['"'], seq![':'] + ser_json(
                f.1,
            ));
            lemma_matches_index(s@, i as int, m, 0);
            if j > i {
                assert(is_ws(s@[i as int]));
            }
        }
    }
    if j >= s.len() {
        proof {
            assert forall|f: (Seq<char>, JsonV)| member_hyp(s@, i as int, f) implies false by {
                assert((ser_str(f.0) + seq![':'] + ser_json(f.1)).len() >= 1);
            }
        }
        return Err(());
    }
    if s[j] != '"' {
        proof {
            assert forall|f: (Seq<char>, JsonV)| member_hyp(s@, i as int, f) implies false by {
                let m = ser_str(f.0) + seq![':'] + ser_json(f.1);
                lemma_matches_index(s@, i as int, m, 0);
                assert(m[0] == '"');
            }
        }
        return Err(());
    }
    let mut key: Vec<char> = Vec::new();
    match parse_str_body(s, j + 1, &mut key) {
        Err(()) => {
            proof {
                assert forall|f: (Seq<char>, JsonV)| member_hyp(s@, i as int, f) implies false by {
                    assert(matches_at(s@, i + 1, ser_str_body(f.0) + seq!['"']));
                }
            }
            return Err(());
        },
        Ok(pk) => {
            let j2 = skip_ws(s, pk);
            proof {
                assert forall|f: (Seq<char>, JsonV)| member_hyp(s@, i as int, f) implies j2 == pk
                    && pk as int == i + ser_str(f.0).len() && s@[pk as int] == ':' && key@ == f.0 by {
                    assert(matches_at(s@, i + 1, ser_str_body(f.0) + seq!['"']));
                    assert(key@ == Seq::<char>::empty() + f.0);
                    assert(Seq::<char>::empty() + f.0 =~= f.0);
                    let m = ser_str(f.0) + seq![':'] + ser_json(f.1);
                    assert(pk as int == i + 1 + ser_str_body(f.0).len() + 1);
                    assert(ser_str(f.0).len() == ser_str_body(f.0).len() + 2);
                    lemma_matches_index(s@, i as int, m, pk - i);
                    assert(m[pk - i] == ':');
                    if j2 > pk {
                        assert(is_ws(s@[pk as int]));
                    }
                }
            }
            if j2 >= s.len() {
                proof {
                    assert forall|f: (Seq<char>, JsonV)| member_hyp(s@, i as int, f) implies false by {
                        let m = ser_str(f.0) + seq![':'] + ser_json(f.1);
                        assert(i + m.len() <= s@.len());
                    }
                }
                return Err(());
            }
            if s[j2] != ':' {
                proof {
                    assert forall|f: (Seq<char>, JsonV)| member_hyp(s@, i as int, f) implies false by {
                        assert(s@[pk as int] == ':');
                    }
                }
                return Err(());
            }
            proof {
                assert forall|f: (Seq<char>, JsonV)| member_hyp(s@, i as int, f) implies val_hyp(
                    s@,
                    j2 + 1,
                    f.1,
                ) by {
                    let m = ser_str(f.0) + seq![':'] + ser_json(f.1);
                    assert(m =~= (ser_str(f.0) + seq![':']) + ser_json(f.1));
                    lemma_matches_split(s@, i as int, ser_str(f.0) + seq![':'], ser_json(f.1));
                    assert(j2 + 1 == i + ser_str(f.0).len() + 1);
                }
            }
            match parse_value(s, j2 + 1) {
                Err(()) => {
                    proof {
                        assert forall|f: (Seq<char>, JsonV)| member_hyp(s@, i as int, f) implies false by {
                            assert(val_hyp(s@, j2 + 1, f.1));
                            assert(ser_json(f.1) == ser_json(f.1));
                        }
                    }
                    return Err(());
                },
                Ok((val, pv)) => {
                    let kf = JsonField { key: chars_to_string(&key), value: val };
                    proof {
                        assert forall|f: (Seq<char>, JsonV)| member_hyp(s@, i as int, f) implies kf@
                            == f && pv as int == i + ser_str(f.0).len() + 1 + ser_json(
                            f.1,
                        ).len() by {
                            assert(val_hyp(s@, j2 + 1, f.1));
                            assert(ser_json(f.1) == ser_json(f.1));
                        }
                    }
                    return Ok((kf, pv));
                },
            }
        },
    }
}

/// Parses `,member` repetitions up to and including the closing `}`.
fn parse_obj_rest(s: &Vec<char>, i: usize, fields: &mut Vec<JsonField>) -> (r: Result<usize, ()>)
    requires
        i <= s@.len(),
    ensures
        r matches Ok(j) ==> i < j <= s@.len()
            && (wf_fields(field_views(old(fields)@)) ==> wf_fields(field_views(final(fields)@))),
        forall|fs: Seq<(Seq<char>, JsonV)>| #![trigger ser_frest(fs)]
            (wf_fields(fs) && matches_at(s@, i as int, ser_frest(fs) + seq!['}']))
                ==> (r matches Ok(j) && j as int == i + ser_frest(fs).len() + 1
                    && field_views(final(fields)@) == field_views(old(fields)@) + fs),
    decreases s@.len() - i, 0int,
{
    let j = skip_ws(s, i);
    proof {
        assert forall|fs: Seq<(Seq<char>, JsonV)>|
            wf_fields(fs) && matches_at(s@, i as int, ser_frest(fs) + seq!['}']) implies j == i by {
            lemma_matches_index(s@, i as int, ser_frest(fs) + seq!['}'], 0);
            if fs.len() == 0 {
                assert(ser_frest(fs) =~= Seq::<char>::empty());
                assert((ser_frest(fs) + seq!['}'])[0] == '}');
            } else {
                assert((ser_frest(fs) + seq!['}'])[0] == ',');
            }
            if j > i {
                assert(is_ws(s@[i as int]));
            }
        }
    }
    if j >= s.len() {
        proof {
            assert forall|fs: Seq<(Seq<char>, JsonV)>|
                wf_fields(fs) && matches_at(s@, i as int, ser_frest(fs) + seq!['}']) implies false by {
                assert((ser_frest(fs) + seq!['}']).len() >= 1);
            }
        }
        return Err(());
    }
    if s[j] == '}' {
        proof {
            assert forall|fs: Seq<(Seq<char>, JsonV)>|
                wf_fields(fs) && matches_at(s@, i as int, ser_frest(fs) + seq!['}']) implies j + 1
                == i + ser_frest(fs).len() + 1 && field_views(fields@) == field_views(fields@)
                + fs by {
                lemma_matches_index(s@, i as int, ser_frest(fs) + seq!['}'], 0);
                if fs.len() > 0 {
                    assert((ser_frest(fs) + seq!['}'])[0] == ',');
                    assert(false);
                }
                assert(ser_frest(fs) =~= Seq::<char>::empty());
                assert(field_views(fields@) =~= field_views(fields@) + fs);
            }
        }
        return Ok(j + 1);
    }
    if s[j] != ',' {
        proof {
            assert forall|fs: Seq<(Seq<char>, JsonV)>|
                wf_fields(fs) && matches_at(s@, i as int, ser_frest(fs) + seq!['}']) implies false by {
                lemma_matches_index(s@, i as int, ser_frest(fs) + seq!['}'], 0);
                if fs.len() == 0 {
                    assert(ser_frest(fs) =~= Seq::<char>::empty());
                    assert((ser_frest(fs) + seq!['}'])[0] == '}');
                } else {
                    assert((ser_frest(fs) + seq!['}'])[0] == ',');
                }
            }
        }
        return Err(());
    }
    // s[j] == ','
    proof {
        assert forall|fs: Seq<(Seq<char>, JsonV)>|
            wf_fields(fs) && matches_at(s@, i as int, ser_frest(fs) + seq!['}']) implies fs.len()
            > 0 && member_hyp(s@, j + 1, fs[0]) by {
            lemma_matches_index(s@, i as int, ser_frest(fs) + seq!['}'], 0);
            if fs.len() == 0 {
                assert(ser_frest(fs) =~= Seq::<char>::empty());
                assert((ser_frest(fs) + seq!['}'])[0] == '}');
                assert(false);
            }
            crate::json::lemma_wf_fields(fs);
            let fs1 = fs.subrange(1, fs.len() as int);
            let m0 = ser_str(fs[0].0) + seq![':'] + ser_json(fs[0].1);
            assert(ser_frest(fs) == seq![','] + ser_str(fs[0].0) + seq![':'] + ser_json(fs[0].1)
                + ser_frest(fs1));
            assert(ser_frest(fs) + seq!['}'] =~= seq![','] + (m0 + (ser_frest(fs1) + seq!['}'])));
            lemma_matches_split(s@, i as int, seq![','], m0 + (ser_frest(fs1) + seq!['}']));
            lemma_matches_split(s@, i + 1, m0, ser_frest(fs1) + seq!['}']);
            let after = i + 1 + m0.len();
            lemma_matches_index(s@, after, ser_frest(fs1) + seq!['}'], 0);
            if fs1.len() == 0 {
                assert(ser_frest(fs1) =~= Seq::<char>::empty());
                assert(s@[after] == '}');
            } else {
                assert((ser_frest(fs1) + seq!['}'])[0] == ',');
            }
            assert(delim_at(s@, after));
        }
    }
    match parse_member(s, j + 1) {
        Err(()) => {
            proof {
                assert forall|fs: Seq<(Seq<char>, JsonV)>|
                    wf_fields(fs) && matches_at(s@, i as int, ser_frest(fs) + seq!['}']) implies false by {
                    assert(member_hyp(s@, j + 1, fs[0]));
                    assert(ser_str(fs[0].0) == ser_str(fs[0].0));
                    assert(ser_json(fs[0].1) == ser_json(fs[0].1));
                }
            }
            return Err(());
        },
        Ok((f, p)) => {
            let ghost fields0 = fields@;
            fields.push(f);
            proof {
                crate::json::lemma_field_views_push(fields0, f);
                crate::json::lemma_wf_fields(field_views(fields0));
                crate::json::lemma_wf_fields(field_views(fields0.push(f)));
                if wf_fields(field_views(fields0)) {
                    assert forall|k: int| 0 <= k < field_views(fields0.push(f)).len() implies
                        wf_json((#[trigger] field_views(fields0.push(f))[k]).1) by {
                        if k < field_views(fields0).len() {
                            assert(field_views(fields0.push(f))[k] == field_views(fields0)[k]);
                        } else {
                            assert(field_views(fields0.push(f))[k] == f@);
                        }
                    }
                }
                assert forall|fs: Seq<(Seq<char>, JsonV)>|
                    wf_fields(fs) && matches_at(s@, i as int, ser_frest(fs) + seq!['}']) implies f@
                    == fs[0] && wf_fields(fs.subrange(1, fs.len() as int)) && matches_at(
                    s@,
                    p as int,
                    ser_frest(fs.subrange(1, fs.len() as int)) + seq!['}'],
                ) by {
                    let fs1 = fs.subrange(1, fs.len() as int);
                    assert(member_hyp(s@, j + 1, fs[0]));
                    let m0 = ser_str(fs[0].0) + seq![':'] + ser_json(fs[0].1);
                    assert(p as int == j + 1 + m0.len());
                    assert(ser_frest(fs) == seq![','] + ser_str(fs[0].0) + seq![':'] + ser_json(
                        fs[0].1,
                    ) + ser_frest(fs1));
                    assert(ser_frest(fs) + seq!['}'] =~= seq![','] + (m0 + (ser_frest(fs1)
                        + seq!['}'])));
                    lemma_matches_split(s@, i as int, seq![','], m0 + (ser_frest(fs1)
                        + seq!['}']));
                    lemma_matches_split(s@, i + 1, m0, ser_frest(fs1) + seq!['}']);
                }
            }
            match parse_obj_rest(s, p, fields) {
                Err(()) => {
                    proof {
                        assert forall|fs: Seq<(Seq<char>, JsonV)>|
                            wf_fields(fs) && matches_at(s@, i as int, ser_frest(fs) + seq!['}'])
                            implies false by {
                            let fs1 = fs.subrange(1, fs.len() as int);
                            assert(matches_at(s@, p as int, ser_frest(fs1) + seq!['}']));
                        }
                    }
                    return Err(());
                },
                Ok(end) => {
                    proof {
                        assert forall|fs: Seq<(Seq<char>, JsonV)>|
                            wf_fields(fs) && matches_at(s@, i as int, ser_frest(fs) + seq!['}'])
                            implies end as int == i + ser_frest(fs).len() + 1 && field_views(
                            fields@,
                        ) == field_views(fields0) + fs by {
                            let fs1 = fs.subrange(1, fs.len() as int);
                            assert(matches_at(s@, p as int, ser_frest(fs1) + seq!['}']));
                            assert(field_views(fields@) == field_views(fields0.push(f)) + fs1);
                            assert(field_views(fields0.push(f)) == field_views(fields0).push(f@));
                            assert(field_views(fields0).push(fs[0]) + fs1 =~= field_views(fields0)
                                + fs);
                            let m0 = ser_str(fs[0].0) + seq![':'] + ser_json(fs[0].1);
                            assert(ser_frest(fs).len() == 1 + m0.len() + ser_frest(fs1).len());
                        }
                    }
                    return Ok(end);
                },
            }
        },
    }
}

/// Whether the codec carries this number text as it stands: a whole
/// number token, not itself a canonical 64-bit integer.
pub fn num_is_wf(t: &str) -> (r: bool)
    ensures
        r == wf_num(t@),
{
    let cs = str_to_chars(t);
    if cs.len() == 0 {
        proof {
            assert(num_end(t@, 0) is None);
        }
        return false;
    }
    proof {
        if wf_num(t@) {
            assert(cs@.subrange(0, t@.len() as int) =~= t@);
            assert(matches_at(cs@, 0, t@));
            assert(delim_at(cs@, t@.len() as int));
            assert(numtext_hyp(cs@, 0, t@));
        }
    }
    match parse_number(&cs, 0) {
        Err(()) => {
            proof {
                if wf_num(t@) {
                    assert(false);
                }
            }
            false
        },
        Ok((j, end)) => {
            let ghost jv = j@;
            let is_num = match &j {
                Json::Num(_) => true,
                _ => false,
            };
            if end == cs.len() && is_num {
                proof {
                    match j {
                        Json::Num(tx) => {
                            assert(tx@ == cs@.subrange(0, end as int));
                            assert(tx@ =~= t@);
                            assert(wf_num(tx@));
                        },
                        _ => {},
                    }
                }
                true
            } else {
                proof {
                    if wf_num(t@) {
                        assert(jv == JsonV::Num(t@) && end as int == t@.len());
                        assert(false);
                    }
                }
                false
            }
        },
    }
}

/// Parses one line of JSON text: one value, surrounded by optional
/// whitespace and nothing else.  Inverts `encode_json`: for every well
/// formed value, decoding its rendering gives the value back.
pub fn decode_json(s: &str) -> (r: Result<Json, ()>)
    ensures
        r matches Ok(j) ==> wf_json(j@),
        forall|v: JsonV| #![trigger ser_json(v)]
            (wf_json(v) && s@ == ser_json(v)) ==> (r matches Ok(j) && j@ == v),
{
    let cs = str_to_chars(s);
    proof {
        assert forall|v: JsonV| wf_json(v) && s@ == ser_json(v) implies val_hyp(cs@, 0, v) by {
            assert(cs@.subrange(0, ser_json(v).len() as int) =~= ser_json(v));
        }
    }
    match parse_value(&cs, 0) {
        Err(()) => {
            proof {
                assert forall|v: JsonV| wf_json(v) && s@ == ser_json(v) implies false by {
                    assert(val_hyp(cs@, 0, v));
                    assert(ser_json(v) == ser_json(v));
                }
            }
            Err(())
        },
        Ok((j, p)) => {
            let q = skip_ws(&cs, p);
            if q < cs.len() {
                proof {
                    assert forall|v: JsonV| wf_json(v) && s@ == ser_json(v) implies false by {
                        assert(val_hyp(cs@, 0, v));
                        assert(ser_json(v) == ser_json(v));
                        assert(p as int == ser_json(v).len());
                    }
                }
                Err(())
            } else {
                proof {
                    assert forall|v: JsonV| wf_json(v) && s@ == ser_json(v) implies j@ == v by {
                        assert(val_hyp(cs@, 0, v));
                        assert(ser_json(v) == ser_json(v));
                    }
                }
                Ok(j)
            }
        },
    }
}

/// Renders a value as one compact line of JSON text.
pub fn encode_json(j: &Json) -> (r: String)
    requires
        wf_json(j@),
    ensures
        r@ == ser_json(j@),
{
    let mut out: Vec<char> = Vec::new();
    write_json(j, &mut out);
    chars_to_string(&out)
}

} // verus!
