//! The JSON form in which the store keeps a message payload: an object
//! with the keys `id`, `lines`, `sender_name` and `utc_unix_timestamp`, in
//! that order, with strings escaped as the original encoder escapes them:
//! quote, backslash and the named control characters by a two-character
//! escape, every other control character as `\u00` and two lowercase hex
//! digits, everything else verbatim.
use vstd::prelude::*;

use crate::num::dec_str;

verus! {

/// A lowercase hexadecimal digit.
pub open spec fn hex_digit(d: int) -> char {
    if d == 0 {
        '0'
    } else if d == 1 {
        '1'
    } else if d == 2 {
        '2'
    } else if d == 3 {
        '3'
    } else if d == 4 {
        '4'
    } else if d == 5 {
        '5'
    } else if d == 6 {
        '6'
    } else if d == 7 {
        '7'
    } else if d == 8 {
        '8'
    } else if d == 9 {
        '9'
    } else if d == 10 {
        'a'
    } else if d == 11 {
        'b'
    } else if d == 12 {
        'c'
    } else if d == 13 {
        'd'
    } else if d == 14 {
        'e'
    } else {
        'f'
    }
}

/// How one character appears inside a JSON string literal.
pub open spec fn json_escape_char(c: char) -> Seq<char> {
    if c == '"' {
        seq!['\\', '"']
    } else if c == '\\' {
        seq!['\\', '\\']
    } else if c == '\u{8}' {
        seq!['\\', 'b']
    } else if c == '\t' {
        seq!['\\', 't']
    } else if c == '\n' {
        seq!['\\', 'n']
    } else if c == '\u{c}' {
        seq!['\\', 'f']
    } else if c == '\r' {
        seq!['\\', 'r']
    } else if (c as u32) < 32 {
        seq!['\\', 'u', '0', '0', hex_digit((c as u32 / 16) as int), hex_digit(
            (c as u32 % 16) as int,
        )]
    } else {
        seq![c]
    }
}

/// The body of a JSON string literal for `s`.
pub open spec fn json_escape(s: Seq<char>) -> Seq<char>
    decreases s.len(),
{
    if s.len() == 0 {
        Seq::empty()
    } else {
        json_escape(s.drop_last()) + json_escape_char(s.last())
    }
}

/// A JSON string literal.
pub open spec fn json_string(s: Seq<char>) -> Seq<char> {
    seq!['"'] + json_escape(s) + seq!['"']
}

/// The comma-separated string literals of a JSON array body.
pub open spec fn json_strings_body(ls: Seq<Seq<char>>) -> Seq<char>
    decreases ls.len(),
{
    if ls.len() == 0 {
        Seq::empty()
    } else if ls.len() == 1 {
        json_string(ls[0])
    } else {
        json_strings_body(ls.drop_last()) + seq![','] + json_string(ls.last())
    }
}

/// A JSON array of string literals.
pub open spec fn json_strings(ls: Seq<Seq<char>>) -> Seq<char> {
    seq!['['] + json_strings_body(ls) + seq![']']
}

/// A JSON integer: a minus sign for negative values, then the decimal
/// digits of the magnitude.
pub open spec fn int_str(t: int) -> Seq<char> {
    if t < 0 {
        seq!['-'] + dec_str((-t) as nat)
    } else {
        dec_str(t as nat)
    }
}

/// The stored JSON text of one message payload.
pub open spec fn message_json(
    lines: Seq<Seq<char>>,
    id: u64,
    ts: i64,
    sender: Seq<char>,
) -> Seq<char> {
    "{\"id\":"@ + dec_str(id as nat) + ",\"lines\":"@ + json_strings(lines)
        + ",\"sender_name\":"@ + json_string(sender) + ",\"utc_unix_timestamp\":"@
        + int_str(ts as int) + "}"@
}

fn hex_digit_exec(d: u32) -> (r: char)
    requires
        d < 16,
    ensures
        r == hex_digit(d as int),
{
    if d == 0 {
        '0'
    } else if d == 1 {
        '1'
    } else if d == 2 {
        '2'
    } else if d == 3 {
        '3'
    } else if d == 4 {
        '4'
    } else if d == 5 {
        '5'
    } else if d == 6 {
        '6'
    } else if d == 7 {
        '7'
    } else if d == 8 {
        '8'
    } else if d == 9 {
        '9'
    } else if d == 10 {
        'a'
    } else if d == 11 {
        'b'
    } else if d == 12 {
        'c'
    } else if d == 13 {
        'd'
    } else if d == 14 {
        'e'
    } else {
        'f'
    }
}

/// Append the escaped form of one character.
fn push_escaped(out: &mut Vec<char>, c: char)
    ensures
        final(out)@ == old(out)@ + json_escape_char(c),
{
    let ghost start = out@;
    if c == '"' {
        out.push('\\');
        out.push('"');
    } else if c == '\\' {
        out.push('\\');
        out.push('\\');
    } else if c == '\u{8}' {
        out.push('\\');
        out.push('b');
    } else if c == '\t' {
        out.push('\\');
        out.push('t');
    } else if c == '\n' {
        out.push('\\');
        out.push('n');
    } else if c == '\u{c}' {
        out.push('\\');
        out.push('f');
    } else if c == '\r' {
        out.push('\\');
        out.push('r');
    } else if (c as u32) < 32 {
        out.push('\\');
        out.push('u');
        out.push('0');
        out.push('0');
        out.push(hex_digit_exec((c as u32) / 16));
        out.push(hex_digit_exec((c as u32) % 16));
    } else {
        out.push(c);
    }
    assert(out@ =~= start + json_escape_char(c));
}

/// Append the JSON string literal of `s`.
fn push_json_string(out: &mut Vec<char>, s: &str)
    ensures
        final(out)@ == old(out)@ + json_string(s@),
{
    let ghost start = out@;
    let cs = crate::text::str_chars(s);
    out.push('"');
    let mut i: usize = 0;
    while i < cs.len()
        invariant
            i <= cs.len(),
            cs@ == s@,
            out@ == start + seq!['"'] + json_escape(s@.take(i as int)),
        decreases cs.len() - i,
    {
        push_escaped(out, cs[i]);
        proof {
            assert(s@.take(i + 1).drop_last() =~= s@.take(i as int));
            assert(s@.take(i + 1).last() == s@[i as int]);
            assert(out@ =~= start + seq!['"'] + json_escape(s@.take(i + 1)));
        }
        i = i + 1;
    }
    out.push('"');
    proof {
        assert(s@.take(s@.len() as int) =~= s@);
        assert(out@ =~= start + json_string(s@));
    }
}

/// Append the JSON array of the string literals of `ls`.
fn push_json_strings(out: &mut Vec<char>, ls: &Vec<String>)
    ensures
        final(out)@ == old(out)@ + json_strings(ls.deep_view()),
{
    let ghost start = out@;
    let ghost ldv = ls.deep_view();
    out.push('[');
    let mut i: usize = 0;
    while i < ls.len()
        invariant
            i <= ls.len(),
            ldv == ls.deep_view(),
            out@ == start + seq!['['] + json_strings_body(ldv.take(i as int)),
        decreases ls.len() - i,
    {
        if i > 0 {
            out.push(',');
        }
        proof {
            crate::text::lemma_deep_index_str(ls, i as int);
        }
        push_json_string(out, ls[i].as_str());
        proof {
            assert(ldv.take(i + 1).drop_last() =~~= ldv.take(i as int));
            assert(ldv.take(i + 1).last() == ldv[i as int]);
            if i == 0 {
                assert(ldv.take(1).len() == 1);
                assert(out@ =~= start + seq!['[']
                    + json_strings_body(ldv.take(i + 1)));
            } else {
                assert(out@ =~= start + seq!['[']
                    + json_strings_body(ldv.take(i + 1)));
            }
        }
        i = i + 1;
    }
    out.push(']');
    proof {
        assert(ldv.take(ldv.len() as int) =~~= ldv);
        assert(out@ =~= start + json_strings(ldv));
    }
}

/// Append the decimal form of a signed timestamp.
fn push_int(out: &mut Vec<char>, t: i64)
    ensures
        final(out)@ == old(out)@ + int_str(t as int),
{
    let ghost start = out@;
    if t < 0 {
        out.push('-');
        let mag: u64 = if t == i64::MIN {
            9223372036854775808u64
        } else {
            (-t) as u64
        };
        assert(mag == -(t as int));
        let ds = crate::num::u64_to_dec(mag);
        crate::roomfile::push_chars_vec(out, &ds);
        assert(out@ =~= start + int_str(t as int));
    } else {
        let ds = crate::num::u64_to_dec(t as u64);
        crate::roomfile::push_chars_vec(out, &ds);
        assert(out@ =~= start + int_str(t as int));
    }
}

/// The stored JSON text of one message payload, as characters.
pub fn render_message_json(
    lines: &Vec<String>,
    id: u64,
    ts: i64,
    sender: &str,
) -> (r: Vec<char>)
    ensures
        r@ == message_json(lines.deep_view(), id, ts, sender@),
{
    let mut out: Vec<char> = Vec::new();
    crate::roomfile::push_str_chars(&mut out, "{\"id\":");
    assert(out@ =~= "{\"id\":"@);
    let ds = crate::num::u64_to_dec(id);
    crate::roomfile::push_chars_vec(&mut out, &ds);
    crate::roomfile::push_str_chars(&mut out, ",\"lines\":");
    push_json_strings(&mut out, lines);
    crate::roomfile::push_str_chars(&mut out, ",\"sender_name\":");
    push_json_string(&mut out, sender);
    crate::roomfile::push_str_chars(&mut out, ",\"utc_unix_timestamp\":");
    push_int(&mut out, ts);
    crate::roomfile::push_str_chars(&mut out, "}");
    proof {
        assert(out@ =~= message_json(lines.deep_view(), id, ts, sender@));
    }
    out
}

} // verus!
