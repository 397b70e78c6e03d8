//! The on-disk text of the mapping: a JSON object whose fields are the
//! bookmark names, each mapped to its path string.
//!
//! The writer emits a compact object; names and paths have `"`, `\` and
//! control characters written as `\u00XX` escapes.  The reader accepts
//! whitespace between tokens, the short escapes (`\"`, `\\`, `\/`, `\b`,
//! `\f`, `\n`, `\r`, `\t`) and any `\uXXXX` escape of a scalar value
//! (surrogates are rejected), so it reads back everything the writer
//! emits and the spaced or escaped variants of it too.

use vstd::prelude::*;

use crate::config::Config;
use crate::config::ConfigError;
use crate::config::map_of;
use crate::config::unique_names;
use crate::config::lemma_map_of_push;
use crate::config::lemma_map_of_contains;

verus! {

/// Relies on String::push: appends the given character to the string.
pub assume_specification[ String::push ](s: &mut String, c: char)
    ensures
        final(s)@ == old(s)@.push(c),
;

/// The lower-case hexadecimal digit for `d` (clamped to `'0'` outside 0..16).
pub open spec fn hex_char(d: u32) -> char {
    if d == 0 { '0' }
    else if d == 1 { '1' }
    else if d == 2 { '2' }
    else if d == 3 { '3' }
    else if d == 4 { '4' }
    else if d == 5 { '5' }
    else if d == 6 { '6' }
    else if d == 7 { '7' }
    else if d == 8 { '8' }
    else if d == 9 { '9' }
    else if d == 10 { 'a' }
    else if d == 11 { 'b' }
    else if d == 12 { 'c' }
    else if d == 13 { 'd' }
    else if d == 14 { 'e' }
    else if d == 15 { 'f' }
    else { '0' }
}

/// The value of a hexadecimal digit character, or -1 for any other character.
pub open spec fn hex_val(c: char) -> int {
    if c == '0' { 0 }
    else if c == '1' { 1 }
    else if c == '2' { 2 }
    else if c == '3' { 3 }
    else if c == '4' { 4 }
    else if c == '5' { 5 }
    else if c == '6' { 6 }
    else if c == '7' { 7 }
    else if c == '8' { 8 }
    else if c == '9' { 9 }
    else if c == 'a' { 10 }
    else if c == 'b' { 11 }
    else if c == 'c' { 12 }
    else if c == 'd' { 13 }
    else if c == 'e' { 14 }
    else if c == 'f' { 15 }
    else if c == 'A' { 10 }
    else if c == 'B' { 11 }
    else if c == 'C' { 12 }
    else if c == 'D' { 13 }
    else if c == 'E' { 14 }
    else if c == 'F' { 15 }
    else { -1 }
}

/// Characters that the writer does not put into the text verbatim.
pub open spec fn needs_escape(c: char) -> bool {
    c == '"' || c == '\\' || (c as u32) < 0x20
}

/// How the writer renders one character of a name or path.
pub open spec fn escape_char(c: char) -> Seq<char> {
    if needs_escape(c) {
        seq!['\\', 'u', '0', '0', hex_char((c as u32) / 16), hex_char((c as u32) % 16)]
    } else {
        seq![c]
    }
}

/// How the writer renders a whole name or path (without the quotes).
pub open spec fn escape(s: Seq<char>) -> Seq<char>
    decreases s.len(),
{
    if s.len() == 0 {
        Seq::empty()
    } else {
        escape_char(s[0]) + escape(s.skip(1))
    }
}

/// A name or path with its quotes.
pub open spec fn quoted(s: Seq<char>) -> Seq<char> {
    seq!['"'] + escape(s) + seq!['"']
}

/// The text of one entry: `"name":"path"`.
pub open spec fn entry_text(e: (Seq<char>, Seq<char>)) -> Seq<char> {
    quoted(e.0) + seq![':'] + quoted(e.1)
}

/// The texts of the entries, joined with commas.
pub open spec fn entries_text(es: Seq<(Seq<char>, Seq<char>)>) -> Seq<char>
    decreases es.len(),
{
    if es.len() == 0 {
        Seq::empty()
    } else if es.len() == 1 {
        entry_text(es[0])
    } else {
        entry_text(es[0]) + seq![','] + entries_text(es.skip(1))
    }
}

/// The whole text the writer produces for an entry list.
pub open spec fn json_of(es: Seq<(Seq<char>, Seq<char>)>) -> Seq<char> {
    seq!['{'] + entries_text(es) + seq!['}']
}

/// Escaping distributes over appending one character.
pub proof fn lemma_escape_snoc(s: Seq<char>, c: char)
    ensures
        escape(s.push(c)) =~= escape(s) + escape_char(c),
    decreases s.len(),
{
    let p = s.push(c);
    if s.len() == 0 {
        assert(p[0] == c);
        assert(p.skip(1) =~= Seq::<char>::empty());
        assert(escape(p) == escape_char(c) + escape(p.skip(1)));
        assert(escape(p.skip(1)) == Seq::<char>::empty());
        assert(escape(s) == Seq::<char>::empty());
    } else {
        assert(p[0] == s[0]);
        assert(p.skip(1) =~= s.skip(1).push(c));
        lemma_escape_snoc(s.skip(1), c);
        assert(escape(p) == escape_char(s[0]) + escape(p.skip(1)));
        assert(escape(s) == escape_char(s[0]) + escape(s.skip(1)));
    }
}

/// Joining distributes over appending one entry.
pub proof fn lemma_entries_text_snoc(es: Seq<(Seq<char>, Seq<char>)>, e: (Seq<char>, Seq<char>))
    requires
        es.len() >= 1,
    ensures
        entries_text(es.push(e)) =~= entries_text(es) + seq![','] + entry_text(e),
    decreases es.len(),
{
    assert(es.push(e)[0] == es[0]);
    assert(es.push(e).skip(1) =~= es.skip(1).push(e));
    if es.len() == 1 {
        assert(es.skip(1).push(e) =~= seq![e]);
        assert(entries_text(seq![e]) == entry_text(e));
    } else {
        lemma_entries_text_snoc(es.skip(1), e);
    }
}

/// The hexadecimal digit character for `d`.
fn hex_char_of(d: u32) -> (r: char)
    requires
        d < 16,
    ensures
        r == hex_char(d),
{
    if d == 0 { '0' }
    else if d == 1 { '1' }
    else if d == 2 { '2' }
    else if d == 3 { '3' }
    else if d == 4 { '4' }
    else if d == 5 { '5' }
    else if d == 6 { '6' }
    else if d == 7 { '7' }
    else if d == 8 { '8' }
    else if d == 9 { '9' }
    else if d == 10 { 'a' }
    else if d == 11 { 'b' }
    else if d == 12 { 'c' }
    else if d == 13 { 'd' }
    else if d == 14 { 'e' }
    else { 'f' }
}

/// Append the escaped form of `s` to `out`.
fn push_escaped(out: &mut String, s: &str)
    ensures
        final(out)@ == old(out)@ + escape(s@),
{
    let n = s.unicode_len();
    let mut i: usize = 0;
    while i < n
        invariant
            n == s@.len(),
            i <= n,
            out@ == old(out)@ + escape(s@.subrange(0, i as int)),
        decreases n - i,
    {
        let c = s.get_char(i);
        if c == '"' || c == '\\' || (c as u32) < 0x20 {
            let u = c as u32;
            assert(u < 0x100);
            out.push('\\');
            out.push('u');
            out.push('0');
            out.push('0');
            out.push(hex_char_of(u / 16));
            out.push(hex_char_of(u % 16));
        } else {
            out.push(c);
        }
        proof {
            lemma_escape_snoc(s@.subrange(0, i as int), s@[i as int]);
            assert(s@.subrange(0, i + 1 as int) =~= s@.subrange(0, i as int).push(s@[i as int]));
            assert(out@ =~= old(out)@ + escape(s@.subrange(0, i + 1 as int)));
        }
        i = i + 1;
    }
    proof {
        assert(s@.subrange(0, n as int) =~= s@);
    }
}

/// The on-disk text of the mapping.
pub fn to_json(c: &Config) -> (r: String)
    ensures
        r@ == json_of(c.entries()),
{
    let rows = c.rows();
    let ghost es = c.entries();
    let n = rows.len();
    let mut out = String::new();
    out.push('{');
    proof {
        assert(out@ =~= seq!['{'] + entries_text(es.subrange(0, 0)));
    }
    let mut i: usize = 0;
    while i < n
        invariant
            n == rows@.len(),
            i <= n,
            rows@.map_values(|e: (String, String)| (e.0@, e.1@)) =~= es,
            out@ == seq!['{'] + entries_text(es.subrange(0, i as int)),
        decreases n - i,
    {
        if i > 0 {
            out.push(',');
        }
        out.push('"');
        push_escaped(&mut out, rows[i].0.as_str());
        out.push('"');
        out.push(':');
        out.push('"');
        push_escaped(&mut out, rows[i].1.as_str());
        out.push('"');
        proof {
            let e = es[i as int];
            assert(e.0 == rows@[i as int].0@ && e.1 == rows@[i as int].1@);
            assert(es.subrange(0, i + 1 as int) =~= es.subrange(0, i as int).push(e));
            if i > 0 {
                lemma_entries_text_snoc(es.subrange(0, i as int), e);
                assert(out@ =~= seq!['{'] + (entries_text(es.subrange(0, i as int)) + seq![',']
                    + entry_text(e)));
            } else {
                assert(es.subrange(0, 1) =~= seq![e]);
                assert(entries_text(seq![e]) == entry_text(e));
                assert(out@ =~= seq!['{'] + entry_text(e));
            }
        }
        i = i + 1;
    }
    out.push('}');
    proof {
        assert(es.subrange(0, n as int) =~= es);
        assert(out@ =~= json_of(es));
    }
    out
}

/// Relies on char::from_u32: Some exactly for Unicode scalar values
/// (not a surrogate, at most 0x10FFFF), holding the character with that
/// code, as its documentation states.
pub assume_specification[ char::from_u32 ](v: u32) -> (r: Option<char>)
    ensures
        r is Some <==> (v < 0xD800 || (0xE000 <= v && v <= 0x10FFFF)),
        r matches Some(c) ==> c as u32 == v,
;

/// The character a short escape `\x` stands for, if `x` is one.
pub open spec fn short_escape(c: char) -> Option<char> {
    if c == '"' { Some('"') }
    else if c == '\\' { Some('\\') }
    else if c == '/' { Some('/') }
    else if c == 'b' { Some('\u{0008}') }
    else if c == 'f' { Some('\u{000C}') }
    else if c == 'n' { Some('\n') }
    else if c == 'r' { Some('\r') }
    else if c == 't' { Some('\t') }
    else { None }
}

/// JSON whitespace: what may stand between tokens.
pub open spec fn is_ws(c: char) -> bool {
    c == ' ' || c == '\t' || c == '\n' || c == '\r'
}

/// The text with its leading whitespace dropped.
pub open spec fn skip_ws(rem: Seq<char>) -> Seq<char>
    decreases rem.len(),
{
    if rem.len() > 0 && is_ws(rem[0]) {
        skip_ws(rem.skip(1))
    } else {
        rem
    }
}

/// Dropping whitespace never lengthens the text.
pub proof fn lemma_skip_ws_len(rem: Seq<char>)
    ensures
        skip_ws(rem).len() <= rem.len(),
    decreases rem.len(),
{
    if rem.len() > 0 && is_ws(rem[0]) {
        lemma_skip_ws_len(rem.skip(1));
    }
}

/// Read a string body up to its closing quote: the content read so far is
/// `acc`; yields the full content and the text after the closing quote.
pub open spec fn parse_str_body(rem: Seq<char>, acc: Seq<char>) -> Option<(Seq<char>, Seq<char>)>
    decreases rem.len(),
{
    if rem.len() == 0 {
        None
    } else if rem[0] == '"' {
        Some((acc, rem.skip(1)))
    } else if rem[0] == '\\' {
        if rem.len() >= 6 && rem[1] == 'u' && hex_val(rem[2]) >= 0 && hex_val(rem[3]) >= 0
            && hex_val(rem[4]) >= 0 && hex_val(rem[5]) >= 0 {
            let code = 4096 * hex_val(rem[2]) + 256 * hex_val(rem[3]) + 16 * hex_val(rem[4])
                + hex_val(rem[5]);
            if 0xD800 <= code < 0xE000 {
                None
            } else {
                parse_str_body(rem.skip(6), acc.push(((code as u32) as char)))
            }
        } else if rem.len() >= 2 && short_escape(rem[1]) matches Some(c) {
            parse_str_body(rem.skip(2), acc.push(short_escape(rem[1]).unwrap()))
        } else {
            None
        }
    } else if (rem[0] as u32) >= 0x20 {
        parse_str_body(rem.skip(1), acc.push(rem[0]))
    } else {
        None
    }
}

/// A successful string read consumes at least the closing quote.
pub proof fn lemma_parse_str_body_shrinks(rem: Seq<char>, acc: Seq<char>)
    ensures
        parse_str_body(rem, acc) matches Some(p) ==> p.1.len() < rem.len(),
    decreases rem.len(),
{
    if rem.len() == 0 {
    } else if rem[0] == '"' {
    } else if rem[0] == '\\' {
        if rem.len() >= 6 && rem[1] == 'u' && hex_val(rem[2]) >= 0 && hex_val(rem[3]) >= 0
            && hex_val(rem[4]) >= 0 && hex_val(rem[5]) >= 0 {
            let code = 4096 * hex_val(rem[2]) + 256 * hex_val(rem[3]) + 16 * hex_val(rem[4])
                + hex_val(rem[5]);
            if !(0xD800 <= code < 0xE000) {
                lemma_parse_str_body_shrinks(rem.skip(6), acc.push(((code as u32) as char)));
            }
        } else if rem.len() >= 2 && short_escape(rem[1]) matches Some(c) {
            lemma_parse_str_body_shrinks(rem.skip(2), acc.push(short_escape(rem[1]).unwrap()));
        }
    } else if (rem[0] as u32) >= 0x20 {
        lemma_parse_str_body_shrinks(rem.skip(1), acc.push(rem[0]));
    }
}

/// Read entries from a position where a quoted name must begin: the name,
/// a colon, a quoted path, then either a `,` and more entries, or the
/// final `}` followed by nothing but whitespace.  Whitespace may stand
/// around every token.
pub open spec fn parse_entries(
    rem: Seq<char>,
    acc: Seq<(Seq<char>, Seq<char>)>,
) -> Option<Seq<(Seq<char>, Seq<char>)>>
    decreases rem.len(),
        via parse_entries_dec
{
    if rem.len() == 0 {
        None
    } else if rem[0] != '"' {
        None
    } else {
        match parse_str_body(rem.skip(1), Seq::empty()) {
            None => None,
            Some((k, after_k)) => {
                let r1 = skip_ws(after_k);
                if r1.len() >= 1 && r1[0] == ':' {
                    let r2 = skip_ws(r1.skip(1));
                    if r2.len() >= 1 && r2[0] == '"' {
                        match parse_str_body(r2.skip(1), Seq::empty()) {
                            None => None,
                            Some((v, after_v)) => {
                                let r3 = skip_ws(after_v);
                                if r3.len() >= 1 && r3[0] == '}' {
                                    if skip_ws(r3.skip(1)).len() == 0 {
                                        Some(acc.push((k, v)))
                                    } else {
                                        None
                                    }
                                } else if r3.len() >= 1 && r3[0] == ',' {
                                    parse_entries(skip_ws(r3.skip(1)), acc.push((k, v)))
                                } else {
                                    None
                                }
                            },
                        }
                    } else {
                        None
                    }
                } else {
                    None
                }
            },
        }
    }
}

#[via_fn]
proof fn parse_entries_dec(rem: Seq<char>, acc: Seq<(Seq<char>, Seq<char>)>) {
    if rem.len() > 0 && rem[0] == '"' {
        lemma_parse_str_body_shrinks(rem.skip(1), Seq::empty());
        match parse_str_body(rem.skip(1), Seq::empty()) {
            None => {},
            Some((k, after_k)) => {
                lemma_skip_ws_len(after_k);
                let r1 = skip_ws(after_k);
                if r1.len() >= 1 && r1[0] == ':' {
                    lemma_skip_ws_len(r1.skip(1));
                    let r2 = skip_ws(r1.skip(1));
                    if r2.len() >= 1 && r2[0] == '"' {
                        lemma_parse_str_body_shrinks(r2.skip(1), Seq::empty());
                        match parse_str_body(r2.skip(1), Seq::empty()) {
                            None => {},
                            Some((v, after_v)) => {
                                lemma_skip_ws_len(after_v);
                                let r3 = skip_ws(after_v);
                                if r3.len() >= 1 {
                                    lemma_skip_ws_len(r3.skip(1));
                                }
                            },
                        }
                    }
                }
            },
        }
    }
}

/// Read a whole config text: an object `{ ... }` of name/path strings,
/// with whitespace allowed around tokens and around the object.
pub open spec fn parse_json(text: Seq<char>) -> Option<Seq<(Seq<char>, Seq<char>)>> {
    let t0 = skip_ws(text);
    if t0.len() >= 1 && t0[0] == '{' {
        let t1 = skip_ws(t0.skip(1));
        if t1.len() >= 1 && t1[0] == '}' {
            if skip_ws(t1.skip(1)).len() == 0 {
                Some(Seq::empty())
            } else {
                None
            }
        } else {
            parse_entries(t1, Seq::empty())
        }
    } else {
        None
    }
}

/// The value of a hexadecimal digit character, if it is one.
fn hex_val_of(c: char) -> (r: Option<u32>)
    ensures
        match r {
            Some(d) => hex_val(c) == d && d < 16,
            None => hex_val(c) < 0,
        },
{
    if c == '0' { Some(0) }
    else if c == '1' { Some(1) }
    else if c == '2' { Some(2) }
    else if c == '3' { Some(3) }
    else if c == '4' { Some(4) }
    else if c == '5' { Some(5) }
    else if c == '6' { Some(6) }
    else if c == '7' { Some(7) }
    else if c == '8' { Some(8) }
    else if c == '9' { Some(9) }
    else if c == 'a' { Some(10) }
    else if c == 'b' { Some(11) }
    else if c == 'c' { Some(12) }
    else if c == 'd' { Some(13) }
    else if c == 'e' { Some(14) }
    else if c == 'f' { Some(15) }
    else if c == 'A' { Some(10) }
    else if c == 'B' { Some(11) }
    else if c == 'C' { Some(12) }
    else if c == 'D' { Some(13) }
    else if c == 'E' { Some(14) }
    else if c == 'F' { Some(15) }
    else { None }
}

/// The character a short escape stands for, if any.
fn short_escape_of(c: char) -> (r: Option<char>)
    ensures
        r == short_escape(c),
{
    if c == '"' { Some('"') }
    else if c == '\\' { Some('\\') }
    else if c == '/' { Some('/') }
    else if c == 'b' { Some('\u{0008}') }
    else if c == 'f' { Some('\u{000C}') }
    else if c == 'n' { Some('\n') }
    else if c == 'r' { Some('\r') }
    else if c == 't' { Some('\t') }
    else { None }
}

/// The position of the first non-whitespace character at or after `start`.
fn skip_ws_at(s: &str, start: usize) -> (j: usize)
    requires
        start <= s@.len(),
    ensures
        start <= j <= s@.len(),
        s@.skip(j as int) == skip_ws(s@.skip(start as int)),
{
    let n = s.unicode_len();
    let mut i: usize = start;
    loop
        invariant
            start <= i <= n,
            n == s@.len(),
            skip_ws(s@.skip(start as int)) == skip_ws(s@.skip(i as int)),
        decreases n - i,
    {
        if i >= n {
            proof {
                assert(s@.skip(i as int).len() == 0);
                assert(skip_ws(s@.skip(i as int)) == s@.skip(i as int));
            }
            return i;
        }
        let c = s.get_char(i);
        assert(s@.skip(i as int)[0] == c);
        if c == ' ' || c == '\t' || c == '\n' || c == '\r' {
            proof {
                assert(s@.skip(i as int).skip(1) =~= s@.skip(i + 1 as int));
            }
            i = i + 1;
        } else {
            proof {
                assert(skip_ws(s@.skip(i as int)) == s@.skip(i as int));
            }
            return i;
        }
    }
}

/// Read a string body starting at `start` (just after the opening quote);
/// on success, the content and the position just after the closing quote.
fn parse_string_body(s: &str, start: usize) -> (r: Option<(String, usize)>)
    requires
        start <= s@.len(),
    ensures
        match r {
            Some(p) => start < p.1 <= s@.len() && parse_str_body(
                s@.skip(start as int),
                Seq::empty(),
            ) == Some((p.0@, s@.skip(p.1 as int))),
            None => parse_str_body(s@.skip(start as int), Seq::empty()) is None,
        },
{
    let n = s.unicode_len();
    let mut out = String::new();
    let mut i: usize = start;
    loop
        invariant
            start <= i <= n,
            n == s@.len(),
            parse_str_body(s@.skip(start as int), Seq::empty()) == parse_str_body(
                s@.skip(i as int),
                out@,
            ),
        decreases n - i,
    {
        let ghost rem = s@.skip(i as int);
        if i >= n {
            assert(rem.len() == 0);
            return None;
        }
        let c = s.get_char(i);
        assert(rem[0] == c);
        if c == '"' {
            proof {
                assert(rem.skip(1) =~= s@.skip(i + 1 as int));
            }
            return Some((out, i + 1));
        } else if c == '\\' {
            if n - i >= 6 && s.get_char(i + 1) == 'u' {
                proof {
                    assert(rem.len() >= 6);
                    assert(rem[1] == s@[i + 1] && rem[2] == s@[i + 2] && rem[3] == s@[i + 3]
                        && rem[4] == s@[i + 4] && rem[5] == s@[i + 5]);
                }
                let h1 = hex_val_of(s.get_char(i + 2));
                let h2 = hex_val_of(s.get_char(i + 3));
                let h3 = hex_val_of(s.get_char(i + 4));
                let h4 = hex_val_of(s.get_char(i + 5));
                match (h1, h2, h3, h4) {
                    (Some(d1), Some(d2), Some(d3), Some(d4)) => {
                        let u: u32 = 4096 * d1 + 256 * d2 + 16 * d3 + d4;
                        if 0xD800 <= u && u < 0xE000 {
                            return None;
                        }
                        let ch: char = match char::from_u32(u) {
                            Some(cc) => cc,
                            None => {
                                proof {
                                    assert(false);
                                }
                                return None;
                            },
                        };
                        proof {
                            assert(ch as u32 == u);
                            let code = 4096 * hex_val(rem[2]) + 256 * hex_val(rem[3]) + 16
                                * hex_val(rem[4]) + hex_val(rem[5]);
                            assert(hex_val(rem[2]) == d1 && hex_val(rem[3]) == d2 && hex_val(
                                rem[4],
                            ) == d3 && hex_val(rem[5]) == d4);
                            assert(code == u);
                            assert(code as u32 == u);
                            vstd::utf8::char_u32_cast(ch, u);
                            assert(((code as u32) as char) == ch);
                            assert(rem.skip(6) =~= s@.skip(i + 6 as int));
                        }
                        out.push(ch);
                        i = i + 6;
                    },
                    _ => {
                        assert(short_escape('u') is None);
                        return None;
                    },
                }
            } else {
                if n - i >= 2 {
                    let c2 = s.get_char(i + 1);
                    assert(rem[1] == c2);
                    match short_escape_of(c2) {
                        Some(ch) => {
                            proof {
                                assert(rem.skip(2) =~= s@.skip(i + 2 as int));
                            }
                            out.push(ch);
                            i = i + 2;
                        },
                        None => {
                            return None;
                        },
                    }
                } else {
                    assert(rem.len() < 2);
                    return None;
                }
            }
        } else if (c as u32) >= 0x20 {
            proof {
                assert(rem.skip(1) =~= s@.skip(i + 1 as int));
            }
            out.push(c);
            i = i + 1;
        } else {
            return None;
        }
    }
}

/// Read a whole config text into a mapping.
///
/// Succeeds exactly on the texts that `parse_json` accepts; on any other
/// text the result is the parse error and nothing else is reported.  When
/// the text's names are unique (as in everything `to_json` writes), the
/// mapping holds exactly the text's entries, in their order.
pub fn from_json(s: &str) -> (r: Result<Config, ConfigError>)
    ensures
        r is Err ==> r == Err::<Config, ConfigError>(ConfigError::Parse) && parse_json(s@) is None,
        r matches Ok(c) ==> parse_json(s@) matches Some(es) && c.wf() && c@ == map_of(es) && (
        unique_names(es) ==> c.entries() =~= es),
{
    let n = s.unicode_len();
    proof {
        assert(s@.skip(0) =~= s@);
    }
    let i0 = skip_ws_at(s, 0);
    let ghost t0 = s@.skip(i0 as int);
    if i0 >= n {
        assert(t0.len() == 0);
        return Err(ConfigError::Parse);
    }
    if s.get_char(i0) != '{' {
        assert(t0[0] == s@[i0 as int]);
        return Err(ConfigError::Parse);
    }
    proof {
        assert(t0[0] == s@[i0 as int]);
        assert(t0.skip(1) =~= s@.skip(i0 + 1 as int));
    }
    let i1 = skip_ws_at(s, i0 + 1);
    let ghost t1 = s@.skip(i1 as int);
    if i1 < n && s.get_char(i1) == '}' {
        proof {
            assert(t1[0] == s@[i1 as int]);
            assert(t1.skip(1) =~= s@.skip(i1 + 1 as int));
        }
        let i2 = skip_ws_at(s, i1 + 1);
        if i2 >= n {
            proof {
                assert(s@.skip(i2 as int).len() == 0);
            }
            let c = Config::new();
            return Ok(c);
        } else {
            return Err(ConfigError::Parse);
        }
    }
    proof {
        if t1.len() >= 1 {
            assert(t1[0] == s@[i1 as int]);
        }
        assert(parse_json(s@) == parse_entries(t1, Seq::empty()));
    }
    let mut cfg = Config::new();
    let ghost mut ges: Seq<(Seq<char>, Seq<char>)> = Seq::empty();
    let mut i: usize = i1;
    loop
        invariant
            n == s@.len(),
            i <= n,
            parse_json(s@) == parse_entries(s@.skip(i as int), ges),
            cfg.wf(),
            cfg@ == map_of(ges),
            unique_names(ges) ==> cfg.entries() =~= ges,
        decreases n - i,
    {
        let ghost rem = s@.skip(i as int);
        if i >= n {
            assert(rem.len() == 0);
            return Err(ConfigError::Parse);
        }
        if s.get_char(i) != '"' {
            assert(rem[0] == s@[i as int]);
            return Err(ConfigError::Parse);
        }
        proof {
            assert(rem[0] == s@[i as int]);
            assert(rem.skip(1) =~= s@.skip(i + 1 as int));
        }
        match parse_string_body(s, i + 1) {
            None => {
                return Err(ConfigError::Parse);
            },
            Some((k, jk)) => {
                let j1 = skip_ws_at(s, jk);
                let ghost r1 = s@.skip(j1 as int);
                if !(j1 < n && s.get_char(j1) == ':') {
                    proof {
                        if j1 < n {
                            assert(r1[0] == s@[j1 as int]);
                        }
                    }
                    return Err(ConfigError::Parse);
                }
                proof {
                    assert(r1[0] == s@[j1 as int]);
                    assert(r1.skip(1) =~= s@.skip(j1 + 1 as int));
                }
                let j2 = skip_ws_at(s, j1 + 1);
                let ghost r2 = s@.skip(j2 as int);
                if !(j2 < n && s.get_char(j2) == '"') {
                    proof {
                        if j2 < n {
                            assert(r2[0] == s@[j2 as int]);
                        }
                    }
                    return Err(ConfigError::Parse);
                }
                proof {
                    assert(r2[0] == s@[j2 as int]);
                    assert(r2.skip(1) =~= s@.skip(j2 + 1 as int));
                }
                match parse_string_body(s, j2 + 1) {
                    None => {
                        return Err(ConfigError::Parse);
                    },
                    Some((v, jv)) => {
                        let j3 = skip_ws_at(s, jv);
                        let ghost r3 = s@.skip(j3 as int);
                        let ghost pair = (k@, v@);
                        if j3 < n && s.get_char(j3) == '}' {
                            proof {
                                assert(r3[0] == s@[j3 as int]);
                                assert(r3.skip(1) =~= s@.skip(j3 + 1 as int));
                            }
                            let j4 = skip_ws_at(s, j3 + 1);
                            if j4 >= n {
                                proof {
                                    assert(s@.skip(j4 as int).len() == 0);
                                    lemma_map_of_push(ges, pair);
                                    lemma_map_of_contains(ges, k@);
                                    assert(parse_entries(s@.skip(i as int), ges) == Some(
                                        ges.push(pair),
                                    ));
                                }
                                let existed = cfg.insert(k.as_str(), v);
                                proof {
                                    if unique_names(ges.push(pair)) {
                                        assert forall|a: int, b: int|
                                            0 <= a < b < ges.len() implies (
                                        #[trigger] ges[a]).0 != (#[trigger] ges[b]).0 by {
                                            assert(ges.push(pair)[a].0 != ges.push(pair)[b].0);
                                        }
                                        assert(unique_names(ges));
                                        assert forall|x: int|
                                            0 <= x < ges.len() implies (#[trigger] ges[x]).0
                                            != k@ by {
                                            assert(ges.push(pair)[x].0 != ges.push(pair)[
                                                ges.len() as int].0);
                                        }
                                        assert(!existed);
                                    }
                                }
                                return Ok(cfg);
                            } else {
                                return Err(ConfigError::Parse);
                            }
                        } else if j3 < n && s.get_char(j3) == ',' {
                            proof {
                                assert(r3[0] == s@[j3 as int]);
                                assert(r3.skip(1) =~= s@.skip(j3 + 1 as int));
                                lemma_map_of_push(ges, pair);
                                lemma_map_of_contains(ges, k@);
                            }
                            let inext = skip_ws_at(s, j3 + 1);
                            proof {
                                assert(parse_entries(s@.skip(i as int), ges) == parse_entries(
                                    s@.skip(inext as int),
                                    ges.push(pair),
                                ));
                            }
                            let existed = cfg.insert(k.as_str(), v);
                            proof {
                                if unique_names(ges.push(pair)) {
                                    assert forall|a: int, b: int|
                                        0 <= a < b < ges.len() implies (#[trigger] ges[a]).0 != (
                                    #[trigger] ges[b]).0 by {
                                        assert(ges.push(pair)[a].0 != ges.push(pair)[b].0);
                                    }
                                    assert(unique_names(ges));
                                    assert forall|x: int|
                                        0 <= x < ges.len() implies (#[trigger] ges[x]).0 != k@ by {
                                        assert(ges.push(pair)[x].0 != ges.push(pair)[
                                            ges.len() as int].0);
                                    }
                                    assert(!existed);
                                }
                                ges = ges.push(pair);
                            }
                            i = inext;
                        } else {
                            proof {
                                if j3 < n {
                                    assert(r3[0] == s@[j3 as int]);
                                } else {
                                    assert(r3.len() == 0);
                                }
                            }
                            return Err(ConfigError::Parse);
                        }
                    },
                }
            },
        }
    }
}

/// Reading back one escaped character yields that character.
proof fn lemma_escape_char_reads_back(c: char)
    requires
        needs_escape(c),
    ensures
        hex_val(hex_char((c as u32) / 16)) == (c as u32) / 16,
        hex_val(hex_char((c as u32) % 16)) == (c as u32) % 16,
        (((16 * ((c as u32) / 16) + ((c as u32) % 16)) as u32) as char) == c,
{
    broadcast use vstd::utf8::char_u32_cast;

    let u = c as u32;
    assert(u < 0x100);
    assert(16 * (u / 16) + (u % 16) == u) by (nonlinear_arith);
}

/// The reader undoes the writer on one string: after the escaped text and
/// the closing quote, the content comes back exactly, whatever follows.
pub proof fn lemma_parse_escape(v: Seq<char>, tail: Seq<char>, acc: Seq<char>)
    ensures
        parse_str_body(escape(v) + seq!['"'] + tail, acc) == Some((acc + v, tail)),
    decreases v.len(),
{
    let rem = escape(v) + seq!['"'] + tail;
    if v.len() == 0 {
        assert(escape(v) == Seq::<char>::empty());
        assert(rem[0] == '"');
        assert(rem.skip(1) =~= tail);
        assert(acc + v =~= acc);
    } else {
        let c = v[0];
        assert(escape(v) == escape_char(c) + escape(v.skip(1)));
        lemma_parse_escape(v.skip(1), tail, acc.push(c));
        assert(acc.push(c) + v.skip(1) =~= acc + v);
        if needs_escape(c) {
            let u = c as u32;
            lemma_escape_char_reads_back(c);
            assert(escape_char(c).len() == 6);
            assert(rem[0] == '\\' && rem[1] == 'u' && rem[2] == '0' && rem[3] == '0');
            assert(rem[4] == hex_char(u / 16) && rem[5] == hex_char(u % 16));
            assert(rem.len() >= 6);
            assert(rem.skip(6) =~= escape(v.skip(1)) + seq!['"'] + tail);
            let code = 4096 * hex_val(rem[2]) + 256 * hex_val(rem[3]) + 16 * hex_val(rem[4])
                + hex_val(rem[5]);
            assert(hex_val('0') == 0);
            assert(code == 16 * ((c as u32) / 16) + ((c as u32) % 16));
            assert(code < 0x100);
            assert(!(0xD800 <= code < 0xE000));
            assert(((code as u32) as char) == c);
        } else {
            assert(rem[0] == c);
            assert(c != '"' && c != '\\' && (c as u32) >= 0x20);
            assert(rem.skip(1) =~= escape(v.skip(1)) + seq!['"'] + tail);
        }
    }
}

/// The reader undoes the writer on a joined entry list followed by `}`.
pub proof fn lemma_parse_entries_complete(
    es: Seq<(Seq<char>, Seq<char>)>,
    acc: Seq<(Seq<char>, Seq<char>)>,
)
    requires
        es.len() >= 1,
    ensures
        parse_entries(entries_text(es) + seq!['}'], acc) == Some(acc + es),
    decreases es.len(),
{
    let rem = entries_text(es) + seq!['}'];
    let e = es[0];
    assert(e == (e.0, e.1));
    if es.len() == 1 {
        assert(entries_text(es) == entry_text(e));
        let tail1 = seq![':'] + quoted(e.1) + seq!['}'];
        assert(rem[0] == '"');
        assert(rem.skip(1) =~= escape(e.0) + seq!['"'] + tail1);
        lemma_parse_escape(e.0, tail1, Seq::empty());
        assert(Seq::empty() + e.0 =~= e.0);
        assert(parse_str_body(rem.skip(1), Seq::empty()) == Some((e.0, tail1)));
        assert(tail1[0] == ':');
        assert(skip_ws(tail1) == tail1);
        let tail1b = tail1.skip(1);
        assert(tail1b =~= quoted(e.1) + seq!['}']);
        assert(tail1b[0] == '"');
        assert(skip_ws(tail1b) == tail1b);
        assert(tail1b.skip(1) =~= escape(e.1) + seq!['"'] + seq!['}']);
        lemma_parse_escape(e.1, seq!['}'], Seq::empty());
        assert(Seq::empty() + e.1 =~= e.1);
        assert(parse_str_body(tail1b.skip(1), Seq::empty()) == Some((e.1, seq!['}'])));
        assert(seq!['}'].len() == 1 && seq!['}'][0] == '}');
        assert(skip_ws(seq!['}']) == seq!['}']);
        assert(seq!['}'].skip(1) =~= Seq::<char>::empty());
        assert(skip_ws(Seq::<char>::empty()) == Seq::<char>::empty());
        assert(acc.push((e.0, e.1)) =~= acc + es);
    } else {
        assert(entries_text(es) == entry_text(e) + seq![','] + entries_text(es.skip(1)));
        let tail1 = seq![':'] + quoted(e.1) + seq![','] + entries_text(es.skip(1)) + seq!['}'];
        assert(rem[0] == '"');
        assert(rem.skip(1) =~= escape(e.0) + seq!['"'] + tail1);
        lemma_parse_escape(e.0, tail1, Seq::empty());
        assert(Seq::empty() + e.0 =~= e.0);
        assert(parse_str_body(rem.skip(1), Seq::empty()) == Some((e.0, tail1)));
        assert(tail1[0] == ':');
        assert(skip_ws(tail1) == tail1);
        let tail1b = tail1.skip(1);
        let tail2 = seq![','] + entries_text(es.skip(1)) + seq!['}'];
        assert(tail1b =~= quoted(e.1) + tail2);
        assert(tail1b[0] == '"');
        assert(skip_ws(tail1b) == tail1b);
        assert(tail1b.skip(1) =~= escape(e.1) + seq!['"'] + tail2);
        lemma_parse_escape(e.1, tail2, Seq::empty());
        assert(Seq::empty() + e.1 =~= e.1);
        assert(parse_str_body(tail1b.skip(1), Seq::empty()) == Some((e.1, tail2)));
        assert(tail2.len() >= 2);
        assert(tail2[0] == ',');
        assert(skip_ws(tail2) == tail2);
        assert(tail2.skip(1) =~= entries_text(es.skip(1)) + seq!['}']);
        let e1 = es.skip(1)[0];
        assert(entries_text(es.skip(1))[0] == '"') by {
            if es.skip(1).len() == 1 {
                assert(entries_text(es.skip(1)) == entry_text(e1));
            } else {
                assert(entries_text(es.skip(1)) == entry_text(e1) + seq![','] + entries_text(
                    es.skip(1).skip(1),
                ));
            }
        }
        assert(tail2.skip(1)[0] == '"');
        assert(skip_ws(tail2.skip(1)) == tail2.skip(1));
        lemma_parse_entries_complete(es.skip(1), acc.push((e.0, e.1)));
        assert(acc.push((e.0, e.1)) + es.skip(1) =~= acc + es);
    }
}

/// Law: reading back the text written for an entry list yields exactly
/// that entry list; writing the result again therefore produces the
/// identical text, however often the two are repeated.
pub proof fn lemma_save_load_round_trip(es: Seq<(Seq<char>, Seq<char>)>)
    ensures
        parse_json(json_of(es)) == Some(es),
{
    let text = json_of(es);
    assert(text[0] == '{');
    assert(skip_ws(text) == text);
    assert(text.skip(1) =~= entries_text(es) + seq!['}']);
    if es.len() == 0 {
        assert(entries_text(es) == Seq::<char>::empty());
        assert(text.skip(1) =~= seq!['}']);
        assert(skip_ws(seq!['}']) == seq!['}']);
        assert(seq!['}'].skip(1) =~= Seq::<char>::empty());
        assert(skip_ws(Seq::<char>::empty()) == Seq::<char>::empty());
        assert(Seq::<(Seq<char>, Seq<char>)>::empty() =~= es);
    } else {
        let e = es[0];
        if es.len() == 1 {
            assert(entries_text(es) == entry_text(e));
        } else {
            assert(entries_text(es) == entry_text(e) + seq![','] + entries_text(es.skip(1)));
        }
        assert(entry_text(e)[0] == '"');
        assert(entries_text(es)[0] == '"');
        assert(text.skip(1)[0] == '"');
        assert(skip_ws(text.skip(1)) == text.skip(1));
        lemma_parse_entries_complete(es, Seq::empty());
        assert(Seq::empty() + es =~= es);
    }
}

} // verus!
