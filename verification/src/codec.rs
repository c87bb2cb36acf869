//! The record codec: one mutation or query command, rendered as a canonical
//! JSON object.
//!
//! On disk each record is this JSON text followed by the delimiter `#`, so the
//! encoder must never place a `#` inside the text it produces; that holds
//! whenever the key and value themselves are free of `#` (see
//! [`lemma_encode_hash_free`]).  The decoder accepts exactly the encoder's
//! output: [`spec_decode`] returns `Some(c)` if and only if its input is
//! `spec_encode(c)` ([`lemma_decode_encode`], [`lemma_encode_decode`]).

use vstd::prelude::*;

verus! {

/// A wire or log command.  `Put` and `Rm` are the two mutation records the
/// log stores; `Get` only ever travels over the wire.  A `Put` is rendered
/// on the wire and in the log under the JSON tag `Set`.
#[derive(Debug, PartialEq)]
pub enum Command {
    Get(String),
    Rm(String),
    Put(String, String),
}

/// The mathematical form of a [`Command`]: the same three shapes over
/// character sequences.
pub enum SpecCmd {
    Get(Seq<char>),
    Rm(Seq<char>),
    Put(Seq<char>, Seq<char>),
}

impl View for Command {
    type V = SpecCmd;

    open spec fn view(&self) -> SpecCmd {
        match self {
            Command::Get(k) => SpecCmd::Get(k@),
            Command::Rm(k) => SpecCmd::Rm(k@),
            Command::Put(k, v) => SpecCmd::Put(k@, v@),
        }
    }
}

/// True when `s` never mentions the frame delimiter `#`.
pub open spec fn hash_free(s: Seq<char>) -> bool {
    forall|i: int| 0 <= i < s.len() ==> s[i] != '#'
}

/// True when every string inside the command is free of the delimiter.
pub open spec fn cmd_hash_free(c: SpecCmd) -> bool {
    match c {
        SpecCmd::Get(k) => hash_free(k),
        SpecCmd::Rm(k) => hash_free(k),
        SpecCmd::Put(k, v) => hash_free(k) && hash_free(v),
    }
}

/// The lower-case hexadecimal digit for `n`.
pub open spec fn hex_lower(n: int) -> char {
    if n == 0 { '0' } else if n == 1 { '1' } else if n == 2 { '2' } else if n == 3 { '3' }
    else if n == 4 { '4' } else if n == 5 { '5' } else if n == 6 { '6' } else if n == 7 { '7' }
    else if n == 8 { '8' } else if n == 9 { '9' } else if n == 10 { 'a' } else if n == 11 { 'b' }
    else if n == 12 { 'c' } else if n == 13 { 'd' } else if n == 14 { 'e' } else { 'f' }
}

/// How one character appears inside a JSON string: itself, a two-character
/// escape, or a `\u00xx` escape for the remaining control characters.
pub open spec fn json_escape_char(c: char) -> Seq<char> {
    if c == '"' { seq!['\\', '"'] }
    else if c == '\\' { seq!['\\', '\\'] }
    else if c == '\u{08}' { seq!['\\', 'b'] }
    else if c == '\t' { seq!['\\', 't'] }
    else if c == '\n' { seq!['\\', 'n'] }
    else if c == '\u{0c}' { seq!['\\', 'f'] }
    else if c == '\r' { seq!['\\', 'r'] }
    else if (c as u32) < 0x20 {
        seq!['\\', 'u', '0', '0', hex_lower((c as u32) as int / 16), hex_lower((c as u32) as int % 16)]
    } else {
        seq![c]
    }
}

/// The body of a JSON string: each character escaped in turn.
pub open spec fn json_escape(s: Seq<char>) -> Seq<char>
    decreases s.len(),
{
    if s.len() == 0 {
        Seq::<char>::empty()
    } else {
        json_escape_char(s[0]) + json_escape(s.drop_first())
    }
}

/// A complete JSON string: the escaped body between double quotes.
pub open spec fn json_quote(s: Seq<char>) -> Seq<char> {
    seq!['"'] + json_escape(s) + seq!['"']
}

pub open spec fn get_prefix() -> Seq<char> {
    seq!['{', '"', 'G', 'e', 't', '"', ':']
}

pub open spec fn rm_prefix() -> Seq<char> {
    seq!['{', '"', 'R', 'm', '"', ':']
}

pub open spec fn set_prefix() -> Seq<char> {
    seq!['{', '"', 'S', 'e', 't', '"', ':', '[']
}

/// The canonical JSON text of a command, exactly as a standard JSON encoder
/// renders the corresponding tagged union.
pub open spec fn spec_encode(c: SpecCmd) -> Seq<char> {
    match c {
        SpecCmd::Get(k) => get_prefix() + json_quote(k) + seq!['}'],
        SpecCmd::Rm(k) => rm_prefix() + json_quote(k) + seq!['}'],
        SpecCmd::Put(k, v) => set_prefix() + json_quote(k) + seq![','] + json_quote(v) + seq![']', '}'],
    }
}

/// A framed record: the JSON text followed by the delimiter.
pub open spec fn spec_frame(c: SpecCmd) -> Seq<char> {
    spec_encode(c) + seq!['#']
}

/// The character a two-character escape stands for, if `e` is one.
pub open spec fn short_unescape(e: char) -> Option<char> {
    if e == '"' { Some('"') }
    else if e == '\\' { Some('\\') }
    else if e == 'b' { Some('\u{08}') }
    else if e == 't' { Some('\t') }
    else if e == 'n' { Some('\n') }
    else if e == 'f' { Some('\u{0c}') }
    else if e == 'r' { Some('\r') }
    else { None }
}

/// Control characters with a two-character escape of their own.
pub open spec fn has_short_escape(v: int) -> bool {
    v == 8 || v == 9 || v == 10 || v == 12 || v == 13
}

/// True for the lower-case hexadecimal digits `0`-`9`, `a`-`f`.
pub open spec fn is_hex_lower(c: char) -> bool {
    (48 <= c as u32 && c as u32 <= 57) || (97 <= c as u32 && c as u32 <= 102)
}

/// The numeric value of a lower-case hexadecimal digit.
pub open spec fn hex_val(c: char) -> int {
    if 48 <= c as u32 && c as u32 <= 57 { c as u32 - 48 } else { c as u32 - 87 }
}

/// Parse the body of a JSON string, the opening quote already consumed.
/// Returns the decoded content and whatever follows the closing quote.
/// Only the encoder's canonical output is accepted.
pub open spec fn parse_qbody(s: Seq<char>) -> Option<(Seq<char>, Seq<char>)>
    decreases s.len(),
{
    if s.len() == 0 {
        None
    } else if s[0] == '"' {
        Some((Seq::<char>::empty(), s.drop_first()))
    } else if s[0] == '\\' {
        if s.len() < 2 {
            None
        } else if short_unescape(s[1]) is Some {
            match parse_qbody(s.skip(2)) {
                Some(p) => Some((seq![short_unescape(s[1]).unwrap()] + p.0, p.1)),
                None => None,
            }
        } else if s[1] == 'u' {
            if s.len() < 6 {
                None
            } else if s[2] == '0' && s[3] == '0' && is_hex_lower(s[4]) && is_hex_lower(s[5])
                && 16 * hex_val(s[4]) + hex_val(s[5]) < 32
                && !has_short_escape(16 * hex_val(s[4]) + hex_val(s[5])) {
                match parse_qbody(s.skip(6)) {
                    Some(p) => Some((
                        seq![((16 * hex_val(s[4]) + hex_val(s[5])) as u8) as char] + p.0,
                        p.1,
                    )),
                    None => None,
                }
            } else {
                None
            }
        } else {
            None
        }
    } else if 0x20 <= s[0] as u32 {
        match parse_qbody(s.drop_first()) {
            Some(p) => Some((seq![s[0]] + p.0, p.1)),
            None => None,
        }
    } else {
        None
    }
}

/// Parse a complete JSON string, opening quote included.
pub open spec fn parse_quoted(s: Seq<char>) -> Option<(Seq<char>, Seq<char>)> {
    if s.len() >= 1 && s[0] == '"' {
        parse_qbody(s.drop_first())
    } else {
        None
    }
}

/// Parse the canonical JSON text of a command; the exact inverse of
/// [`spec_encode`].
pub open spec fn spec_decode(s: Seq<char>) -> Option<SpecCmd> {
    if s.len() >= 7 && s.take(7) == get_prefix() {
        match parse_quoted(s.skip(7)) {
            Some(p) => if p.1 == seq!['}'] { Some(SpecCmd::Get(p.0)) } else { None },
            None => None,
        }
    } else if s.len() >= 6 && s.take(6) == rm_prefix() {
        match parse_quoted(s.skip(6)) {
            Some(p) => if p.1 == seq!['}'] { Some(SpecCmd::Rm(p.0)) } else { None },
            None => None,
        }
    } else if s.len() >= 8 && s.take(8) == set_prefix() {
        match parse_quoted(s.skip(8)) {
            Some(p) => if p.1.len() >= 1 && p.1[0] == ',' {
                match parse_quoted(p.1.skip(1)) {
                    Some(q) => if q.1 == seq![']', '}'] {
                        Some(SpecCmd::Put(p.0, q.0))
                    } else {
                        None
                    },
                    None => None,
                }
            } else {
                None
            },
            None => None,
        }
    } else {
        None
    }
}

/// Escaping distributes over concatenation.
proof fn lemma_escape_app(a: Seq<char>, b: Seq<char>)
    ensures
        json_escape(a + b) == json_escape(a) + json_escape(b),
    decreases a.len(),
{
    if a.len() == 0 {
        assert(a + b =~= b);
        assert(json_escape(a) + json_escape(b) =~= json_escape(b));
    } else {
        assert((a + b).drop_first() =~= a.drop_first() + b);
        lemma_escape_app(a.drop_first(), b);
        assert(json_escape(a + b) =~= json_escape(a) + json_escape(b));
    }
}

/// The escape of a single character never contains the delimiter, unless the
/// character itself is the delimiter.
proof fn lemma_escape_char_hash_free(c: char)
    requires
        c != '#',
    ensures
        hash_free(json_escape_char(c)),
{
}

/// Escaping a delimiter-free string yields a delimiter-free string.
proof fn lemma_escape_hash_free(s: Seq<char>)
    requires
        hash_free(s),
    ensures
        hash_free(json_escape(s)),
    decreases s.len(),
{
    if s.len() > 0 {
        lemma_escape_char_hash_free(s[0]);
        assert(hash_free(s.drop_first()));
        lemma_escape_hash_free(s.drop_first());
        assert forall|i: int| 0 <= i < json_escape(s).len() implies json_escape(s)[i] != '#' by {
            let head = json_escape_char(s[0]);
            if i < head.len() {
                assert(json_escape(s)[i] == head[i]);
            } else {
                assert(json_escape(s)[i] == json_escape(s.drop_first())[i - head.len()]);
            }
        }
    }
}

/// The canonical text of a command mentions the delimiter only where the key
/// or value does.
pub proof fn lemma_encode_hash_free(c: SpecCmd)
    requires
        cmd_hash_free(c),
    ensures
        hash_free(spec_encode(c)),
{
    match c {
        SpecCmd::Get(k) => {
            lemma_escape_hash_free(k);
        }
        SpecCmd::Rm(k) => {
            lemma_escape_hash_free(k);
        }
        SpecCmd::Put(k, v) => {
            lemma_escape_hash_free(k);
            lemma_escape_hash_free(v);
        }
    }
}

/// A lower-case hexadecimal digit reads back as the number it was made from.
proof fn lemma_hex_roundtrip(n: int)
    requires
        0 <= n < 16,
    ensures
        is_hex_lower(hex_lower(n)),
        hex_val(hex_lower(n)) == n,
{
}

/// Parsing picks an escaped string back apart: the body parser, applied to
/// the escaped text, the closing quote and any continuation, returns exactly
/// the original string and the continuation.
proof fn lemma_escape_parse(s: Seq<char>, tail: Seq<char>)
    ensures
        parse_qbody(json_escape(s) + seq!['"'] + tail) == Some((s, tail)),
    decreases s.len(),
{
    broadcast use vstd::utf8::char_u32_cast;

    let whole = json_escape(s) + seq!['"'] + tail;
    if s.len() == 0 {
        assert(whole =~= seq!['"'] + tail);
        assert(whole[0] == '"');
        assert(whole.drop_first() =~= tail);
        assert(s =~= Seq::<char>::empty());
    } else {
        let c = s[0];
        let rest = json_escape(s.drop_first()) + seq!['"'] + tail;
        lemma_escape_parse(s.drop_first(), tail);
        assert(whole =~= json_escape_char(c) + rest);
        if c == '"' || c == '\\' || c == '\u{08}' || c == '\t' || c == '\n' || c == '\u{0c}'
            || c == '\r' {
            assert(whole[0] == '\\');
            assert(whole.len() >= 2);
            assert(whole.skip(2) =~= rest);
            assert(short_unescape(whole[1]) == Some(c));
            assert(seq![c] + s.drop_first() =~= s);
        } else if (c as u32) < 0x20 {
            let u = c as u32 as int;
            assert(whole[0] == '\\');
            assert(whole[1] == 'u');
            assert(short_unescape('u') is None);
            assert(whole.len() >= 6);
            assert(whole[2] == '0' && whole[3] == '0');
            assert(whole[4] == hex_lower(u / 16));
            assert(whole[5] == hex_lower(u % 16));
            lemma_hex_roundtrip(u / 16);
            lemma_hex_roundtrip(u % 16);
            assert(16 * hex_val(whole[4]) + hex_val(whole[5]) == u);
            assert(!has_short_escape(u)) by {
                if u == 8 {
                    vstd::utf8::char_u32_cast(c, 8u32);
                    vstd::utf8::char_u32_cast('\u{08}', 8u32);
                } else if u == 9 {
                    vstd::utf8::char_u32_cast(c, 9u32);
                    vstd::utf8::char_u32_cast('\t', 9u32);
                } else if u == 10 {
                    vstd::utf8::char_u32_cast(c, 10u32);
                    vstd::utf8::char_u32_cast('\n', 10u32);
                } else if u == 12 {
                    vstd::utf8::char_u32_cast(c, 12u32);
                    vstd::utf8::char_u32_cast('\u{0c}', 12u32);
                } else if u == 13 {
                    vstd::utf8::char_u32_cast(c, 13u32);
                    vstd::utf8::char_u32_cast('\r', 13u32);
                }
            }
            assert(whole.skip(6) =~= rest);
            assert((u as u8) as char == c) by {
                vstd::utf8::char_u32_cast(c, u as u32);
            }
            assert(seq![c] + s.drop_first() =~= s);
        } else {
            assert(json_escape_char(c) =~= seq![c]);
            assert(whole[0] == c);
            assert(whole.drop_first() =~= rest);
            assert(seq![c] + s.drop_first() =~= s);
        }
    }
}

/// A lower-case hexadecimal digit is the rendering of its own value.
proof fn lemma_hex_canon(d: char)
    requires
        is_hex_lower(d),
    ensures
        hex_lower(hex_val(d)) == d,
{
    let u = d as u32;
    if u == 48 { vstd::utf8::char_u32_cast(d, 48u32); vstd::utf8::char_u32_cast('0', 48u32); }
    else if u == 49 { vstd::utf8::char_u32_cast(d, 49u32); vstd::utf8::char_u32_cast('1', 49u32); }
    else if u == 50 { vstd::utf8::char_u32_cast(d, 50u32); vstd::utf8::char_u32_cast('2', 50u32); }
    else if u == 51 { vstd::utf8::char_u32_cast(d, 51u32); vstd::utf8::char_u32_cast('3', 51u32); }
    else if u == 52 { vstd::utf8::char_u32_cast(d, 52u32); vstd::utf8::char_u32_cast('4', 52u32); }
    else if u == 53 { vstd::utf8::char_u32_cast(d, 53u32); vstd::utf8::char_u32_cast('5', 53u32); }
    else if u == 54 { vstd::utf8::char_u32_cast(d, 54u32); vstd::utf8::char_u32_cast('6', 54u32); }
    else if u == 55 { vstd::utf8::char_u32_cast(d, 55u32); vstd::utf8::char_u32_cast('7', 55u32); }
    else if u == 56 { vstd::utf8::char_u32_cast(d, 56u32); vstd::utf8::char_u32_cast('8', 56u32); }
    else if u == 57 { vstd::utf8::char_u32_cast(d, 57u32); vstd::utf8::char_u32_cast('9', 57u32); }
    else if u == 97 { vstd::utf8::char_u32_cast(d, 97u32); vstd::utf8::char_u32_cast('a', 97u32); }
    else if u == 98 { vstd::utf8::char_u32_cast(d, 98u32); vstd::utf8::char_u32_cast('b', 98u32); }
    else if u == 99 { vstd::utf8::char_u32_cast(d, 99u32); vstd::utf8::char_u32_cast('c', 99u32); }
    else if u == 100 { vstd::utf8::char_u32_cast(d, 100u32); vstd::utf8::char_u32_cast('d', 100u32); }
    else if u == 101 { vstd::utf8::char_u32_cast(d, 101u32); vstd::utf8::char_u32_cast('e', 101u32); }
    else { vstd::utf8::char_u32_cast(d, 102u32); vstd::utf8::char_u32_cast('f', 102u32); }
}

/// The body parser is sound: whatever it accepts is the canonical escape of
/// the content it returns, followed by the closing quote and the rest.
proof fn lemma_parse_sound(s: Seq<char>, c: Seq<char>, r: Seq<char>)
    requires
        parse_qbody(s) == Some((c, r)),
    ensures
        s == json_escape(c) + seq!['"'] + r,
        c.len() < s.len(),
    decreases s.len(),
{
    if s[0] == '"' {
        assert(c =~= Seq::<char>::empty());
        assert(s =~= json_escape(c) + seq!['"'] + r);
    } else if s[0] == '\\' {
        if short_unescape(s[1]) is Some {
            let ch = short_unescape(s[1]).unwrap();
            let p = parse_qbody(s.skip(2)).unwrap();
            lemma_parse_sound(s.skip(2), p.0, p.1);
            assert(c == seq![ch] + p.0);
            assert(c[0] == ch && c.drop_first() =~= p.0);
            assert(json_escape_char(ch) =~= seq!['\\', s[1]]);
            assert(json_escape(c) =~= json_escape_char(ch) + json_escape(p.0));
            assert(s =~= seq!['\\', s[1]] + s.skip(2));
            assert(s =~= json_escape(c) + seq!['"'] + r);
        } else {
            let v = 16 * hex_val(s[4]) + hex_val(s[5]);
            let ch = (v as u8) as char;
            let p = parse_qbody(s.skip(6)).unwrap();
            lemma_parse_sound(s.skip(6), p.0, p.1);
            assert(c == seq![ch] + p.0);
            assert(c[0] == ch && c.drop_first() =~= p.0);
            assert(ch as u32 == v);
            assert(json_escape_char(ch) =~= seq!['\\', 'u', '0', '0', s[4], s[5]]) by {
                assert(ch != '"' && ch != '\\');
                assert(ch != '\u{08}' && ch != '\t' && ch != '\n' && ch != '\u{0c}' && ch
                    != '\r');
                assert(hex_lower((ch as u32) as int / 16) == s[4]) by {
                    lemma_hex_canon(s[4]);
                }
                assert(hex_lower((ch as u32) as int % 16) == s[5]) by {
                    lemma_hex_canon(s[5]);
                }
            }
            assert(json_escape(c) =~= json_escape_char(ch) + json_escape(p.0));
            assert(s =~= seq!['\\', 'u', '0', '0', s[4], s[5]] + s.skip(6));
            assert(s =~= json_escape(c) + seq!['"'] + r);
        }
    } else {
        let p = parse_qbody(s.drop_first()).unwrap();
        lemma_parse_sound(s.drop_first(), p.0, p.1);
        assert(c == seq![s[0]] + p.0);
        assert(c[0] == s[0] && c.drop_first() =~= p.0);
        assert(json_escape_char(s[0]) =~= seq![s[0]]);
        assert(json_escape(c) =~= json_escape_char(s[0]) + json_escape(p.0));
        assert(s =~= seq![s[0]] + s.drop_first());
        assert(s =~= json_escape(c) + seq!['"'] + r);
    }
}

/// Decoding is the exact inverse of encoding, first direction: every command
/// reads back from its own canonical text.
#[verifier::rlimit(60)]
pub proof fn lemma_decode_encode(c: SpecCmd)
    ensures
        spec_decode(spec_encode(c)) == Some(c),
{
    let s = spec_encode(c);
    match c {
        SpecCmd::Get(k) => {
            assert(s.take(7) =~= get_prefix());
            assert(s.skip(7) =~= seq!['"'] + (json_escape(k) + seq!['"'] + seq!['}']));
            assert(s.skip(7)[0] == '"');
            assert(s.skip(7).drop_first() =~= json_escape(k) + seq!['"'] + seq!['}']);
            lemma_escape_parse(k, seq!['}']);
        }
        SpecCmd::Rm(k) => {
            assert(s.len() >= 9);
            assert(s[2] == 'R');
            if s.len() >= 7 && s.take(7) == get_prefix() {
                assert(s.take(7)[2] == 'G');
                assert(false);
            }
            assert(s.take(6) =~= rm_prefix());
            assert(s.skip(6) =~= seq!['"'] + (json_escape(k) + seq!['"'] + seq!['}']));
            assert(s.skip(6)[0] == '"');
            assert(s.skip(6).drop_first() =~= json_escape(k) + seq!['"'] + seq!['}']);
            lemma_escape_parse(k, seq!['}']);
        }
        SpecCmd::Put(k, v) => {
            assert(s.len() >= 13);
            assert(s[2] == 'S');
            if s.len() >= 7 && s.take(7) == get_prefix() {
                assert(s.take(7)[2] == 'G');
                assert(false);
            }
            if s.len() >= 6 && s.take(6) == rm_prefix() {
                assert(s.take(6)[2] == 'R');
                assert(false);
            }
            assert(s.take(8) =~= set_prefix());
            let tail = seq![','] + json_quote(v) + seq![']', '}'];
            assert(s.skip(8) =~= seq!['"'] + (json_escape(k) + seq!['"'] + tail));
            assert(s.skip(8)[0] == '"');
            assert(s.skip(8).drop_first() =~= json_escape(k) + seq!['"'] + tail);
            lemma_escape_parse(k, tail);
            assert(tail[0] == ',');
            assert(tail.skip(1) =~= seq!['"'] + (json_escape(v) + seq!['"'] + seq![']', '}']));
            assert(tail.skip(1)[0] == '"');
            assert(tail.skip(1).drop_first() =~= json_escape(v) + seq!['"'] + seq![']', '}']);
            lemma_escape_parse(v, seq![']', '}']);
        }
    }
}

/// Decoding is the exact inverse of encoding, second direction: whatever
/// decodes was the canonical text of the decoded command.
pub proof fn lemma_encode_decode(s: Seq<char>, c: SpecCmd)
    requires
        spec_decode(s) == Some(c),
    ensures
        s == spec_encode(c),
{
    if s.len() >= 7 && s.take(7) == get_prefix() {
        let k = c->Get_0;
        let p = parse_quoted(s.skip(7)).unwrap();
        lemma_parse_sound(s.skip(7).drop_first(), p.0, p.1);
        assert(s.skip(7) =~= seq!['"'] + s.skip(7).drop_first());
        assert(s =~= s.take(7) + s.skip(7));
        assert(s =~= get_prefix() + json_quote(k) + seq!['}']);
    } else if s.len() >= 6 && s.take(6) == rm_prefix() {
        let k = c->Rm_0;
        let p = parse_quoted(s.skip(6)).unwrap();
        lemma_parse_sound(s.skip(6).drop_first(), p.0, p.1);
        assert(s.skip(6) =~= seq!['"'] + s.skip(6).drop_first());
        assert(s =~= s.take(6) + s.skip(6));
        assert(s =~= rm_prefix() + json_quote(k) + seq!['}']);
    } else {
        let k = c->Put_0;
        let v = c->Put_1;
        let p = parse_quoted(s.skip(8)).unwrap();
        lemma_parse_sound(s.skip(8).drop_first(), p.0, p.1);
        let r1 = p.1;
        let q = parse_quoted(r1.skip(1)).unwrap();
        lemma_parse_sound(r1.skip(1).drop_first(), q.0, q.1);
        assert(r1.skip(1) =~= seq!['"'] + r1.skip(1).drop_first());
        assert(r1 =~= seq![','] + r1.skip(1));
        assert(r1 =~= seq![','] + json_quote(v) + seq![']', '}']);
        assert(s.skip(8) =~= seq!['"'] + s.skip(8).drop_first());
        assert(s =~= s.take(8) + s.skip(8));
        assert(s =~= set_prefix() + json_quote(k) + seq![','] + json_quote(v) + seq![']', '}']);
    }
}

/// Relies on `Iterator::collect` for `String`: the collected string holds
/// exactly the characters of the slice, in order.
#[verifier::external_body]
fn string_from_chars(v: &Vec<char>) -> (s: String)
    ensures
        s@ == v@,
{
    v.iter().collect()
}

/// The lower-case hexadecimal digit for `n`, executably.
fn hex_char(n: u32) -> (c: char)
    requires
        n < 16,
    ensures
        c == hex_lower(n as int),
{
    if n == 0 { '0' } else if n == 1 { '1' } else if n == 2 { '2' } else if n == 3 { '3' }
    else if n == 4 { '4' } else if n == 5 { '5' } else if n == 6 { '6' } else if n == 7 { '7' }
    else if n == 8 { '8' } else if n == 9 { '9' } else if n == 10 { 'a' } else if n == 11 { 'b' }
    else if n == 12 { 'c' } else if n == 13 { 'd' } else if n == 14 { 'e' } else { 'f' }
}

/// The value of a lower-case hexadecimal digit, executably.
fn hex_value(c: char) -> (r: Option<u32>)
    ensures
        match r {
            Some(v) => is_hex_lower(c) && v < 16 && v as int == hex_val(c),
            None => !is_hex_lower(c),
        },
{
    let u = c as u32;
    if 48 <= u && u <= 57 {
        Some(u - 48)
    } else if 97 <= u && u <= 102 {
        Some(u - 87)
    } else {
        None
    }
}

/// Append the escaped body of `s` to `out`.
fn push_escaped(out: &mut Vec<char>, s: &str)
    ensures
        final(out)@ == old(out)@ + json_escape(s@),
{
    let n = s.unicode_len();
    let mut i: usize = 0;
    while i < n
        invariant
            i <= n,
            n == s@.len(),
            out@ == old(out)@ + json_escape(s@.take(i as int)),
        decreases n - i,
    {
        let c = s.get_char(i);
        proof {
            assert(s@.take(i as int + 1) =~= s@.take(i as int) + seq![s@[i as int]]);
            lemma_escape_app(s@.take(i as int), seq![s@[i as int]]);
            assert(json_escape(seq![c]) =~= json_escape_char(c)) by {
                let e: Seq<char> = Seq::empty();
                assert(seq![c].drop_first() =~= e);
                assert(json_escape(e) =~= e);
                assert(json_escape(seq![c]) == json_escape_char(seq![c][0]) + json_escape(
                    seq![c].drop_first(),
                ));
            }
        }
        if c == '"' {
            out.push('\\');
            out.push('"');
        } else if c == '\\' {
            out.push('\\');
            out.push('\\');
        } else if c == '\u{08}' {
            out.push('\\');
            out.push('b');
        } else if c == '\t' {
            out.push('\\');
            out.push('t');
        } else if c == '\n' {
            out.push('\\');
            out.push('n');
        } else if c == '\u{0c}' {
            out.push('\\');
            out.push('f');
        } else if c == '\r' {
            out.push('\\');
            out.push('r');
        } else if (c as u32) < 0x20 {
            let u = c as u32;
            out.push('\\');
            out.push('u');
            out.push('0');
            out.push('0');
            out.push(hex_char(u / 16));
            out.push(hex_char(u % 16));
        } else {
            out.push(c);
        }
        proof {
            assert(out@ =~= old(out)@ + json_escape(s@.take(i as int + 1)));
        }
        i = i + 1;
    }
    proof {
        assert(s@.take(n as int) =~= s@);
    }
}

/// Append a complete JSON string for `s` to `out`.
fn push_quoted(out: &mut Vec<char>, s: &str)
    ensures
        final(out)@ == old(out)@ + json_quote(s@),
{
    out.push('"');
    push_escaped(out, s);
    out.push('"');
    proof {
        assert(out@ =~= old(out)@ + json_quote(s@));
    }
}

/// Render a command as its canonical JSON text, one character per element.
pub fn encode_command(c: &Command) -> (r: Vec<char>)
    ensures
        r@ == spec_encode(c@),
{
    let mut r: Vec<char> = Vec::new();
    r.push('{');
    r.push('"');
    match c {
        Command::Get(k) => {
            r.push('G');
            r.push('e');
            r.push('t');
            r.push('"');
            r.push(':');
            push_quoted(&mut r, k.as_str());
            r.push('}');
            proof {
                assert(r@ =~= spec_encode(c@));
            }
        }
        Command::Rm(k) => {
            r.push('R');
            r.push('m');
            r.push('"');
            r.push(':');
            push_quoted(&mut r, k.as_str());
            r.push('}');
            proof {
                assert(r@ =~= spec_encode(c@));
            }
        }
        Command::Put(k, v) => {
            r.push('S');
            r.push('e');
            r.push('t');
            r.push('"');
            r.push(':');
            r.push('[');
            push_quoted(&mut r, k.as_str());
            r.push(',');
            push_quoted(&mut r, v.as_str());
            r.push(']');
            r.push('}');
            proof {
                assert(r@ =~= spec_encode(c@));
            }
        }
    }
    r
}

/// Parse one JSON string out of `s`, starting at `from`; on success return
/// its decoded content and the position just past the closing quote.
fn parse_string(s: &Vec<char>, from: usize) -> (r: Option<(Vec<char>, usize)>)
    requires
        from <= s@.len(),
    ensures
        match r {
            Some(p) => from < p.1 <= s@.len() && parse_quoted(s@.skip(from as int)) == Some(
                (p.0@, s@.skip(p.1 as int)),
            ),
            None => parse_quoted(s@.skip(from as int)) is None,
        },
{
    if from >= s.len() || s[from] != '"' {
        proof {
            if s@.skip(from as int).len() >= 1 {
                assert(s@.skip(from as int)[0] == s@[from as int]);
            }
        }
        return None;
    }
    let ghost start = from as int + 1;
    let mut content: Vec<char> = Vec::new();
    let mut j: usize = from + 1;
    loop
        invariant
            from as int + 1 <= j <= s@.len(),
            start == from as int + 1,
            s@.len() >= 1,
            s@[from as int] == '"',
            from < s@.len(),
            match parse_qbody(s@.skip(j as int)) {
                Some(p) => parse_qbody(s@.skip(start)) == Some((content@ + p.0, p.1)),
                None => parse_qbody(s@.skip(start)) is None,
            },
        decreases s@.len() - j,
    {
        proof {
            assert(s@.skip(from as int)[0] == s@[from as int]);
            assert(s@.skip(from as int).drop_first() =~= s@.skip(start));
        }
        if j >= s.len() {
            proof {
                assert(s@.skip(j as int).len() == 0);
            }
            return None;
        }
        let c = s[j];
        proof {
            assert(s@.skip(j as int)[0] == c);
            assert(s@.skip(j as int).drop_first() =~= s@.skip(j as int + 1));
        }
        if c == '"' {
            proof {
                let p = parse_qbody(s@.skip(j as int)).unwrap();
                assert(p.0 =~= Seq::<char>::empty());
                assert(content@ + p.0 =~= content@);
            }
            return Some((content, j + 1));
        } else if c == '\\' {
            if j + 1 >= s.len() {
                proof {
                    assert(s@.skip(j as int).len() < 2);
                }
                return None;
            }
            let e = s[j + 1];
            proof {
                assert(s@.skip(j as int)[1] == e);
            }
            if e == '"' || e == '\\' || e == 'b' || e == 't' || e == 'n' || e == 'f' || e == 'r' {
                let ch = if e == '"' { '"' } else if e == '\\' { '\\' } else if e == 'b' {
                    '\u{08}'
                } else if e == 't' { '\t' } else if e == 'n' { '\n' } else if e == 'f' {
                    '\u{0c}'
                } else { '\r' };
                proof {
                    assert(short_unescape(e) == Some(ch));
                    assert(s@.skip(j as int).skip(2) =~= s@.skip(j as int + 2));
                    if let Some(p) = parse_qbody(s@.skip(j as int + 2)) {
                        assert((content@ + seq![ch]) + p.0 =~= content@ + (seq![ch] + p.0));
                    }
                }
                content.push(ch);
                j = j + 2;
            } else if e == 'u' {
                if s.len() - j < 6 {
                    proof {
                        assert(s@.skip(j as int).len() < 6);
                    }
                    return None;
                }
                proof {
                    assert(s@.skip(j as int).len() >= 6);
                    assert(s@.skip(j as int)[2] == s@[j as int + 2]);
                    assert(s@.skip(j as int)[3] == s@[j as int + 3]);
                    assert(s@.skip(j as int)[4] == s@[j as int + 4]);
                    assert(s@.skip(j as int)[5] == s@[j as int + 5]);
                    assert(short_unescape('u') is None);
                }
                if s[j + 2] != '0' || s[j + 3] != '0' {
                    return None;
                }
                let h4 = hex_value(s[j + 4]);
                let h5 = hex_value(s[j + 5]);
                match (h4, h5) {
                    (Some(v4), Some(v5)) => {
                        let v = 16 * v4 + v5;
                        if v < 32 && !(v == 8 || v == 9 || v == 10 || v == 12 || v == 13) {
                            let ch = (v as u8) as char;
                            proof {
                                assert(s@.skip(j as int).skip(6) =~= s@.skip(j as int + 6));
                                if let Some(p) = parse_qbody(s@.skip(j as int + 6)) {
                                    assert((content@ + seq![ch]) + p.0 =~= content@ + (seq![ch]
                                        + p.0));
                                }
                            }
                            content.push(ch);
                            j = j + 6;
                        } else {
                            return None;
                        }
                    }
                    _ => {
                        return None;
                    }
                }
            } else {
                return None;
            }
        } else if (c as u32) >= 0x20 {
            proof {
                if let Some(p) = parse_qbody(s@.skip(j as int + 1)) {
                    assert((content@ + seq![c]) + p.0 =~= content@ + (seq![c] + p.0));
                }
            }
            content.push(c);
            j = j + 1;
        } else {
            return None;
        }
    }
}

/// True exactly when `s` begins with the `Get` object prefix.
fn check_get_prefix(s: &Vec<char>) -> (b: bool)
    ensures
        b == (s@.len() >= 7 && s@.take(7) == get_prefix()),
{
    let b = s.len() >= 7 && s[0] == '{' && s[1] == '"' && s[2] == 'G' && s[3] == 'e' && s[4] == 't'
        && s[5] == '"' && s[6] == ':';
    proof {
        if b {
            assert(s@.take(7) =~= get_prefix());
        } else if s@.len() >= 7 && s@.take(7) == get_prefix() {
            assert(forall|i: int| 0 <= i < 7 ==> s@[i] == #[trigger] get_prefix()[i]) by {
                assert(forall|i: int| 0 <= i < 7 ==> s@.take(7)[i] == s@[i]);
            }
            assert(false);
        }
    }
    b
}

/// True exactly when `s` begins with the `Rm` object prefix.
fn check_rm_prefix(s: &Vec<char>) -> (b: bool)
    ensures
        b == (s@.len() >= 6 && s@.take(6) == rm_prefix()),
{
    let b = s.len() >= 6 && s[0] == '{' && s[1] == '"' && s[2] == 'R' && s[3] == 'm' && s[4] == '"'
        && s[5] == ':';
    proof {
        if b {
            assert(s@.take(6) =~= rm_prefix());
        } else if s@.len() >= 6 && s@.take(6) == rm_prefix() {
            assert(forall|i: int| 0 <= i < 6 ==> s@[i] == #[trigger] rm_prefix()[i]) by {
                assert(forall|i: int| 0 <= i < 6 ==> s@.take(6)[i] == s@[i]);
            }
            assert(false);
        }
    }
    b
}

/// True exactly when `s` begins with the `Set` object prefix.
fn check_set_prefix(s: &Vec<char>) -> (b: bool)
    ensures
        b == (s@.len() >= 8 && s@.take(8) == set_prefix()),
{
    let b = s.len() >= 8 && s[0] == '{' && s[1] == '"' && s[2] == 'S' && s[3] == 'e' && s[4] == 't'
        && s[5] == '"' && s[6] == ':' && s[7] == '[';
    proof {
        if b {
            assert(s@.take(8) =~= set_prefix());
        } else if s@.len() >= 8 && s@.take(8) == set_prefix() {
            assert(forall|i: int| 0 <= i < 8 ==> s@[i] == #[trigger] set_prefix()[i]) by {
                assert(forall|i: int| 0 <= i < 8 ==> s@.take(8)[i] == s@[i]);
            }
            assert(false);
        }
    }
    b
}

/// Decode the canonical JSON text of a command; returns `None` exactly where
/// [`spec_decode`] does.
pub fn decode_command(s: &Vec<char>) -> (r: Option<Command>)
    ensures
        match r {
            Some(c) => spec_decode(s@) == Some(c@),
            None => spec_decode(s@) is None,
        },
{
    if check_get_prefix(s) {
        match parse_string(s, 7) {
            Some((content, np)) => {
                if s.len() - np == 1 && s[np] == '}' {
                    proof {
                        assert(s@.skip(np as int) =~= seq!['}']);
                    }
                    Some(Command::Get(string_from_chars(&content)))
                } else {
                    proof {
                        let rest = s@.skip(np as int);
                        if s@.len() - np != 1 {
                            assert(rest.len() != 1);
                        } else {
                            assert(rest[0] == s@[np as int]);
                        }
                    }
                    None
                }
            }
            None => None,
        }
    } else if check_rm_prefix(s) {
        match parse_string(s, 6) {
            Some((content, np)) => {
                if s.len() - np == 1 && s[np] == '}' {
                    proof {
                        assert(s@.skip(np as int) =~= seq!['}']);
                    }
                    Some(Command::Rm(string_from_chars(&content)))
                } else {
                    proof {
                        let rest = s@.skip(np as int);
                        if s@.len() - np != 1 {
                            assert(rest.len() != 1);
                        } else {
                            assert(rest[0] == s@[np as int]);
                        }
                    }
                    None
                }
            }
            None => None,
        }
    } else if check_set_prefix(s) {
        match parse_string(s, 8) {
            Some((kcontent, np1)) => {
                proof {
                    if s@.skip(np1 as int).len() >= 1 {
                        assert(s@.skip(np1 as int)[0] == s@[np1 as int]);
                    }
                }
                if np1 < s.len() && s[np1] == ',' {
                    proof {
                        assert(s@.skip(np1 as int).skip(1) =~= s@.skip(np1 as int + 1));
                    }
                    match parse_string(s, np1 + 1) {
                        Some((vcontent, np2)) => {
                            if s.len() - np2 == 2 && s[np2] == ']' && s[np2 + 1] == '}' {
                                proof {
                                    assert(s@.skip(np2 as int) =~= seq![']', '}']);
                                }
                                Some(Command::Put(
                                    string_from_chars(&kcontent),
                                    string_from_chars(&vcontent),
                                ))
                            } else {
                                proof {
                                    let rest = s@.skip(np2 as int);
                                    if s@.len() - np2 != 2 {
                                        assert(rest.len() != 2);
                                    } else {
                                        assert(rest[0] == s@[np2 as int]);
                                        assert(rest[1] == s@[np2 as int + 1]);
                                    }
                                }
                                None
                            }
                        }
                        None => None,
                    }
                } else {
                    None
                }
            }
            None => None,
        }
    } else {
        None
    }
}

/// A framed record for `c`: its canonical JSON text plus the delimiter.
pub fn encode_frame(c: &Command) -> (r: Vec<char>)
    ensures
        r@ == spec_frame(c@),
{
    let mut r = encode_command(c);
    r.push('#');
    proof {
        assert(r@ =~= spec_frame(c@));
    }
    r
}

/// True exactly when `s` never mentions the frame delimiter.
pub fn str_hash_free(s: &str) -> (b: bool)
    ensures
        b == hash_free(s@),
{
    let n = s.unicode_len();
    let mut i: usize = 0;
    while i < n
        invariant
            i <= n,
            n == s@.len(),
            forall|t: int| 0 <= t < i ==> s@[t] != '#',
        decreases n - i,
    {
        if s.get_char(i) == '#' {
            return false;
        }
        i = i + 1;
    }
    true
}

/// True exactly when every string inside the command is free of the frame
/// delimiter, so that the command may be written to the log.
pub fn command_ok(c: &Command) -> (b: bool)
    ensures
        b == cmd_hash_free(c@),
{
    match c {
        Command::Get(k) => str_hash_free(k.as_str()),
        Command::Rm(k) => str_hash_free(k.as_str()),
        Command::Put(k, v) => str_hash_free(k.as_str()) && str_hash_free(v.as_str()),
    }
}

} // verus!
