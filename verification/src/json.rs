//! The streaming JSON parser: an event-driven scanner over text, folding
//! start/end-container, field-name and scalar events onto an explicit stack
//! of frames, producing one `Value` tree.
//!
//! The ghost machine (`spec_next_token`, `spec_jstep`, `spec_json_run`) is
//! the reference semantics; the executable parser follows it step for step.

use crate::error::JsonError;
use crate::query_parser::{all_digits, digits_val, is_digit};
use crate::value::{
    entries_model, items_model, lemma_value_arr_wf, lemma_value_obj_wf, map_set, num_model,
    num_wf, val_model, value_wf, NumM, ValM, Value, N, Number,
};
use vstd::prelude::*;

verus! {

broadcast use vstd::utf8::char_is_scalar, vstd::utf8::char_u32_cast;

/// A code point a `char` can carry: not a surrogate, at most U+10FFFF.
pub open spec fn is_unicode_scalar(i: u32) -> bool {
    i < 0xD800 || (0xE000 <= i && i <= 0x10FFFF)
}

/// Relies on char::from_u32 of std: `Some` exactly for Unicode scalar
/// values, returning the char with that code.
pub assume_specification[ char::from_u32 ](i: u32) -> (r: Option<char>)
    ensures
        r is Some <==> is_unicode_scalar(i),
        r matches Some(c) ==> c as u32 == i,
;

/// Relies on String::push of std: appends one character.
pub assume_specification[ String::push ](s: &mut String, c: char)
    ensures
        final(s)@ == old(s)@.push(c),
;

/// The char with the given code.
pub open spec fn char_of(n: u32) -> char {
    n as char
}

pub open spec fn hex_digit_val(c: char) -> Option<u32> {
    if '0' <= c <= '9' {
        Some((c as u32 - '0' as u32) as u32)
    } else if 'a' <= c <= 'f' {
        Some((c as u32 - 'a' as u32 + 10) as u32)
    } else if 'A' <= c <= 'F' {
        Some((c as u32 - 'A' as u32 + 10) as u32)
    } else {
        None
    }
}

/// The value of a short hex digit run, or `None` when a character is not a
/// hex digit.
pub open spec fn hex_val(s: Seq<char>) -> Option<u32>
    decreases s.len(),
{
    if s.len() == 0 {
        Some(0)
    } else {
        match (hex_val(s.subrange(0, s.len() - 1)), hex_digit_val(s[s.len() - 1])) {
            (Some(h), Some(d)) => Some((h * 16 + d) as u32),
            _ => None,
        }
    }
}

/// What a four-character escape code denotes. Like the radix parser of
/// std, the grammar tolerates an optional leading plus sign.
pub open spec fn spec_hex4(h: Seq<char>) -> Option<u32> {
    if h.len() != 4 {
        None
    } else if h[0] == '+' {
        hex_val(h.subrange(1, 4))
    } else {
        hex_val(h)
    }
}

/// The meaning of `unescape_json_string` from position `i` on: backslash
/// escapes are resolved, `\uXXXX` must denote a Unicode scalar, an unknown
/// escape is kept literally, and a trailing backslash ends the text.
pub open spec fn spec_unescape(s: Seq<char>, i: int) -> Result<Seq<char>, ()>
    decreases s.len() - i, 0int,
{
    if i < 0 || i >= s.len() {
        Ok(Seq::empty())
    } else if s[i] == '\\' {
        if i + 1 >= s.len() {
            Ok(seq!['\\'])
        } else {
            let c = s[i + 1];
            if c == '"' || c == '\\' || c == '/' {
                spec_unescape_cons(c, s, i + 2)
            } else if c == 'b' {
                spec_unescape_cons('\u{0008}', s, i + 2)
            } else if c == 'f' {
                spec_unescape_cons('\u{000C}', s, i + 2)
            } else if c == 'n' {
                spec_unescape_cons('\n', s, i + 2)
            } else if c == 'r' {
                spec_unescape_cons('\r', s, i + 2)
            } else if c == 't' {
                spec_unescape_cons('\t', s, i + 2)
            } else if c == 'u' {
                if i + 6 > s.len() {
                    Err(())
                } else {
                    match spec_hex4(s.subrange(i + 2, i + 6)) {
                        None => Err(()),
                        Some(code) => if is_unicode_scalar(code) {
                            spec_unescape_cons(char_of(code), s, i + 6)
                        } else {
                            Err(())
                        },
                    }
                }
            } else {
                match spec_unescape(s, i + 2) {
                    Ok(t) => Ok(seq!['\\', c] + t),
                    Err(e) => Err(e),
                }
            }
        }
    } else {
        spec_unescape_cons(s[i], s, i + 1)
    }
}

pub open spec fn spec_unescape_cons(c: char, s: Seq<char>, i: int) -> Result<Seq<char>, ()>
    decreases s.len() - i, 1int,
{
    match spec_unescape(s, i) {
        Ok(t) => Ok(seq![c] + t),
        Err(e) => Err(e),
    }
}

pub open spec fn pow16(n: nat) -> nat
    decreases n,
{
    if n == 0 {
        1
    } else {
        16 * pow16((n - 1) as nat)
    }
}

/// A non-digit anywhere makes the hex run invalid.
proof fn lemma_hex_val_none(s: Seq<char>, start: int, bad: int, end: int)
    requires
        0 <= start <= bad < end <= s.len(),
        hex_digit_val(s[bad]) is None,
    ensures
        hex_val(s.subrange(start, end)) is None,
    decreases end - bad,
{
    let h = s.subrange(start, end);
    if bad == end - 1 {
        assert(h[h.len() - 1] == s[bad]);
    } else {
        lemma_hex_val_none(s, start, bad, end - 1);
        assert(h.subrange(0, h.len() - 1) =~= s.subrange(start, end - 1));
    }
}

fn hex_digit_val_exec(c: char) -> (r: Option<u32>)
    ensures
        r == hex_digit_val(c),
{
    let cu = c as u32;
    if cu >= 48 && cu <= 57 {
        Some(cu - 48)
    } else if cu >= 97 && cu <= 102 {
        Some(cu - 97 + 10)
    } else if cu >= 65 && cu <= 70 {
        Some(cu - 65 + 10)
    } else {
        None
    }
}

/// Read the four characters of a `\uXXXX` escape code.
#[verifier::loop_isolation(false)]
fn parse_hex4(s: &str, p: usize) -> (r: Option<u32>)
    requires
        p + 4 <= s@.len(),
        s@.len() <= usize::MAX,
    ensures
        r == spec_hex4(s@.subrange(p as int, p as int + 4)),
        r matches Some(v) ==> v < 0x10000,
{
    let ghost h4 = s@.subrange(p as int, p as int + 4);
    let c0 = s.get_char(p);
    let start: usize = if c0 == '+' {
        p + 1
    } else {
        p
    };
    let mut code: u32 = 0;
    let mut j: usize = start;
    while j < p + 4
        invariant
            start <= j <= p + 4,
            Some(code) == hex_val(s@.subrange(start as int, j as int)),
            code < pow16((j - start) as nat),
        decreases p + 4 - j,
    {
        let ghost pre = s@.subrange(start as int, j as int);
        let hc = s.get_char(j);
        proof {
            assert(s@.subrange(start as int, j as int + 1).subrange(
                0,
                s@.subrange(start as int, j as int + 1).len() - 1,
            ) =~= pre);
            assert(s@.subrange(start as int, j as int + 1)[j - start] == s@[j as int]);
        }
        match hex_digit_val_exec(hc) {
            Some(d) => {
                proof {
                    assert(pow16(0) == 1);
                    assert(pow16(1) == 16);
                    assert(pow16(2) == 256);
                    assert(pow16(3) == 4096);
                    assert(pow16(4) == 65536);
                    assert(j - start <= 3);
                    assert(code < 4096);
                    assert(d <= 15);
                    assert(code * 16 + d < 0x10000);
                    assert(pow16((j + 1 - start) as nat) == 16 * pow16((j - start) as nat));
                }
                code = code * 16 + d;
            },
            None => {
                proof {
                    lemma_hex_val_none(s@, start as int, j as int, p as int + 4);
                    if c0 == '+' {
                        assert(h4[0] == '+');
                        assert(s@.subrange(p as int + 1, p as int + 4) =~= h4.subrange(1, 4));
                    } else {
                        assert(s@.subrange(p as int, p as int + 4) =~= h4);
                    }
                }
                return None;
            },
        }
        j = j + 1;
    }
    proof {
        if c0 == '+' {
            assert(h4[0] == '+');
            assert(s@.subrange(p as int + 1, p as int + 4) =~= h4.subrange(1, 4));
        } else {
            assert(s@.subrange(p as int, p as int + 4) =~= h4);
        }
        assert(pow16(0) == 1);
        assert(pow16(1) == 16);
        assert(pow16(2) == 256);
        assert(pow16(3) == 4096);
        assert(pow16(4) == 65536);
        assert(code < 0x10000);
    }
    Some(code)
}

/// Resolve the backslash escapes of a raw JSON string body. `\uXXXX` must
/// name a Unicode scalar value; any other failure of the escape grammar is
/// kept literally, since the scanner vets escapes before unescaping.
#[verifier::loop_isolation(false)]
pub fn unescape_json_string(s: &str) -> (r: Result<String, JsonError>)
    ensures
        match (r, spec_unescape(s@, 0)) {
            (Ok(out), Ok(m)) => out@ == m,
            (Err(e), Err(_)) => e is SyntaxError,
            _ => false,
        },
{
    let len = s.unicode_len();
    let mut result = String::new();
    let mut i: usize = 0;
    proof {
        assert(Seq::<char>::empty() + result@ =~= result@);
    }
    while i < len
        invariant
            i <= len,
            spec_unescape(s@, 0) == match spec_unescape(s@, i as int) {
                Ok(t) => Ok(result@ + t),
                Err(e) => Err(e),
            },
        decreases len - i,
    {
        let ghost i0 = i as int;
        let ghost r0 = result@;
        let c = s.get_char(i);
        if c == '\\' {
            if i + 1 >= len {
                result.push('\\');
                i = len;
                proof {
                    assert(r0.push('\\') =~= r0 + seq!['\\']);
                    assert(result@ + Seq::<char>::empty() =~= result@);
                }
                break;
            }
            let e = s.get_char(i + 1);
            if e == '"' || e == '\\' || e == '/' || e == 'b' || e == 'f' || e == 'n' || e == 'r'
                || e == 't' {
                let unescaped: char = if e == 'b' {
                    '\u{0008}'
                } else if e == 'f' {
                    '\u{000C}'
                } else if e == 'n' {
                    '\n'
                } else if e == 'r' {
                    '\r'
                } else if e == 't' {
                    '\t'
                } else {
                    e
                };
                result.push(unescaped);
                i = i + 2;
                proof {
                    assert(spec_unescape(s@, i0) == spec_unescape_cons(unescaped, s@, i as int));
                    match spec_unescape(s@, i as int) {
                        Ok(t) => {
                            assert(r0 + (seq![unescaped] + t) =~= result@ + t);
                        },
                        Err(_) => {},
                    }
                }
            } else if e == 'u' {
                if len - i < 6 {
                    return Err(JsonError::SyntaxError(String::from_str("Missing hex digits")));
                }
                match parse_hex4(s, i + 2) {
                    None => {
                        return Err(
                            JsonError::SyntaxError(String::from_str("Invalid hex digits")),
                        );
                    },
                    Some(code) => {
                        match char::from_u32(code) {
                            Some(uc) => {
                                proof {
                                    assert(uc as u32 == code);
                                    vstd::utf8::char_u32_cast(uc, code);
                                    assert((code as char) == uc);
                                    assert(uc == char_of(code));
                                }
                                result.push(uc);
                                i = i + 6;
                                proof {
                                    assert(spec_unescape(s@, i0) == spec_unescape_cons(
                                        uc,
                                        s@,
                                        i as int,
                                    ));
                                    match spec_unescape(s@, i as int) {
                                        Ok(t) => {
                                            assert(r0 + (seq![uc] + t) =~= result@ + t);
                                        },
                                        Err(_) => {},
                                    }
                                }
                            },
                            None => {
                                return Err(
                                    JsonError::SyntaxError(String::from_str("Invalid Unicode")),
                                );
                            },
                        }
                    },
                }
            } else {
                result.push('\\');
                result.push(e);
                i = i + 2;
                proof {
                    match spec_unescape(s@, i as int) {
                        Ok(t) => {
                            assert(r0 + (seq!['\\', e] + t) =~= result@ + t);
                        },
                        Err(_) => {},
                    }
                }
            }
        } else {
            result.push(c);
            i = i + 1;
            proof {
                assert(spec_unescape(s@, i0) == spec_unescape_cons(c, s@, i as int));
                match spec_unescape(s@, i as int) {
                    Ok(t) => {
                        assert(r0 + (seq![c] + t) =~= result@ + t);
                    },
                    Err(_) => {},
                }
            }
        }
    }
    proof {
        assert(result@ + Seq::<char>::empty() =~= result@);
    }
    Ok(result)
}



// ---------------------------------------------------------------------------
// Tokens.
// ---------------------------------------------------------------------------

/// One lexical token of a JSON text.
pub enum JTok {
    LBrace,
    RBrace,
    LBrack,
    RBrack,
    Colon,
    Comma,
    /// `true`, `false`, `null`, a number, or an (unescaped) string.
    Scalar(Value),
}

/// Ghost counterpart of a token.
pub enum JTokM {
    LBrace,
    RBrace,
    LBrack,
    RBrack,
    Colon,
    Comma,
    Scalar(ValM),
}

pub open spec fn jtok_model(t: JTok) -> JTokM {
    match t {
        JTok::LBrace => JTokM::LBrace,
        JTok::RBrace => JTokM::RBrace,
        JTok::LBrack => JTokM::LBrack,
        JTok::RBrack => JTokM::RBrack,
        JTok::Colon => JTokM::Colon,
        JTok::Comma => JTokM::Comma,
        JTok::Scalar(v) => JTokM::Scalar(val_model(v)),
    }
}

pub open spec fn is_ws(c: char) -> bool {
    c == ' ' || c == '\t' || c == '\n' || c == '\r'
}

/// First index at or after `i` holding a non-blank character, or the end.
pub open spec fn skip_ws(s: Seq<char>, i: int) -> int
    decreases s.len() - i,
{
    if i < 0 || i >= s.len() {
        if s.len() < i {
            i
        } else {
            s.len() as int
        }
    } else if is_ws(s[i]) {
        skip_ws(s, i + 1)
    } else {
        i
    }
}

pub proof fn lemma_skip_ws(s: Seq<char>, i: int)
    requires
        0 <= i <= s.len(),
    ensures
        i <= skip_ws(s, i) <= s.len(),
        skip_ws(s, i) < s.len() ==> !is_ws(s[skip_ws(s, i)]),
        forall|x: int| i <= x < skip_ws(s, i) ==> is_ws(#[trigger] s[x]),
    decreases s.len() - i,
{
    if i < s.len() && is_ws(s[i]) {
        lemma_skip_ws(s, i + 1);
    }
}

/// Index of the quote closing a string body that starts at `i`, skipping
/// backslash escapes; `None` when the string never closes.
pub open spec fn spec_str_end(s: Seq<char>, i: int) -> Option<int>
    decreases s.len() - i,
{
    if i < 0 || i >= s.len() {
        None
    } else if s[i] == '"' {
        Some(i)
    } else if s[i] == '\\' {
        if i + 1 >= s.len() {
            None
        } else {
            spec_str_end(s, i + 2)
        }
    } else {
        spec_str_end(s, i + 1)
    }
}

pub proof fn lemma_str_end(s: Seq<char>, i: int)
    requires
        0 <= i,
    ensures
        spec_str_end(s, i) matches Some(q) ==> i <= q < s.len() && s[q] == '"',
    decreases s.len() - i,
{
    if i < s.len() && s[i] != '"' {
        if s[i] == '\\' {
            if i + 1 < s.len() {
                lemma_str_end(s, i + 2);
            }
        } else {
            lemma_str_end(s, i + 1);
        }
    }
}

/// Whether every backslash escape of a raw string body fits the JSON
/// grammar: a known escape character, or `u` with four hex digits.
pub open spec fn spec_escapes_ok(raw: Seq<char>, i: int) -> bool
    decreases raw.len() - i,
{
    if i < 0 || i >= raw.len() {
        true
    } else if raw[i] == '\\' {
        if i + 1 >= raw.len() {
            false
        } else {
            let c = raw[i + 1];
            if c == '"' || c == '\\' || c == '/' || c == 'b' || c == 'f' || c == 'n' || c == 'r'
                || c == 't' {
                spec_escapes_ok(raw, i + 2)
            } else if c == 'u' {
                i + 6 <= raw.len() && hex_digit_val(raw[i + 2]) is Some && hex_digit_val(
                    raw[i + 3],
                ) is Some && hex_digit_val(raw[i + 4]) is Some && hex_digit_val(raw[i + 5]) is Some
                    && spec_escapes_ok(raw, i + 6)
            } else {
                false
            }
        }
    } else {
        spec_escapes_ok(raw, i + 1)
    }
}

/// First index at or after `i` that is the end or not a decimal digit.
pub open spec fn spec_digits_end(s: Seq<char>, i: int) -> int
    decreases s.len() - i,
{
    if i < 0 || i >= s.len() {
        if s.len() < i {
            i
        } else {
            s.len() as int
        }
    } else if is_digit(s[i]) {
        spec_digits_end(s, i + 1)
    } else {
        i
    }
}

pub proof fn lemma_digits_end(s: Seq<char>, i: int)
    requires
        0 <= i <= s.len(),
    ensures
        i <= spec_digits_end(s, i) <= s.len(),
        spec_digits_end(s, i) < s.len() ==> !is_digit(s[spec_digits_end(s, i)]),
        forall|x: int| i <= x < spec_digits_end(s, i) ==> is_digit(#[trigger] s[x]),
    decreases s.len() - i,
{
    if i < s.len() && is_digit(s[i]) {
        lemma_digits_end(s, i + 1);
    }
}

/// One scanned JSON number starting at `i`: its value and its end. An
/// integer must fit the signed 64-bit range; a fractional or exponent part
/// makes the number a float, kept as its text.
pub open spec fn spec_scan_number(s: Seq<char>, i: int) -> Result<(NumM, int), ()> {
    let neg = s[i] == '-';
    let i1 = if neg {
        i + 1
    } else {
        i
    };
    if i1 >= s.len() || !is_digit(s[i1]) {
        Err(())
    } else {
        let i2 = if s[i1] == '0' {
            i1 + 1
        } else {
            spec_digits_end(s, i1)
        };
        let frac_bad = i2 < s.len() && s[i2] == '.' && !(i2 + 1 < s.len() && is_digit(s[i2 + 1]));
        let has_frac = i2 < s.len() && s[i2] == '.' && i2 + 1 < s.len() && is_digit(s[i2 + 1]);
        let i3 = if has_frac {
            spec_digits_end(s, i2 + 1)
        } else {
            i2
        };
        if frac_bad {
            Err(())
        } else {
            let has_e = i3 < s.len() && (s[i3] == 'e' || s[i3] == 'E');
            let i4 = if has_e && i3 + 1 < s.len() && (s[i3 + 1] == '+' || s[i3 + 1] == '-') {
                i3 + 2
            } else {
                i3 + 1
            };
            let exp_bad = has_e && !(i4 < s.len() && is_digit(s[i4]));
            let i5 = if has_e {
                spec_digits_end(s, i4)
            } else {
                i3
            };
            if exp_bad {
                Err(())
            } else if has_frac || has_e {
                Ok((NumM::Float(s.subrange(i, i5)), i5))
            } else {
                let val = digits_val(s.subrange(i1, i2));
                if neg {
                    if val == 0 {
                        Ok((NumM::PosInt(0), i2))
                    } else if val <= 0x8000000000000000 {
                        Ok((NumM::NegInt((0 - val as int) as i64), i2))
                    } else {
                        Err(())
                    }
                } else {
                    if val <= i64::MAX {
                        Ok((NumM::PosInt(val as u64), i2))
                    } else {
                        Err(())
                    }
                }
            }
        }
    }
}

/// The next token of `s` at or after `i`, with the position after it;
/// `Ok(None)` at the end of input, `Err` on any lexical fault.
pub open spec fn spec_next_token(s: Seq<char>, i: int) -> Result<Option<(JTokM, int)>, ()> {
    let j = skip_ws(s, i);
    if j >= s.len() {
        Ok(None)
    } else {
        let c = s[j];
        if c == '{' {
            Ok(Some((JTokM::LBrace, j + 1)))
        } else if c == '}' {
            Ok(Some((JTokM::RBrace, j + 1)))
        } else if c == '[' {
            Ok(Some((JTokM::LBrack, j + 1)))
        } else if c == ']' {
            Ok(Some((JTokM::RBrack, j + 1)))
        } else if c == ':' {
            Ok(Some((JTokM::Colon, j + 1)))
        } else if c == ',' {
            Ok(Some((JTokM::Comma, j + 1)))
        } else if c == 't' {
            if j + 4 <= s.len() && s[j + 1] == 'r' && s[j + 2] == 'u' && s[j + 3] == 'e' {
                Ok(Some((JTokM::Scalar(ValM::Bool(true)), j + 4)))
            } else {
                Err(())
            }
        } else if c == 'f' {
            if j + 5 <= s.len() && s[j + 1] == 'a' && s[j + 2] == 'l' && s[j + 3] == 's' && s[j + 4]
                == 'e' {
                Ok(Some((JTokM::Scalar(ValM::Bool(false)), j + 5)))
            } else {
                Err(())
            }
        } else if c == 'n' {
            if j + 4 <= s.len() && s[j + 1] == 'u' && s[j + 2] == 'l' && s[j + 3] == 'l' {
                Ok(Some((JTokM::Scalar(ValM::Null), j + 4)))
            } else {
                Err(())
            }
        } else if c == '"' {
            match spec_str_end(s, j + 1) {
                None => Err(()),
                Some(q) => {
                    let raw = s.subrange(j + 1, q);
                    if !spec_escapes_ok(raw, 0) {
                        Err(())
                    } else {
                        match spec_unescape(raw, 0) {
                            Err(_) => Err(()),
                            Ok(t) => Ok(Some((JTokM::Scalar(ValM::Str(t)), q + 1))),
                        }
                    }
                },
            }
        } else if c == '-' || is_digit(c) {
            match spec_scan_number(s, j) {
                Err(_) => Err(()),
                Ok((n, e)) => Ok(Some((JTokM::Scalar(ValM::Num(n)), e))),
            }
        } else {
            Err(())
        }
    }
}

/// A produced token always stands strictly after the scan position.
pub proof fn lemma_next_token_advances(s: Seq<char>, i: int)
    requires
        0 <= i <= s.len(),
    ensures
        spec_next_token(s, i) matches Ok(Some(p)) ==> i < p.1 <= s.len(),
{
    lemma_skip_ws(s, i);
    let j = skip_ws(s, i);
    if j < s.len() {
        let c = s[j];
        if c == '"' {
            lemma_str_end(s, j + 1);
        } else if c == '-' || is_digit(c) {
            let neg = c == '-';
            let i1 = if neg {
                j + 1
            } else {
                j
            };
            if i1 < s.len() && is_digit(s[i1]) {
                lemma_digits_end(s, i1);
                let i2 = if s[i1] == '0' {
                    i1 + 1
                } else {
                    spec_digits_end(s, i1)
                };
                let has_frac = i2 < s.len() && s[i2] == '.' && i2 + 1 < s.len() && is_digit(
                    s[i2 + 1],
                );
                if has_frac {
                    lemma_digits_end(s, i2 + 1);
                }
                let i3 = if has_frac {
                    spec_digits_end(s, i2 + 1)
                } else {
                    i2
                };
                let has_e = i3 < s.len() && (s[i3] == 'e' || s[i3] == 'E');
                let i4 = if has_e && i3 + 1 < s.len() && (s[i3 + 1] == '+' || s[i3 + 1] == '-') {
                    i3 + 2
                } else {
                    i3 + 1
                };
                if has_e && i4 < s.len() && is_digit(s[i4]) {
                    lemma_digits_end(s, i4);
                }
            }
        }
    }
}


/// Parse a decimal run as `u64`; `None` when not all digits or too large.
#[verifier::loop_isolation(false)]
pub(crate) fn parse_digits_u64(s: &str, lo: usize, hi: usize) -> (r: Option<u64>)
    requires
        lo <= hi <= s@.len(),
        s@.len() <= usize::MAX,
    ensures
        ({
            let d = s@.subrange(lo as int, hi as int);
            match r {
                Some(n) => all_digits(d) && digits_val(d) == n as nat,
                None => !(all_digits(d) && digits_val(d) <= u64::MAX),
            }
        }),
{
    let ghost d = s@.subrange(lo as int, hi as int);
    if lo == hi {
        return None;
    }
    let mut acc: u64 = 0;
    let mut i: usize = lo;
    while i < hi
        invariant
            lo <= i <= hi,
            forall|x: int| 0 <= x < i - lo ==> is_digit(#[trigger] d[x]),
            acc as nat == digits_val(d.subrange(0, i - lo)),
        decreases hi - i,
    {
        let c = s.get_char(i);
        let cu = c as u32;
        proof {
            assert(d[i - lo] == s@[i as int]);
        }
        if cu < 48 || cu > 57 {
            return None;
        }
        let dv = (cu - 48) as u64;
        proof {
            assert(d.subrange(0, i - lo + 1).subrange(0, i - lo) =~= d.subrange(0, i - lo));
            assert(d.subrange(0, i - lo + 1)[i - lo] == d[i - lo]);
        }
        if acc > u64::MAX / 10 || (acc == u64::MAX / 10 && dv > u64::MAX % 10) {
            proof {
                assert(u64::MAX / 10 * 10 + u64::MAX % 10 == u64::MAX) by (nonlinear_arith);
                assert(acc as nat * 10 + dv as nat > u64::MAX) by (nonlinear_arith)
                    requires
                        acc > u64::MAX / 10 || (acc == u64::MAX / 10 && dv > u64::MAX % 10),
                        u64::MAX / 10 * 10 + u64::MAX % 10 == u64::MAX,
                ;
                assert(digits_val(d.subrange(0, i - lo + 1)) > u64::MAX);
                if all_digits(d) {
                    lemma_digits_val_mono_d(d, i - lo + 1, d.len() as int);
                    assert(d.subrange(0, d.len() as int) =~= d);
                }
            }
            return None;
        }
        proof {
            assert(acc as nat * 10 + dv as nat <= u64::MAX) by (nonlinear_arith)
                requires
                    acc <= u64::MAX / 10,
                    dv <= u64::MAX % 10 || acc < u64::MAX / 10,
                    dv <= 9,
                    u64::MAX / 10 * 10 + u64::MAX % 10 == u64::MAX,
            ;
        }
        acc = acc * 10 + dv;
        i = i + 1;
    }
    proof {
        assert(d.subrange(0, d.len() as int) =~= d);
    }
    Some(acc)
}

/// For an all-digit run, a longer prefix never denotes less.
proof fn lemma_digits_val_mono_d(s: Seq<char>, i: int, j: int)
    requires
        0 <= i <= j <= s.len(),
        forall|x: int| 0 <= x < s.len() ==> is_digit(#[trigger] s[x]),
    ensures
        digits_val(s.subrange(0, i)) <= digits_val(s.subrange(0, j)),
    decreases j - i,
{
    if i < j {
        lemma_digits_val_mono_d(s, i, j - 1);
        assert(s.subrange(0, j).subrange(0, j - 1) =~= s.subrange(0, j - 1));
        assert(digits_val(s.subrange(0, j)) == digits_val(s.subrange(0, j - 1)) * 10 + (s[j - 1]
            as int - '0' as int));
    }
}

/// Scan one token, mirroring `spec_next_token`.
#[verifier::loop_isolation(false)]
#[verifier::rlimit(50)]
fn next_token(s: &str, pos: usize) -> (r: Result<Option<(JTok, usize)>, JsonError>)
    requires
        pos <= s@.len(),
    ensures
        ({
            match (r, spec_next_token(s@, pos as int)) {
                (Ok(None), Ok(None)) => true,
                (Ok(Some(p)), Ok(Some(m))) => jtok_model(p.0) == m.0 && p.1 as int == m.1 && (
                p.0 matches JTok::Scalar(v) ==> value_wf(v)),
                (Err(e), Err(_)) => e is SyntaxError,
                _ => false,
            }
        }),
{
    let len = s.unicode_len();
    let mut j: usize = pos;
    loop
        invariant
            pos <= j <= len,
            len == s@.len(),
            skip_ws(s@, pos as int) == skip_ws(s@, j as int),
        decreases len - j,
    {
        if j >= len {
            break;
        }
        let c = s.get_char(j);
        if c == ' ' || c == '\t' || c == '\n' || c == '\r' {
            j = j + 1;
        } else {
            break;
        }
    }
    proof {
        assert(skip_ws(s@, pos as int) == j as int);
    }
    if j >= len {
        return Ok(None);
    }
    let c = s.get_char(j);
    if c == '{' {
        Ok(Some((JTok::LBrace, j + 1)))
    } else if c == '}' {
        Ok(Some((JTok::RBrace, j + 1)))
    } else if c == '[' {
        Ok(Some((JTok::LBrack, j + 1)))
    } else if c == ']' {
        Ok(Some((JTok::RBrack, j + 1)))
    } else if c == ':' {
        Ok(Some((JTok::Colon, j + 1)))
    } else if c == ',' {
        Ok(Some((JTok::Comma, j + 1)))
    } else if c == 't' {
        if len - j >= 4 && s.get_char(j + 1) == 'r' && s.get_char(j + 2) == 'u' && s.get_char(
            j + 3,
        ) == 'e' {
            Ok(Some((JTok::Scalar(Value::Bool(true)), j + 4)))
        } else {
            Err(JsonError::SyntaxError(String::from_str("invalid literal")))
        }
    } else if c == 'f' {
        if len - j >= 5 && s.get_char(j + 1) == 'a' && s.get_char(j + 2) == 'l' && s.get_char(
            j + 3,
        ) == 's' && s.get_char(j + 4) == 'e' {
            Ok(Some((JTok::Scalar(Value::Bool(false)), j + 5)))
        } else {
            Err(JsonError::SyntaxError(String::from_str("invalid literal")))
        }
    } else if c == 'n' {
        if len - j >= 4 && s.get_char(j + 1) == 'u' && s.get_char(j + 2) == 'l' && s.get_char(
            j + 3,
        ) == 'l' {
            Ok(Some((JTok::Scalar(Value::Null), j + 4)))
        } else {
            Err(JsonError::SyntaxError(String::from_str("invalid literal")))
        }
    } else if c == '"' {
        let mut q: usize = j + 1;
        loop
            invariant
                j + 1 <= q <= len,
                len == s@.len(),
                spec_str_end(s@, j as int + 1) == spec_str_end(s@, q as int),
            decreases len - q,
        {
            if q >= len {
                return Err(JsonError::SyntaxError(String::from_str("unterminated string")));
            }
            let sc = s.get_char(q);
            if sc == '"' {
                break;
            } else if sc == '\\' {
                if q + 1 >= len {
                    return Err(JsonError::SyntaxError(String::from_str("unterminated string")));
                }
                q = q + 2;
            } else {
                q = q + 1;
            }
        }
        proof {
            assert(spec_str_end(s@, j as int + 1) == Some(q as int));
        }
        let raw = s.substring_char(j + 1, q);
        proof {
            assert(raw@ =~= s@.subrange(j as int + 1, q as int));
        }
        let rawlen = q - j - 1;
        // vet the escapes against the JSON grammar
        let mut e: usize = 0;
        while e < rawlen
            invariant
                0 <= e <= rawlen,
                rawlen == raw@.len(),
                spec_escapes_ok(raw@, 0) == spec_escapes_ok(raw@, e as int),
            decreases rawlen - e,
        {
            let ec = raw.get_char(e);
            if ec == '\\' {
                if e + 1 >= rawlen {
                    proof {
                        assert(!spec_escapes_ok(raw@, e as int));
                    }
                    return Err(JsonError::SyntaxError(String::from_str("invalid escape")));
                }
                let en = raw.get_char(e + 1);
                if en == '"' || en == '\\' || en == '/' || en == 'b' || en == 'f' || en == 'n'
                    || en == 'r' || en == 't' {
                    e = e + 2;
                } else if en == 'u' {
                    if rawlen - e < 6 {
                        return Err(JsonError::SyntaxError(String::from_str("invalid escape")));
                    }
                    let h1 = hex_digit_val_exec(raw.get_char(e + 2));
                    let h2 = hex_digit_val_exec(raw.get_char(e + 3));
                    let h3 = hex_digit_val_exec(raw.get_char(e + 4));
                    let h4x = hex_digit_val_exec(raw.get_char(e + 5));
                    match (h1, h2, h3, h4x) {
                        (Some(_), Some(_), Some(_), Some(_)) => {
                            e = e + 6;
                        },
                        _ => {
                            return Err(
                                JsonError::SyntaxError(String::from_str("invalid escape")),
                            );
                        },
                    }
                } else {
                    return Err(JsonError::SyntaxError(String::from_str("invalid escape")));
                }
            } else {
                e = e + 1;
            }
        }
        match unescape_json_string(raw) {
            Err(ue) => Err(ue),
            Ok(text) => Ok(Some((JTok::Scalar(Value::Str(text)), q + 1))),
        }
    } else if c == '-' || {
        let cu = c as u32;
        cu >= 48 && cu <= 57
    } {
        match scan_number(s, j, len) {
            Err(ne) => Err(ne),
            Ok((n, e)) => Ok(Some((JTok::Scalar(Value::Number(n)), e))),
        }
    } else {
        Err(JsonError::SyntaxError(String::from_str("unexpected character")))
    }
}

/// Scan one number, mirroring `spec_scan_number`.
#[verifier::loop_isolation(false)]
#[verifier::rlimit(50)]
fn scan_number(s: &str, j: usize, len: usize) -> (r: Result<(Number, usize), JsonError>)
    requires
        len == s@.len(),
        s@.len() <= usize::MAX,
        j < len,
        s@[j as int] == '-' || is_digit(s@[j as int]),
    ensures
        ({
            match (r, spec_scan_number(s@, j as int)) {
                (Ok(p), Ok(m)) => num_model(p.0.0) == m.0 && p.1 as int == m.1 && num_wf(p.0.0),
                (Err(e), Err(_)) => e is SyntaxError,
                _ => false,
            }
        }),
{
    let neg = s.get_char(j) == '-';
    let i1: usize = if neg {
        j + 1
    } else {
        j
    };
    if i1 >= len || !is_digit_exec(s.get_char(i1)) {
        return Err(JsonError::SyntaxError(String::from_str("invalid number")));
    }
    let i2: usize = if s.get_char(i1) == '0' {
        i1 + 1
    } else {
        digits_end_exec(s, i1, len)
    };
    let has_frac = i2 < len && s.get_char(i2) == '.' && i2 + 1 < len && is_digit_exec(
        s.get_char(i2 + 1),
    );
    let frac_bad = i2 < len && s.get_char(i2) == '.' && !has_frac;
    if frac_bad {
        return Err(JsonError::SyntaxError(String::from_str("invalid number")));
    }
    let i3: usize = if has_frac {
        digits_end_exec(s, i2 + 1, len)
    } else {
        i2
    };
    let has_e = i3 < len && (s.get_char(i3) == 'e' || s.get_char(i3) == 'E');
    let i4: usize = if has_e {
        if i3 + 1 < len && (s.get_char(i3 + 1) == '+' || s.get_char(i3 + 1) == '-') {
            i3 + 2
        } else {
            i3 + 1
        }
    } else {
        i3
    };
    if has_e && !(i4 < len && is_digit_exec(s.get_char(i4))) {
        return Err(JsonError::SyntaxError(String::from_str("invalid number")));
    }
    let i5: usize = if has_e {
        digits_end_exec(s, i4, len)
    } else {
        i3
    };
    if has_frac || has_e {
        let text = s.substring_char(j, i5);
        proof {
            assert(text@ =~= s@.subrange(j as int, i5 as int));
        }
        return Ok((Number(N::Float(String::from_str(text))), i5));
    }
    proof {
        lemma_digits_end(s@, i1 as int);
        let d = s@.subrange(i1 as int, i2 as int);
        assert forall|x: int| 0 <= x < d.len() implies is_digit(#[trigger] d[x]) by {
            assert(d[x] == s@[i1 + x]);
        }
        assert(all_digits(d));
        assert(0x8000000000000000u64 as nat > i64::MAX as nat);
    }
    match parse_digits_u64(s, i1, i2) {
        None => Err(JsonError::SyntaxError(String::from_str("number out of range"))),
        Some(v) => {
            if neg {
                if v == 0 {
                    Ok((Number(N::PosInt(0)), i2))
                } else if v <= 0x8000000000000000 {
                    let iv: i64 = if v == 0x8000000000000000 {
                        i64::MIN
                    } else {
                        -(v as i64)
                    };
                    proof {
                        assert(iv as int == 0 - v as int);
                    }
                    Ok((Number(N::NegInt(iv)), i2))
                } else {
                    Err(JsonError::SyntaxError(String::from_str("number out of range")))
                }
            } else {
                if v <= i64::MAX as u64 {
                    Ok((Number(N::PosInt(v)), i2))
                } else {
                    Err(JsonError::SyntaxError(String::from_str("number out of range")))
                }
            }
        },
    }
}

fn is_digit_exec(c: char) -> (r: bool)
    ensures
        r == is_digit(c),
{
    let cu = c as u32;
    cu >= 48 && cu <= 57
}

/// First position at or after `i` that ends a digit run.
#[verifier::loop_isolation(false)]
fn digits_end_exec(s: &str, i: usize, len: usize) -> (r: usize)
    requires
        len == s@.len(),
        i <= len,
    ensures
        r as int == spec_digits_end(s@, i as int),
        i <= r <= len,
{
    let mut p: usize = i;
    while p < len && is_digit_exec(s.get_char(p))
        invariant
            i <= p <= len,
            spec_digits_end(s@, i as int) == spec_digits_end(s@, p as int),
        decreases len - p,
    {
        p = p + 1;
    }
    p
}


// ---------------------------------------------------------------------------
// The event machine: tokens are folded onto an explicit stack of frames.
// ---------------------------------------------------------------------------

/// What the machine expects next.
pub enum JMode {
    /// A value must come.
    Value,
    /// A value or the end of the enclosing array.
    ValueOrEnd,
    /// A field name or the end of the enclosing object.
    KeyOrEnd,
    /// A field name.
    Key,
    /// The colon after a field name.
    Colon,
    /// A comma or the end of the enclosing container.
    CommaOrEnd,
    /// The root value is complete; only the end of input may follow.
    End,
}

/// Ghost machine state: the frame stack (each frame a pending key and a
/// partially built container), the pending field name, the finished root.
pub struct JStateM {
    pub stack: Seq<(Option<Seq<char>>, ValM)>,
    pub key: Option<Seq<char>>,
    pub result: Option<ValM>,
    pub mode: JMode,
}

pub open spec fn opt_str_model(k: Option<String>) -> Option<Seq<char>> {
    match k {
        Some(x) => Some(x@),
        None => None,
    }
}

/// Place a completed scalar: into the top frame, or as the root.
pub open spec fn spec_place_scalar(st: JStateM, v: ValM) -> Result<JStateM, ()> {
    if st.stack.len() == 0 {
        Ok(JStateM { stack: st.stack, key: st.key, result: Some(v), mode: JMode::End })
    } else {
        let fk = st.stack.last().0;
        let cont = st.stack.last().1;
        if cont is Arr {
            Ok(
                JStateM {
                    stack: st.stack.update(
                        st.stack.len() - 1,
                        (fk, ValM::Arr(cont->Arr_0.push(v))),
                    ),
                    key: st.key,
                    result: st.result,
                    mode: JMode::CommaOrEnd,
                },
            )
        } else if cont is Obj {
            match st.key {
                Some(k) => Ok(
                    JStateM {
                        stack: st.stack.update(
                            st.stack.len() - 1,
                            (fk, ValM::Obj(cont->Obj_0.insert(k, v))),
                        ),
                        key: None,
                        result: st.result,
                        mode: JMode::CommaOrEnd,
                    },
                ),
                None => Err(()),
            }
        } else {
            Err(())
        }
    }
}

/// Close the top frame and hand the finished container to the frame below,
/// or make it the root. A frame with no saved key closing into an object is
/// dropped silently rather than inserted.
pub open spec fn spec_close(st: JStateM) -> JStateM
    recommends
        st.stack.len() > 0,
{
    let fk = st.stack.last().0;
    let cv = st.stack.last().1;
    let rest = st.stack.drop_last();
    if rest.len() == 0 {
        JStateM { stack: rest, key: st.key, result: Some(cv), mode: JMode::End }
    } else {
        let gk = rest.last().0;
        let parent = rest.last().1;
        if parent is Arr {
            JStateM {
                stack: rest.update(rest.len() - 1, (gk, ValM::Arr(parent->Arr_0.push(cv)))),
                key: st.key,
                result: st.result,
                mode: JMode::CommaOrEnd,
            }
        } else if parent is Obj && fk is Some {
            JStateM {
                stack: rest.update(
                    rest.len() - 1,
                    (gk, ValM::Obj(parent->Obj_0.insert(fk->Some_0, cv))),
                ),
                key: st.key,
                result: st.result,
                mode: JMode::CommaOrEnd,
            }
        } else {
            JStateM { stack: rest, key: st.key, result: st.result, mode: JMode::CommaOrEnd }
        }
    }
}

/// One machine step: how a token transforms the state, or a syntax fault.
pub open spec fn spec_jstep(st: JStateM, t: JTokM) -> Result<JStateM, ()> {
    match t {
        JTokM::LBrace => if st.mode is Value || st.mode is ValueOrEnd {
            Ok(
                JStateM {
                    stack: st.stack.push((st.key, ValM::Obj(Map::empty()))),
                    key: None,
                    result: st.result,
                    mode: JMode::KeyOrEnd,
                },
            )
        } else {
            Err(())
        },
        JTokM::LBrack => if st.mode is Value || st.mode is ValueOrEnd {
            Ok(
                JStateM {
                    stack: st.stack.push((st.key, ValM::Arr(Seq::empty()))),
                    key: None,
                    result: st.result,
                    mode: JMode::ValueOrEnd,
                },
            )
        } else {
            Err(())
        },
        JTokM::RBrace => if (st.mode is KeyOrEnd || st.mode is CommaOrEnd) && st.stack.len() > 0
            && st.stack.last().1 is Obj {
            Ok(spec_close(st))
        } else {
            Err(())
        },
        JTokM::RBrack => if (st.mode is ValueOrEnd || st.mode is CommaOrEnd) && st.stack.len() > 0
            && st.stack.last().1 is Arr {
            Ok(spec_close(st))
        } else {
            Err(())
        },
        JTokM::Colon => if st.mode is Colon {
            Ok(JStateM { stack: st.stack, key: st.key, result: st.result, mode: JMode::Value })
        } else {
            Err(())
        },
        JTokM::Comma => if st.mode is CommaOrEnd && st.stack.len() > 0 {
            if st.stack.last().1 is Obj {
                Ok(JStateM { stack: st.stack, key: st.key, result: st.result, mode: JMode::Key })
            } else if st.stack.last().1 is Arr {
                Ok(JStateM { stack: st.stack, key: st.key, result: st.result, mode: JMode::Value })
            } else {
                Err(())
            }
        } else {
            Err(())
        },
        JTokM::Scalar(v) => if st.mode is Value || st.mode is ValueOrEnd {
            spec_place_scalar(st, v)
        } else if (st.mode is KeyOrEnd || st.mode is Key) && v is Str {
            Ok(
                JStateM {
                    stack: st.stack,
                    key: Some(v->Str_0),
                    result: st.result,
                    mode: JMode::Colon,
                },
            )
        } else {
            Err(())
        },
    }
}

/// How a parse fails: malformed input, or input that ended too soon.
pub enum JErrKind {
    Syntax,
    Incomplete,
}

/// Run the machine from position `i` to the end of input.
pub open spec fn spec_json_run(s: Seq<char>, i: int, st: JStateM) -> Result<ValM, JErrKind>
    decreases s.len() - i,
    via spec_json_run_decreases
{
    match spec_next_token(s, i) {
        Err(_) => Err(JErrKind::Syntax),
        Ok(None) => match st.result {
            Some(v) => Ok(v),
            None => Err(JErrKind::Incomplete),
        },
        Ok(Some((t, i2))) => match spec_jstep(st, t) {
            Err(_) => Err(JErrKind::Syntax),
            Ok(st2) => spec_json_run(s, i2, st2),
        },
    }
}

#[via_fn]
proof fn spec_json_run_decreases(s: Seq<char>, i: int, st: JStateM) {
    if 0 <= i <= s.len() {
        lemma_next_token_advances(s, i);
    }
}

/// The meaning of `parse_json`: run the machine over the whole text from a
/// fresh state.
pub open spec fn spec_parse_json(s: Seq<char>) -> Result<ValM, JErrKind> {
    spec_json_run(
        s,
        0,
        JStateM { stack: Seq::empty(), key: None, result: None, mode: JMode::Value },
    )
}

// ---------------------------------------------------------------------------
// The executable machine.
// ---------------------------------------------------------------------------

struct JState {
    stack: Vec<(Option<String>, Value)>,
    key: Option<String>,
    result: Option<Value>,
    mode: JMode,
}

spec fn frames_model(fs: Seq<(Option<String>, Value)>) -> Seq<(Option<Seq<char>>, ValM)> {
    Seq::new(
        fs.len(),
        |i: int|
            if 0 <= i < fs.len() {
                (opt_str_model(fs[i].0), val_model(fs[i].1))
            } else {
                (None, ValM::Null)
            },
    )
}

spec fn jstate_model(st: JState) -> JStateM {
    JStateM {
        stack: frames_model(st.stack@),
        key: opt_str_model(st.key),
        result: match st.result {
            Some(v) => Some(val_model(v)),
            None => None,
        },
        mode: st.mode,
    }
}

spec fn jstate_wf(st: JState) -> bool {
    &&& forall|i: int|
        0 <= i < st.stack@.len() ==> value_wf((#[trigger] st.stack@[i]).1) && (st.stack@[i].1
            is Object || st.stack@[i].1 is Array)
    &&& match st.result {
        Some(v) => value_wf(v),
        None => true,
    }
}

/// Place a completed scalar into the state.
fn place_scalar(st: JState, v: Value) -> (r: Result<JState, JsonError>)
    requires
        jstate_wf(st),
        value_wf(v),
    ensures
        match (r, spec_place_scalar(jstate_model(st), val_model(v))) {
            (Ok(s2), Ok(m2)) => jstate_model(s2) == m2 && jstate_wf(s2),
            (Err(e), Err(_)) => e is SyntaxError,
            _ => false,
        },
{
    let JState { mut stack, key, result, mode } = st;
    if stack.len() == 0 {
        return Ok(JState { stack, key, result: Some(v), mode: JMode::End });
    }
    let ghost fs0 = stack@;
    let (fk, cont) = match stack.pop() {
        Some(p) => p,
        None => {
            return Err(JsonError::SyntaxError(String::from_str("empty stack")));
        },
    };
    match cont {
        Value::Array(mut items) => {
            let ghost items0 = items@;
            items.push(v);
            proof {
                assert(items_model(items@) =~= items_model(items0).push(val_model(v)));
                lemma_value_arr_wf(items);
            }
            stack.push((fk, Value::Array(items)));
            proof {
                assert(frames_model(stack@) =~= frames_model(fs0).update(
                    fs0.len() - 1,
                    (opt_str_model(fk), ValM::Arr(items_model(items0).push(val_model(v)))),
                ));
            }
            Ok(JState { stack, key, result, mode: JMode::CommaOrEnd })
        },
        Value::Object(mut entries) => {
            match key {
                Some(k) => {
                    proof {
                        lemma_value_obj_wf(entries);
                    }
                    let ghost entries0 = entries@;
                    map_set(&mut entries, k, v);
                    proof {
                        lemma_value_obj_wf(entries);
                    }
                    stack.push((fk, Value::Object(entries)));
                    proof {
                        assert(frames_model(stack@) =~= frames_model(fs0).update(
                            fs0.len() - 1,
                            (
                                opt_str_model(fk),
                                ValM::Obj(entries_model(entries0).insert(k@, val_model(v))),
                            ),
                        ));
                    }
                    Ok(JState { stack, key: None, result, mode: JMode::CommaOrEnd })
                },
                None => Err(JsonError::SyntaxError(String::from_str("Invalid JSON object key"))),
            }
        },
        _ => Err(JsonError::SyntaxError(String::from_str("Unexpected JSON value"))),
    }
}

/// Close the top frame, handing the finished container down the stack.
fn close_frame(st: JState) -> (r: JState)
    requires
        jstate_wf(st),
        st.stack@.len() > 0,
    ensures
        jstate_model(r) == spec_close(jstate_model(st)),
        jstate_wf(r),
{
    let JState { mut stack, key, result, mode } = st;
    let ghost fs0 = stack@;
    let (fk, cv) = match stack.pop() {
        Some(p) => p,
        None => {
            proof {
                assert(false);
            }
            (None, Value::Null)
        },
    };
    proof {
        assert(frames_model(stack@) =~= frames_model(fs0).drop_last());
    }
    if stack.len() == 0 {
        return JState { stack, key, result: Some(cv), mode: JMode::End };
    }
    let ghost rest0 = stack@;
    let (gk, parent) = match stack.pop() {
        Some(p) => p,
        None => {
            proof {
                assert(false);
            }
            (None, Value::Null)
        },
    };
    match parent {
        Value::Array(mut items) => {
            let ghost items0 = items@;
            items.push(cv);
            proof {
                assert(items_model(items@) =~= items_model(items0).push(val_model(cv)));
                lemma_value_arr_wf(items);
            }
            stack.push((gk, Value::Array(items)));
            proof {
                assert(frames_model(stack@) =~= frames_model(rest0).update(
                    rest0.len() - 1,
                    (opt_str_model(gk), ValM::Arr(items_model(items0).push(val_model(cv)))),
                ));
            }
            JState { stack, key, result, mode: JMode::CommaOrEnd }
        },
        Value::Object(mut entries) => {
            match fk {
                Some(k) => {
                    proof {
                        lemma_value_obj_wf(entries);
                    }
                    let ghost entries0 = entries@;
                    map_set(&mut entries, k, cv);
                    proof {
                        lemma_value_obj_wf(entries);
                    }
                    stack.push((gk, Value::Object(entries)));
                    proof {
                        assert(frames_model(stack@) =~= frames_model(rest0).update(
                            rest0.len() - 1,
                            (
                                opt_str_model(gk),
                                ValM::Obj(entries_model(entries0).insert(k@, val_model(cv))),
                            ),
                        ));
                    }
                    JState { stack, key, result, mode: JMode::CommaOrEnd }
                },
                None => {
                    stack.push((gk, Value::Object(entries)));
                    proof {
                        assert(frames_model(stack@) =~= frames_model(rest0));
                    }
                    JState { stack, key, result, mode: JMode::CommaOrEnd }
                },
            }
        },
        other => {
            stack.push((gk, other));
            proof {
                assert(frames_model(stack@) =~= frames_model(rest0));
            }
            JState { stack, key, result, mode: JMode::CommaOrEnd }
        },
    }
}

/// One machine step.
fn jstep_exec(st: JState, tok: JTok) -> (r: Result<JState, JsonError>)
    requires
        jstate_wf(st),
        tok matches JTok::Scalar(v) ==> value_wf(v),
    ensures
        match (r, spec_jstep(jstate_model(st), jtok_model(tok))) {
            (Ok(s2), Ok(m2)) => jstate_model(s2) == m2 && jstate_wf(s2),
            (Err(e), Err(_)) => e is SyntaxError,
            _ => false,
        },
{
    match tok {
        JTok::LBrace => match st.mode {
            JMode::Value | JMode::ValueOrEnd => {
                let JState { mut stack, key, result, mode } = st;
                let ghost fs0 = stack@;
                stack.push((key, Value::Object(Vec::new())));
                proof {
                    assert(entries_model(Seq::<(String, Value)>::empty()) =~= Map::<Seq<char>,
                        ValM>::empty());
                    assert(frames_model(stack@) =~= frames_model(fs0).push(
                        (opt_str_model(key), ValM::Obj(Map::empty())),
                    ));
                }
                Ok(JState { stack, key: None, result, mode: JMode::KeyOrEnd })
            },
            _ => Err(JsonError::SyntaxError(String::from_str("unexpected token"))),
        },
        JTok::LBrack => match st.mode {
            JMode::Value | JMode::ValueOrEnd => {
                let JState { mut stack, key, result, mode } = st;
                let ghost fs0 = stack@;
                stack.push((key, Value::Array(Vec::new())));
                proof {
                    assert(items_model(Seq::<Value>::empty()) =~= Seq::<ValM>::empty());
                    assert(frames_model(stack@) =~= frames_model(fs0).push(
                        (opt_str_model(key), ValM::Arr(Seq::empty())),
                    ));
                }
                Ok(JState { stack, key: None, result, mode: JMode::ValueOrEnd })
            },
            _ => Err(JsonError::SyntaxError(String::from_str("unexpected token"))),
        },
        JTok::RBrace => {
            let mode_ok = match st.mode {
                JMode::KeyOrEnd | JMode::CommaOrEnd => true,
                _ => false,
            };
            if mode_ok && st.stack.len() > 0 {
                let top_obj = match &st.stack[st.stack.len() - 1].1 {
                    Value::Object(_) => true,
                    _ => false,
                };
                if top_obj {
                    Ok(close_frame(st))
                } else {
                    Err(JsonError::SyntaxError(String::from_str("unexpected token")))
                }
            } else {
                Err(JsonError::SyntaxError(String::from_str("unexpected token")))
            }
        },
        JTok::RBrack => {
            let mode_ok = match st.mode {
                JMode::ValueOrEnd | JMode::CommaOrEnd => true,
                _ => false,
            };
            if mode_ok && st.stack.len() > 0 {
                let top_arr = match &st.stack[st.stack.len() - 1].1 {
                    Value::Array(_) => true,
                    _ => false,
                };
                if top_arr {
                    Ok(close_frame(st))
                } else {
                    Err(JsonError::SyntaxError(String::from_str("unexpected token")))
                }
            } else {
                Err(JsonError::SyntaxError(String::from_str("unexpected token")))
            }
        },
        JTok::Colon => match st.mode {
            JMode::Colon => {
                let JState { stack, key, result, mode } = st;
                Ok(JState { stack, key, result, mode: JMode::Value })
            },
            _ => Err(JsonError::SyntaxError(String::from_str("unexpected token"))),
        },
        JTok::Comma => {
            let mode_ok = match st.mode {
                JMode::CommaOrEnd => true,
                _ => false,
            };
            if mode_ok && st.stack.len() > 0 {
                let top_shape: u8 = match &st.stack[st.stack.len() - 1].1 {
                    Value::Object(_) => 0,
                    Value::Array(_) => 1,
                    _ => 2,
                };
                if top_shape == 0 {
                    let JState { stack, key, result, mode } = st;
                    Ok(JState { stack, key, result, mode: JMode::Key })
                } else if top_shape == 1 {
                    let JState { stack, key, result, mode } = st;
                    Ok(JState { stack, key, result, mode: JMode::Value })
                } else {
                    Err(JsonError::SyntaxError(String::from_str("unexpected token")))
                }
            } else {
                Err(JsonError::SyntaxError(String::from_str("unexpected token")))
            }
        },
        JTok::Scalar(v) => {
            let value_ok = match st.mode {
                JMode::Value | JMode::ValueOrEnd => true,
                _ => false,
            };
            let key_ok = match st.mode {
                JMode::KeyOrEnd | JMode::Key => true,
                _ => false,
            };
            if value_ok {
                place_scalar(st, v)
            } else if key_ok {
                match v {
                    Value::Str(text) => {
                        let JState { stack, key, result, mode } = st;
                        Ok(JState { stack, key: Some(text), result, mode: JMode::Colon })
                    },
                    _ => Err(JsonError::SyntaxError(String::from_str("unexpected token"))),
                }
            } else {
                Err(JsonError::SyntaxError(String::from_str("Unexpected JSON value")))
            }
        },
    }
}

/// Parse one JSON text into a `Value` tree: tokens are folded through the
/// machine; the parse succeeds exactly when `spec_parse_json` does, yielding
/// that tree.
#[verifier::loop_isolation(false)]
pub fn parse_json(text: &str) -> (r: Result<Value, JsonError>)
    ensures
        match (r, spec_parse_json(text@)) {
            (Ok(v), Ok(m)) => val_model(v) == m && value_wf(v),
            (Err(e), Err(JErrKind::Syntax)) => e is SyntaxError,
            (Err(e), Err(JErrKind::Incomplete)) => e is NoMoreInput,
            _ => false,
        },
{
    let len = text.unicode_len();
    let mut st = JState { stack: Vec::new(), key: None, result: None, mode: JMode::Value };
    let mut pos: usize = 0;
    proof {
        assert(frames_model(st.stack@) =~= Seq::<(Option<Seq<char>>, ValM)>::empty());
        assert(jstate_model(st) == JStateM {
            stack: Seq::<(Option<Seq<char>>, ValM)>::empty(),
            key: None,
            result: None,
            mode: JMode::Value,
        });
    }
    loop
        invariant
            pos <= len,
            len == text@.len(),
            jstate_wf(st),
            spec_json_run(text@, pos as int, jstate_model(st)) == spec_parse_json(text@),
        decreases len - pos,
    {
        let ghost st0 = jstate_model(st);
        match next_token(text, pos) {
            Err(e) => {
                return Err(e);
            },
            Ok(None) => {
                proof {
                    lemma_skip_ws(text@, pos as int);
                }
                match st.result {
                    Some(v) => {
                        return Ok(v);
                    },
                    None => {
                        return Err(JsonError::NoMoreInput);
                    },
                }
            },
            Ok(Some((tok, p2))) => {
                proof {
                    lemma_next_token_advances(text@, pos as int);
                }
                match jstep_exec(st, tok) {
                    Err(e) => {
                        return Err(e);
                    },
                    Ok(st2) => {
                        st = st2;
                        pos = p2;
                    },
                }
            },
        }
    }
}

} // verus!
