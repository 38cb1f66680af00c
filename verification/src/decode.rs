//! The flexible value decoder: best-effort coercion of loosely typed
//! values into concrete destination shapes, following one fixed table.
//!
//! A loose string coerces into booleans (`"true"`/`"1"`/`"on"`/`"yes"` and
//! their negatives, ASCII-case-insensitively), into integers by the decimal
//! grammar, and into a `char` when it is exactly one character. Every other
//! pairing of source shape and destination shape either matches directly or
//! is refused with a `DecodeError`.

use crate::error::Error;
use crate::json::parse_digits_u64;
use crate::query_parser::{all_digits, digits_val};
use crate::value::{
    shape_name_model, val_model, value_wf, ValM, Value, N, UploadFile,
};
use vstd::prelude::*;

verus! {

/// The code of a character with ASCII uppercase folded to lowercase.
pub open spec fn lower_code(c: char) -> u32 {
    if 65 <= c as u32 <= 90 {
        (c as u32 + 32) as u32
    } else {
        c as u32
    }
}

/// ASCII-case-insensitive equality of two texts.
pub open spec fn ci_eq(a: Seq<char>, b: Seq<char>) -> bool {
    a.len() == b.len() && forall|i: int| 0 <= i < a.len() ==> lower_code(#[trigger] a[i])
        == lower_code(b[i])
}

/// The boolean coercion table for loose strings.
pub open spec fn spec_coerce_bool(s: Seq<char>) -> Option<bool> {
    if ci_eq(s, "true"@) || ci_eq(s, "1"@) || ci_eq(s, "on"@) || ci_eq(s, "yes"@) {
        Some(true)
    } else if ci_eq(s, "false"@) || ci_eq(s, "0"@) || ci_eq(s, "off"@) || ci_eq(s, "no"@) {
        Some(false)
    } else {
        None
    }
}

/// The unsigned decimal grammar: an optional plus sign, then digits.
pub open spec fn spec_parse_u64(s: Seq<char>) -> Option<u64> {
    let body = if s.len() > 0 && s[0] == '+' {
        s.skip(1)
    } else {
        s
    };
    if all_digits(body) && digits_val(body) <= u64::MAX {
        Some(digits_val(body) as u64)
    } else {
        None
    }
}

/// The signed decimal grammar: an optional sign, then digits, in range.
pub open spec fn spec_parse_i64(s: Seq<char>) -> Option<i64> {
    let neg = s.len() > 0 && s[0] == '-';
    let body = if s.len() > 0 && (s[0] == '+' || s[0] == '-') {
        s.skip(1)
    } else {
        s
    };
    if !all_digits(body) {
        None
    } else if neg {
        if digits_val(body) <= 0x8000000000000000 {
            Some((0 - digits_val(body) as int) as i64)
        } else {
            None
        }
    } else {
        if digits_val(body) <= i64::MAX {
            Some(digits_val(body) as i64)
        } else {
            None
        }
    }
}

/// What decoding into a boolean yields for each source value.
pub open spec fn spec_decode_bool(m: ValM) -> Option<bool> {
    match m {
        ValM::Bool(b) => Some(b),
        ValM::XStr(s) => spec_coerce_bool(s),
        _ => None,
    }
}

/// What decoding into an unsigned integer yields, before any width check.
pub open spec fn spec_decode_u64(m: ValM) -> Option<u64> {
    match m {
        ValM::Num(NumM) => match NumM {
            crate::value::NumM::PosInt(p) => Some(p),
            _ => None,
        },
        ValM::XStr(s) => spec_parse_u64(s),
        _ => None,
    }
}

/// What decoding into a signed integer yields, before any width check.
pub open spec fn spec_decode_i64(m: ValM) -> Option<i64> {
    match m {
        ValM::Num(nm) => match nm {
            crate::value::NumM::PosInt(p) => if p <= i64::MAX {
                Some(p as i64)
            } else {
                None
            },
            crate::value::NumM::NegInt(n) => Some(n),
            crate::value::NumM::Float(_) => None,
        },
        ValM::XStr(s) => spec_parse_i64(s),
        _ => None,
    }
}

fn decode_err(target: &str, v: &Value) -> (r: Error)
    ensures
        r is DecodeError,
{
    Error::DecodeError(
        String::from_str("cannot decode ").concat(v.shape_name()).concat(" as ").concat(target),
    )
}

/// Decode a value into a boolean, coercing loose strings by the fixed
/// table; anything else is refused.
pub fn decode_bool(v: &Value) -> (r: Result<bool, Error>)
    ensures
        match (r, spec_decode_bool(val_model(*v))) {
            (Ok(b), Some(m)) => b == m,
            (Err(e), None) => e is DecodeError,
            _ => false,
        },
{
    match v {
        Value::Bool(b) => Ok(*b),
        Value::XStr(s) => match coerce_bool(s.as_str()) {
            Some(b) => Ok(b),
            None => Err(Error::DecodeError(String::from_str("invalid boolean value"))),
        },
        _ => Err(decode_err("bool", v)),
    }
}

/// The loose-string boolean table.
pub fn coerce_bool(s: &str) -> (r: Option<bool>)
    ensures
        r == spec_coerce_bool(s@),
{
    if eq_ascii_ci(s, "true") || eq_ascii_ci(s, "1") || eq_ascii_ci(s, "on") || eq_ascii_ci(
        s,
        "yes",
    ) {
        Some(true)
    } else if eq_ascii_ci(s, "false") || eq_ascii_ci(s, "0") || eq_ascii_ci(s, "off")
        || eq_ascii_ci(s, "no") {
        Some(false)
    } else {
        None
    }
}

/// ASCII-case-insensitive comparison.
#[verifier::loop_isolation(false)]
fn eq_ascii_ci(a: &str, b: &str) -> (r: bool)
    ensures
        r == ci_eq(a@, b@),
{
    let alen = a.unicode_len();
    let blen = b.unicode_len();
    if alen != blen {
        return false;
    }
    let mut i: usize = 0;
    while i < alen
        invariant
            i <= alen,
            forall|j: int| 0 <= j < i ==> lower_code(#[trigger] a@[j]) == lower_code(b@[j]),
        decreases alen - i,
    {
        let ca = a.get_char(i) as u32;
        let cb = b.get_char(i) as u32;
        let la = if ca >= 65 && ca <= 90 {
            ca + 32
        } else {
            ca
        };
        let lb = if cb >= 65 && cb <= 90 {
            cb + 32
        } else {
            cb
        };
        if la != lb {
            return false;
        }
        i = i + 1;
    }
    true
}

/// Parse an unsigned decimal text, as the unsigned destinations do.
#[verifier::loop_isolation(false)]
pub fn parse_u64_str(s: &str) -> (r: Option<u64>)
    ensures
        r == spec_parse_u64(s@),
{
    let len = s.unicode_len();
    let lo: usize = if len > 0 && s.get_char(0) == '+' {
        1
    } else {
        0
    };
    proof {
        if lo == 1 {
            assert(s@.subrange(1, len as int) =~= s@.skip(1));
        } else {
            assert(s@.subrange(0, len as int) =~= s@);
        }
    }
    parse_digits_u64(s, lo, len)
}

/// Parse a signed decimal text, as the signed destinations do.
#[verifier::loop_isolation(false)]
pub fn parse_i64_str(s: &str) -> (r: Option<i64>)
    ensures
        r == spec_parse_i64(s@),
{
    let len = s.unicode_len();
    let neg = len > 0 && s.get_char(0) == '-';
    let lo: usize = if len > 0 && (s.get_char(0) == '+' || s.get_char(0) == '-') {
        1
    } else {
        0
    };
    proof {
        if lo == 1 {
            assert(s@.subrange(1, len as int) =~= s@.skip(1));
        } else {
            assert(s@.subrange(0, len as int) =~= s@);
        }
    }
    match parse_digits_u64(s, lo, len) {
        None => None,
        Some(v) => {
            if neg {
                if v == 0 {
                    Some(0)
                } else if v <= 0x8000000000000000 {
                    let iv: i64 = if v == 0x8000000000000000 {
                        i64::MIN
                    } else {
                        -(v as i64)
                    };
                    proof {
                        assert(iv as int == 0 - v as int);
                    }
                    Some(iv)
                } else {
                    None
                }
            } else {
                if v <= i64::MAX as u64 {
                    Some(v as i64)
                } else {
                    None
                }
            }
        },
    }
}

/// Decode a value into a `u64`.
pub fn decode_u64(v: &Value) -> (r: Result<u64, Error>)
    ensures
        match (r, spec_decode_u64(val_model(*v))) {
            (Ok(n), Some(m)) => n == m,
            (Err(e), None) => e is DecodeError,
            _ => false,
        },
{
    match v {
        Value::Number(n) => match &n.0 {
            N::PosInt(p) => Ok(*p),
            _ => Err(decode_err("u64", v)),
        },
        Value::XStr(s) => match parse_u64_str(s.as_str()) {
            Some(n) => Ok(n),
            None => Err(decode_err("u64", v)),
        },
        _ => Err(decode_err("u64", v)),
    }
}

/// Decode a value into an `i64`.
pub fn decode_i64(v: &Value) -> (r: Result<i64, Error>)
    ensures
        match (r, spec_decode_i64(val_model(*v))) {
            (Ok(n), Some(m)) => n == m,
            (Err(e), None) => e is DecodeError,
            _ => false,
        },
{
    match v {
        Value::Number(n) => match &n.0 {
            N::PosInt(p) => {
                if *p <= i64::MAX as u64 {
                    Ok(*p as i64)
                } else {
                    Err(decode_err("i64", v))
                }
            },
            N::NegInt(n) => Ok(*n),
            N::Float(_) => Err(decode_err("i64", v)),
        },
        Value::XStr(s) => match parse_i64_str(s.as_str()) {
            Some(n) => Ok(n),
            None => Err(decode_err("i64", v)),
        },
        _ => Err(decode_err("i64", v)),
    }
}

/// Decode a value into a `u32`: the `u64` rule, then the width check.
pub fn decode_u32(v: &Value) -> (r: Result<u32, Error>)
    ensures
        match (r, spec_decode_u64(val_model(*v))) {
            (Ok(n), Some(m)) => n == m && m <= u32::MAX,
            (Err(e), Some(m)) => e is DecodeError && m > u32::MAX,
            (Err(e), None) => e is DecodeError,
            _ => false,
        },
{
    match decode_u64(v) {
        Ok(n) => if n <= u32::MAX as u64 {
            Ok(n as u32)
        } else {
            Err(decode_err("u32", v))
        },
        Err(e) => Err(e),
    }
}

/// Decode a value into a `u16`.
pub fn decode_u16(v: &Value) -> (r: Result<u16, Error>)
    ensures
        match (r, spec_decode_u64(val_model(*v))) {
            (Ok(n), Some(m)) => n == m && m <= u16::MAX,
            (Err(e), Some(m)) => e is DecodeError && m > u16::MAX,
            (Err(e), None) => e is DecodeError,
            _ => false,
        },
{
    match decode_u64(v) {
        Ok(n) => if n <= u16::MAX as u64 {
            Ok(n as u16)
        } else {
            Err(decode_err("u16", v))
        },
        Err(e) => Err(e),
    }
}

/// Decode a value into a `u8`.
pub fn decode_u8(v: &Value) -> (r: Result<u8, Error>)
    ensures
        match (r, spec_decode_u64(val_model(*v))) {
            (Ok(n), Some(m)) => n == m && m <= u8::MAX,
            (Err(e), Some(m)) => e is DecodeError && m > u8::MAX,
            (Err(e), None) => e is DecodeError,
            _ => false,
        },
{
    match decode_u64(v) {
        Ok(n) => if n <= u8::MAX as u64 {
            Ok(n as u8)
        } else {
            Err(decode_err("u8", v))
        },
        Err(e) => Err(e),
    }
}

/// Decode a value into an `i32`: the `i64` rule, then the width check.
pub fn decode_i32(v: &Value) -> (r: Result<i32, Error>)
    ensures
        match (r, spec_decode_i64(val_model(*v))) {
            (Ok(n), Some(m)) => n == m && i32::MIN <= m <= i32::MAX,
            (Err(e), Some(m)) => e is DecodeError && !(i32::MIN <= m <= i32::MAX),
            (Err(e), None) => e is DecodeError,
            _ => false,
        },
{
    match decode_i64(v) {
        Ok(n) => if i32::MIN as i64 <= n && n <= i32::MAX as i64 {
            Ok(n as i32)
        } else {
            Err(decode_err("i32", v))
        },
        Err(e) => Err(e),
    }
}

/// Decode a value into an `i16`.
pub fn decode_i16(v: &Value) -> (r: Result<i16, Error>)
    ensures
        match (r, spec_decode_i64(val_model(*v))) {
            (Ok(n), Some(m)) => n == m && i16::MIN <= m <= i16::MAX,
            (Err(e), Some(m)) => e is DecodeError && !(i16::MIN <= m <= i16::MAX),
            (Err(e), None) => e is DecodeError,
            _ => false,
        },
{
    match decode_i64(v) {
        Ok(n) => if i16::MIN as i64 <= n && n <= i16::MAX as i64 {
            Ok(n as i16)
        } else {
            Err(decode_err("i16", v))
        },
        Err(e) => Err(e),
    }
}

/// Decode a value into an `i8`.
pub fn decode_i8(v: &Value) -> (r: Result<i8, Error>)
    ensures
        match (r, spec_decode_i64(val_model(*v))) {
            (Ok(n), Some(m)) => n == m && i8::MIN <= m <= i8::MAX,
            (Err(e), Some(m)) => e is DecodeError && !(i8::MIN <= m <= i8::MAX),
            (Err(e), None) => e is DecodeError,
            _ => false,
        },
{
    match decode_i64(v) {
        Ok(n) => if i8::MIN as i64 <= n && n <= i8::MAX as i64 {
            Ok(n as i8)
        } else {
            Err(decode_err("i8", v))
        },
        Err(e) => Err(e),
    }
}

/// Decode a value into a single character: a loose string of exactly one
/// character; anything else is refused.
pub fn decode_char(v: &Value) -> (r: Result<char, Error>)
    ensures
        match r {
            Ok(c) => val_model(*v) matches ValM::XStr(s) && s.len() == 1 && s[0] == c,
            Err(e) => e is DecodeError && !(val_model(*v) matches ValM::XStr(s) && s.len() == 1),
        },
{
    match v {
        Value::XStr(s) => {
            if s.as_str().unicode_len() == 1 {
                Ok(s.as_str().get_char(0))
            } else {
                Err(Error::DecodeError(String::from_str("invalid char value")))
            }
        },
        _ => Err(decode_err("char", v)),
    }
}

/// Decode a value into text: a plain or loose string hands its text over;
/// anything else is refused.
pub fn decode_string(v: &Value) -> (r: Result<String, Error>)
    ensures
        match r {
            Ok(s) => (val_model(*v) matches ValM::Str(t) && t == s@) || (val_model(*v)
                matches ValM::XStr(t) && t == s@),
            Err(e) => e is DecodeError && !(val_model(*v) is Str || val_model(*v) is XStr),
        },
{
    match v {
        Value::Str(s) => Ok(s.clone()),
        Value::XStr(s) => Ok(s.clone()),
        _ => Err(decode_err("string", v)),
    }
}

/// An option-shaped destination: `Null` reads as absent, anything else as
/// present, wrapping the same value.
pub fn decode_option<'a>(v: &'a Value) -> (r: Option<&'a Value>)
    ensures
        match r {
            None => val_model(*v) is Null,
            Some(w) => !(val_model(*v) is Null) && w == v,
        },
{
    match v {
        Value::Null => None,
        _ => Some(v),
    }
}

/// A unit-shaped destination accepts exactly `Null`.
pub fn decode_null(v: &Value) -> (r: Result<(), Error>)
    ensures
        r is Ok <==> val_model(*v) is Null,
        r matches Err(e) ==> e is DecodeError,
{
    match v {
        Value::Null => Ok(()),
        _ => Err(decode_err("null", v)),
    }
}

/// A sequence-shaped destination accepts exactly an array, handing its
/// items over.
pub fn decode_array<'a>(v: &'a Value) -> (r: Result<&'a Vec<Value>, Error>)
    ensures
        match r {
            Ok(items) => *v == Value::Array(*items),
            Err(e) => e is DecodeError && !(val_model(*v) is Arr),
        },
{
    match v {
        Value::Array(items) => Ok(items),
        _ => Err(decode_err("array", v)),
    }
}

/// A map- or struct-shaped destination accepts exactly an object, handing
/// its entries over.
pub fn decode_object<'a>(v: &'a Value) -> (r: Result<&'a Vec<(String, Value)>, Error>)
    ensures
        match r {
            Ok(entries) => *v == Value::Object(*entries),
            Err(e) => e is DecodeError && !(val_model(*v) is Obj),
        },
{
    match v {
        Value::Object(entries) => Ok(entries),
        _ => Err(decode_err("object", v)),
    }
}

/// A file-shaped destination accepts exactly an upload, handing the triple
/// over.
pub fn decode_upload_file<'a>(v: &'a Value) -> (r: Result<&'a UploadFile, Error>)
    ensures
        match r {
            Ok(f) => *v == Value::UploadFile(*f),
            Err(e) => e is DecodeError && !(val_model(*v) is File),
        },
{
    match v {
        Value::UploadFile(f) => Ok(f),
        _ => Err(decode_err("file", v)),
    }
}

/// The object an upload presents to a keyed destination: exactly the three
/// string fields `name`, `content_type` and `temp_file_path`.
pub fn upload_file_object(f: &UploadFile) -> (r: Value)
    ensures
        val_model(r) == ValM::Obj(
            Map::<Seq<char>, ValM>::empty().insert("name"@, ValM::Str(f.name@)).insert(
                "content_type"@,
                ValM::Str(f.content_type@),
            ).insert("temp_file_path"@, ValM::Str(f.temp_file_path@)),
        ),
        value_wf(r),
{
    let mut entries: Vec<(String, Value)> = Vec::new();
    entries.push((String::from_str("name"), Value::Str(f.name.clone())));
    entries.push((String::from_str("content_type"), Value::Str(f.content_type.clone())));
    entries.push((String::from_str("temp_file_path"), Value::Str(f.temp_file_path.clone())));
    proof {
        reveal_strlit("name");
        reveal_strlit("content_type");
        reveal_strlit("temp_file_path");
        assert(entries@.len() == 3);
        assert(entries@[0].0@ == "name"@ && entries@[1].0@ == "content_type"@ && entries@[2].0@
            == "temp_file_path"@);
        assert("name"@.len() == 4 && "content_type"@.len() == 12 && "temp_file_path"@.len()
            == 14);
        assert forall|i: int, j: int|
            0 <= i < j < entries@.len() implies entries@[i].0@ != entries@[j].0@ by {
            assert(entries@[i].0@.len() != entries@[j].0@.len());
        }
        assert(crate::value::entries_unique(entries@));
        assert(crate::value::entries_model(entries@.subrange(0, 0)) =~= Map::<Seq<char>,
            ValM>::empty());
        assert(entries@.subrange(0, 1).subrange(0, 0) =~= entries@.subrange(0, 0));
        assert(entries@.subrange(0, 2).subrange(0, 1) =~= entries@.subrange(0, 1));
        assert(entries@.subrange(0, 3).subrange(0, 2) =~= entries@.subrange(0, 2));
        assert(entries@.subrange(0, 3) =~= entries@);
        assert(entries@.subrange(0, 1)[0] == entries@[0]);
        assert(entries@.subrange(0, 2)[1] == entries@[1]);
        assert(val_model(entries@[0].1) == ValM::Str(f.name@));
        assert(val_model(entries@[1].1) == ValM::Str(f.content_type@));
        assert(val_model(entries@[2].1) == ValM::Str(f.temp_file_path@));
        assert(crate::value::entries_model(entries@.subrange(0, 1)) =~= Map::<Seq<char>,
            ValM>::empty().insert("name"@, ValM::Str(f.name@)));
        assert(crate::value::entries_model(entries@.subrange(0, 2)) =~= Map::<Seq<char>,
            ValM>::empty().insert("name"@, ValM::Str(f.name@)).insert(
            "content_type"@,
            ValM::Str(f.content_type@),
        ));
        assert(crate::value::entries_model(entries@) =~= Map::<Seq<char>, ValM>::empty().insert(
            "name"@,
            ValM::Str(f.name@),
        ).insert("content_type"@, ValM::Str(f.content_type@)).insert(
            "temp_file_path"@,
            ValM::Str(f.temp_file_path@),
        ));
        assert(value_wf(Value::Object(entries))) by {
            crate::value::lemma_value_obj_wf(entries);
        }
    }
    Value::Object(entries)
}

} // verus!
