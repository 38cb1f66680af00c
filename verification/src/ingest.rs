//! The decisions of request ingestion: which body handling a content type
//! selects, which handling a multipart field selects, and how a parsed JSON
//! body or field is folded into the running parameter tree. The collaborator
//! doing the reading calls these with plain values.

use crate::error::Error;
use crate::json::{parse_json, spec_parse_json};
use crate::query_parser::{spec_normalize, QueryParser};
use crate::strutil::str_eq;
use crate::value::{entries_model, entries_wf, val_model, value_wf, ValM, Value, UploadFile};
use vstd::prelude::*;

verus! {

/// How a request body is handled, by its content type.
pub enum BodyKind {
    Json,
    FormUrlencoded,
    Multipart,
    Other,
}

pub open spec fn spec_starts_with(s: Seq<char>, p: Seq<char>) -> bool {
    s.len() >= p.len() && s.subrange(0, p.len() as int) == p
}

fn starts_with_str(s: &str, p: &str) -> (r: bool)
    ensures
        r == spec_starts_with(s@, p@),
{
    let slen = s.unicode_len();
    let plen = p.unicode_len();
    if slen < plen {
        return false;
    }
    let head = s.substring_char(0, plen);
    proof {
        assert(head@ =~= s@.subrange(0, p@.len() as int));
    }
    str_eq(head, p)
}

/// The three-way content-type switch of the request reader.
pub fn body_kind(content_type: &str) -> (r: BodyKind)
    ensures
        spec_starts_with(content_type@, "application/json"@) ==> (r is Json),
        !spec_starts_with(content_type@, "application/json"@) && spec_starts_with(
            content_type@,
            "application/x-www-form-urlencoded"@,
        ) ==> (r is FormUrlencoded),
        !spec_starts_with(content_type@, "application/json"@) && !spec_starts_with(
            content_type@,
            "application/x-www-form-urlencoded"@,
        ) && spec_starts_with(content_type@, "multipart/form-data"@) ==> (r is Multipart),
        !spec_starts_with(content_type@, "application/json"@) && !spec_starts_with(
            content_type@,
            "application/x-www-form-urlencoded"@,
        ) && !spec_starts_with(content_type@, "multipart/form-data"@) ==> (r is Other),
{
    if starts_with_str(content_type, "application/json") {
        BodyKind::Json
    } else if starts_with_str(content_type, "application/x-www-form-urlencoded") {
        BodyKind::FormUrlencoded
    } else if starts_with_str(content_type, "multipart/form-data") {
        BodyKind::Multipart
    } else {
        BodyKind::Other
    }
}

/// How one multipart field is handled.
pub enum FieldKind {
    /// The field's own content type is JSON: parse it and fold it in.
    Json,
    /// A file name is present: the field is an upload.
    File,
    /// A plain text field.
    Text,
}

/// A field whose content type is exactly `application/json` is a JSON
/// field, whatever else it carries; otherwise a file name makes it an
/// upload, and anything else is text.
pub fn field_kind(content_type: &str, has_file_name: bool) -> (r: FieldKind)
    ensures
        content_type@ == "application/json"@ ==> (r is Json),
        content_type@ != "application/json"@ && has_file_name ==> (r is File),
        content_type@ != "application/json"@ && !has_file_name ==> (r is Text),
{
    if str_eq(content_type, "application/json") {
        FieldKind::Json
    } else if has_file_name {
        FieldKind::File
    } else {
        FieldKind::Text
    }
}

/// The upload value stored for a file field: the file name, the field's
/// content type (defaulting to the octet-stream type), and the
/// collaborator's locator, kept verbatim.
pub fn make_upload_value(file_name: &str, content_type: Option<&str>, locator: &str) -> (r: Value)
    ensures
        val_model(r) == (ValM::File {
            name: file_name@,
            content_type: match content_type {
                Some(ct) => ct@,
                None => "application/octet-stream"@,
            },
            path: locator@,
        }),
        value_wf(r),
{
    let ct: String = match content_type {
        Some(ct) => String::from_str(ct),
        None => String::from_str("application/octet-stream"),
    };
    Value::UploadFile(
        UploadFile {
            name: String::from_str(file_name),
            content_type: ct,
            temp_file_path: String::from_str(locator),
        },
    )
}

/// Parse a JSON body and merge the resulting object into the running tree:
/// the body must parse, and must be object-shaped.
pub fn merge_json_body(params: Vec<(String, Value)>, text: &str) -> (r: Result<
    Vec<(String, Value)>,
    Error,
>)
    requires
        entries_wf(params@),
    ensures
        match spec_parse_json(text@) {
            Ok(m) => match r {
                Ok(out) => m is Obj && entries_wf(out@) && entries_model(out@) == entries_model(
                    params@,
                ).union_prefer_right(m->Obj_0),
                Err(e) => !(m is Obj) && e is MergeError,
            },
            Err(_) => r matches Err(e) && e is DecodeError,
        },
{
    match parse_json(text) {
        Err(e) => Err(Error::from_json_error(e)),
        Ok(v) => v.merge_into(params),
    }
}

/// Fold a JSON multipart field into the tree: a field without a name merges
/// the object wholesale; a named field threads the parsed value in under
/// its (possibly bracketed) name.
pub fn fold_json_field(
    parser: &QueryParser,
    params: Vec<(String, Value)>,
    name: &str,
    text: &str,
) -> (r: Result<Vec<(String, Value)>, Error>)
    requires
        entries_wf(params@),
    ensures
        match r {
            Ok(out) => entries_wf(out@),
            Err(_) => true,
        },
        match spec_parse_json(text@) {
            Ok(m) => if name@.len() == 0 {
                match r {
                    Ok(out) => m is Obj && entries_model(out@) == entries_model(
                        params@,
                    ).union_prefer_right(m->Obj_0),
                    Err(e) => !(m is Obj) && e is MergeError,
                }
            } else {
                let (pm, rr) = spec_normalize(entries_model(params@), name@, m, 0, parser.limit());
                match r {
                    Ok(out) => rr is Ok && entries_model(out@) == pm,
                    Err(e) => rr is Err && e is DecodeError,
                }
            },
            Err(_) => r matches Err(e) && e is DecodeError,
        },
{
    match parse_json(text) {
        Err(e) => Err(Error::from_json_error(e)),
        Ok(v) => {
            if name.unicode_len() == 0 {
                v.merge_into(params)
            } else {
                let mut params = params;
                match parser.parse_nested_value(&mut params, Some(name), v) {
                    Ok(_) => Ok(params),
                    Err(qe) => Err(
                        Error::DecodeError(
                            String::from_str("Failed to parse JSON field: ").concat(
                                qe.message().as_str(),
                            ),
                        ),
                    ),
                }
            }
        },
    }
}

} // verus!
