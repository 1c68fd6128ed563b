use vstd::prelude::*;

verus! {

/// Name/value pairs of parameter settings, seen as character sequences.
pub open spec fn fields_view(fields: Seq<(String, String)>) -> Seq<(Seq<char>, Seq<char>)> {
    fields.map_values(|p: (String, String)| (p.0@, p.1@))
}

// ---------------------------------------------------------------------------
// JSON, as serde_json reads and writes it
// ---------------------------------------------------------------------------

/// What `serde_json::from_slice` reads from a document as an object of JSON
/// values: the fields in key order, each value written back as compact JSON
/// text; or the text of the error.
pub uninterp spec fn json_object_fields(data: Seq<u8>) -> Result<
    Seq<(Seq<char>, Seq<char>)>,
    Seq<char>,
>;

/// Whether `serde_json::from_str` reads the text as one JSON value.
pub uninterp spec fn is_json_value(text: Seq<char>) -> bool;

/// What `serde_json::to_string_pretty` writes for the object whose fields
/// are the given names and JSON value texts; or the text of the error.
pub uninterp spec fn json_pretty_object(fields: Seq<(Seq<char>, Seq<char>)>) -> Result<
    Seq<char>,
    Seq<char>,
>;

/// Calls `serde_json::from_slice` into a map of JSON values and writes each
/// value back with its `Display` impl.  Claimed: the result is the one that
/// `json_object_fields` names for the bytes.
#[verifier::external_body]
fn parse_json_object(data: &[u8]) -> (res: Result<Vec<(String, String)>, String>)
    ensures
        match json_object_fields(data@) {
            Ok(f) => res matches Ok(v) && fields_view(v@) == f,
            Err(e) => res matches Err(m) && m@ == e,
        },
{
    match serde_json::from_slice::<std::collections::BTreeMap<String, serde_json::Value>>(data) {
        Ok(map) => Ok(map.into_iter().map(|(k, v)| (k, v.to_string())).collect()),
        Err(e) => Err(e.to_string()),
    }
}

/// Calls `serde_json::from_str` for one JSON value.  Claimed: the result is
/// `is_json_value` of the text.
#[verifier::external_body]
fn json_value_valid(text: &str) -> (b: bool)
    ensures
        b == is_json_value(text@),
{
    serde_json::from_str::<serde_json::Value>(text).is_ok()
}

/// Calls `serde_json::to_string_pretty` on the object made of the fields;
/// each value text is first read into a `serde_json::Value`, the form that the
/// printer takes.  Claimed: the result is the one that `json_pretty_object`
/// names for the fields.
#[verifier::external_body]
fn pretty_json_object(fields: &Vec<(String, String)>) -> (res: Result<String, String>)
    ensures
        match json_pretty_object(fields_view(fields@)) {
            Ok(t) => res matches Ok(s) && s@ == t,
            Err(e) => res matches Err(m) && m@ == e,
        },
{
    fields
        .iter()
        .map(|(k, v)| serde_json::from_str(v).map(|value| (k.clone(), value)))
        .collect::<Result<std::collections::BTreeMap<String, serde_json::Value>, _>>()
        .and_then(|map| serde_json::to_string_pretty(&map))
        .map_err(|e| e.to_string())
}

// ---------------------------------------------------------------------------
// Importing and exporting parameter settings
// ---------------------------------------------------------------------------

/// The field that holds the editor window's state, which is not exported.
pub open spec fn editor_state_key() -> Seq<char> {
    seq!['e', 'd', 'i', 't', 'o', 'r', '-', 's', 't', 'a', 't', 'e']
}

/// A field is exported when it is not the editor state and its value is JSON.
pub open spec fn export_step() -> spec_fn((String, String)) -> Option<(Seq<char>, Seq<char>)> {
    |p: (String, String)|
        if p.0@ != editor_state_key() && is_json_value(p.1@) {
            Some((p.0@, p.1@))
        } else {
            None
        }
}

pub open spec fn invalid_json_message(e: Seq<char>) -> Seq<char> {
    seq!['I', 'n', 'v', 'a', 'l', 'i', 'd', ' ', 'j', 's', 'o', 'n', ':', ' '] + e
}

pub open spec fn format_failed_message(e: Seq<char>) -> Seq<char> {
    seq![
        'F', 'a', 'i', 'l', 'e', 'd', ' ', 't', 'o', ' ', 'f', 'o', 'r', 'm', 'a', 't', ' ', 'j',
        's', 'o', 'n', ':', ' ',
    ] + e
}

/// Reads the parameter settings out of an imported JSON document: the fields
/// of its top-level object in key order, each value as JSON text; or the
/// message shown when the document is not such an object.
pub fn import_fields(data: &[u8]) -> (res: Result<Vec<(String, String)>, String>)
    ensures
        match json_object_fields(data@) {
            Ok(f) => res matches Ok(v) && fields_view(v@) == f,
            Err(e) => res matches Err(m) && m@ == invalid_json_message(e),
        },
{
    match parse_json_object(data) {
        Ok(fields) => Ok(fields),
        Err(e) => {
            let mut message = String::new();
            message.push_str("Invalid json: ");
            message.push_str(e.as_str());
            proof {
                reveal_strlit("Invalid json: ");
                assert(message@ =~= invalid_json_message(e@));
            }
            Err(message)
        },
    }
}

/// The fields that an export writes, in the order given: all but the editor
/// state and those whose value is not JSON.
pub fn export_fields(fields: &Vec<(String, String)>) -> (res: Vec<(String, String)>)
    ensures
        fields_view(res@) == fields@.filter_map(export_step()),
{
    broadcast use vstd::string::group_string_axioms;

    let key = "editor-state".to_string();
    proof {
        reveal_strlit("editor-state");
        assert(key@ =~= editor_state_key());
    }
    let ghost f = export_step();
    let mut out: Vec<(String, String)> = Vec::new();
    let mut i: usize = 0;
    while i < fields.len()
        invariant
            i <= fields.len(),
            key@ == editor_state_key(),
            f == export_step(),
            fields_view(out@) == fields@.take(i as int).filter_map(f),
        decreases fields.len() - i,
    {
        let ghost before = out@;
        if !(fields[i].0 == key) && json_value_valid(fields[i].1.as_str()) {
            let field = (fields[i].0.clone(), fields[i].1.clone());
            out.push(field);
            assert(fields_view(out@) =~= fields_view(before) + seq![(field.0@, field.1@)]);
        }
        proof {
            fields@.lemma_filter_map_take_succ(f, i as int);
        }
        i = i + 1;
    }
    assert(fields@.take(fields.len() as int) =~= fields@);
    out
}

/// The JSON document that an export writes for the parameter settings: the
/// exported fields as a pretty-printed object; or the message shown when it
/// cannot be written.
pub fn export_json(fields: &Vec<(String, String)>) -> (res: Result<String, String>)
    ensures
        match json_pretty_object(fields@.filter_map(export_step())) {
            Ok(t) => res matches Ok(s) && s@ == t,
            Err(e) => res matches Err(m) && m@ == format_failed_message(e),
        },
{
    let kept = export_fields(fields);
    match pretty_json_object(&kept) {
        Ok(text) => Ok(text),
        Err(e) => {
            let mut message = String::new();
            message.push_str("Failed to format json: ");
            message.push_str(e.as_str());
            proof {
                reveal_strlit("Failed to format json: ");
                assert(message@ =~= format_failed_message(e@));
            }
            Err(message)
        },
    }
}

}
