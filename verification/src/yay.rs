//! The registry adapter: normalizes the JSON metadata of one package into
//! the canonical details map, and the CLI-backed search path built on the
//! line-pair adapter.
//!
//! The JSON response is modelled by the library's own value shape, holding
//! exactly what the normalization reads: a string's text, an array's
//! element texts, null-ness, and for any other kind its rendered text.
//! Whatever performs the remote call converts into this shape.

use vstd::prelude::*;
use crate::managers::{
    Package, DetailsMap, DetailsMapV, all_wf, sorted_desc, parse_alternating_lines,
    spec_line_records,
};
use crate::text::{
    chars_of, string_from_chars, eq_chars, spec_trim, trim_chars, spec_lines, split_str_lines,
};

verus! {

/// One JSON element of an array field, reduced to its text: a string keeps
/// its characters; any other kind carries its rendered form.
pub enum JsonElem {
    Text(String),
    Rendered(String),
}

/// One JSON field value, reduced to what normalization reads.
pub enum JsonVal {
    Null,
    Text(String),
    List(Vec<JsonElem>),
    Other(String),
}

/// One `results` member: the fields of a JSON object, or the mark that the
/// member is not an object.
pub enum RegistryValue {
    Object(Vec<(String, JsonVal)>),
    NonObject,
}

/// The `results` field of the registry response: a JSON array (elements in
/// order) or any other single value.
pub enum RegistryResults {
    List(Vec<RegistryValue>),
    Single(RegistryValue),
}

pub open spec fn spec_elem_text(e: JsonElem) -> Seq<char> {
    match e {
        JsonElem::Text(s) => s@,
        JsonElem::Rendered(s) => s@,
    }
}

/// Array elements joined with `", "`, in order.
pub open spec fn spec_join_comma(items: Seq<Seq<char>>) -> Seq<char>
    decreases items.len(),
{
    if items.len() == 0 {
        Seq::empty()
    } else if items.len() == 1 {
        items[0]
    } else {
        spec_join_comma(items.drop_last()) + ", "@ + items.last()
    }
}

/// Value normalization: a string verbatim; an array comma-space-joined; null
/// becomes the literal text `None`; anything else its rendered text.
pub open spec fn spec_normalize(v: JsonVal) -> Seq<char> {
    match v {
        JsonVal::Null => "None"@,
        JsonVal::Text(s) => s@,
        JsonVal::List(items) => spec_join_comma(
            items@.map_values(|e: JsonElem| spec_elem_text(e)),
        ),
        JsonVal::Other(s) => s@,
    }
}

/// Turns one JSON field value into its canonical text form.
#[verifier::loop_isolation(false)]
pub fn normalize_aur_value(v: &JsonVal) -> (r: String)
    ensures
        r@ == spec_normalize(*v),
{
    match v {
        JsonVal::Null => {
            let mut s = String::new();
            s.append("None");
            s
        },
        JsonVal::Text(s) => s.clone(),
        JsonVal::Other(s) => s.clone(),
        JsonVal::List(items) => {
            let ghost idv = items@.map_values(|e: JsonElem| spec_elem_text(e));
            let n = items.len();
            let mut out = String::new();
            let mut i: usize = 0;
            proof {
                assert(out@ =~= spec_join_comma(idv.take(0)));
            }
            while i < n
                invariant
                    i <= n == items@.len(),
                    idv == items@.map_values(|e: JsonElem| spec_elem_text(e)),
                    out@ == spec_join_comma(idv.take(i as int)),
                decreases n - i,
            {
                if i > 0 {
                    out.append(", ");
                }
                match &items[i] {
                    JsonElem::Text(s) => out.append(s.as_str()),
                    JsonElem::Rendered(s) => out.append(s.as_str()),
                }
                proof {
                    assert(idv[i as int] == spec_elem_text(items@[i as int]));
                    if i == 0 {
                        assert(idv.take(1).len() == 1);
                        assert(idv.take(1)[0] == idv[0]);
                        assert(out@ =~= idv[0]);
                    } else {
                        assert(idv.take(i + 1 as int).drop_last() =~= idv.take(i as int));
                        assert(idv.take(i + 1 as int).last() == idv[i as int]);
                        assert(out@ =~= spec_join_comma(idv.take(i as int)) + ", "@
                            + idv[i as int]);
                    }
                }
                i += 1;
            }
            proof {
                assert(idv.take(n as int) =~= idv);
            }
            out
        },
    }
}

/// The value of a field of a JSON object: the first occurrence (object keys
/// are unique).
pub open spec fn spec_obj_get(fields: Seq<(String, JsonVal)>, key: Seq<char>) -> Option<JsonVal>
    decreases fields.len(),
{
    if fields.len() == 0 {
        None
    } else if fields[0].0@ == key {
        Some(fields[0].1)
    } else {
        spec_obj_get(fields.drop_first(), key)
    }
}

#[verifier::loop_isolation(false)]
fn obj_get<'a>(fields: &'a Vec<(String, JsonVal)>, key: &str) -> (r: Option<&'a JsonVal>)
    ensures
        match r {
            Some(v) => spec_obj_get(fields@, key@) == Some(*v),
            None => spec_obj_get(fields@, key@) is None,
        },
{
    let kc = chars_of(key);
    let n = fields.len();
    let mut i: usize = 0;
    proof {
        assert(fields@.skip(0) =~= fields@);
    }
    while i < n
        invariant
            i <= n == fields@.len(),
            kc@ == key@,
            spec_obj_get(fields@, key@) == spec_obj_get(fields@.skip(i as int), key@),
        decreases n - i,
    {
        proof {
            assert(fields@.skip(i as int)[0] == fields@[i as int]);
            assert(fields@.skip(i as int).drop_first() =~= fields@.skip(i + 1 as int));
        }
        let fk = chars_of(fields[i].0.as_str());
        if eq_chars(fk.as_slice(), kc.as_slice()) {
            return Some(&fields[i].1);
        }
        i += 1;
    }
    proof {
        assert(fields@.skip(n as int) =~= Seq::<(String, JsonVal)>::empty());
    }
    None
}

/// One step of the mapping table: when the source field is present, its
/// normalized value is recorded under the canonical name.
pub open spec fn spec_emit(
    acc: DetailsMapV,
    fields: Seq<(String, JsonVal)>,
    src: Seq<char>,
    dst: Seq<char>,
) -> DetailsMapV {
    match spec_obj_get(fields, src) {
        Some(v) => acc.push((dst, spec_normalize(v))),
        None => acc,
    }
}

fn emit(out: &mut DetailsMap, fields: &Vec<(String, JsonVal)>, src: &str, dst: &str)
    ensures
        final(out).deep_view() == spec_emit(old(out).deep_view(), fields@, src@, dst@),
{
    match obj_get(fields, src) {
        Some(v) => {
            let ds = string_from_chars(chars_of(dst).as_slice());
            let nv = normalize_aur_value(v);
            let ghost nd = nv@;
            out.push((ds, nv));
            proof {
                assert(out.deep_view() =~= old(out).deep_view().push((dst@, nd)));
            }
        },
        None => {},
    }
}

/// The registry's ~18 source fields mapped to canonical names, in a fixed
/// order, each emitted only when present in the response.
pub open spec fn spec_aur_map(fields: Seq<(String, JsonVal)>) -> DetailsMapV {
    let m0 = spec_emit(Seq::empty(), fields, "Name"@, "Name"@);
    let m1 = spec_emit(m0, fields, "Version"@, "Version"@);
    let m2 = spec_emit(m1, fields, "Description"@, "Description"@);
    let m3 = spec_emit(m2, fields, "URL"@, "URL"@);
    let m4 = spec_emit(m3, fields, "License"@, "Licenses"@);
    let m5 = spec_emit(m4, fields, "Depends"@, "Depends On"@);
    let m6 = spec_emit(m5, fields, "OptDepends"@, "Optional Deps"@);
    let m7 = spec_emit(m6, fields, "MakeDepends"@, "Make Deps"@);
    let m8 = spec_emit(m7, fields, "Conflicts"@, "Conflicts With"@);
    let m9 = spec_emit(m8, fields, "Provides"@, "Provides"@);
    let m10 = spec_emit(m9, fields, "Replaces"@, "Replaces"@);
    let m11 = spec_emit(m10, fields, "Keywords"@, "Keywords"@);
    let m12 = spec_emit(m11, fields, "Submitter"@, "Submitter"@);
    let m13 = spec_emit(m12, fields, "Maintainer"@, "Maintainer"@);
    let m14 = spec_emit(m13, fields, "Popularity"@, "Popularity"@);
    let m15 = spec_emit(m14, fields, "NumVotes"@, "Votes"@);
    let m16 = spec_emit(m15, fields, "FirstSubmitted"@, "First Submitted"@);
    spec_emit(m16, fields, "LastModified"@, "Last Modified"@)
}

/// The details map the registry response resolves to: the first element of a
/// `results` array, or a direct `results` object; `None` for an empty array
/// or a non-object.
pub open spec fn spec_aur_details(resp: RegistryResults) -> Option<DetailsMapV> {
    match resp {
        RegistryResults::List(vals) => if vals@.len() == 0 {
            None
        } else {
            match vals@[0] {
                RegistryValue::Object(fields) => Some(spec_aur_map(fields@)),
                RegistryValue::NonObject => None,
            }
        },
        RegistryResults::Single(v) => match v {
            RegistryValue::Object(fields) => Some(spec_aur_map(fields@)),
            RegistryValue::NonObject => None,
        },
    }
}

fn aur_map(fields: &Vec<(String, JsonVal)>) -> (r: DetailsMap)
    ensures
        r.deep_view() == spec_aur_map(fields@),
{
    let mut out: DetailsMap = Vec::new();
    proof {
        assert(out.deep_view() =~= Seq::<(Seq<char>, Seq<char>)>::empty());
    }
    emit(&mut out, fields, "Name", "Name");
    emit(&mut out, fields, "Version", "Version");
    emit(&mut out, fields, "Description", "Description");
    emit(&mut out, fields, "URL", "URL");
    emit(&mut out, fields, "License", "Licenses");
    emit(&mut out, fields, "Depends", "Depends On");
    emit(&mut out, fields, "OptDepends", "Optional Deps");
    emit(&mut out, fields, "MakeDepends", "Make Deps");
    emit(&mut out, fields, "Conflicts", "Conflicts With");
    emit(&mut out, fields, "Provides", "Provides");
    emit(&mut out, fields, "Replaces", "Replaces");
    emit(&mut out, fields, "Keywords", "Keywords");
    emit(&mut out, fields, "Submitter", "Submitter");
    emit(&mut out, fields, "Maintainer", "Maintainer");
    emit(&mut out, fields, "Popularity", "Popularity");
    emit(&mut out, fields, "NumVotes", "Votes");
    emit(&mut out, fields, "FirstSubmitted", "First Submitted");
    emit(&mut out, fields, "LastModified", "Last Modified");
    out
}

/// Builds the canonical details map from a registry response: accepts the
/// result object whether it stands alone or first in a `results` array.
pub fn aur_details(resp: &RegistryResults) -> (r: Option<DetailsMap>)
    ensures
        match r {
            Some(m) => spec_aur_details(*resp) == Some(m.deep_view()),
            None => spec_aur_details(*resp) is None,
        },
{
    match resp {
        RegistryResults::List(vals) => {
            if vals.len() == 0 {
                None
            } else {
                match &vals[0] {
                    RegistryValue::Object(fields) => Some(aur_map(fields)),
                    RegistryValue::NonObject => None,
                }
            }
        },
        RegistryResults::Single(v) => match v {
            RegistryValue::Object(fields) => Some(aur_map(fields)),
            RegistryValue::NonObject => None,
        },
    }
}

/// The CLI-backed search path: an all-whitespace search word yields nothing,
/// as does a failed command (`output` is then `None`); otherwise the
/// command's captured text runs through the line-pair adapter under the
/// `aur` provider tag, scored against `query`.
pub fn search_aur(search_word: &str, output: Option<&str>, query: &str) -> (r: Vec<Package>)
    ensures
        spec_trim(search_word@).len() == 0 ==> r@.len() == 0,
        output is None ==> r@.len() == 0,
        spec_trim(search_word@).len() > 0 ==> (output matches Some(text) ==> {
            &&& sorted_desc(r.deep_view())
            &&& all_wf(r.deep_view())
            &&& r.deep_view().to_multiset() == spec_line_records(
                spec_lines(text@),
                "aur"@,
                query@,
            ).to_multiset()
        }),
{
    let swc = chars_of(search_word);
    let trimmed = trim_chars(swc.as_slice());
    if trimmed.len() == 0 {
        return Vec::new();
    }
    match output {
        None => Vec::new(),
        Some(text) => {
            let lines = split_str_lines(text);
            let mut tag = String::new();
            tag.append("aur");
            proof {
                assert(tag@ =~= "aur"@);
            }
            parse_alternating_lines(lines.as_slice(), tag, query)
        },
    }
}

} // verus!
