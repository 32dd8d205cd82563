use vstd::prelude::*;

use crate::error::AppError;
use crate::json::{
    distinct_keys, lemma_entries_wf_build, lemma_items_wf_build, obj_find, JsonModel, JsonValue,
};
use crate::materialize::{entry_views, materialize, spec_materialize};

verus! {

#[verifier::external_type_specification]
#[verifier::external_body]
pub struct ExValue(serde_json::Value);

#[verifier::external_type_specification]
#[verifier::external_body]
pub struct ExNumber(serde_json::Number);

/// A JSON literal one level deep: the head of a `serde_json::Value`, with the
/// children still opaque.
pub enum RawNode {
    Null,
    Bool(bool),
    Num(serde_json::Number),
    Str(String),
    Arr(Vec<serde_json::Value>),
    Obj(Vec<(String, serde_json::Value)>),
}

/// Whether `serde_json::from_str` accepts this text as JSON. Parsing is a
/// function of the text alone, so the set of accepted texts has a name; what
/// value a text parses to stays unstated.
pub uninterp spec fn sj_parse_ok(raw: Seq<char>) -> bool;

/// Relies on serde_json::from_str: parses JSON text into a
/// `serde_json::Value`, failing exactly on the texts outside `sj_parse_ok`.
/// Nothing is assumed of the parsed value; the callers handle every value
/// alike.
#[verifier::external_body]
fn sj_parse(raw: &str) -> (r: Option<serde_json::Value>)
    ensures
        r is Some <==> sj_parse_ok(raw@),
{
    serde_json::from_str::<serde_json::Value>(raw).ok()
}

/// Relies on the variants of serde_json::Value: hands each of them over
/// unchanged, one arm per variant; an object's entries come out in the order
/// its map iterates.
#[verifier::external_body]
fn sj_destructure(v: serde_json::Value) -> (r: RawNode) {
    match v {
        serde_json::Value::Null => RawNode::Null,
        serde_json::Value::Bool(b) => RawNode::Bool(b),
        serde_json::Value::Number(n) => RawNode::Num(n),
        serde_json::Value::String(s) => RawNode::Str(s),
        serde_json::Value::Array(items) => RawNode::Arr(items),
        serde_json::Value::Object(m) => RawNode::Obj(m.into_iter().collect()),
    }
}

/// Relies on serde_json::Number::as_i64: the number as an `i64` when it is an
/// integer in range, `None` otherwise.
#[verifier::external_body]
fn sj_num_i64(n: &serde_json::Number) -> (r: Option<i64>) {
    n.as_i64()
}

/// Relies on the serde_json::Number display form: the number as the decimal
/// text it was parsed from, normalized.
#[verifier::external_body]
fn sj_num_text(n: &serde_json::Number) -> (r: String) {
    format!("{}", n)
}

/// Turns a parsed literal into the library's own tree, keeping integers as
/// `i64` and any other number as its decimal text. The conversion is total:
/// `fuel` bounds the walked depth, and past it a subtree reads as `Null` --
/// the parser rejects nesting beyond its own recursion limit of 128, far
/// below the bound the callers pass, so that arm is never reached.
fn convert(v: serde_json::Value, fuel: u64) -> (r: JsonValue)
    ensures
        r.wf(),
    decreases fuel,
{
    if fuel == 0 {
        return JsonValue::Null;
    }
    match sj_destructure(v) {
        RawNode::Null => JsonValue::Null,
        RawNode::Bool(b) => JsonValue::Bool(b),
        RawNode::Num(n) => match sj_num_i64(&n) {
            Some(i) => JsonValue::Int(i),
            None => JsonValue::Num(sj_num_text(&n)),
        },
        RawNode::Str(s) => JsonValue::Str(s),
        RawNode::Arr(items) => {
            let mut rest = items;
            let mut out: Vec<JsonValue> = Vec::new();
            while rest.len() > 0
                invariant
                    fuel >= 1,
                    forall|i: int| 0 <= i < out@.len() ==> #[trigger] out@[i].wf(),
                decreases rest@.len(),
            {
                let item = rest.remove(0);
                let cv = convert(item, fuel - 1);
                out.push(cv);
            }
            proof {
                lemma_items_wf_build(out@);
            }
            JsonValue::Arr(out)
        },
        RawNode::Obj(entries) => {
            let mut rest = entries;
            let mut out: Vec<(String, JsonValue)> = Vec::new();
            while rest.len() > 0
                invariant
                    fuel >= 1,
                    distinct_keys(out@),
                    forall|i: int| 0 <= i < out@.len() ==> #[trigger] out@[i].1.wf(),
                decreases rest@.len(),
            {
                let entry = rest.remove(0);
                let cv = convert(entry.1, fuel - 1);
                let ghost before = out@;
                match obj_find(&out, &entry.0) {
                    Some(j) => {
                        out.remove(j);
                        proof {
                            assert forall|a: int|
                                0 <= a < out@.len() implies #[trigger] out@[a].0@ != entry.0@ by {
                                if a < j as int {
                                    assert(out@[a] == before[a]);
                                } else {
                                    assert(out@[a] == before[a + 1]);
                                }
                            };
                        }
                    },
                    None => {},
                }
                let ghost mid = out@;
                out.push((entry.0, cv));
                proof {
                    assert forall|a: int, b: int|
                        0 <= a < b < out@.len() implies out@[a].0@ != out@[b].0@ by {
                        if b < out@.len() - 1 {
                            assert(out@[a] == mid[a] && out@[b] == mid[b]);
                        } else {
                            assert(out@[a] == mid[a]);
                        }
                    };
                    assert(distinct_keys(out@));
                }
            }
            proof {
                lemma_entries_wf_build(out@);
            }
            JsonValue::Obj(out)
        },
    }
}

/// Decodes one raw value marked "parse as literal": full JSON, handed to the
/// parser and brought over into the library's tree. Succeeds exactly when
/// the text parses.
pub fn decode_literal(raw: &str) -> (r: Option<JsonValue>)
    ensures
        r is Some <==> sj_parse_ok(raw@),
        r is Some ==> r->0.wf(),
{
    match sj_parse(raw) {
        Some(v) => Some(convert(v, 200)),
        None => None,
    }
}

/// A key ends in the literal marker: its value is parsed as JSON rather than
/// taken as a bare string.
pub open spec fn has_marker(k: Seq<char>) -> bool {
    k.len() > 0 && k[k.len() - 1] == '.'
}

/// How one query entry decodes: a marked key loses its trailing marker and
/// its value becomes some parsed literal; an unmarked key stays as it is and
/// its value becomes a JSON string.
pub open spec fn entry_decoded(p: (String, String), e: (String, JsonValue)) -> bool {
    if has_marker(p.0@) {
        e.0@ == p.0@.subrange(0, p.0@.len() - 1)
    } else {
        e.0@ == p.0@ && e.1 == JsonValue::Str(p.1)
    }
}

pub open spec fn entries_decoded(
    params: Seq<(String, String)>,
    es: Seq<(String, JsonValue)>,
) -> bool {
    es.len() == params.len() && forall|i: int|
        0 <= i < es.len() ==> #[trigger] entry_decoded(params[i], es[i])
}

/// The entry's value parses as JSON whenever its key carries the literal
/// marker; an unmarked entry always decodes.
pub open spec fn entry_decodable(p: (String, String)) -> bool {
    has_marker(p.0@) ==> sj_parse_ok(p.1@)
}

/// Every marked value in the query parses as JSON.
pub open spec fn all_decodable(params: Seq<(String, String)>) -> bool {
    forall|i: int| 0 <= i < params.len() ==> #[trigger] entry_decodable(params[i])
}

/// Decodes every query entry in order: strips the literal marker and parses
/// the value where the marker is present, wraps the value as a string where
/// it is not. The first malformed literal aborts the whole decode: a literal
/// that does not parse is a materialization failure.
pub fn decode_entries(params: Vec<(String, String)>) -> (r: Result<
    Vec<(String, JsonValue)>,
    AppError,
>)
    ensures
        r is Ok <==> all_decodable(params@),
        r is Ok ==> entries_decoded(params@, r->Ok_0@),
        r is Ok ==> forall|i: int| 0 <= i < r->Ok_0@.len() ==> #[trigger] r->Ok_0@[i].1.wf(),
        r is Err ==> r->Err_0 is InvalidQuery,
{
    let ghost all = params@;
    let n = params.len();
    let mut rest = params;
    let mut out: Vec<(String, JsonValue)> = Vec::new();
    let mut idx: usize = 0;
    proof {
        assert(rest@ =~= all.subrange(0, n as int));
    }
    while idx < n
        invariant
            all == params@,
            n == all.len(),
            idx <= n,
            rest@ == all.subrange(idx as int, n as int),
            out@.len() == idx,
            forall|i: int| 0 <= i < idx ==> #[trigger] entry_decoded(all[i], out@[i]),
            forall|i: int| 0 <= i < idx ==> #[trigger] entry_decodable(all[i]),
            forall|i: int| 0 <= i < out@.len() ==> #[trigger] out@[i].1.wf(),
        decreases n - idx,
    {
        let e = rest.remove(0);
        proof {
            assert(e == all[idx as int]);
            assert(rest@ =~= all.subrange(idx + 1, n as int));
        }
        let (key, raw) = e;
        let klen = key.as_str().unicode_len();
        let marked = klen > 0 && key.as_str().get_char(klen - 1) == '.';
        if marked {
            let stripped = key.as_str().substring_char(0, klen - 1).to_owned();
            match decode_literal(raw.as_str()) {
                Some(v) => {
                    let ghost before = out@;
                    out.push((stripped, v));
                    proof {
                        assert(has_marker(all[idx as int].0@));
                        assert(entry_decoded(all[idx as int], out@[idx as int]));
                        assert(entry_decodable(all[idx as int]));
                        assert(forall|i: int|
                            0 <= i < idx ==> out@[i] == #[trigger] before[i]);
                    }
                },
                None => {
                    proof {
                        assert(has_marker(all[idx as int].0@));
                        assert(!entry_decodable(all[idx as int]));
                        assert(!all_decodable(params@));
                    }
                    return Err(
                        AppError::InvalidQuery(
                            String::from_str("Could not parse value ").concat(raw.as_str())
                                .concat(" at ").concat(stripped.as_str()),
                        ),
                    );
                },
            }
        } else {
            let ghost before = out@;
            out.push((key, JsonValue::Str(raw)));
            proof {
                assert(!has_marker(all[idx as int].0@));
                assert(entry_decoded(all[idx as int], out@[idx as int]));
                assert(entry_decodable(all[idx as int]));
                assert(forall|i: int| 0 <= i < idx ==> out@[i] == #[trigger] before[i]);
            }
        }
        idx = idx + 1;
    }
    proof {
        assert(all_decodable(params@));
    }
    Ok(out)
}

/// Every key is unmarked: each value is taken as a bare string.
pub open spec fn all_plain(params: Seq<(String, String)>) -> bool {
    forall|i: int| 0 <= i < params.len() ==> !has_marker(#[trigger] params[i].0@)
}

/// The entries of an unmarked query, as path text and string value.
pub open spec fn plain_views(params: Seq<(String, String)>) -> Seq<(Seq<char>, JsonModel)> {
    Seq::new(
        params.len(),
        |i: int|
            if 0 <= i < params.len() {
                (params[i].0@, JsonModel::Str(params[i].1@))
            } else {
                (Seq::empty(), JsonModel::Null)
            },
    )
}

/// Decodes the query entries and materializes them into one tree: the body
/// the relay sends upstream. Every failure is a materialization failure; it
/// comes only from a marked value that does not parse, an invalid path, or a
/// path conflict.
pub fn parse_body(params: Vec<(String, String)>) -> (r: Result<JsonValue, AppError>)
    ensures
        r is Ok ==> r->Ok_0.wf(),
        r is Ok ==> all_decodable(params@),
        r is Ok ==> exists|es: Seq<(String, JsonValue)>| #[trigger] entries_decoded(params@, es)
            && spec_materialize(entry_views(es)) == Some(r->Ok_0.model()),
        r is Err ==> r->Err_0 is InvalidQuery,
        r is Err ==> !all_decodable(params@) || exists|es: Seq<(String, JsonValue)>|
            #[trigger] entries_decoded(params@, es) && spec_materialize(entry_views(es)) is None,
        all_plain(params@) ==> (r is Ok <==> spec_materialize(plain_views(params@)) is Some),
        all_plain(params@) && r is Ok ==> spec_materialize(plain_views(params@)) == Some(
            r->Ok_0.model(),
        ),
{
    match decode_entries(params) {
        Ok(entries) => {
            let ghost es = entries@;
            proof {
                if all_plain(params@) {
                    assert forall|i: int|
                        0 <= i < es.len() implies entry_views(es)[i] == plain_views(params@)[i]
                        by {
                        assert(entry_decoded(params@[i], es[i]));
                        assert(!has_marker(params@[i].0@));
                        assert(es[i].1 == JsonValue::Str(params@[i].1));
                        assert(es[i].1.model() == JsonModel::Str(params@[i].1@));
                    };
                    assert(entry_views(es) =~= plain_views(params@));
                }
            }
            match materialize(entries) {
                Ok(v) => {
                    proof {
                        assert(entries_decoded(params@, es));
                    }
                    Ok(v)
                },
                Err(err) => {
                    proof {
                        assert(entries_decoded(params@, es));
                    }
                    Err(err)
                },
            }
        },
        Err(err) => {
            proof {
                if all_plain(params@) {
                    assert forall|i: int|
                        0 <= i < params@.len() implies #[trigger] entry_decodable(params@[i]) by {
                        assert(!has_marker(params@[i].0@));
                    };
                    assert(all_decodable(params@));
                }
            }
            Err(err)
        },
    }
}

} // verus!
