use vstd::prelude::*;

use crate::error::AppError;
use crate::json::{
    distinct_keys, entries_wf, lemma_entries_wf_build, lemma_entries_wf_index,
    lemma_obj_model_dom, lemma_obj_model_get, lemma_obj_model_push, lemma_obj_model_update,
    obj_find, obj_model, JsonModel, JsonValue,
};

verus! {

/// The segments of a path: the pieces between the `.` separators. An empty
/// path yields one empty segment, as splitting does.
pub open spec fn seg_split(s: Seq<char>) -> Seq<Seq<char>>
    decreases s.len(),
{
    if s.len() == 0 {
        seq![Seq::<char>::empty()]
    } else if s[0] == '.' {
        seq![Seq::<char>::empty()] + seg_split(s.drop_first())
    } else {
        let rest = seg_split(s.drop_first());
        seq![seq![s[0]] + rest[0]] + rest.drop_first()
    }
}

/// A path is valid when every segment is non-empty; in particular the empty
/// path is invalid.
pub open spec fn valid_path(s: Seq<char>) -> bool {
    forall|i: int| 0 <= i < seg_split(s).len() ==> #[trigger] seg_split(s)[i].len() > 0
}

pub proof fn lemma_seg_split_len(s: Seq<char>)
    ensures
        seg_split(s).len() >= 1,
    decreases s.len(),
{
    if s.len() > 0 {
        lemma_seg_split_len(s.drop_first());
    }
}

/// A separator-free string splits into exactly itself.
pub proof fn lemma_seg_split_nodot(s: Seq<char>)
    requires
        forall|j: int| 0 <= j < s.len() ==> s[j] != '.',
    ensures
        seg_split(s) == seq![s],
    decreases s.len(),
{
    if s.len() == 0 {
        assert(seg_split(s) =~~= seq![s]);
    } else {
        lemma_seg_split_nodot(s.drop_first());
        lemma_seg_split_len(s.drop_first());
        assert(seq![s[0]] + s.drop_first() =~= s);
        assert(seg_split(s) =~= seq![s]);
    }
}

/// Splitting at the first separator: everything before it is one segment, and
/// the rest splits on its own.
pub proof fn lemma_seg_split_dot(s: Seq<char>, k: int)
    requires
        0 <= k < s.len(),
        s[k] == '.',
        forall|j: int| 0 <= j < k ==> s[j] != '.',
    ensures
        seg_split(s) == seq![s.subrange(0, k)] + seg_split(s.subrange(k + 1, s.len() as int)),
    decreases k,
{
    if k == 0 {
        assert(s.drop_first() =~= s.subrange(1, s.len() as int));
        assert(seg_split(s) =~~= seq![s.subrange(0, 0)] + seg_split(
            s.subrange(1, s.len() as int),
        ));
    } else {
        let t = s.drop_first();
        assert(t[k - 1] == '.');
        lemma_seg_split_dot(t, k - 1);
        lemma_seg_split_len(t.subrange(k, t.len() as int));
        assert(t.subrange(0, k - 1) =~= s.subrange(1, k));
        assert(t.subrange(k, t.len() as int) =~= s.subrange(k + 1, s.len() as int));
        assert(seq![s[0]] + s.subrange(1, k) =~= s.subrange(0, k));
        assert(seg_split(s) =~= seq![s.subrange(0, k)] + seg_split(
            s.subrange(k + 1, s.len() as int),
        ));
    }
}

/// Splits a path on `.` into its segments.
pub fn split_path(path: &str) -> (segs: Vec<String>)
    ensures
        segs.deep_view() == seg_split(path@),
{
    let n = path.unicode_len();
    let mut segs: Vec<String> = Vec::new();
    let mut start: usize = 0;
    let mut i: usize = 0;
    proof {
        assert(path@.subrange(0, n as int) =~= path@);
        assert(segs.deep_view() =~= Seq::<Seq<char>>::empty());
    }
    while i < n
        invariant
            n == path@.len(),
            start <= i <= n,
            seg_split(path@) == segs.deep_view() + seg_split(
                path@.subrange(start as int, n as int),
            ),
            forall|j: int| start <= j < i ==> path@[j] != '.',
        decreases n - i,
    {
        let c = path.get_char(i);
        if c == '.' {
            let seg = path.substring_char(start, i).to_owned();
            let ghost old_deep = segs.deep_view();
            segs.push(seg);
            proof {
                let sub = path@.subrange(start as int, n as int);
                let k = i - start;
                assert(sub[k as int] == path@[i as int]);
                assert(forall|j: int| 0 <= j < k ==> sub[j] == path@[start + j]);
                lemma_seg_split_dot(sub, k as int);
                assert(sub.subrange(0, k as int) =~= path@.subrange(start as int, i as int));
                assert(sub.subrange(k + 1, sub.len() as int) =~= path@.subrange(
                    i + 1,
                    n as int,
                ));
                assert(segs.deep_view() =~= old_deep.push(path@.subrange(
                    start as int,
                    i as int,
                )));
                assert(segs.deep_view() + seg_split(path@.subrange(i + 1, n as int))
                    =~~= old_deep + (seq![path@.subrange(start as int, i as int)] + seg_split(
                    path@.subrange(i + 1, n as int),
                )));
            }
            start = i + 1;
        }
        i = i + 1;
    }
    let seg = path.substring_char(start, n).to_owned();
    let ghost old_deep = segs.deep_view();
    segs.push(seg);
    proof {
        let sub = path@.subrange(start as int, n as int);
        lemma_seg_split_nodot(sub);
        assert(segs.deep_view() =~= old_deep.push(sub));
        assert(old_deep.push(sub) =~~= old_deep + seq![sub]);
    }
    segs
}

/// One materializer step: the tree after writing `v` at the location the
/// remaining segments name inside `t`, or nothing on a path conflict.
/// A location holding `Null` is coerced to an empty object before the walk
/// descends through it; any other non-object occupant is a conflict.
/// With no segments left the whole tree is replaced.
pub open spec fn spec_insert(t: JsonModel, segs: Seq<Seq<char>>, v: JsonModel) -> Option<
    JsonModel,
>
    decreases segs.len(),
{
    if segs.len() == 0 {
        Some(v)
    } else {
        let base = if t is Null {
            JsonModel::Obj(Map::<Seq<char>, JsonModel>::empty())
        } else {
            t
        };
        match base {
            JsonModel::Obj(m) => {
                if segs.len() == 1 {
                    Some(JsonModel::Obj(m.insert(segs[0], v)))
                } else {
                    let child = if m.contains_key(segs[0]) {
                        m[segs[0]]
                    } else {
                        JsonModel::Obj(Map::<Seq<char>, JsonModel>::empty())
                    };
                    match spec_insert(child, segs.drop_first(), v) {
                        Some(c) => Some(JsonModel::Obj(m.insert(segs[0], c))),
                        None => None,
                    }
                }
            },
            _ => None,
        }
    }
}

/// The walk from segment `i` on: builds the new subtree functionally.
fn insert_at(t: JsonValue, segs: &Vec<String>, i: usize, v: JsonValue) -> (r: Option<JsonValue>)
    requires
        i < segs@.len(),
        t.wf(),
        v.wf(),
    ensures
        match r {
            Some(out) => spec_insert(t.model(), segs.deep_view().skip(i as int), v.model())
                == Some(out.model()) && out.wf(),
            None => spec_insert(t.model(), segs.deep_view().skip(i as int), v.model()) is None,
        },
    decreases segs@.len() - i,
{
    let ghost tm = t.model();
    let ghost rest = segs.deep_view().skip(i as int);
    proof {
        assert(rest.len() == segs@.len() - i);
        assert(rest[0] == segs@[i as int]@);
    }
    let mut entries = match t {
        JsonValue::Null => Vec::new(),
        JsonValue::Obj(es) => es,
        _ => {
            return None;
        },
    };
    let ghost orig = entries@;
    let ghost bm = obj_model(orig);
    proof {
        if tm is Null {
            assert(orig =~= Seq::<(String, JsonValue)>::empty());
            assert(bm =~= Map::<Seq<char>, JsonModel>::empty());
        } else {
            assert(tm == JsonModel::Obj(bm));
        }
        assert(distinct_keys(orig));
        assert(entries_wf(orig));
    }
    if i == segs.len() - 1 {
        match obj_find(&entries, &segs[i]) {
            Some(j) => {
                let old_entry = entries.remove(j);
                entries.insert(j, (old_entry.0, v));
                proof {
                    assert(entries@ =~= orig.update(j as int, (orig[j as int].0, v)));
                    lemma_obj_model_update(orig, j as int, v);
                    assert(orig[j as int].0@ == rest[0]);
                    assert forall|k: int|
                        0 <= k < entries@.len() implies #[trigger] entries@[k].1.wf() by {
                        if k != j as int {
                            assert(entries@[k] == orig[k]);
                            lemma_entries_wf_index(orig, k);
                        }
                    };
                    lemma_entries_wf_build(entries@);
                }
                Some(JsonValue::Obj(entries))
            },
            None => {
                entries.push((segs[i].clone(), v));
                proof {
                    lemma_obj_model_push(orig, segs@[i as int], v);
                    assert forall|k: int|
                        0 <= k < entries@.len() implies #[trigger] entries@[k].1.wf() by {
                        if k < orig.len() {
                            assert(entries@[k] == orig[k]);
                            lemma_entries_wf_index(orig, k);
                        }
                    };
                    lemma_entries_wf_build(entries@);
                }
                Some(JsonValue::Obj(entries))
            },
        }
    } else {
        proof {
            assert(segs.deep_view().skip(i + 1) =~= rest.drop_first());
        }
        match obj_find(&entries, &segs[i]) {
            Some(j) => {
                proof {
                    lemma_obj_model_get(orig, j as int);
                }
                let old_entry = entries.remove(j);
                proof {
                    assert(old_entry == orig[j as int]);
                    lemma_entries_wf_index(orig, j as int);
                }
                match insert_at(old_entry.1, segs, i + 1, v) {
                    Some(c) => {
                        entries.insert(j, (old_entry.0, c));
                        proof {
                            assert(entries@ =~= orig.update(j as int, (orig[j as int].0, c)));
                            lemma_obj_model_update(orig, j as int, c);
                            assert(orig[j as int].0@ == rest[0]);
                            assert forall|k: int|
                                0 <= k < entries@.len() implies #[trigger] entries@[k].1.wf() by {
                                if k != j as int {
                                    assert(entries@[k] == orig[k]);
                                    lemma_entries_wf_index(orig, k);
                                }
                            };
                            lemma_entries_wf_build(entries@);
                        }
                        Some(JsonValue::Obj(entries))
                    },
                    None => None,
                }
            },
            None => {
                proof {
                    lemma_obj_model_dom(orig, segs@[i as int]@);
                }
                let empty_child: JsonValue = JsonValue::Obj(Vec::new());
                proof {
                    assert(empty_child.model() == JsonModel::Obj(
                        obj_model(Seq::<(String, JsonValue)>::empty()),
                    ));
                    assert(obj_model(Seq::<(String, JsonValue)>::empty())
                        =~= Map::<Seq<char>, JsonModel>::empty());
                }
                match insert_at(empty_child, segs, i + 1, v) {
                    Some(c) => {
                        entries.push((segs[i].clone(), c));
                        proof {
                            lemma_obj_model_push(orig, segs@[i as int], c);
                            assert forall|k: int|
                                0 <= k < entries@.len() implies #[trigger] entries@[k].1.wf() by {
                                if k < orig.len() {
                                    assert(entries@[k] == orig[k]);
                                    lemma_entries_wf_index(orig, k);
                                }
                            };
                            lemma_entries_wf_build(entries@);
                        }
                        Some(JsonValue::Obj(entries))
                    },
                    None => None,
                }
            },
        }
    }
}

/// Writes `value` at the location `path` names inside `data`, creating
/// intermediate objects as needed and coercing `Null` occupants to empty
/// objects; a path with an empty segment, or one that runs through a scalar
/// or an array, is rejected.
pub fn insert(data: JsonValue, path: &String, value: JsonValue) -> (r: Result<
    JsonValue,
    AppError,
>)
    requires
        data.wf(),
        value.wf(),
    ensures
        valid_path(path@) ==> match spec_insert(data.model(), seg_split(path@), value.model()) {
            Some(out) => r is Ok && r->Ok_0.model() == out && r->Ok_0.wf(),
            None => r is Err && (r->Err_0 matches AppError::InvalidQuery(m) && m@
                == "Could not insert intermediate object for path "@ + path@),
        },
        !valid_path(path@) ==> r is Err && (r->Err_0 matches AppError::InvalidQuery(m) && m@
            == "Empty segment in path "@ + path@),
        r is Err ==> r->Err_0 is InvalidQuery,
{
    let segs = split_path(path.as_str());
    let n = segs.len();
    proof {
        lemma_seg_split_len(path@);
        assert(segs.deep_view().len() == n);
    }
    let mut k: usize = 0;
    while k < n
        invariant
            n == segs@.len(),
            k <= n,
            segs.deep_view() == seg_split(path@),
            forall|j: int| 0 <= j < k ==> seg_split(path@)[j].len() > 0,
        decreases n - k,
    {
        if segs[k].as_str().is_empty() {
            proof {
                assert(seg_split(path@)[k as int] == segs@[k as int]@);
                assert(!valid_path(path@));
            }
            return Err(
                AppError::InvalidQuery(
                    String::from_str("Empty segment in path ").concat(path.as_str()),
                ),
            );
        }
        proof {
            assert(seg_split(path@)[k as int] == segs@[k as int]@);
        }
        k = k + 1;
    }
    proof {
        assert(valid_path(path@));
        assert(segs.deep_view().skip(0) =~= seg_split(path@));
    }
    match insert_at(data, &segs, 0, value) {
        Some(out) => Ok(out),
        None => Err(
            AppError::InvalidQuery(
                String::from_str("Could not insert intermediate object for path ").concat(
                    path.as_str(),
                ),
            ),
        ),
    }
}

/// The entries of a list, as path text and value model.
pub open spec fn entry_views(entries: Seq<(String, JsonValue)>) -> Seq<(Seq<char>, JsonModel)> {
    Seq::new(
        entries.len(),
        |i: int|
            if 0 <= i < entries.len() {
                (entries[i].0@, entries[i].1.model())
            } else {
                (Seq::empty(), JsonModel::Null)
            },
    )
}

/// The tree a list of path/value entries describes: each entry written in
/// turn into an initially empty object, with the first invalid path or path
/// conflict aborting the whole result.
pub open spec fn spec_materialize(es: Seq<(Seq<char>, JsonModel)>) -> Option<JsonModel>
    decreases es.len(),
{
    if es.len() == 0 {
        Some(JsonModel::Obj(Map::<Seq<char>, JsonModel>::empty()))
    } else {
        match spec_materialize(es.subrange(0, es.len() - 1)) {
            Some(t) => {
                let e = es[es.len() - 1];
                if valid_path(e.0) {
                    spec_insert(t, seg_split(e.0), e.1)
                } else {
                    None
                }
            },
            None => None,
        }
    }
}

/// Once a prefix fails to materialize, the whole list fails.
pub proof fn lemma_materialize_none(es: Seq<(Seq<char>, JsonModel)>, k: int)
    requires
        0 <= k <= es.len(),
        spec_materialize(es.subrange(0, k)) is None,
    ensures
        spec_materialize(es) is None,
    decreases es.len() - k,
{
    if k == es.len() {
        assert(es.subrange(0, k) =~= es);
    } else {
        assert(es.subrange(0, k + 1).subrange(0, k) =~= es.subrange(0, k));
        lemma_materialize_none(es, k + 1);
    }
}

/// Builds the tree the entries describe, processing them in order over an
/// initially empty object; the first invalid path or path conflict aborts.
pub fn materialize(entries: Vec<(String, JsonValue)>) -> (r: Result<JsonValue, AppError>)
    requires
        forall|i: int| 0 <= i < entries@.len() ==> #[trigger] entries@[i].1.wf(),
    ensures
        r is Ok <==> spec_materialize(entry_views(entries@)) is Some,
        r is Ok ==> Some(r->Ok_0.model()) == spec_materialize(entry_views(entries@))
            && r->Ok_0.wf(),
        r is Err ==> r->Err_0 is InvalidQuery,
{
    let ghost all = entries@;
    let n = entries.len();
    let mut rest = entries;
    let mut acc = JsonValue::Obj(Vec::new());
    let mut idx: usize = 0;
    proof {
        assert(rest@ =~= all.subrange(0, n as int));
        assert(acc.model() == JsonModel::Obj(obj_model(Seq::<(String, JsonValue)>::empty())));
        assert(obj_model(Seq::<(String, JsonValue)>::empty()) =~= Map::<
            Seq<char>,
            JsonModel,
        >::empty());
        assert(entry_views(all).subrange(0, 0) =~= Seq::<(Seq<char>, JsonModel)>::empty());
    }
    while idx < n
        invariant
            all == entries@,
            n == all.len(),
            idx <= n,
            rest@ == all.subrange(idx as int, n as int),
            forall|i: int| 0 <= i < all.len() ==> #[trigger] all[i].1.wf(),
            spec_materialize(entry_views(all).subrange(0, idx as int)) == Some(acc.model()),
            acc.wf(),
        decreases n - idx,
    {
        let e = rest.remove(0);
        proof {
            assert(e == all[idx as int]);
            assert(all[idx as int].1.wf());
            assert(rest@ =~= all.subrange(idx + 1, n as int));
        }
        let (path, value) = e;
        match insert(acc, &path, value) {
            Ok(out) => {
                proof {
                    let views = entry_views(all);
                    assert(views.subrange(0, idx + 1).subrange(0, idx as int) =~= views.subrange(
                        0,
                        idx as int,
                    ));
                    assert(views[idx as int] == (all[idx as int].0@, all[idx as int].1.model()));
                }
                acc = out;
            },
            Err(err) => {
                proof {
                    let views = entry_views(all);
                    assert(views.subrange(0, idx + 1).subrange(0, idx as int) =~= views.subrange(
                        0,
                        idx as int,
                    ));
                    assert(views[idx as int] == (all[idx as int].0@, all[idx as int].1.model()));
                    assert(spec_materialize(views.subrange(0, idx + 1)) is None);
                    lemma_materialize_none(views, idx + 1);
                    assert(spec_materialize(entry_views(all)) is None);
                }
                return Err(err);
            },
        }
        idx = idx + 1;
    }
    proof {
        assert(entry_views(all).subrange(0, n as int) =~= entry_views(all));
    }
    Ok(acc)
}

} // verus!
