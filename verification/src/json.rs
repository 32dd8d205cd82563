use vstd::prelude::*;

verus! {

/// A JSON document as the materializer builds it. Numbers are either 64-bit
/// integers or the decimal text of a number that does not fit `i64`, so the
/// tree holds plain values only.
#[derive(Debug)]
pub enum JsonValue {
    Null,
    Bool(bool),
    Int(i64),
    /// A number outside the `i64` range (or not an integer), as decimal text.
    Num(String),
    Str(String),
    Arr(Vec<JsonValue>),
    /// Object entries in insertion order; `wf` requires distinct keys.
    Obj(Vec<(String, JsonValue)>),
}

/// The mathematical shape of a JSON document: objects are maps from key to
/// child, so trees that differ only in the order of their object entries have
/// the same model.
pub enum JsonModel {
    Null,
    Bool(bool),
    Int(int),
    Num(Seq<char>),
    Str(Seq<char>),
    Arr(Seq<JsonModel>),
    Obj(Map<Seq<char>, JsonModel>),
}

/// The map described by a list of object entries: later entries win.
pub open spec fn obj_model(entries: Seq<(String, JsonValue)>) -> Map<Seq<char>, JsonModel>
    decreases entries,
{
    if entries.len() == 0 {
        Map::empty()
    } else {
        obj_model(entries.subrange(0, entries.len() - 1)).insert(
            entries[entries.len() - 1].0@,
            entries[entries.len() - 1].1.model(),
        )
    }
}

/// No two entries share a key.
pub open spec fn distinct_keys(entries: Seq<(String, JsonValue)>) -> bool {
    forall|i: int, j: int| 0 <= i < j < entries.len() ==> entries[i].0@ != entries[j].0@
}

/// Every entry's value is well-formed.
pub open spec fn entries_wf(entries: Seq<(String, JsonValue)>) -> bool
    decreases entries,
{
    if entries.len() == 0 {
        true
    } else {
        entries_wf(entries.subrange(0, entries.len() - 1)) && entries[entries.len() - 1].1.wf()
    }
}

/// Every element of an array is well-formed.
pub open spec fn items_wf(items: Seq<JsonValue>) -> bool
    decreases items,
{
    if items.len() == 0 {
        true
    } else {
        items_wf(items.subrange(0, items.len() - 1)) && items[items.len() - 1].wf()
    }
}

impl JsonValue {
    /// The mathematical value of this tree.
    pub open spec fn model(self) -> JsonModel
        decreases self,
    {
        match self {
            JsonValue::Null => JsonModel::Null,
            JsonValue::Bool(b) => JsonModel::Bool(b),
            JsonValue::Int(i) => JsonModel::Int(i as int),
            JsonValue::Num(s) => JsonModel::Num(s@),
            JsonValue::Str(s) => JsonModel::Str(s@),
            JsonValue::Arr(items) => JsonModel::Arr(
                Seq::new(
                    items@.len(),
                    |i: int|
                        if 0 <= i < items@.len() {
                            items@[i].model()
                        } else {
                            JsonModel::Null
                        },
                ),
            ),
            JsonValue::Obj(entries) => JsonModel::Obj(obj_model(entries@)),
        }
    }

    /// Well-formed: every object in the tree has distinct keys.
    pub open spec fn wf(self) -> bool
        decreases self,
    {
        match self {
            JsonValue::Arr(items) => items_wf(items@),
            JsonValue::Obj(entries) => distinct_keys(entries@) && entries_wf(entries@),
            _ => true,
        }
    }
}

/// A key occurs in the map of an entry list exactly when some entry holds it.
pub proof fn lemma_obj_model_dom(entries: Seq<(String, JsonValue)>, k: Seq<char>)
    ensures
        obj_model(entries).contains_key(k) <==> exists|i: int|
            0 <= i < entries.len() && entries[i].0@ == k,
    decreases entries.len(),
{
    if entries.len() > 0 {
        let n = entries.len();
        let pre = entries.subrange(0, n - 1);
        lemma_obj_model_dom(pre, k);
        if entries[n - 1].0@ == k {
            assert(entries[n - 1].0@ == k);
        } else {
            if obj_model(entries).contains_key(k) {
                let i = choose|i: int| 0 <= i < pre.len() && pre[i].0@ == k;
                assert(entries[i].0@ == k);
            }
            if exists|i: int| 0 <= i < entries.len() && entries[i].0@ == k {
                let i = choose|i: int| 0 <= i < entries.len() && entries[i].0@ == k;
                assert(pre[i].0@ == k);
            }
        }
    }
}

/// With distinct keys, the map sends each entry's key to that entry's value.
pub proof fn lemma_obj_model_get(entries: Seq<(String, JsonValue)>, j: int)
    requires
        distinct_keys(entries),
        0 <= j < entries.len(),
    ensures
        obj_model(entries).contains_key(entries[j].0@),
        obj_model(entries)[entries[j].0@] == entries[j].1.model(),
    decreases entries.len(),
{
    let n = entries.len();
    let pre = entries.subrange(0, n - 1);
    if j < n - 1 {
        assert(distinct_keys(pre)) by {
            assert(forall|a: int, b: int|
                0 <= a < b < pre.len() ==> pre[a].0@ != pre[b].0@) by {
                assert(forall|a: int, b: int|
                    0 <= a < b < pre.len() ==> entries[a].0@ != entries[b].0@);
            }
        }
        lemma_obj_model_get(pre, j);
        assert(entries[j].0@ != entries[n - 1].0@);
    }
}

/// Replacing the value of the entry at `j` updates the map at that key.
pub proof fn lemma_obj_model_update(entries: Seq<(String, JsonValue)>, j: int, v: JsonValue)
    requires
        distinct_keys(entries),
        0 <= j < entries.len(),
    ensures
        obj_model(entries.update(j, (entries[j].0, v))) == obj_model(entries).insert(
            entries[j].0@,
            v.model(),
        ),
        distinct_keys(entries.update(j, (entries[j].0, v))),
    decreases entries.len(),
{
    let n = entries.len();
    let pre = entries.subrange(0, n - 1);
    let upd = entries.update(j, (entries[j].0, v));
    assert(distinct_keys(pre));
    if j == n - 1 {
        assert(upd.subrange(0, n - 1) =~= pre);
        assert(obj_model(upd) =~= obj_model(entries).insert(entries[j].0@, v.model()));
    } else {
        assert(upd.subrange(0, n - 1) =~= pre.update(j, (pre[j].0, v)));
        lemma_obj_model_update(pre, j, v);
        assert(entries[j].0@ != entries[n - 1].0@);
        assert(obj_model(upd) =~= obj_model(entries).insert(entries[j].0@, v.model()));
    }
}

/// Appending an entry with a fresh key inserts that key into the map.
pub proof fn lemma_obj_model_push(entries: Seq<(String, JsonValue)>, k: String, v: JsonValue)
    requires
        forall|i: int| 0 <= i < entries.len() ==> entries[i].0@ != k@,
    ensures
        obj_model(entries.push((k, v))) == obj_model(entries).insert(k@, v.model()),
        distinct_keys(entries) ==> distinct_keys(entries.push((k, v))),
{
    let pushed = entries.push((k, v));
    assert(pushed.subrange(0, pushed.len() - 1) =~= entries);
}

/// Finds the entry holding `key`, if there is one.
pub fn obj_find(entries: &Vec<(String, JsonValue)>, key: &String) -> (r: Option<usize>)
    ensures
        match r {
            Some(j) => j < entries@.len() && entries@[j as int].0@ == key@,
            None => forall|i: int| 0 <= i < entries@.len() ==> entries@[i].0@ != key@,
        },
{
    let n = entries.len();
    let mut i: usize = 0;
    while i < n
        invariant
            n == entries@.len(),
            i <= n,
            forall|j: int| 0 <= j < i ==> entries@[j].0@ != key@,
        decreases n - i,
    {
        if entries[i].0 == *key {
            return Some(i);
        }
        i = i + 1;
    }
    None
}

/// `entries_wf` gives the well-formedness of each entry.
pub proof fn lemma_entries_wf_index(entries: Seq<(String, JsonValue)>, j: int)
    requires
        entries_wf(entries),
        0 <= j < entries.len(),
    ensures
        entries[j].1.wf(),
    decreases entries.len(),
{
    let n = entries.len();
    let pre = entries.subrange(0, n - 1);
    if j < n - 1 {
        lemma_entries_wf_index(pre, j);
        assert(pre[j] == entries[j]);
    }
}

/// Elementwise well-formedness gives `entries_wf`.
pub proof fn lemma_entries_wf_build(entries: Seq<(String, JsonValue)>)
    requires
        forall|i: int| 0 <= i < entries.len() ==> #[trigger] entries[i].1.wf(),
    ensures
        entries_wf(entries),
    decreases entries.len(),
{
    let n = entries.len();
    if n > 0 {
        let pre = entries.subrange(0, n - 1);
        assert forall|i: int| 0 <= i < pre.len() implies #[trigger] pre[i].1.wf() by {
            assert(pre[i] == entries[i]);
        };
        lemma_entries_wf_build(pre);
        assert(entries[n - 1].1.wf());
    }
}

/// Elementwise well-formedness gives `items_wf`.
pub proof fn lemma_items_wf_build(items: Seq<JsonValue>)
    requires
        forall|i: int| 0 <= i < items.len() ==> #[trigger] items[i].wf(),
    ensures
        items_wf(items),
    decreases items.len(),
{
    let n = items.len();
    if n > 0 {
        let pre = items.subrange(0, n - 1);
        assert forall|i: int| 0 <= i < pre.len() implies #[trigger] pre[i].wf() by {
            assert(pre[i] == items[i]);
        };
        lemma_items_wf_build(pre);
        assert(items[n - 1].wf());
    }
}

} // verus!
