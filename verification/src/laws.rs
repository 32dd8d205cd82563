use vstd::prelude::*;

use crate::json::JsonModel;
use crate::materialize::{
    lemma_seg_split_len, seg_split, spec_insert, spec_materialize, valid_path,
};
use crate::relay::UpstreamOutcome;

verus! {

/// Writing into the result of an earlier write, with failure carried through.
pub open spec fn opt_insert(
    o: Option<JsonModel>,
    segs: Seq<Seq<char>>,
    v: JsonModel,
) -> Option<JsonModel> {
    match o {
        Some(t) => spec_insert(t, segs, v),
        None => None,
    }
}

/// `a` is an initial run of `b`: the location `a` names lies on the walk to
/// the location `b` names.
pub open spec fn is_prefix(a: Seq<Seq<char>>, b: Seq<Seq<char>>) -> bool {
    a.len() <= b.len() && a == b.subrange(0, a.len() as int)
}

/// Whether a write at `segs` succeeds depends only on the tree and the path,
/// never on the value written.
pub proof fn lemma_insert_failure_value_independent(
    t: JsonModel,
    segs: Seq<Seq<char>>,
    v1: JsonModel,
    v2: JsonModel,
)
    ensures
        spec_insert(t, segs, v1) is Some <==> spec_insert(t, segs, v2) is Some,
    decreases segs.len(),
{
    if segs.len() > 1 {
        let base = if t is Null {
            JsonModel::Obj(Map::<Seq<char>, JsonModel>::empty())
        } else {
            t
        };
        match base {
            JsonModel::Obj(m) => {
                let child = if m.contains_key(segs[0]) {
                    m[segs[0]]
                } else {
                    JsonModel::Obj(Map::<Seq<char>, JsonModel>::empty())
                };
                lemma_insert_failure_value_independent(child, segs.drop_first(), v1, v2);
            },
            _ => {},
        }
    }
}

/// Law: writing twice at the same path is the same as writing only the later
/// value; the last write wins.
pub proof fn lemma_insert_overwrites(
    t: JsonModel,
    segs: Seq<Seq<char>>,
    v1: JsonModel,
    v2: JsonModel,
)
    requires
        segs.len() > 0,
    ensures
        opt_insert(spec_insert(t, segs, v1), segs, v2) == spec_insert(t, segs, v2),
    decreases segs.len(),
{
    let base = if t is Null {
        JsonModel::Obj(Map::<Seq<char>, JsonModel>::empty())
    } else {
        t
    };
    match base {
        JsonModel::Obj(m) => {
            let k = segs[0];
            if segs.len() == 1 {
                assert(m.insert(k, v1).insert(k, v2) =~= m.insert(k, v2));
            } else {
                let q = segs.drop_first();
                let child = if m.contains_key(k) {
                    m[k]
                } else {
                    JsonModel::Obj(Map::<Seq<char>, JsonModel>::empty())
                };
                lemma_insert_overwrites(child, q, v1, v2);
                lemma_insert_failure_value_independent(child, q, v1, v2);
                match spec_insert(child, q, v1) {
                    Some(d1) => {
                        assert(m.insert(k, d1).contains_key(k) && m.insert(k, d1)[k] == d1);
                        match spec_insert(d1, q, v2) {
                            Some(d2) => {
                                assert(m.insert(k, d1).insert(k, d2) =~= m.insert(k, d2));
                                assert(spec_insert(child, q, v2) == Some(d2));
                            },
                            None => {},
                        }
                    },
                    None => {},
                }
            }
        },
        _ => {},
    }
}

/// Law: two writes at different paths, neither of which runs through the
/// other, land in the same tree whichever comes first.
pub proof fn lemma_insert_commutes(
    t: JsonModel,
    p1: Seq<Seq<char>>,
    v1: JsonModel,
    p2: Seq<Seq<char>>,
    v2: JsonModel,
)
    requires
        p1.len() > 0,
        p2.len() > 0,
        !is_prefix(p1, p2),
        !is_prefix(p2, p1),
    ensures
        opt_insert(spec_insert(t, p1, v1), p2, v2) == opt_insert(spec_insert(t, p2, v2), p1, v1),
    decreases p1.len(),
{
    let base = if t is Null {
        JsonModel::Obj(Map::<Seq<char>, JsonModel>::empty())
    } else {
        t
    };
    match base {
        JsonModel::Obj(m) => {
            let k1: Seq<char> = p1[0];
            let k2: Seq<char> = p2[0];
            if k1 == k2 {
                if p1.len() == 1 {
                    assert(p1 =~~= p2.subrange(0, 1));
                    assert(false);
                }
                if p2.len() == 1 {
                    assert(p2 =~~= p1.subrange(0, 1));
                    assert(false);
                }
                let q1 = p1.drop_first();
                let q2 = p2.drop_first();
                assert(!is_prefix(q1, q2)) by {
                    if is_prefix(q1, q2) {
                        assert(p1 =~~= p2.subrange(0, p1.len() as int)) by {
                            assert(q1 =~= q2.subrange(0, q1.len() as int));
                            assert(forall|j: int|
                                0 < j < p1.len() ==> p1[j] == q1[j - 1]
                                    && #[trigger] p2[j] == q2[j - 1]);
                        }
                        assert(is_prefix(p1, p2));
                    }
                }
                assert(!is_prefix(q2, q1)) by {
                    if is_prefix(q2, q1) {
                        assert(p2 =~~= p1.subrange(0, p2.len() as int)) by {
                            assert(q2 =~= q1.subrange(0, q2.len() as int));
                            assert(forall|j: int|
                                0 < j < p2.len() ==> p2[j] == q2[j - 1]
                                    && #[trigger] p1[j] == q1[j - 1]);
                        }
                        assert(is_prefix(p2, p1));
                    }
                }
                let child = if m.contains_key(k1) {
                    m[k1]
                } else {
                    JsonModel::Obj(Map::<Seq<char>, JsonModel>::empty())
                };
                lemma_insert_commutes(child, q1, v1, q2, v2);
                let c1 = spec_insert(child, q1, v1);
                let c2 = spec_insert(child, q2, v2);
                match c1 {
                    Some(d1) => {
                        assert(m.insert(k1, d1).contains_key(k1) && m.insert(k1, d1)[k1] == d1);
                        match c2 {
                            Some(d2) => {
                                assert(m.insert(k2, d2).contains_key(k2) && m.insert(k2, d2)[k2]
                                    == d2);
                                match spec_insert(d1, q2, v2) {
                                    Some(e) => {
                                        assert(spec_insert(d2, q1, v1) == Some(e));
                                        assert(m.insert(k1, d1).insert(k1, e) =~= m.insert(
                                            k1,
                                            e,
                                        ));
                                        assert(m.insert(k2, d2).insert(k2, e) =~= m.insert(
                                            k2,
                                            e,
                                        ));
                                    },
                                    None => {
                                        assert(spec_insert(d2, q1, v1) is None);
                                    },
                                }
                            },
                            None => {
                                assert(opt_insert(c2, q1, v1) is None);
                                assert(spec_insert(d1, q2, v2) is None);
                            },
                        }
                    },
                    None => {
                        match c2 {
                            Some(d2) => {
                                assert(m.insert(k2, d2).contains_key(k2) && m.insert(k2, d2)[k2]
                                    == d2);
                                assert(opt_insert(c1, q2, v2) is None);
                                assert(spec_insert(d2, q1, v1) is None);
                            },
                            None => {},
                        }
                    },
                }
            } else {
                let x1 = if p1.len() == 1 {
                    Some(v1)
                } else {
                    let child1 = if m.contains_key(k1) {
                        m[k1]
                    } else {
                        JsonModel::Obj(Map::<Seq<char>, JsonModel>::empty())
                    };
                    spec_insert(child1, p1.drop_first(), v1)
                };
                let x2 = if p2.len() == 1 {
                    Some(v2)
                } else {
                    let child2 = if m.contains_key(k2) {
                        m[k2]
                    } else {
                        JsonModel::Obj(Map::<Seq<char>, JsonModel>::empty())
                    };
                    spec_insert(child2, p2.drop_first(), v2)
                };
                assert(spec_insert(t, p1, v1) == match x1 {
                    Some(x) => Some(JsonModel::Obj(m.insert(k1, x))),
                    None => None,
                });
                assert(spec_insert(t, p2, v2) == match x2 {
                    Some(x) => Some(JsonModel::Obj(m.insert(k2, x))),
                    None => None,
                });
                match x1 {
                    Some(a1) => {
                        let m1 = m.insert(k1, a1);
                        assert(m1.contains_key(k2) == m.contains_key(k2));
                        assert(m.contains_key(k2) ==> m1[k2] == m[k2]);
                        assert(spec_insert(JsonModel::Obj(m1), p2, v2) == match x2 {
                            Some(x) => Some(JsonModel::Obj(m1.insert(k2, x))),
                            None => None,
                        });
                        match x2 {
                            Some(a2) => {
                                let m2 = m.insert(k2, a2);
                                assert(m2.contains_key(k1) == m.contains_key(k1));
                                assert(m.contains_key(k1) ==> m2[k1] == m[k1]);
                                assert(spec_insert(JsonModel::Obj(m2), p1, v1) == Some(
                                    JsonModel::Obj(m2.insert(k1, a1)),
                                ));
                                assert(m1.insert(k2, a2) =~= m2.insert(k1, a1));
                            },
                            None => {},
                        }
                    },
                    None => {
                        match x2 {
                            Some(a2) => {
                                let m2 = m.insert(k2, a2);
                                assert(m2.contains_key(k1) == m.contains_key(k1));
                                assert(m.contains_key(k1) ==> m2[k1] == m[k1]);
                                assert(spec_insert(JsonModel::Obj(m2), p1, v1) is None);
                            },
                            None => {},
                        }
                    },
                }
            }
        },
        _ => {
            assert(spec_insert(t, p1, v1) is None);
            assert(spec_insert(t, p2, v2) is None);
        },
    }
}

/// One materialization step: the effect of a single entry on a tree so far,
/// with failure carried through.
pub open spec fn apply_entry(o: Option<JsonModel>, e: (Seq<char>, JsonModel)) -> Option<
    JsonModel,
> {
    match o {
        Some(t) => if valid_path(e.0) {
            spec_insert(t, seg_split(e.0), e.1)
        } else {
            None
        },
        None => None,
    }
}

/// Two adjacent entries whose paths name locations off each other's walk
/// commute under `apply_entry`.
proof fn lemma_apply_entry_commutes(
    o: Option<JsonModel>,
    e1: (Seq<char>, JsonModel),
    e2: (Seq<char>, JsonModel),
)
    requires
        !is_prefix(seg_split(e1.0), seg_split(e2.0)),
        !is_prefix(seg_split(e2.0), seg_split(e1.0)),
    ensures
        apply_entry(apply_entry(o, e1), e2) == apply_entry(apply_entry(o, e2), e1),
{
    lemma_seg_split_len(e1.0);
    lemma_seg_split_len(e2.0);
    match o {
        Some(t) => {
            if valid_path(e1.0) && valid_path(e2.0) {
                lemma_insert_commutes(t, seg_split(e1.0), e1.1, seg_split(e2.0), e2.1);
            }
        },
        None => {},
    }
}

/// Law: materializing is order-independent. Swapping two neighbouring
/// entries whose paths differ, with neither path an initial run of the
/// other, leaves the materialized tree (and whether materialization
/// succeeds) unchanged.
pub proof fn lemma_materialize_swap_adjacent(es: Seq<(Seq<char>, JsonModel)>, i: int)
    requires
        0 <= i,
        i + 1 < es.len(),
        !is_prefix(seg_split(es[i].0), seg_split(es[i + 1].0)),
        !is_prefix(seg_split(es[i + 1].0), seg_split(es[i].0)),
    ensures
        spec_materialize(es.update(i, es[i + 1]).update(i + 1, es[i])) == spec_materialize(es),
    decreases es.len(),
{
    let n = es.len();
    let sw = es.update(i, es[i + 1]).update(i + 1, es[i]);
    if i + 1 == n - 1 {
        let pre = es.subrange(0, n - 2);
        assert(sw.subrange(0, n - 1).subrange(0, n - 2) =~= pre);
        assert(es.subrange(0, n - 1).subrange(0, n - 2) =~= pre);
        assert(sw.subrange(0, n - 1)[n - 2] == es[n - 1]);
        assert(es.subrange(0, n - 1)[n - 2] == es[n - 2]);
        assert(spec_materialize(es.subrange(0, n - 1)) == apply_entry(
            spec_materialize(pre),
            es[n - 2],
        ));
        assert(spec_materialize(es) == apply_entry(
            apply_entry(spec_materialize(pre), es[n - 2]),
            es[n - 1],
        ));
        assert(sw[n - 1] == es[n - 2]);
        assert(spec_materialize(sw.subrange(0, n - 1)) == apply_entry(
            spec_materialize(pre),
            es[n - 1],
        ));
        assert(spec_materialize(sw) == apply_entry(
            apply_entry(spec_materialize(pre), es[n - 1]),
            es[n - 2],
        ));
        lemma_apply_entry_commutes(spec_materialize(pre), es[n - 2], es[n - 1]);
    } else {
        let pre_es = es.subrange(0, n - 1);
        let pre_sw = sw.subrange(0, n - 1);
        assert(pre_sw =~= pre_es.update(i, pre_es[i + 1]).update(i + 1, pre_es[i]));
        lemma_materialize_swap_adjacent(pre_es, i);
        assert(sw[n - 1] == es[n - 1]);
    }
}

/// Law: when two neighbouring entries carry the same path, the earlier one
/// can be dropped; the last write to a path wins.
pub proof fn lemma_materialize_last_wins(es: Seq<(Seq<char>, JsonModel)>, i: int)
    requires
        0 <= i,
        i + 1 < es.len(),
        es[i].0 == es[i + 1].0,
    ensures
        spec_materialize(es.remove(i)) == spec_materialize(es),
    decreases es.len(),
{
    let n = es.len();
    let rm = es.remove(i);
    if i + 1 == n - 1 {
        let pre = es.subrange(0, n - 2);
        assert(es.subrange(0, n - 1).subrange(0, n - 2) =~= pre);
        assert(es.subrange(0, n - 1)[n - 2] == es[n - 2]);
        assert(spec_materialize(es.subrange(0, n - 1)) == apply_entry(
            spec_materialize(pre),
            es[n - 2],
        ));
        assert(spec_materialize(es) == apply_entry(
            apply_entry(spec_materialize(pre), es[n - 2]),
            es[n - 1],
        ));
        assert(rm.subrange(0, n - 2) =~= pre);
        assert(rm[n - 2] == es[n - 1]);
        assert(spec_materialize(rm) == apply_entry(spec_materialize(pre), es[n - 1]));
        lemma_seg_split_len(es[n - 1].0);
        match spec_materialize(pre) {
            Some(t) => {
                if valid_path(es[n - 2].0) {
                    lemma_insert_overwrites(t, seg_split(es[n - 1].0), es[n - 2].1, es[n - 1].1);
                }
            },
            None => {},
        }
    } else {
        let pre_es = es.subrange(0, n - 1);
        let pre_rm = rm.subrange(0, n - 2);
        assert(pre_rm =~= pre_es.remove(i));
        lemma_materialize_last_wins(pre_es, i);
        assert(rm[n - 2] == es[n - 1]);
    }
}

/// The two entries' paths name locations off each other's walk: neither
/// write can run through or overwrite the other.
pub open spec fn independent(e1: (Seq<char>, JsonModel), e2: (Seq<char>, JsonModel)) -> bool {
    !is_prefix(seg_split(e1.0), seg_split(e2.0)) && !is_prefix(seg_split(e2.0), seg_split(e1.0))
}

/// Every two entries of the list are independent: the non-conflicting sets
/// of paths.
pub open spec fn pairwise_independent(es: Seq<(Seq<char>, JsonModel)>) -> bool {
    forall|a: int, b: int| #![trigger es[a], es[b]]
        0 <= a < es.len() && 0 <= b < es.len() && a != b ==> independent(es[a], es[b])
}

/// Law: materializing a pairwise-independent list of entries is
/// order-independent. Exchanging any two entries leaves the materialized
/// tree (and whether materialization succeeds) unchanged, and any
/// reordering is a chain of such exchanges.
pub proof fn lemma_materialize_any_transposition(es: Seq<(Seq<char>, JsonModel)>, i: int, j: int)
    requires
        0 <= i < j < es.len(),
        pairwise_independent(es),
    ensures
        spec_materialize(es.update(i, es[j]).update(j, es[i])) == spec_materialize(es),
    decreases j - i,
{
    if j == i + 1 {
        assert(independent(es[i], es[j]));
        lemma_materialize_swap_adjacent(es, i);
    } else {
        let s1 = es.update(j - 1, es[j]).update(j, es[j - 1]);
        assert(independent(es[j - 1], es[j]));
        lemma_materialize_swap_adjacent(es, j - 1);
        assert(pairwise_independent(s1)) by {
            assert forall|a: int, b: int| #![trigger s1[a], s1[b]]
                0 <= a < s1.len() && 0 <= b < s1.len() && a != b implies independent(
                s1[a],
                s1[b],
            ) by {
                let a0 = if a == j - 1 {
                    j
                } else if a == j {
                    j - 1
                } else {
                    a
                };
                let b0 = if b == j - 1 {
                    j
                } else if b == j {
                    j - 1
                } else {
                    b
                };
                assert(s1[a] == es[a0] && s1[b] == es[b0]);
                assert(a0 != b0);
                assert(independent(es[a0], es[b0]));
            };
        }
        lemma_materialize_any_transposition(s1, i, j - 1);
        let s2 = s1.update(i, s1[j - 1]).update(j - 1, s1[i]);
        assert(s2[j - 1] == es[i] && s2[j] == es[j - 1]);
        assert(independent(es[i], es[j - 1]));
        lemma_materialize_swap_adjacent(s2, j - 1);
        let s3 = s2.update(j - 1, s2[j]).update(j, s2[j - 1]);
        assert(s3 =~= es.update(i, es[j]).update(j, es[i]));
    }
}

/// Law: a failure the transport reports under its generic kind surfaces as a
/// client error (a 400-class status); any other transport or read failure
/// surfaces as a server error (status 500); and a received upstream response
/// surfaces as a success carrying the upstream's own status code, content
/// type and body unchanged, whatever that status code is.
pub proof fn lemma_relay_classification(outcome: UpstreamOutcome)
    ensures
        outcome matches UpstreamOutcome::GenericFailure { .. } ==> (
        crate::relay::spec_relay_outcome(outcome) matches Err(e) && e.spec_status_code() == 400),
        outcome matches UpstreamOutcome::TargetRejected { .. } ==> (
        crate::relay::spec_relay_outcome(outcome) matches Err(e) && e.spec_status_code() == 400),
        outcome matches UpstreamOutcome::TransportFailure { .. } ==> (
        crate::relay::spec_relay_outcome(outcome) matches Err(e) && e.spec_status_code() == 500),
        outcome matches UpstreamOutcome::ReadFailure { .. } ==> (
        crate::relay::spec_relay_outcome(outcome) matches Err(e) && e.spec_status_code() == 500),
        outcome matches UpstreamOutcome::Response { status, content_type, body } ==> (
        crate::relay::spec_relay_outcome(outcome) matches Ok(out) && out.status == status
            && out.content_type == content_type && out.body == body),
{
}

} // verus!
