//! Store-level graph operations: point lookups, autovivifying ("anyway")
//! lookups that create a missing edge instead of failing, reassignment, and
//! raw path descent.  These work directly on the backing table.

use vstd::prelude::*;
use crate::edge::{
    EdgeError, EdgeM, first_match_m, first_match_src_m, remove_key_m, lemma_first_match_push,
    lemma_first_match_src_push,
};
use crate::store::EdgeStore;
use crate::path::{Dir, StepM, steps_view, parse_path, parse_path_m};

verus! {

/// The point a raw path descent reaches when every step finds its edge:
/// each step takes the first matching row, forward over targets, backward
/// over sources; `None` where some step finds nothing.
pub open spec fn eval_found_m(store: Seq<EdgeM>, point: Seq<char>, steps: Seq<StepM>) -> Option<
    Seq<char>,
>
    decreases steps.len(),
{
    if steps.len() == 0 {
        Some(point)
    } else {
        let st = steps.first();
        let nxt = if st.forward {
            match first_match_m(store, point, st.code) {
                Some(e) => Some(e.target),
                None => None,
            }
        } else {
            match first_match_src_m(store, st.code, point) {
                Some(e) => Some(e.source),
                None => None,
            }
        };
        match nxt {
            Some(p) => eval_found_m(store, p, steps.drop_first()),
            None => None,
        }
    }
}

/// A found walk is unmoved by appending a row to the table.
proof fn lemma_eval_found_push(store: Seq<EdgeM>, e: EdgeM, p: Seq<char>, steps: Seq<StepM>)
    requires
        eval_found_m(store, p, steps) is Some,
    ensures
        eval_found_m(store.push(e), p, steps) == eval_found_m(store, p, steps),
    decreases steps.len(),
{
    if steps.len() > 0 {
        let st = steps.first();
        if st.forward {
            lemma_first_match_push(store, e, p, st.code);
            let q = first_match_m(store, p, st.code).unwrap().target;
            lemma_eval_found_push(store, e, q, steps.drop_first());
        } else {
            lemma_first_match_src_push(store, e, st.code, p);
            let q = first_match_src_m(store, st.code, p).unwrap().source;
            lemma_eval_found_push(store, e, q, steps.drop_first());
        }
    }
}

/// A found walk extends by one found step at its end.
proof fn lemma_eval_found_snoc(
    store: Seq<EdgeM>,
    p: Seq<char>,
    q: Seq<char>,
    q2: Seq<char>,
    steps: Seq<StepM>,
    st: StepM,
)
    requires
        eval_found_m(store, p, steps) == Some(q),
        st.forward ==> (first_match_m(store, q, st.code) matches Some(e) && e.target == q2),
        !st.forward ==> (first_match_src_m(store, st.code, q) matches Some(e) && e.source == q2),
    ensures
        eval_found_m(store, p, steps.push(st)) == Some(q2),
    decreases steps.len(),
{
    if steps.len() == 0 {
        let pushed = steps.push(st);
        assert(p == q);
        assert(pushed.first() == st);
        assert(pushed.drop_first() =~= Seq::<StepM>::empty());
        if st.forward {
            let e = first_match_m(store, q, st.code).unwrap();
            assert(e.target == q2);
            assert(eval_found_m(store, q2, pushed.drop_first()) == Some(q2));
        } else {
            let e = first_match_src_m(store, st.code, q).unwrap();
            assert(e.source == q2);
            assert(eval_found_m(store, q2, pushed.drop_first()) == Some(q2));
        }
    } else {
        assert(steps.push(st).first() == steps.first());
        assert(steps.push(st).drop_first() =~= steps.drop_first().push(st));
        let stf = steps.first();
        if stf.forward {
            let q1 = first_match_m(store, p, stf.code).unwrap().target;
            lemma_eval_found_snoc(store, q1, q, q2, steps.drop_first(), st);
        } else {
            let q1 = first_match_src_m(store, stf.code, p).unwrap().source;
            lemma_eval_found_snoc(store, q1, q, q2, steps.drop_first(), st);
        }
    }
}

/// A fresh node identifier.
///
/// Relies on `uuid::Uuid::new_v4` and its hyphenated rendering: a version-4
/// identifier drawn from the process's random source, formatted as 36
/// characters.  Nothing more is assumed of it; in particular no two calls are
/// assumed to differ.
#[verifier::external_body]
pub fn new_point() -> (r: String)
    ensures
        r@.len() == 36,
{
    uuid::Uuid::new_v4().to_string()
}

/// Insert the edge `source --code--> target` with a fresh identifier, which
/// is returned.
pub fn insert_edge(store: &mut EdgeStore, source: &str, code: &str, target: &str) -> (r: String)
    ensures
        final(store)@ == old(store)@.push(
            EdgeM { source: source@, code: code@, target: target@ },
        ),
{
    let id = new_point();
    let out = id.clone();
    store.append_edge(id, source, code, target);
    out
}

/// The target of the first edge under `(source, code)`, or `NotFound`.
pub fn get_target(store: &EdgeStore, source: &str, code: &str) -> (r: Result<String, EdgeError>)
    ensures
        (r is Ok) == (first_match_m(store@, source@, code@) is Some),
        r matches Ok(t) ==> first_match_m(store@, source@, code@) matches Some(e) && e.target
            == t@,
        r matches Err(k) ==> k == EdgeError::NotFound,
{
    match store.select_target(source, code) {
        Some(e) => Ok(e.target),
        None => Err(EdgeError::NotFound),
    }
}

/// The source of the first edge under `(code, target)`, or `NotFound`.
pub fn get_source(store: &EdgeStore, code: &str, target: &str) -> (r: Result<String, EdgeError>)
    ensures
        (r is Ok) == (first_match_src_m(store@, code@, target@) is Some),
        r matches Ok(s) ==> first_match_src_m(store@, code@, target@) matches Some(e) && e.source
            == s@,
        r matches Err(k) ==> k == EdgeError::NotFound,
{
    match store.select_source(code, target) {
        Some(e) => Ok(e.source),
        None => Err(EdgeError::NotFound),
    }
}

/// The target under `(source, code)` if one exists; otherwise a fresh node is
/// created, the edge to it inserted, and the fresh node returned.
pub fn get_target_anyway(store: &mut EdgeStore, source: &str, code: &str) -> (r: String)
    ensures
        first_match_m(old(store)@, source@, code@) matches Some(e) ==> r@ == e.target
            && final(store)@ == old(store)@,
        first_match_m(old(store)@, source@, code@) is None ==> final(store)@ == old(store)@.push(
            EdgeM { source: source@, code: code@, target: r@ },
        ),
{
    match store.select_target(source, code) {
        Some(e) => e.target,
        None => {
            let target = new_point();
            insert_edge(store, source, code, target.as_str());
            target
        },
    }
}

/// The source under `(code, target)` if one exists; otherwise a fresh node is
/// created, the edge from it inserted, and the fresh node returned.
pub fn get_source_anyway(store: &mut EdgeStore, code: &str, target: &str) -> (r: String)
    ensures
        first_match_src_m(old(store)@, code@, target@) matches Some(e) ==> r@ == e.source
            && final(store)@ == old(store)@,
        first_match_src_m(old(store)@, code@, target@) is None ==> final(store)@ == old(
            store,
        )@.push(EdgeM { source: r@, code: code@, target: target@ }),
{
    match store.select_source(code, target) {
        Some(e) => e.source,
        None => {
            let source = new_point();
            insert_edge(store, source.as_str(), code, target);
            source
        },
    }
}

/// Replace every edge under `(source, code)` with the single edge to
/// `target`; the new edge's identifier is returned.
pub fn set_target(store: &mut EdgeStore, source: &str, code: &str, target: &str) -> (r: String)
    ensures
        final(store)@ == remove_key_m(old(store)@, source@, code@).push(
            EdgeM { source: source@, code: code@, target: target@ },
        ),
{
    delete_code(store, source, code);
    insert_edge(store, source, code, target)
}

/// Resolve a raw path from `root`, one step at a time, autovivifying: a step
/// whose edge exists follows it; one whose edge is missing creates it toward
/// a fresh node.  `BadPath` exactly where the text is not a chain of
/// arrow-label steps; the table only ever grows, and a path found at every
/// step leaves it untouched.
pub fn get(store: &mut EdgeStore, root: &str, path: &str) -> (r: Result<String, EdgeError>)
    ensures
        (r is Ok) == (parse_path_m(path@) is Some),
        r matches Err(k) ==> k == EdgeError::BadPath && final(store)@ == old(store)@,
        old(store)@.len() <= final(store)@.len(),
        final(store)@.take(old(store)@.len() as int) == old(store)@,
        parse_path_m(path@) matches Some(steps) ==> (eval_found_m(old(store)@, root@, steps)
            matches Some(p) ==> final(store)@ == old(store)@ && (r matches Ok(t) && t@ == p)),
        parse_path_m(path@) matches Some(steps) ==> (r matches Ok(t) ==> eval_found_m(
            final(store)@,
            root@,
            steps,
        ) == Some(t@)),
{
    let parsed = parse_path(path);
    match parsed {
        None => {
            proof {
                assert(store@.take(store@.len() as int) =~= store@);
            }
            Err(EdgeError::BadPath)
        },
        Some(steps) => {
            let ghost stv = steps_view(steps@);
            let ghost store0 = store@;
            let mut cur: String = root.to_owned();
            let n = steps.len();
            let mut i: usize = 0;
            proof {
                assert(stv.skip(0) =~= stv);
                assert(stv.take(0) =~= Seq::<StepM>::empty());
            }
            while i < n
                invariant
                    i <= n,
                    n == steps@.len(),
                    stv == steps_view(steps@),
                    store0 == old(store)@,
                    store0.len() <= store@.len(),
                    store@.take(store0.len() as int) == store0,
                    eval_found_m(store@, root@, stv.take(i as int)) == Some(cur@),
                    eval_found_m(store0, root@, stv) matches Some(p) ==> store@ == store0
                        && eval_found_m(store@, cur@, stv.skip(i as int)) == Some(p),
                decreases n - i,
            {
                let st = &steps[i];
                proof {
                    assert(stv.skip(i as int).first() == stv[i as int]);
                    assert(stv.skip(i as int).drop_first() =~= stv.skip(i as int + 1));
                    assert(stv[i as int] == steps@[i as int]@);
                }
                let ghost prev = store@;
                let ghost prev_cur = cur@;
                let nxt = match st.dir {
                    Dir::Forward => get_target_anyway(store, cur.as_str(), st.code.as_str()),
                    Dir::Backward => get_source_anyway(store, st.code.as_str(), cur.as_str()),
                };
                proof {
                    assert(store@.take(store0.len() as int) =~= store0) by {
                        assert(prev.take(store0.len() as int) == store0);
                        if store@ != prev {
                            assert(forall|k: int|
                                0 <= k < store0.len() ==> store@[k] == prev[k]);
                        }
                    }
                    let stm = stv[i as int];
                    if stm.forward {
                        if first_match_m(prev, prev_cur, stm.code) is None {
                            let em = EdgeM { source: prev_cur, code: stm.code, target: nxt@ };
                            lemma_eval_found_push(prev, em, root@, stv.take(i as int));
                            lemma_first_match_push(prev, em, prev_cur, stm.code);
                        }
                        lemma_eval_found_snoc(store@, root@, prev_cur, nxt@, stv.take(i as int),
                            stm);
                    } else {
                        if first_match_src_m(prev, stm.code, prev_cur) is None {
                            let em = EdgeM { source: nxt@, code: stm.code, target: prev_cur };
                            lemma_eval_found_push(prev, em, root@, stv.take(i as int));
                            lemma_first_match_src_push(prev, em, stm.code, prev_cur);
                        }
                        lemma_eval_found_snoc(store@, root@, prev_cur, nxt@, stv.take(i as int),
                            stm);
                    }
                    assert(stv.take(i as int).push(stm) =~= stv.take(i as int + 1));
                }
                cur = nxt;
                i = i + 1;
            }
            proof {
                assert(stv.skip(n as int) =~= Seq::<StepM>::empty());
            }
            Ok(cur)
        },
    }
}

/// Delete every edge under `(source, code)`.
pub fn delete_code(store: &mut EdgeStore, source: &str, code: &str)
    ensures
        final(store)@ == remove_key_m(old(store)@, source@, code@),
{
    store.delete_source_code(source, code);
}

} // verus!
