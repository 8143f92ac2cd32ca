//! The instruction interpreter: a stack-less machine over an ordered
//! sequence of `(source, code, target)` instructions.  Before dispatch each
//! operand that is a raw path expression is resolved against the current
//! root; the resolved `code` selects the opcode.  The run halts on `return`
//! (yielding its target) or past the end (yielding the empty string); an
//! unrecognized opcode fails fast with `Unimplemented`.

use vstd::prelude::*;
use crate::edge::{EdgeM, EdgeError, remove_point_m, remove_code_m, remove_cws_m, remove_cwt_m, str_eq, temp_m, last_match_m};
use crate::data::{
    AsDataManager, DataManager, DmView, wf, committed, mem_seq, point_target, point_source,
    reads_rel, push_temp_rel, push_staged_rel, set_temp_rel, set_staged_rel, commit_rel,
};
use crate::graph::new_point;
use crate::path::{Dir, StepM, steps_view, parse_path, parse_path_m, is_path_expr, starts_with_arrow};

verus! {

broadcast use vstd::string::group_string_axioms;

/// One instruction: `code` names the opcode once resolved, `source` and
/// `target` are its operands.
pub struct Inc {
    pub source: String,
    pub code: String,
    pub target: String,
}

/// Mathematical model of one instruction.
#[verifier::ext_equal]
pub ghost struct IncM {
    pub source: Seq<char>,
    pub code: Seq<char>,
    pub target: Seq<char>,
}

impl View for Inc {
    type V = IncM;

    open spec fn view(&self) -> IncM {
        IncM { source: self.source@, code: self.code@, target: self.target@ }
    }
}

/// What one instruction asks of the machine: move the instruction pointer,
/// or halt yielding a value.
pub enum InvokeResult {
    Jump(i32),
    Return(String),
}

/// What one autovivifying forward lookup does: a hit returns the looked-up
/// target and at most warms the cache; a miss records the edge toward the
/// returned point, ephemerally or staged by its classification.
pub open spec fn anyway_target_rel(
    a: DmView,
    b: DmView,
    point: Seq<char>,
    code: Seq<char>,
    out: Seq<char>,
) -> bool {
    match point_target(a, point, code) {
        Some(t) => out == t && reads_rel(a, b),
        None => if temp_m(point, code, out) {
            push_temp_rel(a, b, EdgeM { source: point, code, target: out })
        } else {
            push_staged_rel(a, b, EdgeM { source: point, code, target: out })
        },
    }
}

/// The backward mirror: a miss records the edge from the returned point.
pub open spec fn anyway_source_rel(
    a: DmView,
    b: DmView,
    code: Seq<char>,
    point: Seq<char>,
    out: Seq<char>,
) -> bool {
    match point_source(a, code, point) {
        Some(sv) => out == sv && reads_rel(a, b),
        None => if temp_m(out, code, point) {
            push_temp_rel(a, b, EdgeM { source: out, code, target: point })
        } else {
            push_staged_rel(a, b, EdgeM { source: out, code, target: point })
        },
    }
}

/// One step of an autovivifying walk, by direction.
pub open spec fn walk_step_rel(a: DmView, b: DmView, point: Seq<char>, st: StepM, out: Seq<char>) -> bool {
    if st.forward {
        anyway_target_rel(a, b, point, st.code, out)
    } else {
        anyway_source_rel(a, b, st.code, point, out)
    }
}

/// An autovivifying walk from `p` along `steps`, ending at `out`: a chain of
/// single-step relations through intermediate sessions.
pub open spec fn walk_rel(a: DmView, b: DmView, p: Seq<char>, out: Seq<char>, steps: Seq<StepM>) -> bool
    decreases steps.len(),
{
    if steps.len() == 0 {
        b == a && out == p
    } else {
        exists|m: DmView, q: Seq<char>|
            #[trigger] walk_step_rel(a, m, p, steps.first(), q) && walk_rel(
                m,
                b,
                q,
                out,
                steps.drop_first(),
            )
    }
}

/// A walk extends by one step at its end.
proof fn lemma_walk_snoc(
    a: DmView,
    m: DmView,
    b: DmView,
    p: Seq<char>,
    q: Seq<char>,
    out: Seq<char>,
    steps: Seq<StepM>,
    st: StepM,
)
    requires
        walk_rel(a, m, p, q, steps),
        walk_step_rel(m, b, q, st, out),
    ensures
        walk_rel(a, b, p, out, steps.push(st)),
    decreases steps.len(),
{
    assert(steps.push(st).len() > 0);
    if steps.len() == 0 {
        assert(steps.push(st).first() == st);
        assert(steps.push(st).drop_first() =~= Seq::<StepM>::empty());
        assert(walk_step_rel(a, b, p, steps.push(st).first(), out));
        assert(walk_rel(b, b, out, out, steps.push(st).drop_first()));
    } else {
        let (m1, q1) = choose|m1: DmView, q1: Seq<char>|
            #[trigger] walk_step_rel(a, m1, p, steps.first(), q1) && walk_rel(
                m1,
                m,
                q1,
                q,
                steps.drop_first(),
            );
        lemma_walk_snoc(m1, m, b, q1, q, out, steps.drop_first(), st);
        assert(steps.push(st).first() == steps.first());
        assert(steps.push(st).drop_first() =~= steps.drop_first().push(st));
        assert(walk_step_rel(a, m1, p, steps.push(st).first(), q1) && walk_rel(
            m1,
            b,
            q1,
            out,
            steps.push(st).drop_first(),
        ));
    }
}

/// What resolving one operand does: a literal passes through with the
/// session untouched; a path expression is walked with autovivification.
pub open spec fn value_rel(
    a: DmView,
    b: DmView,
    root: Seq<char>,
    value: Seq<char>,
    out: Seq<char>,
) -> bool {
    if !is_path_expr(value) {
        b == a && out == value
    } else {
        match parse_path_m(value) {
            Some(steps) => walk_rel(a, b, root, out, steps),
            None => false,
        }
    }
}

/// What resolving a whole instruction does: its three operands in order,
/// through intermediate sessions.
pub open spec fn resolve_rel(a: DmView, b: DmView, root: Seq<char>, i: IncM, v: IncM) -> bool {
    exists|m1: DmView, m2: DmView|
        value_rel(a, m1, root, i.source, v.source) && #[trigger] value_rel(
            m1,
            m2,
            root,
            i.code,
            v.code,
        ) && value_rel(m2, b, root, i.target, v.target)
}

/// The target under `(source, code)` through the staging gateway, creating
/// the edge toward a fresh node when the lookup misses.
fn target_anyway(dm: &mut DataManager, source: &str, code: &str) -> (r: String)
    ensures
        wf(old(dm)@) ==> wf(final(dm)@),
        anyway_target_rel(old(dm)@, final(dm)@, source@, code@, r@),
{
    proof {
        if point_target(dm@, source@, code@) is None {
            assert(last_match_m(mem_seq(dm@), source@, code@) is None);
        }
    }
    match dm.get_target(source, code) {
        Ok(t) => t,
        Err(_) => {
            proof {
                assert(dm@ =~= old(dm)@);
            }
            let p = new_point();
            dm.append_target(source, code, p.as_str());
            p
        },
    }
}

/// The source under `(code, target)` through the staging gateway, creating
/// the edge from a fresh node when the lookup misses.
fn source_anyway(dm: &mut DataManager, code: &str, target: &str) -> (r: String)
    ensures
        wf(old(dm)@) ==> wf(final(dm)@),
        anyway_source_rel(old(dm)@, final(dm)@, code@, target@, r@),
{
    match dm.get_source(code, target) {
        Ok(s) => s,
        Err(_) => {
            proof {
                assert(dm@ =~= old(dm)@);
            }
            let p = new_point();
            dm.append_target(p.as_str(), code, target);
            p
        },
    }
}

/// Resolve one operand: a value beginning with an arrow token is a raw path,
/// walked from `root` with autovivification; any other value passes through
/// unchanged.  `BadPath` exactly where a path operand is malformed.
pub fn unwrap_value(dm: &mut DataManager, root: &str, value: &str) -> (r: Result<
    String,
    EdgeError,
>)
    ensures
        wf(old(dm)@) ==> wf(final(dm)@),
        !is_path_expr(value@) ==> (r matches Ok(v) && v@ == value@) && final(dm)@ == old(dm)@,
        is_path_expr(value@) ==> ((r is Err) == (parse_path_m(value@) is None)),
        r matches Ok(v) ==> value_rel(old(dm)@, final(dm)@, root@, value@, v@),
        r matches Err(k) ==> k == EdgeError::BadPath,
{
    if !starts_with_arrow(value) {
        return Ok(value.to_owned());
    }
    match parse_path(value) {
        None => Err(EdgeError::BadPath),
        Some(steps) => {
            let ghost stv = steps_view(steps@);
            let mut cur: String = root.to_owned();
            let n = steps.len();
            let mut i: usize = 0;
            proof {
                assert(stv.take(0) =~= Seq::<StepM>::empty());
            }
            while i < n
                invariant
                    i <= n,
                    n == steps@.len(),
                    stv == steps_view(steps@),
                    parse_path_m(value@) == Some(stv),
                    wf(old(dm)@) ==> wf(dm@),
                    walk_rel(old(dm)@, dm@, root@, cur@, stv.take(i as int)),
                decreases n - i,
            {
                let st = &steps[i];
                let ghost pre = dm@;
                let ghost pre_cur = cur@;
                let nxt = match st.dir {
                    Dir::Forward => target_anyway(dm, cur.as_str(), st.code.as_str()),
                    Dir::Backward => source_anyway(dm, st.code.as_str(), cur.as_str()),
                };
                proof {
                    assert(stv[i as int] == steps@[i as int]@);
                    assert(walk_step_rel(pre, dm@, pre_cur, stv[i as int], nxt@));
                    lemma_walk_snoc(
                        old(dm)@,
                        pre,
                        dm@,
                        root@,
                        pre_cur,
                        nxt@,
                        stv.take(i as int),
                        stv[i as int],
                    );
                    assert(stv.take(i as int).push(stv[i as int]) =~= stv.take(i as int + 1));
                }
                cur = nxt;
                i = i + 1;
            }
            proof {
                assert(stv.take(n as int) =~= stv);
            }
            Ok(cur)
        },
    }
}

/// Resolve every operand of one instruction against the current root.
pub fn unwrap_inc(dm: &mut DataManager, root: &str, inc: &Inc) -> (r: Result<Inc, EdgeError>)
    ensures
        wf(old(dm)@) ==> wf(final(dm)@),
        (!is_path_expr(inc.source@) && !is_path_expr(inc.code@) && !is_path_expr(inc.target@))
            ==> (r matches Ok(v) && v@ == inc@) && final(dm)@ == old(dm)@,
        r matches Ok(v) ==> resolve_rel(old(dm)@, final(dm)@, root@, inc@, v@),
        r matches Err(k) ==> k == EdgeError::BadPath,
{
    let source = match unwrap_value(dm, root, inc.source.as_str()) {
        Ok(v) => v,
        Err(k) => {
            return Err(k);
        },
    };
    let ghost m1 = dm@;
    let code = match unwrap_value(dm, root, inc.code.as_str()) {
        Ok(v) => v,
        Err(k) => {
            return Err(k);
        },
    };
    let ghost m2 = dm@;
    let target = match unwrap_value(dm, root, inc.target.as_str()) {
        Ok(v) => v,
        Err(k) => {
            return Err(k);
        },
    };
    let out = Inc { source, code, target };
    proof {
        assert(value_rel(old(dm)@, m1, root@, inc@.source, out@.source));
        assert(value_rel(m1, m2, root@, inc@.code, out@.code));
        assert(value_rel(m2, dm@, root@, inc@.target, out@.target));
        assert(resolve_rel(old(dm)@, dm@, root@, inc@, out@));
    }
    Ok(out)
}

/// Render the durable fan-out under `target`, after a flush.  The shape of
/// the text is not part of this library's contract.
pub fn dump(dm: &mut DataManager, target: &str) -> (r: String)
    ensures
        commit_rel(old(dm)@, final(dm)@),
        wf(final(dm)@),
{
    dm.commit();
    dm.render_node(target)
}

/// The opcodes that advance the instruction pointer by one.
pub open spec fn advancing(code: Seq<char>) -> bool {
    ||| code == "dump"@
    ||| code == "asign"@
    ||| code == "set"@
    ||| code == "append"@
    ||| code == "delete"@
    ||| code == "dc"@
    ||| code == "dc_ns"@
    ||| code == "dc_nt"@
}

/// A durable point delete, after the flush it forces.
pub open spec fn del_point_rel(a: DmView, b: DmView, point: Seq<char>) -> bool {
    &&& b.store == remove_point_m(committed(a), point)
    &&& b.staged == Seq::<EdgeM>::empty()
    &&& b.cache == Seq::<EdgeM>::empty()
    &&& b.overwrites == Seq::<(Seq<char>, Seq<char>)>::empty()
    &&& b.temp == a.temp
}

/// A durable delete of one label, after the flush it forces.
pub open spec fn del_code_rel(a: DmView, b: DmView, code: Seq<char>) -> bool {
    &&& b.store == remove_code_m(committed(a), code)
    &&& b.staged == Seq::<EdgeM>::empty()
    &&& b.cache == Seq::<EdgeM>::empty()
    &&& b.overwrites == Seq::<(Seq<char>, Seq<char>)>::empty()
    &&& b.temp == a.temp
}

/// The conditional delete keyed by a source-side neighbor.
pub open spec fn cws_del_rel(a: DmView, b: DmView, code: Seq<char>, source_code: Seq<char>) -> bool {
    &&& b.store == remove_cws_m(committed(a), committed(a), code, source_code)
    &&& b.staged == Seq::<EdgeM>::empty()
    &&& b.cache == Seq::<EdgeM>::empty()
    &&& b.overwrites == Seq::<(Seq<char>, Seq<char>)>::empty()
    &&& b.temp == a.temp
}

/// The conditional delete keyed by a target-side neighbor.
pub open spec fn cwt_del_rel(a: DmView, b: DmView, code: Seq<char>, target_code: Seq<char>) -> bool {
    &&& b.store == remove_cwt_m(committed(a), committed(a), code, target_code)
    &&& b.staged == Seq::<EdgeM>::empty()
    &&& b.cache == Seq::<EdgeM>::empty()
    &&& b.overwrites == Seq::<(Seq<char>, Seq<char>)>::empty()
    &&& b.temp == a.temp
}

/// The whole `dc_ns` opcode: the `$code` and `$source_code` neighbors of the
/// request node are resolved with autovivification, then that label's edges
/// lacking that neighbor are deleted.
pub open spec fn cws_chain_rel(a: DmView, b: DmView, target: Seq<char>) -> bool {
    exists|m1: DmView, m2: DmView, c: Seq<char>, sc: Seq<char>|
        #![trigger anyway_target_rel(a, m1, target, "$code"@, c), anyway_target_rel(m1, m2, target, "$source_code"@, sc)]
        anyway_target_rel(a, m1, target, "$code"@, c) && anyway_target_rel(
            m1,
            m2,
            target,
            "$source_code"@,
            sc,
        ) && cws_del_rel(m2, b, c, sc)
}

/// The whole `dc_nt` opcode, the target-side mirror.
pub open spec fn cwt_chain_rel(a: DmView, b: DmView, target: Seq<char>) -> bool {
    exists|m1: DmView, m2: DmView, c: Seq<char>, tc: Seq<char>|
        #![trigger anyway_target_rel(a, m1, target, "$code"@, c), anyway_target_rel(m1, m2, target, "$target_code"@, tc)]
        anyway_target_rel(a, m1, target, "$code"@, c) && anyway_target_rel(
            m1,
            m2,
            target,
            "$target_code"@,
            tc,
        ) && cwt_del_rel(m2, b, c, tc)
}

/// What one advancing opcode does to the session, by its resolved code.
pub open spec fn dispatch_rel(a: DmView, b: DmView, root: Seq<char>, v: IncM) -> bool {
    &&& v.code == "dump"@ ==> commit_rel(a, b)
    &&& (v.code == "asign"@ || v.code == "set"@) ==> (temp_m(root, v.source, v.target)
        ==> set_temp_rel(a, b, EdgeM { source: root, code: v.source, target: v.target })) && (
    !temp_m(root, v.source, v.target) ==> set_staged_rel(
        a,
        b,
        EdgeM { source: root, code: v.source, target: v.target },
    ))
    &&& v.code == "append"@ ==> (temp_m(root, v.source, v.target) ==> push_temp_rel(
        a,
        b,
        EdgeM { source: root, code: v.source, target: v.target },
    )) && (!temp_m(root, v.source, v.target) ==> push_staged_rel(
        a,
        b,
        EdgeM { source: root, code: v.source, target: v.target },
    ))
    &&& v.code == "delete"@ ==> del_point_rel(a, b, v.target)
    &&& v.code == "dc"@ ==> del_code_rel(a, b, v.target)
    &&& v.code == "dc_ns"@ ==> cws_chain_rel(a, b, v.target)
    &&& v.code == "dc_nt"@ ==> cwt_chain_rel(a, b, v.target)
}

/// Execute one resolved instruction.  Dispatch goes by `code`:
///
/// * `return` halts, yielding `target`;
/// * every other known opcode advances the pointer by one, with the state
///   change `dispatch_rel` states: `dump` renders `target`'s durable fan-out
///   (its observable state change is the flush it forces; the text itself is
///   out of this library's contract), `set` and `asign` overwrite
///   `root --source--> target`, `append` appends it, `delete` removes the
///   point `target`, `dc` removes the label `target`, and `dc_ns`/`dc_nt`
///   resolve the `$code` and `$source_code` (or `$target_code`) neighbors of
///   `target` and remove that label's edges lacking that neighbor;
/// * anything else fails fast with `Unimplemented`.
pub fn invoke_inc(dm: &mut DataManager, root: &str, inc: &Inc) -> (r: Result<
    InvokeResult,
    EdgeError,
>)
    ensures
        wf(old(dm)@) ==> wf(final(dm)@),
        inc.code@ == "return"@ ==> final(dm)@ == old(dm)@ && (r matches Ok(
            InvokeResult::Return(s),
        ) && s@ == inc.target@),
        advancing(inc.code@) ==> (r matches Ok(InvokeResult::Jump(j)) && j == 1) && dispatch_rel(
            old(dm)@,
            final(dm)@,
            root@,
            inc@,
        ),
        !(inc.code@ == "return"@ || advancing(inc.code@)) ==> (r matches Err(k) && k
            == EdgeError::Unimplemented) && final(dm)@ == old(dm)@,
{
    proof {
        lemma_opcode_distinct();
    }
    if str_eq(inc.code.as_str(), "return") {
        Ok(InvokeResult::Return(inc.target.clone()))
    } else if str_eq(inc.code.as_str(), "dump") {
        dump(dm, inc.target.as_str());
        Ok(InvokeResult::Jump(1))
    } else if str_eq(inc.code.as_str(), "asign") {
        dm.set_target(root, inc.source.as_str(), inc.target.as_str());
        Ok(InvokeResult::Jump(1))
    } else if str_eq(inc.code.as_str(), "delete") {
        dm.delete(inc.target.as_str());
        Ok(InvokeResult::Jump(1))
    } else if str_eq(inc.code.as_str(), "dc") {
        dm.delete_code(inc.target.as_str());
        Ok(InvokeResult::Jump(1))
    } else if str_eq(inc.code.as_str(), "dc_ns") {
        let code = target_anyway(dm, inc.target.as_str(), "$code");
        let ghost m1 = dm@;
        let source_code = target_anyway(dm, inc.target.as_str(), "$source_code");
        let ghost m2 = dm@;
        dm.delete_code_without_source(code.as_str(), source_code.as_str());
        proof {
            assert(anyway_target_rel(old(dm)@, m1, inc.target@, "$code"@, code@));
            assert(anyway_target_rel(m1, m2, inc.target@, "$source_code"@, source_code@));
            assert(cws_del_rel(m2, dm@, code@, source_code@));
            assert(cws_chain_rel(old(dm)@, dm@, inc.target@));
        }
        Ok(InvokeResult::Jump(1))
    } else if str_eq(inc.code.as_str(), "dc_nt") {
        let code = target_anyway(dm, inc.target.as_str(), "$code");
        let ghost m1 = dm@;
        let target_code = target_anyway(dm, inc.target.as_str(), "$target_code");
        let ghost m2 = dm@;
        dm.delete_code_without_target(code.as_str(), target_code.as_str());
        proof {
            assert(anyway_target_rel(old(dm)@, m1, inc.target@, "$code"@, code@));
            assert(anyway_target_rel(m1, m2, inc.target@, "$target_code"@, target_code@));
            assert(cwt_del_rel(m2, dm@, code@, target_code@));
            assert(cwt_chain_rel(old(dm)@, dm@, inc.target@));
        }
        Ok(InvokeResult::Jump(1))
    } else if str_eq(inc.code.as_str(), "set") {
        dm.set_target(root, inc.source.as_str(), inc.target.as_str());
        Ok(InvokeResult::Jump(1))
    } else if str_eq(inc.code.as_str(), "append") {
        dm.append_target(root, inc.source.as_str(), inc.target.as_str());
        Ok(InvokeResult::Jump(1))
    } else {
        Err(EdgeError::Unimplemented)
    }
}

/// The nine opcode names denote nine different strings.
proof fn lemma_opcode_distinct()
    ensures
        "return"@ != "dump"@,
        "return"@ != "asign"@,
        "return"@ != "delete"@,
        "return"@ != "dc"@,
        "return"@ != "dc_ns"@,
        "return"@ != "dc_nt"@,
        "return"@ != "set"@,
        "return"@ != "append"@,
        "dump"@ != "asign"@,
        "dump"@ != "delete"@,
        "dump"@ != "dc"@,
        "dump"@ != "dc_ns"@,
        "dump"@ != "dc_nt"@,
        "dump"@ != "set"@,
        "dump"@ != "append"@,
        "asign"@ != "delete"@,
        "asign"@ != "dc"@,
        "asign"@ != "dc_ns"@,
        "asign"@ != "dc_nt"@,
        "asign"@ != "set"@,
        "asign"@ != "append"@,
        "delete"@ != "dc"@,
        "delete"@ != "dc_ns"@,
        "delete"@ != "dc_nt"@,
        "delete"@ != "set"@,
        "delete"@ != "append"@,
        "dc"@ != "dc_ns"@,
        "dc"@ != "dc_nt"@,
        "dc"@ != "set"@,
        "dc"@ != "append"@,
        "dc_ns"@ != "dc_nt"@,
        "dc_ns"@ != "set"@,
        "dc_ns"@ != "append"@,
        "dc_nt"@ != "set"@,
        "dc_nt"@ != "append"@,
        "set"@ != "append"@,
{
    reveal_strlit("return");
    reveal_strlit("dump");
    reveal_strlit("asign");
    reveal_strlit("delete");
    reveal_strlit("dc");
    reveal_strlit("dc_ns");
    reveal_strlit("dc_nt");
    reveal_strlit("set");
    reveal_strlit("append");
    assert("return"@.len() == 6);
    assert("dump"@.len() == 4);
    assert("asign"@.len() == 5);
    assert("delete"@.len() == 6);
    assert("dc"@.len() == 2);
    assert("dc_ns"@.len() == 5);
    assert("dc_nt"@.len() == 5);
    assert("set"@.len() == 3);
    assert("append"@.len() == 6);
    assert("return"@[0] == 'r');
    assert("dump"@[0] == 'd');
    assert("asign"@[0] == 'a');
    assert("delete"@[0] == 'd');
    assert("dc"@[0] == 'd');
    assert("dc_ns"@[0] == 'd');
    assert("dc_nt"@[0] == 'd');
    assert("set"@[0] == 's');
    assert("append"@[0] == 'a');
    assert("dc_ns"@[4] == 's');
    assert("dc_nt"@[4] == 't');
    assert("delete"@[1] == 'e');
    assert("dc"@[1] == 'c');
    assert("dc_ns"@[1] == 'c');
    assert("dc_nt"@[1] == 'c');
    assert("dump"@[1] == 'u');
}

/// The interpreter's run relation from position `pos`.  Past the end the
/// run yields the empty string with the session untouched.  Otherwise the
/// instruction there resolves (`resolve_rel`) and dispatches: a resolved
/// `return` halts with its target and no further instruction is touched; an
/// advancing opcode acts as `dispatch_rel` states and the run continues at
/// `pos + 1`; an unknown opcode halts with `Unimplemented`, the effects so
/// far kept.  A resolution failure halts with `BadPath`, keeping the effects
/// so far and well-formedness.
pub open spec fn run_rel(
    a: DmView,
    b: DmView,
    root: Seq<char>,
    incs: Seq<Inc>,
    pos: int,
    r: Result<String, EdgeError>,
) -> bool
    decreases incs.len() - pos
        when 0 <= pos <= incs.len()
{
    if pos == incs.len() {
        b == a && (r matches Ok(s) && s@ == Seq::<char>::empty())
    } else {
        ||| (exists|m: DmView, v: IncM|
            #[trigger] resolve_rel(a, m, root, incs[pos]@, v) && (if v.code == "return"@ {
                b == m && (r matches Ok(s) && s@ == v.target)
            } else if advancing(v.code) {
                exists|m2: DmView|
                    #[trigger] dispatch_rel(m, m2, root, v) && run_rel(
                        m2,
                        b,
                        root,
                        incs,
                        pos + 1,
                        r,
                    )
            } else {
                b == m && (r matches Err(k) && k == EdgeError::Unimplemented)
            }))
        ||| ((r matches Err(k) && k == EdgeError::BadPath) && (wf(a) ==> wf(b)))
    }
}

/// Whether a run's first instruction is a literal `return`, which the
/// machine answers without touching the graph.
pub open spec fn first_return_case(incs: Seq<Inc>) -> bool {
    &&& incs.len() > 0
    &&& !is_path_expr(incs[0].source@)
    &&& !is_path_expr(incs[0].code@)
    &&& !is_path_expr(incs[0].target@)
    &&& incs[0].code@ == "return"@
}

/// What an interpreter offers: running an instruction sequence against a
/// graph session, and flushing that session.
pub trait AsEdgeEngine: View<V = DmView> {
    /// Run an instruction sequence from the given root context.  Each step
    /// resolves its operands and dispatches as `invoke_inc` states; the run
    /// yields `return`'s target, or the empty string past the end.  The root
    /// is read, never rewritten.
    fn invoke_inc_v(&mut self, root: &mut String, inc_v: &Vec<Inc>) -> (r: Result<
        String,
        EdgeError,
    >)
        requires
            inc_v@.len() < 0x8000_0000,
        ensures
            final(root)@ == old(root)@,
            wf(old(self)@) ==> wf(final(self)@),
            run_rel(old(self)@, final(self)@, old(root)@, inc_v@, 0, r),
            inc_v@.len() == 0 ==> (r matches Ok(s) && s@ == Seq::<char>::empty()) && final(self)@
                == old(self)@,
            first_return_case(inc_v@) ==> (r matches Ok(s) && s@ == inc_v@[0].target@)
                && final(self)@ == old(self)@,
    ;

    /// Flush the session's staged writes.
    fn commit(&mut self)
        ensures
            commit_rel(old(self)@, final(self)@),
            wf(final(self)@),
    ;
}

/// The interpreter over one staging session.
pub struct EdgeEngine {
    dm: DataManager,
}

impl View for EdgeEngine {
    type V = DmView;

    closed spec fn view(&self) -> DmView {
        self.dm@
    }
}

impl EdgeEngine {
    pub fn new(dm: DataManager) -> (r: Self)
        ensures
            r@ == dm@,
    {
        EdgeEngine { dm }
    }

    /// End the engine's session, returning the gateway.
    pub fn into_dm(self) -> (r: DataManager)
        ensures
            r@ == self@,
    {
        self.dm
    }
}

impl AsEdgeEngine for EdgeEngine {
    fn invoke_inc_v(&mut self, root: &mut String, inc_v: &Vec<Inc>) -> (r: Result<
        String,
        EdgeError,
    >) {
        let mut pos: i32 = 0;
        let rs = String::new();
        let n = inc_v.len();
        while (pos as usize) < n
            invariant
                0 <= pos,
                pos as usize <= n,
                n == inc_v@.len(),
                n < 0x8000_0000,
                rs@ == Seq::<char>::empty(),
                root@ == old(root)@,
                wf(old(self)@) ==> wf(self@),
                inc_v@.len() == 0 ==> self@ == old(self)@,
                first_return_case(inc_v@) ==> pos == 0 && self@ == old(self)@,
                forall|bf: DmView, rr: Result<String, EdgeError>|
                    #[trigger] run_rel(self@, bf, old(root)@, inc_v@, pos as int, rr) ==> run_rel(
                        old(self)@,
                        bf,
                        old(root)@,
                        inc_v@,
                        0,
                        rr,
                    ),
            decreases n - pos,
        {
            let ghost pre = self@;
            let inc = match unwrap_inc(&mut self.dm, root.as_str(), &inc_v[pos as usize]) {
                Ok(v) => v,
                Err(k) => {
                    proof {
                        assert(run_rel(
                            pre,
                            self@,
                            old(root)@,
                            inc_v@,
                            pos as int,
                            Result::<String, EdgeError>::Err(k),
                        ));
                    }
                    return Err(k);
                },
            };
            let ghost m = self@;
            match invoke_inc(&mut self.dm, root.as_str(), &inc) {
                Ok(InvokeResult::Jump(step)) => {
                    proof {
                        assert forall|bf: DmView, rr: Result<String, EdgeError>|
                            #[trigger] run_rel(
                                self@,
                                bf,
                                old(root)@,
                                inc_v@,
                                pos as int + 1,
                                rr,
                            ) implies run_rel(pre, bf, old(root)@, inc_v@, pos as int, rr) by {
                            assert(resolve_rel(pre, m, old(root)@, inc_v@[pos as int]@, inc@));
                            assert(dispatch_rel(m, self@, old(root)@, inc@));
                            assert(run_rel(pre, bf, old(root)@, inc_v@, pos as int, rr));
                        }
                    }
                    pos = pos + step;
                },
                Ok(InvokeResult::Return(s)) => {
                    proof {
                        assert(resolve_rel(pre, m, old(root)@, inc_v@[pos as int]@, inc@));
                        assert(run_rel(
                            pre,
                            self@,
                            old(root)@,
                            inc_v@,
                            pos as int,
                            Result::<String, EdgeError>::Ok(s),
                        ));
                    }
                    return Ok(s);
                },
                Err(k) => {
                    proof {
                        assert(resolve_rel(pre, m, old(root)@, inc_v@[pos as int]@, inc@));
                        assert(run_rel(
                            pre,
                            self@,
                            old(root)@,
                            inc_v@,
                            pos as int,
                            Result::<String, EdgeError>::Err(k),
                        ));
                    }
                    return Err(k);
                },
            }
        }
        proof {
            assert(run_rel(
                self@,
                self@,
                old(root)@,
                inc_v@,
                pos as int,
                Result::<String, EdgeError>::Ok(rs),
            ));
        }
        Ok(rs)
    }

    fn commit(&mut self) {
        self.dm.commit();
    }
}

} // verus!
