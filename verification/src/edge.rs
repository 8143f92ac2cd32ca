//! The edge data model: the persisted unit, its mathematical view, the
//! ephemeral-marker test, and the sequence-level spec functions and lemmas
//! that the rest of the library states its contracts with.

use vstd::prelude::*;
use vstd::string::*;

verus! {

/// One directed, labeled edge between two node identifiers.  `no` is the
/// ordering number recorded with each row; the verified model keeps rows in
/// insertion order, with which the library's number assignment agrees, so the
/// view tracks only the three identifier strings.
pub struct Edge {
    pub id: String,
    pub source: String,
    pub code: String,
    pub no: u64,
    pub target: String,
}

/// Mathematical model of one edge.
#[verifier::ext_equal]
pub ghost struct EdgeM {
    pub source: Seq<char>,
    pub code: Seq<char>,
    pub target: Seq<char>,
}

impl View for Edge {
    type V = EdgeM;

    open spec fn view(&self) -> EdgeM {
        EdgeM { source: self.source@, code: self.code@, target: self.target@ }
    }
}

impl Clone for Edge {
    fn clone(&self) -> (r: Edge)
        ensures
            r@ == self@,
            r.no == self.no,
            r.id@ == self.id@,
    {
        Edge {
            id: self.id.clone(),
            source: self.source.clone(),
            code: self.code.clone(),
            no: self.no,
            target: self.target.clone(),
        }
    }
}

/// The errors this library can report.
#[derive(Debug, PartialEq, Eq, Structural, Clone, Copy)]
pub enum EdgeError {
    /// A point lookup found no matching edge.
    NotFound,
    /// A raw path expression does not follow the arrow-label grammar.
    BadPath,
    /// The interpreter met an instruction code it does not implement.
    Unimplemented,
}

/// The view of a sequence of edges.
pub open spec fn edges_view(v: Seq<Edge>) -> Seq<EdgeM> {
    v.map_values(|e: Edge| e.view())
}

/// The view of a sequence of strings.
pub open spec fn strs_view(v: Seq<String>) -> Seq<Seq<char>> {
    v.map_values(|s: String| s.view())
}

/// A string carries the reserved sigil when its first character is `$`.
pub open spec fn has_sigil(s: Seq<char>) -> bool {
    s.len() > 0 && s[0] == '$'
}

/// An edge written with a sigil on any of its three parts is ephemeral.
pub open spec fn temp_m(source: Seq<char>, code: Seq<char>, target: Seq<char>) -> bool {
    has_sigil(source) || has_sigil(code) || has_sigil(target)
}

pub open spec fn edge_temp(e: EdgeM) -> bool {
    temp_m(e.source, e.code, e.target)
}

/// No edge of the sequence is ephemeral.
pub open spec fn clean_m(v: Seq<EdgeM>) -> bool {
    forall|i: int| 0 <= i < v.len() ==> !edge_temp(#[trigger] v[i])
}

fn sigil(s: &str) -> (r: bool)
    ensures
        r == has_sigil(s@),
{
    if s.is_empty() {
        false
    } else {
        s.get_char(0) == '$'
    }
}

/// Whether a write of `(source, code, target)` is ephemeral: it then lives
/// only in the staging session and never reaches the backing store.
pub fn is_temp(source: &str, code: &str, target: &str) -> (r: bool)
    ensures
        r == temp_m(source@, code@, target@),
{
    sigil(source) || sigil(code) || sigil(target)
}

/// String equality, stated over the views.
pub fn str_eq(a: &str, b: &str) -> (r: bool)
    ensures
        r == (a@ == b@),
{
    let x: String = a.to_owned();
    let y: String = b.to_owned();
    x == y
}

pub open spec fn key_match(e: EdgeM, source: Seq<char>, code: Seq<char>) -> bool {
    e.source == source && e.code == code
}

pub open spec fn src_match(e: EdgeM, code: Seq<char>, target: Seq<char>) -> bool {
    e.code == code && e.target == target
}

/// The targets of the edges under `(source, code)`, in row order.
pub open spec fn targets_m(v: Seq<EdgeM>, source: Seq<char>, code: Seq<char>) -> Seq<Seq<char>>
    decreases v.len(),
{
    if v.len() == 0 {
        Seq::empty()
    } else {
        let r = targets_m(v.drop_last(), source, code);
        if key_match(v.last(), source, code) {
            r.push(v.last().target)
        } else {
            r
        }
    }
}

/// The sources of the edges under `(code, target)`, in row order.
pub open spec fn sources_m(v: Seq<EdgeM>, code: Seq<char>, target: Seq<char>) -> Seq<Seq<char>>
    decreases v.len(),
{
    if v.len() == 0 {
        Seq::empty()
    } else {
        let r = sources_m(v.drop_last(), code, target);
        if src_match(v.last(), code, target) {
            r.push(v.last().source)
        } else {
            r
        }
    }
}

/// The last edge of the sequence under `(source, code)`, if any.
pub open spec fn last_match_m(v: Seq<EdgeM>, source: Seq<char>, code: Seq<char>) -> Option<EdgeM>
    decreases v.len(),
{
    if v.len() == 0 {
        None
    } else if key_match(v.last(), source, code) {
        Some(v.last())
    } else {
        last_match_m(v.drop_last(), source, code)
    }
}

/// The first edge of the sequence under `(source, code)`, if any.
pub open spec fn first_match_m(v: Seq<EdgeM>, source: Seq<char>, code: Seq<char>) -> Option<EdgeM>
    decreases v.len(),
{
    if v.len() == 0 {
        None
    } else if key_match(v.first(), source, code) {
        Some(v.first())
    } else {
        first_match_m(v.drop_first(), source, code)
    }
}

/// The last edge of the sequence under `(code, target)`, if any.
pub open spec fn last_match_src_m(v: Seq<EdgeM>, code: Seq<char>, target: Seq<char>) -> Option<EdgeM>
    decreases v.len(),
{
    if v.len() == 0 {
        None
    } else if src_match(v.last(), code, target) {
        Some(v.last())
    } else {
        last_match_src_m(v.drop_last(), code, target)
    }
}

/// The first edge of the sequence under `(code, target)`, if any.
pub open spec fn first_match_src_m(v: Seq<EdgeM>, code: Seq<char>, target: Seq<char>) -> Option<EdgeM>
    decreases v.len(),
{
    if v.len() == 0 {
        None
    } else if src_match(v.first(), code, target) {
        Some(v.first())
    } else {
        first_match_src_m(v.drop_first(), code, target)
    }
}

/// The sequence with every edge under `(source, code)` removed.
pub open spec fn remove_key_m(v: Seq<EdgeM>, source: Seq<char>, code: Seq<char>) -> Seq<EdgeM>
    decreases v.len(),
{
    if v.len() == 0 {
        Seq::empty()
    } else {
        let r = remove_key_m(v.drop_last(), source, code);
        if key_match(v.last(), source, code) {
            r
        } else {
            r.push(v.last())
        }
    }
}

/// The sequence with every edge touching `point` (as source or target) removed.
pub open spec fn remove_point_m(v: Seq<EdgeM>, point: Seq<char>) -> Seq<EdgeM>
    decreases v.len(),
{
    if v.len() == 0 {
        Seq::empty()
    } else {
        let r = remove_point_m(v.drop_last(), point);
        if v.last().source == point || v.last().target == point {
            r
        } else {
            r.push(v.last())
        }
    }
}

/// The sequence with every edge labeled `code` removed.
pub open spec fn remove_code_m(v: Seq<EdgeM>, code: Seq<char>) -> Seq<EdgeM>
    decreases v.len(),
{
    if v.len() == 0 {
        Seq::empty()
    } else {
        let r = remove_code_m(v.drop_last(), code);
        if v.last().code == code {
            r
        } else {
            r.push(v.last())
        }
    }
}

/// Whether some edge of `v` leaves `source` under the label `code`.
pub open spec fn has_key_m(v: Seq<EdgeM>, source: Seq<char>, code: Seq<char>) -> bool {
    exists|i: int| 0 <= i < v.len() && key_match(#[trigger] v[i], source, code)
}

/// The sequence with every edge labeled `code` removed whose source node has
/// no outgoing `source_code`-labeled edge in `orig`.
pub open spec fn remove_cws_m(
    v: Seq<EdgeM>,
    orig: Seq<EdgeM>,
    code: Seq<char>,
    source_code: Seq<char>,
) -> Seq<EdgeM>
    decreases v.len(),
{
    if v.len() == 0 {
        Seq::empty()
    } else {
        let r = remove_cws_m(v.drop_last(), orig, code, source_code);
        if v.last().code == code && !has_key_m(orig, v.last().source, source_code) {
            r
        } else {
            r.push(v.last())
        }
    }
}

/// The sequence with every edge labeled `code` removed whose target node has
/// no outgoing `target_code`-labeled edge in `orig`.
pub open spec fn remove_cwt_m(
    v: Seq<EdgeM>,
    orig: Seq<EdgeM>,
    code: Seq<char>,
    target_code: Seq<char>,
) -> Seq<EdgeM>
    decreases v.len(),
{
    if v.len() == 0 {
        Seq::empty()
    } else {
        let r = remove_cwt_m(v.drop_last(), orig, code, target_code);
        if v.last().code == code && !has_key_m(orig, v.last().target, target_code) {
            r
        } else {
            r.push(v.last())
        }
    }
}

/// Reading targets distributes over concatenation.
pub proof fn lemma_targets_concat(a: Seq<EdgeM>, b: Seq<EdgeM>, source: Seq<char>, code: Seq<char>)
    ensures
        targets_m(a + b, source, code) == targets_m(a, source, code) + targets_m(b, source, code),
    decreases b.len(),
{
    if b.len() == 0 {
        assert(a + b =~= a);
        assert(targets_m(a, source, code) + targets_m(b, source, code) =~= targets_m(
            a,
            source,
            code,
        ));
    } else {
        lemma_targets_concat(a, b.drop_last(), source, code);
        assert((a + b).drop_last() =~= a + b.drop_last());
        assert((a + b).last() == b.last());
        if key_match(b.last(), source, code) {
            assert(targets_m(a, source, code) + targets_m(b.drop_last(), source, code).push(
                b.last().target,
            ) =~= (targets_m(a, source, code) + targets_m(b.drop_last(), source, code)).push(
                b.last().target,
            ));
        }
    }
}

/// After removing a key, no targets remain under it; every other key is
/// untouched.
pub proof fn lemma_targets_remove_key(
    v: Seq<EdgeM>,
    source: Seq<char>,
    code: Seq<char>,
    s2: Seq<char>,
    c2: Seq<char>,
)
    ensures
        targets_m(remove_key_m(v, source, code), source, code) == Seq::<Seq<char>>::empty(),
        !(s2 == source && c2 == code) ==> targets_m(remove_key_m(v, source, code), s2, c2)
            == targets_m(v, s2, c2),
    decreases v.len(),
{
    if v.len() > 0 {
        lemma_targets_remove_key(v.drop_last(), source, code, s2, c2);
        let r = remove_key_m(v.drop_last(), source, code);
        if !key_match(v.last(), source, code) {
            assert(r.push(v.last()).drop_last() =~= r);
            assert(r.push(v.last()).last() == v.last());
        }
    }
}

/// How appending a row moves the first match: a found match is unmoved; on
/// a miss the appended row answers exactly when it matches.
pub proof fn lemma_first_match_push(v: Seq<EdgeM>, e: EdgeM, source: Seq<char>, code: Seq<char>)
    ensures
        first_match_m(v, source, code) is Some ==> first_match_m(v.push(e), source, code)
            == first_match_m(v, source, code),
        first_match_m(v, source, code) is None && key_match(e, source, code) ==> first_match_m(
            v.push(e),
            source,
            code,
        ) == Some(e),
        first_match_m(v, source, code) is None && !key_match(e, source, code) ==> first_match_m(
            v.push(e),
            source,
            code,
        ) is None,
    decreases v.len(),
{
    if v.len() == 0 {
        assert(v.push(e).first() == e);
        assert(v.push(e).drop_first() =~= Seq::<EdgeM>::empty());
    } else {
        assert(v.push(e).first() == v.first());
        assert(v.push(e).drop_first() =~= v.drop_first().push(e));
        lemma_first_match_push(v.drop_first(), e, source, code);
    }
}

/// The `(code, target)`-keyed mirror of `lemma_first_match_push`.
pub proof fn lemma_first_match_src_push(v: Seq<EdgeM>, e: EdgeM, code: Seq<char>, target: Seq<char>)
    ensures
        first_match_src_m(v, code, target) is Some ==> first_match_src_m(v.push(e), code, target)
            == first_match_src_m(v, code, target),
        first_match_src_m(v, code, target) is None && src_match(e, code, target)
            ==> first_match_src_m(v.push(e), code, target) == Some(e),
        first_match_src_m(v, code, target) is None && !src_match(e, code, target)
            ==> first_match_src_m(v.push(e), code, target) is None,
    decreases v.len(),
{
    if v.len() == 0 {
        assert(v.push(e).first() == e);
        assert(v.push(e).drop_first() =~= Seq::<EdgeM>::empty());
    } else {
        assert(v.push(e).first() == v.first());
        assert(v.push(e).drop_first() =~= v.drop_first().push(e));
        lemma_first_match_src_push(v.drop_first(), e, code, target);
    }
}

/// The last match of a concatenation is the last match of the right part,
/// or of the left part when the right has none.
pub proof fn lemma_last_match_concat(a: Seq<EdgeM>, b: Seq<EdgeM>, source: Seq<char>, code: Seq<char>)
    ensures
        last_match_m(a + b, source, code) == if last_match_m(b, source, code) is Some {
            last_match_m(b, source, code)
        } else {
            last_match_m(a, source, code)
        },
    decreases b.len(),
{
    if b.len() == 0 {
        assert(a + b =~= a);
    } else {
        lemma_last_match_concat(a, b.drop_last(), source, code);
        assert((a + b).drop_last() =~= a + b.drop_last());
        assert((a + b).last() == b.last());
    }
}

/// The last match of a concatenation, keyed by `(code, target)`.
pub proof fn lemma_last_match_src_concat(
    a: Seq<EdgeM>,
    b: Seq<EdgeM>,
    code: Seq<char>,
    target: Seq<char>,
)
    ensures
        last_match_src_m(a + b, code, target) == if last_match_src_m(b, code, target) is Some {
            last_match_src_m(b, code, target)
        } else {
            last_match_src_m(a, code, target)
        },
    decreases b.len(),
{
    if b.len() == 0 {
        assert(a + b =~= a);
    } else {
        lemma_last_match_src_concat(a, b.drop_last(), code, target);
        assert((a + b).drop_last() =~= a + b.drop_last());
        assert((a + b).last() == b.last());
    }
}

/// A clean sequence stays clean when a clean edge is appended.
pub proof fn lemma_clean_push(v: Seq<EdgeM>, e: EdgeM)
    requires
        clean_m(v),
        !edge_temp(e),
    ensures
        clean_m(v.push(e)),
{
    assert forall|i: int| 0 <= i < v.push(e).len() implies !edge_temp(#[trigger] v.push(e)[i]) by {
        if i < v.len() {
            assert(v.push(e)[i] == v[i]);
        }
    }
}

/// Removing edges keeps a sequence clean.
pub proof fn lemma_clean_remove_key(v: Seq<EdgeM>, source: Seq<char>, code: Seq<char>)
    requires
        clean_m(v),
    ensures
        clean_m(remove_key_m(v, source, code)),
    decreases v.len(),
{
    if v.len() > 0 {
        assert(clean_m(v.drop_last()));
        lemma_clean_remove_key(v.drop_last(), source, code);
        if !key_match(v.last(), source, code) {
            lemma_clean_push(remove_key_m(v.drop_last(), source, code), v.last());
        }
    }
}

/// Removing edges keeps a sequence clean.
pub proof fn lemma_clean_remove_point(v: Seq<EdgeM>, point: Seq<char>)
    requires
        clean_m(v),
    ensures
        clean_m(remove_point_m(v, point)),
    decreases v.len(),
{
    if v.len() > 0 {
        assert(clean_m(v.drop_last()));
        lemma_clean_remove_point(v.drop_last(), point);
        if !(v.last().source == point || v.last().target == point) {
            lemma_clean_push(remove_point_m(v.drop_last(), point), v.last());
        }
    }
}

/// Removing edges keeps a sequence clean.
pub proof fn lemma_clean_remove_code(v: Seq<EdgeM>, code: Seq<char>)
    requires
        clean_m(v),
    ensures
        clean_m(remove_code_m(v, code)),
    decreases v.len(),
{
    if v.len() > 0 {
        assert(clean_m(v.drop_last()));
        lemma_clean_remove_code(v.drop_last(), code);
        if !(v.last().code == code) {
            lemma_clean_push(remove_code_m(v.drop_last(), code), v.last());
        }
    }
}

/// Removing edges keeps a sequence clean.
pub proof fn lemma_clean_remove_cws(
    v: Seq<EdgeM>,
    orig: Seq<EdgeM>,
    code: Seq<char>,
    source_code: Seq<char>,
)
    requires
        clean_m(v),
    ensures
        clean_m(remove_cws_m(v, orig, code, source_code)),
    decreases v.len(),
{
    if v.len() > 0 {
        assert(clean_m(v.drop_last()));
        lemma_clean_remove_cws(v.drop_last(), orig, code, source_code);
        if !(v.last().code == code && !has_key_m(orig, v.last().source, source_code)) {
            lemma_clean_push(remove_cws_m(v.drop_last(), orig, code, source_code), v.last());
        }
    }
}

/// Removing edges keeps a sequence clean.
pub proof fn lemma_clean_remove_cwt(
    v: Seq<EdgeM>,
    orig: Seq<EdgeM>,
    code: Seq<char>,
    target_code: Seq<char>,
)
    requires
        clean_m(v),
    ensures
        clean_m(remove_cwt_m(v, orig, code, target_code)),
    decreases v.len(),
{
    if v.len() > 0 {
        assert(clean_m(v.drop_last()));
        lemma_clean_remove_cwt(v.drop_last(), orig, code, target_code);
        if !(v.last().code == code && !has_key_m(orig, v.last().target, target_code)) {
            lemma_clean_push(remove_cwt_m(v.drop_last(), orig, code, target_code), v.last());
        }
    }
}

/// Concatenating clean sequences gives a clean sequence.
pub proof fn lemma_clean_concat(a: Seq<EdgeM>, b: Seq<EdgeM>)
    requires
        clean_m(a),
        clean_m(b),
    ensures
        clean_m(a + b),
{
    assert forall|i: int| 0 <= i < (a + b).len() implies !edge_temp(#[trigger] (a + b)[i]) by {
        if i < a.len() {
            assert((a + b)[i] == a[i]);
        } else {
            assert((a + b)[i] == b[i - a.len()]);
        }
    }
}

/// A clean sequence holds nothing under a sigil-marked key.
pub proof fn lemma_clean_sigil_key_empty(v: Seq<EdgeM>, source: Seq<char>, code: Seq<char>)
    requires
        clean_m(v),
        has_sigil(source) || has_sigil(code),
    ensures
        targets_m(v, source, code) == Seq::<Seq<char>>::empty(),
    decreases v.len(),
{
    if v.len() > 0 {
        assert(clean_m(v.drop_last()));
        lemma_clean_sigil_key_empty(v.drop_last(), source, code);
        assert(!edge_temp(v.last()));
    }
}

} // verus!
