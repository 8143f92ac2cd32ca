//! The backing table of durable edges: an in-memory, insertion-ordered table
//! with the point selects, ordered fan-out selects and bulk deletes that the
//! staging layer and the path resolver are built on.  Rows are kept in
//! insertion order; the layers above assign ordering numbers that grow with
//! insertion, so row order and ordering-number order agree for edges written
//! through them.  Point selects return the first matching row, a deterministic
//! tie-break when several edges share a key.

use vstd::prelude::*;
use vstd::string::StringExecFns;
use crate::edge::{
    Edge, EdgeM, edges_view, strs_view, str_eq, key_match, has_key_m, first_match_m, first_match_src_m,
    targets_m, sources_m, remove_key_m, remove_point_m, remove_code_m, remove_cws_m, remove_cwt_m,
};

verus! {

pub struct EdgeStore {
    rows: Vec<Edge>,
}

impl View for EdgeStore {
    type V = Seq<EdgeM>;

    closed spec fn view(&self) -> Seq<EdgeM> {
        edges_view(self.rows@)
    }
}

impl EdgeStore {
    pub fn new() -> (r: Self)
        ensures
            r@ == Seq::<EdgeM>::empty(),
    {
        let r = EdgeStore { rows: Vec::new() };
        proof {
            assert(r@ =~= Seq::<EdgeM>::empty());
        }
        r
    }

    /// One more than the greatest ordering number under `(source, code)`, or
    /// 0.  Ordering numbers are bookkeeping outside the verified model, which
    /// orders rows by insertion.
    pub(crate) fn next_no(&self, source: &str, code: &str) -> u64 {
        let mut max: u64 = 0;
        let mut seen = false;
        let n = self.rows.len();
        let mut i: usize = 0;
        while i < n
            invariant
                i <= n,
                n == self.rows.len(),
            decreases n - i,
        {
            let e = &self.rows[i];
            if str_eq(e.source.as_str(), source) && str_eq(e.code.as_str(), code) {
                if !seen || e.no > max {
                    max = e.no;
                }
                seen = true;
            }
            i = i + 1;
        }
        if !seen {
            0
        } else if max == u64::MAX {
            max
        } else {
            max + 1
        }
    }

    /// Insert one row with an explicit ordering number.
    pub fn insert(&mut self, id: String, source: &str, code: &str, no: u64, target: &str)
        ensures
            final(self)@ == old(self)@.push(
                EdgeM { source: source@, code: code@, target: target@ },
            ),
    {
        let e = Edge {
            id,
            source: source.to_owned(),
            code: code.to_owned(),
            no,
            target: target.to_owned(),
        };
        let ghost em = e@;
        self.rows.push(e);
        proof {
            assert(final(self)@ =~= old(self)@.push(em));
        }
    }

    /// Insert one row past the greatest ordering number of its key.
    pub fn append_edge(&mut self, id: String, source: &str, code: &str, target: &str)
        ensures
            final(self)@ == old(self)@.push(
                EdgeM { source: source@, code: code@, target: target@ },
            ),
    {
        let no = self.next_no(source, code);
        self.insert(id, source, code, no, target);
    }

    /// The first row under `(source, code)`, in insertion order.
    pub fn select_target(&self, source: &str, code: &str) -> (r: Option<Edge>)
        ensures
            (r is Some) == (first_match_m(self@, source@, code@) is Some),
            r is Some ==> first_match_m(self@, source@, code@) == Some(r.unwrap()@),
    {
        let ghost sv = self@;
        let n = self.rows.len();
        let mut i: usize = 0;
        proof {
            assert(sv.skip(0) =~= sv);
        }
        while i < n
            invariant
                i <= n,
                n == self.rows.len(),
                sv == self@,
                first_match_m(sv, source@, code@) == first_match_m(
                    sv.skip(i as int),
                    source@,
                    code@,
                ),
            decreases n - i,
        {
            let e = &self.rows[i];
            proof {
                assert(sv.skip(i as int).first() == sv[i as int]);
                assert(sv.skip(i as int).drop_first() =~= sv.skip(i as int + 1));
            }
            if str_eq(e.source.as_str(), source) && str_eq(e.code.as_str(), code) {
                return Some(e.clone());
            }
            i = i + 1;
        }
        proof {
            assert(sv.skip(n as int) =~= Seq::<EdgeM>::empty());
        }
        None
    }

    /// The first row under `(code, target)`, in insertion order.
    pub fn select_source(&self, code: &str, target: &str) -> (r: Option<Edge>)
        ensures
            (r is Some) == (first_match_src_m(self@, code@, target@) is Some),
            r is Some ==> first_match_src_m(self@, code@, target@) == Some(r.unwrap()@),
    {
        let ghost sv = self@;
        let n = self.rows.len();
        let mut i: usize = 0;
        proof {
            assert(sv.skip(0) =~= sv);
        }
        while i < n
            invariant
                i <= n,
                n == self.rows.len(),
                sv == self@,
                first_match_src_m(sv, code@, target@) == first_match_src_m(
                    sv.skip(i as int),
                    code@,
                    target@,
                ),
            decreases n - i,
        {
            let e = &self.rows[i];
            proof {
                assert(sv.skip(i as int).first() == sv[i as int]);
                assert(sv.skip(i as int).drop_first() =~= sv.skip(i as int + 1));
            }
            if str_eq(e.code.as_str(), code) && str_eq(e.target.as_str(), target) {
                return Some(e.clone());
            }
            i = i + 1;
        }
        proof {
            assert(sv.skip(n as int) =~= Seq::<EdgeM>::empty());
        }
        None
    }

    /// All targets under `(source, code)`, in row order.
    pub fn select_targets(&self, source: &str, code: &str) -> (r: Vec<String>)
        ensures
            strs_view(r@) == targets_m(self@, source@, code@),
    {
        let ghost sv = self@;
        let mut out: Vec<String> = Vec::new();
        let n = self.rows.len();
        let mut i: usize = 0;
        while i < n
            invariant
                i <= n,
                n == self.rows.len(),
                sv == self@,
                strs_view(out@) == targets_m(sv.take(i as int), source@, code@),
            decreases n - i,
        {
            let e = &self.rows[i];
            proof {
                assert(sv.take(i as int + 1).drop_last() =~= sv.take(i as int));
                assert(sv.take(i as int + 1).last() == sv[i as int]);
            }
            if str_eq(e.source.as_str(), source) && str_eq(e.code.as_str(), code) {
                let ghost prev = out@;
                out.push(e.target.clone());
                proof {
                    assert(strs_view(out@) =~= strs_view(prev).push(sv[i as int].target));
                }
            }
            i = i + 1;
        }
        proof {
            assert(sv.take(n as int) =~= sv);
        }
        out
    }

    /// All sources under `(code, target)`, in row order.
    pub fn select_sources(&self, code: &str, target: &str) -> (r: Vec<String>)
        ensures
            strs_view(r@) == sources_m(self@, code@, target@),
    {
        let ghost sv = self@;
        let mut out: Vec<String> = Vec::new();
        let n = self.rows.len();
        let mut i: usize = 0;
        while i < n
            invariant
                i <= n,
                n == self.rows.len(),
                sv == self@,
                strs_view(out@) == sources_m(sv.take(i as int), code@, target@),
            decreases n - i,
        {
            let e = &self.rows[i];
            proof {
                assert(sv.take(i as int + 1).drop_last() =~= sv.take(i as int));
                assert(sv.take(i as int + 1).last() == sv[i as int]);
            }
            if str_eq(e.code.as_str(), code) && str_eq(e.target.as_str(), target) {
                let ghost prev = out@;
                out.push(e.source.clone());
                proof {
                    assert(strs_view(out@) =~= strs_view(prev).push(sv[i as int].source));
                }
            }
            i = i + 1;
        }
        proof {
            assert(sv.take(n as int) =~= sv);
        }
        out
    }

    /// Delete every row under `(source, code)`.
    pub fn delete_source_code(&mut self, source: &str, code: &str)
        ensures
            final(self)@ == remove_key_m(old(self)@, source@, code@),
    {
        let ghost sv = self@;
        let mut out: Vec<Edge> = Vec::new();
        let n = self.rows.len();
        let mut i: usize = 0;
        while i < n
            invariant
                i <= n,
                n == self.rows.len(),
                sv == self@,
                edges_view(out@) == remove_key_m(sv.take(i as int), source@, code@),
            decreases n - i,
        {
            let e = &self.rows[i];
            proof {
                assert(sv.take(i as int + 1).drop_last() =~= sv.take(i as int));
                assert(sv.take(i as int + 1).last() == sv[i as int]);
            }
            if !(str_eq(e.source.as_str(), source) && str_eq(e.code.as_str(), code)) {
                let ghost prev = out@;
                out.push(e.clone());
                proof {
                    assert(edges_view(out@) =~= edges_view(prev).push(sv[i as int]));
                }
            }
            i = i + 1;
        }
        proof {
            assert(sv.take(n as int) =~= sv);
        }
        self.rows = out;
    }

    /// Delete every row whose source or target is `point`.
    pub fn delete_by_point(&mut self, point: &str)
        ensures
            final(self)@ == remove_point_m(old(self)@, point@),
    {
        let ghost sv = self@;
        let mut out: Vec<Edge> = Vec::new();
        let n = self.rows.len();
        let mut i: usize = 0;
        while i < n
            invariant
                i <= n,
                n == self.rows.len(),
                sv == self@,
                edges_view(out@) == remove_point_m(sv.take(i as int), point@),
            decreases n - i,
        {
            let e = &self.rows[i];
            proof {
                assert(sv.take(i as int + 1).drop_last() =~= sv.take(i as int));
                assert(sv.take(i as int + 1).last() == sv[i as int]);
            }
            if !(str_eq(e.source.as_str(), point) || str_eq(e.target.as_str(), point)) {
                let ghost prev = out@;
                out.push(e.clone());
                proof {
                    assert(edges_view(out@) =~= edges_view(prev).push(sv[i as int]));
                }
            }
            i = i + 1;
        }
        proof {
            assert(sv.take(n as int) =~= sv);
        }
        self.rows = out;
    }

    /// Delete every row labeled `code`.
    pub fn delete_by_code(&mut self, code: &str)
        ensures
            final(self)@ == remove_code_m(old(self)@, code@),
    {
        let ghost sv = self@;
        let mut out: Vec<Edge> = Vec::new();
        let n = self.rows.len();
        let mut i: usize = 0;
        while i < n
            invariant
                i <= n,
                n == self.rows.len(),
                sv == self@,
                edges_view(out@) == remove_code_m(sv.take(i as int), code@),
            decreases n - i,
        {
            let e = &self.rows[i];
            proof {
                assert(sv.take(i as int + 1).drop_last() =~= sv.take(i as int));
                assert(sv.take(i as int + 1).last() == sv[i as int]);
            }
            if !str_eq(e.code.as_str(), code) {
                let ghost prev = out@;
                out.push(e.clone());
                proof {
                    assert(edges_view(out@) =~= edges_view(prev).push(sv[i as int]));
                }
            }
            i = i + 1;
        }
        proof {
            assert(sv.take(n as int) =~= sv);
        }
        self.rows = out;
    }

    /// Delete every row labeled `code` whose source node has no outgoing
    /// `source_code`-labeled row.
    pub fn delete_code_without_source(&mut self, code: &str, source_code: &str)
        ensures
            final(self)@ == remove_cws_m(old(self)@, old(self)@, code@, source_code@),
    {
        let ghost sv = self@;
        let mut out: Vec<Edge> = Vec::new();
        let n = self.rows.len();
        let mut i: usize = 0;
        while i < n
            invariant
                i <= n,
                n == self.rows.len(),
                sv == self@,
                edges_view(out@) == remove_cws_m(sv.take(i as int), sv, code@, source_code@),
            decreases n - i,
        {
            let e = &self.rows[i];
            proof {
                assert(sv.take(i as int + 1).drop_last() =~= sv.take(i as int));
                assert(sv.take(i as int + 1).last() == sv[i as int]);
            }
            let doomed = str_eq(e.code.as_str(), code) && !has_key(
                &self.rows,
                e.source.as_str(),
                source_code,
            );
            if !doomed {
                let ghost prev = out@;
                out.push(e.clone());
                proof {
                    assert(edges_view(out@) =~= edges_view(prev).push(sv[i as int]));
                }
            }
            i = i + 1;
        }
        proof {
            assert(sv.take(n as int) =~= sv);
        }
        self.rows = out;
    }

    /// Delete every row labeled `code` whose target node has no outgoing
    /// `target_code`-labeled row.
    pub fn delete_code_without_target(&mut self, code: &str, target_code: &str)
        ensures
            final(self)@ == remove_cwt_m(old(self)@, old(self)@, code@, target_code@),
    {
        let ghost sv = self@;
        let mut out: Vec<Edge> = Vec::new();
        let n = self.rows.len();
        let mut i: usize = 0;
        while i < n
            invariant
                i <= n,
                n == self.rows.len(),
                sv == self@,
                edges_view(out@) == remove_cwt_m(sv.take(i as int), sv, code@, target_code@),
            decreases n - i,
        {
            let e = &self.rows[i];
            proof {
                assert(sv.take(i as int + 1).drop_last() =~= sv.take(i as int));
                assert(sv.take(i as int + 1).last() == sv[i as int]);
            }
            let doomed = str_eq(e.code.as_str(), code) && !has_key(
                &self.rows,
                e.target.as_str(),
                target_code,
            );
            if !doomed {
                let ghost prev = out@;
                out.push(e.clone());
                proof {
                    assert(edges_view(out@) =~= edges_view(prev).push(sv[i as int]));
                }
            }
            i = i + 1;
        }
        proof {
            assert(sv.take(n as int) =~= sv);
        }
        self.rows = out;
    }
}

impl EdgeStore {
    /// A textual rendering of the fan-out under `point`, one `code=target`
    /// line per row.  The shape of the text is not part of this library's
    /// contract.
    pub fn render_node(&self, point: &str) -> String {
        let mut out = String::new();
        let n = self.rows.len();
        let mut i: usize = 0;
        while i < n
            invariant
                i <= n,
                n == self.rows.len(),
            decreases n - i,
        {
            let e = &self.rows[i];
            if str_eq(e.source.as_str(), point) {
                out.append(e.code.as_str());
                out.append("=");
                out.append(e.target.as_str());
                out.append("\n");
            }
            i = i + 1;
        }
        out
    }
}

/// Whether some row of `rows` leaves `source` under the label `code`.
fn has_key(rows: &Vec<Edge>, source: &str, code: &str) -> (r: bool)
    ensures
        r == has_key_m(edges_view(rows@), source@, code@),
{
    let ghost sv = edges_view(rows@);
    let n = rows.len();
    let mut i: usize = 0;
    while i < n
        invariant
            i <= n,
            n == rows.len(),
            sv == edges_view(rows@),
            forall|j: int| 0 <= j < i ==> !key_match(#[trigger] sv[j], source@, code@),
        decreases n - i,
    {
        let e = &rows[i];
        if str_eq(e.source.as_str(), source) && str_eq(e.code.as_str(), code) {
            proof {
                assert(key_match(sv[i as int], source@, code@));
            }
            return true;
        }
        i = i + 1;
    }
    false
}

} // verus!
