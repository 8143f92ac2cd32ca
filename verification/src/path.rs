//! Directional path expressions.  A structured path is a root and an ordered
//! list of steps, each a direction and an edge label.  A raw path is the same
//! thing encoded as text: each step is a two-character arrow token (`->`
//! forward, `<-` backward) followed by its label, steps concatenated without
//! separators.  The tokenizer turns the raw form into steps before anything
//! evaluates it.

use vstd::prelude::*;
use vstd::string::*;

verus! {

/// The direction of one path step.
#[derive(Clone, Copy, PartialEq, Eq, Structural, Debug)]
pub enum Dir {
    Forward,
    Backward,
}

/// One step of a path: follow edges labeled `code` in direction `dir`.
pub struct Step {
    pub dir: Dir,
    pub code: String,
}

/// Mathematical model of one step.
#[verifier::ext_equal]
pub ghost struct StepM {
    pub forward: bool,
    pub code: Seq<char>,
}

impl View for Step {
    type V = StepM;

    open spec fn view(&self) -> StepM {
        StepM { forward: self.dir == Dir::Forward, code: self.code@ }
    }
}

/// A structured path expression.
pub struct Path {
    pub root: String,
    pub step_v: Vec<Step>,
}

/// The view of a sequence of steps.
pub open spec fn steps_view(v: Seq<Step>) -> Seq<StepM> {
    v.map_values(|s: Step| s.view())
}

/// Whether an arrow token (`->` or `<-`) stands at position `i`.
pub open spec fn is_arrow_at(s: Seq<char>, i: int) -> bool {
    &&& 0 <= i
    &&& i + 2 <= s.len()
    &&& ((s[i] == '-' && s[i + 1] == '>') || (s[i] == '<' && s[i + 1] == '-'))
}

/// The position of the next arrow token at or after `j`, or the end.
pub open spec fn code_end(s: Seq<char>, j: int) -> int
    decreases s.len() - j,
{
    if j < 0 || j + 2 > s.len() {
        s.len() as int
    } else if is_arrow_at(s, j) {
        j
    } else {
        code_end(s, j + 1)
    }
}

proof fn lemma_code_end_bounds(s: Seq<char>, j: int)
    requires
        0 <= j <= s.len(),
    ensures
        j <= code_end(s, j) <= s.len(),
    decreases s.len() - j,
{
    if j + 2 <= s.len() && !is_arrow_at(s, j) {
        lemma_code_end_bounds(s, j + 1);
    }
}

/// The steps encoded from position `i` on, or `None` where no arrow stands
/// at a step boundary.
pub open spec fn parse_from(s: Seq<char>, i: int) -> Option<Seq<StepM>>
    decreases s.len() - i,
    via parse_from_dec
{
    if i < 0 || i > s.len() {
        None
    } else if i == s.len() {
        Some(Seq::empty())
    } else if !is_arrow_at(s, i) {
        None
    } else {
        let fwd = s[i] == '-';
        let e = code_end(s, i + 2);
        let code = s.subrange(i + 2, e);
        match parse_from(s, e) {
            Some(steps) => Some(seq![StepM { forward: fwd, code }] + steps),
            None => None,
        }
    }
}

#[via_fn]
proof fn parse_from_dec(s: Seq<char>, i: int) {
    if 0 <= i < s.len() && is_arrow_at(s, i) {
        lemma_code_end_bounds(s, i + 2);
    }
}

/// The steps a raw path encodes, or `None` where it is malformed.
pub open spec fn parse_path_m(s: Seq<char>) -> Option<Seq<StepM>> {
    parse_from(s, 0)
}

/// Whether the text begins with an arrow token, which marks it as a raw path
/// expression rather than a literal.
pub open spec fn is_path_expr(s: Seq<char>) -> bool {
    is_arrow_at(s, 0)
}

/// Whether an arrow token stands at position `i` of `s`.
pub fn arrow_at(s: &str, i: usize, n: usize) -> (r: bool)
    requires
        n == s@.len(),
    ensures
        r == is_arrow_at(s@, i as int),
{
    if i < n && i + 1 < n {
        let c0 = s.get_char(i);
        let c1 = s.get_char(i + 1);
        (c0 == '-' && c1 == '>') || (c0 == '<' && c1 == '-')
    } else {
        false
    }
}

/// Tokenize a raw path: `None` exactly where the text is not a chain of
/// arrow-label steps.
pub fn parse_path(s: &str) -> (r: Option<Vec<Step>>)
    ensures
        (r is Some) == (parse_path_m(s@) is Some),
        r matches Some(v) ==> parse_path_m(s@) == Some(steps_view(v@)),
{
    let n = s.unicode_len();
    let mut out: Vec<Step> = Vec::new();
    let mut i: usize = 0;
    proof {
        assert(steps_view(out@) =~= Seq::<StepM>::empty());
        assert(match parse_from(s@, 0) {
            Some(rest) => parse_path_m(s@) == Some(steps_view(out@) + rest),
            None => parse_path_m(s@) is None,
        }) by {
            if parse_from(s@, 0) is Some {
                assert(steps_view(out@) + parse_from(s@, 0).unwrap() =~= parse_from(
                    s@,
                    0,
                ).unwrap());
            }
        }
    }
    while i < n
        invariant
            i <= n,
            n == s@.len(),
            match parse_from(s@, i as int) {
                Some(rest) => parse_path_m(s@) == Some(steps_view(out@) + rest),
                None => parse_path_m(s@) is None,
            },
        decreases n - i,
    {
        if !arrow_at(s, i, n) {
            return None;
        }
        let fwd = s.get_char(i) == '-';
        let mut j = i + 2;
        proof {
            lemma_code_end_bounds(s@, i as int + 2);
        }
        while j < n && j + 1 < n && !arrow_at(s, j, n)
            invariant
                i + 2 <= j <= n,
                n == s@.len(),
                code_end(s@, i as int + 2) == code_end(s@, j as int),
                code_end(s@, i as int + 2) <= n,
            decreases n - j,
        {
            j = j + 1;
        }
        let e = if j < n && j + 1 < n {
            j
        } else {
            n
        };
        proof {
            assert(code_end(s@, j as int) == e as int);
            assert(code_end(s@, i as int + 2) == e as int);
        }
        let code = s.substring_char(i + 2, e);
        let ghost prev = out@;
        out.push(
            Step {
                dir: if fwd {
                    Dir::Forward
                } else {
                    Dir::Backward
                },
                code: code.to_owned(),
            },
        );
        proof {
            let stm = StepM { forward: fwd, code: s@.subrange(i as int + 2, e as int) };
            assert(out@.last()@ =~= stm);
            assert(steps_view(out@) =~= steps_view(prev).push(stm));
            let rest_i = parse_from(s@, i as int);
            let rest_e = parse_from(s@, e as int);
            if rest_e is Some {
                assert(rest_i == Some(seq![stm] + rest_e.unwrap()));
                assert(steps_view(prev).push(stm) + rest_e.unwrap() =~= steps_view(prev) + (
                seq![stm] + rest_e.unwrap()));
            }
        }
        i = e;
    }
    proof {
        assert(parse_from(s@, n as int) == Some(Seq::<StepM>::empty()));
        assert(steps_view(out@) + Seq::<StepM>::empty() =~= steps_view(out@));
    }
    Some(out)
}

/// Whether the text begins with an arrow token.
pub fn starts_with_arrow(s: &str) -> (r: bool)
    ensures
        r == is_path_expr(s@),
{
    let n = s.unicode_len();
    arrow_at(s, 0, n)
}

} // verus!
