//! The staged mutation layer: an in-memory write buffer and read-through
//! cache in front of the backing table.  Writes carrying the reserved sigil
//! are ephemeral: they live only in the temporary namespace of the session
//! and never reach the table.  Durable writes are staged and flushed by
//! `commit` as one batch; an overwrite records its key so the table's old
//! rows are deleted at flush time, while the staged view answers reads
//! immediately.
//!
//! Point lookups consult the cache first — the most recently recorded entry,
//! scanning cached, then temporary, then staged edges — and fall back to the
//! first matching table row, a deterministic tie-break when several edges
//! share a key.  Ephemeral entries survive `commit`: they stay readable for
//! the rest of the session and are discarded with it.

use vstd::prelude::*;
use crate::edge::{
    Edge, EdgeM, EdgeError, edges_view, strs_view, str_eq, is_temp, temp_m, has_sigil, clean_m,
    targets_m, first_match_m, first_match_src_m, last_match_m, last_match_src_m, remove_key_m,
    remove_point_m, remove_code_m, remove_cws_m, remove_cwt_m, lemma_clean_push,
    lemma_clean_remove_key, lemma_clean_concat, lemma_last_match_concat, lemma_last_match_src_concat,
};
use crate::store::EdgeStore;
use crate::graph::new_point;
use crate::db_data::{frontier_step_m, eval_path_m};
use crate::path::StepM;

verus! {

/// The dimension labels as forward steps.
pub open spec fn dim_steps_m(dims: Seq<Seq<char>>) -> Seq<StepM> {
    dims.map_values(|c: Seq<char>| StepM { forward: true, code: c })
}

/// The value one attribute row cell holds: the first matching target, or the
/// empty string where the node has no such edge.
pub open spec fn attr_val_m(store: Seq<EdgeM>, node: Seq<char>, attr: Seq<char>) -> Seq<char> {
    match first_match_m(store, node, attr) {
        Some(e) => e.target,
        None => Seq::empty(),
    }
}

/// One row of the aggregation: the node's value under each attribute.
pub open spec fn row_m(store: Seq<EdgeM>, node: Seq<char>, attrs: Seq<Seq<char>>) -> Seq<Seq<char>>
    decreases attrs.len(),
{
    if attrs.len() == 0 {
        Seq::empty()
    } else {
        row_m(store, node, attrs.drop_last()).push(attr_val_m(store, node, attrs.last()))
    }
}

/// The aggregation's rows, one per frontier node, in frontier order.
pub open spec fn rows_list_m(
    store: Seq<EdgeM>,
    nodes: Seq<Seq<char>>,
    attrs: Seq<Seq<char>>,
) -> Seq<Seq<Seq<char>>>
    decreases nodes.len(),
{
    if nodes.len() == 0 {
        Seq::empty()
    } else {
        rows_list_m(store, nodes.drop_last(), attrs).push(row_m(store, nodes.last(), attrs))
    }
}

/// The view of a table of strings.
pub open spec fn table_view(v: Seq<Vec<String>>) -> Seq<Seq<Seq<char>>> {
    v.map_values(|row: Vec<String>| strs_view(row@))
}

/// One staged overwrite: every durable edge under this key is to be deleted
/// at flush time.
struct Key {
    source: String,
    code: String,
}

/// Mathematical model of a staging session.
#[verifier::ext_equal]
pub ghost struct DmView {
    /// The ephemeral namespace, authoritative and never flushed.
    pub temp: Seq<EdgeM>,
    /// Durable writes awaiting flush, in write order.
    pub staged: Seq<EdgeM>,
    /// Durable rows read from the table and remembered.
    pub cache: Seq<EdgeM>,
    /// Keys whose table rows are logically overwritten.
    pub overwrites: Seq<(Seq<char>, Seq<char>)>,
    /// The backing table.
    pub store: Seq<EdgeM>,
}

spec fn keys_view(v: Seq<Key>) -> Seq<(Seq<char>, Seq<char>)> {
    v.map_values(|k: Key| (k.source@, k.code@))
}

/// The table after the recorded overwrites are applied, in order.
pub open spec fn surviving(store: Seq<EdgeM>, ow: Seq<(Seq<char>, Seq<char>)>) -> Seq<EdgeM>
    decreases ow.len(),
{
    if ow.len() == 0 {
        store
    } else {
        remove_key_m(surviving(store, ow.drop_last()), ow.last().0, ow.last().1)
    }
}

/// The durable rows as `commit` would leave them: the table minus the
/// overwritten keys, then the staged writes in order.
pub open spec fn committed(v: DmView) -> Seq<EdgeM> {
    surviving(v.store, v.overwrites) + v.staged
}

/// The cache in point-lookup scan order; the last match wins.
pub open spec fn mem_seq(v: DmView) -> Seq<EdgeM> {
    v.cache + v.temp + v.staged
}

/// The ordered targets a read of `(source, code)` observes: the temporary
/// namespace for a sigil-marked key, the committed durable rows otherwise.
pub open spec fn target_seq(v: DmView, source: Seq<char>, code: Seq<char>) -> Seq<Seq<char>> {
    if has_sigil(source) || has_sigil(code) {
        targets_m(v.temp, source, code)
    } else {
        targets_m(committed(v), source, code)
    }
}

/// What a point lookup of `(source, code)` returns: the most recently
/// recorded cache entry, else the first matching table row.
pub open spec fn point_target(v: DmView, source: Seq<char>, code: Seq<char>) -> Option<Seq<char>> {
    match last_match_m(mem_seq(v), source, code) {
        Some(e) => Some(e.target),
        None => match first_match_m(v.store, source, code) {
            Some(e) => Some(e.target),
            None => None,
        },
    }
}

/// What a point lookup of `(code, target)` returns.
pub open spec fn point_source(v: DmView, code: Seq<char>, target: Seq<char>) -> Option<Seq<char>> {
    match last_match_src_m(mem_seq(v), code, target) {
        Some(e) => Some(e.source),
        None => match first_match_src_m(v.store, code, target) {
            Some(e) => Some(e.source),
            None => None,
        },
    }
}

/// Well-formedness: nothing ephemeral is ever staged for flush.
pub open spec fn wf(v: DmView) -> bool {
    clean_m(v.staged)
}

/// An ephemeral write: the edge joins the temporary namespace, all else
/// stands.
pub open spec fn push_temp_rel(a: DmView, b: DmView, e: EdgeM) -> bool {
    &&& b.temp == a.temp.push(e)
    &&& b.staged == a.staged
    &&& b.cache == a.cache
    &&& b.overwrites == a.overwrites
    &&& b.store == a.store
}

/// A durable write: the edge is staged for flush, all else stands.
pub open spec fn push_staged_rel(a: DmView, b: DmView, e: EdgeM) -> bool {
    &&& b.staged == a.staged.push(e)
    &&& b.temp == a.temp
    &&& b.cache == a.cache
    &&& b.overwrites == a.overwrites
    &&& b.store == a.store
}

/// An ephemeral overwrite: the key's temporary entries are replaced by one.
pub open spec fn set_temp_rel(a: DmView, b: DmView, e: EdgeM) -> bool {
    &&& b.temp == remove_key_m(a.temp, e.source, e.code).push(e)
    &&& b.staged == a.staged
    &&& b.cache == a.cache
    &&& b.overwrites == a.overwrites
    &&& b.store == a.store
}

/// A durable overwrite: the key's staged and cached entries give way to one
/// staged edge, and the key is recorded for deletion at flush time.
pub open spec fn set_staged_rel(a: DmView, b: DmView, e: EdgeM) -> bool {
    &&& b.staged == remove_key_m(a.staged, e.source, e.code).push(e)
    &&& b.cache == remove_key_m(a.cache, e.source, e.code)
    &&& b.overwrites == a.overwrites.push((e.source, e.code))
    &&& b.temp == a.temp
    &&& b.store == a.store
}

/// A flush: the table takes the committed rows; the staged writes, the cache
/// and the overwrites are gone; the temporary namespace survives.
pub open spec fn commit_rel(a: DmView, b: DmView) -> bool {
    &&& b.store == committed(a)
    &&& b.staged == Seq::<EdgeM>::empty()
    &&& b.cache == Seq::<EdgeM>::empty()
    &&& b.overwrites == Seq::<(Seq<char>, Seq<char>)>::empty()
    &&& b.temp == a.temp
}

/// Applying overwrites keeps the table clean.
pub proof fn lemma_clean_surviving(store: Seq<EdgeM>, ow: Seq<(Seq<char>, Seq<char>)>)
    requires
        clean_m(store),
    ensures
        clean_m(surviving(store, ow)),
    decreases ow.len(),
{
    if ow.len() > 0 {
        lemma_clean_surviving(store, ow.drop_last());
        lemma_clean_remove_key(surviving(store, ow.drop_last()), ow.last().0, ow.last().1);
    }
}

/// A read: everything but the cache stands.
pub open spec fn reads_rel(a: DmView, b: DmView) -> bool {
    &&& b.temp == a.temp
    &&& b.staged == a.staged
    &&& b.overwrites == a.overwrites
    &&& b.store == a.store
}

fn sat_inc(n: u64) -> u64 {
    if n == u64::MAX {
        n
    } else {
        n + 1
    }
}

/// The last entry of `v` under `(source, code)`, if any.
fn vec_last_match(v: &Vec<Edge>, source: &str, code: &str) -> (r: Option<Edge>)
    ensures
        (r is Some) == (last_match_m(edges_view(v@), source@, code@) is Some),
        r matches Some(e) ==> last_match_m(edges_view(v@), source@, code@) == Some(e@),
{
    let ghost sv = edges_view(v@);
    let mut i: usize = v.len();
    proof {
        assert(sv.take(i as int) =~= sv);
    }
    while i > 0
        invariant
            i <= v.len(),
            sv == edges_view(v@),
            last_match_m(sv, source@, code@) == last_match_m(sv.take(i as int), source@, code@),
        decreases i,
    {
        let e = &v[i - 1];
        proof {
            assert(sv.take(i as int).drop_last() =~= sv.take(i as int - 1));
            assert(sv.take(i as int).last() == sv[i as int - 1]);
        }
        if str_eq(e.source.as_str(), source) && str_eq(e.code.as_str(), code) {
            proof {
                assert(v@[i as int - 1]@ == e@);
            }
            return Some(e.clone());
        }
        i = i - 1;
    }
    proof {
        assert(sv.take(0) =~= Seq::<EdgeM>::empty());
    }
    None
}

/// The last entry of `v` under `(code, target)`, if any.
fn vec_last_match_src(v: &Vec<Edge>, code: &str, target: &str) -> (r: Option<Edge>)
    ensures
        (r is Some) == (last_match_src_m(edges_view(v@), code@, target@) is Some),
        r matches Some(e) ==> last_match_src_m(edges_view(v@), code@, target@) == Some(e@),
{
    let ghost sv = edges_view(v@);
    let mut i: usize = v.len();
    proof {
        assert(sv.take(i as int) =~= sv);
    }
    while i > 0
        invariant
            i <= v.len(),
            sv == edges_view(v@),
            last_match_src_m(sv, code@, target@) == last_match_src_m(
                sv.take(i as int),
                code@,
                target@,
            ),
        decreases i,
    {
        let e = &v[i - 1];
        proof {
            assert(sv.take(i as int).drop_last() =~= sv.take(i as int - 1));
            assert(sv.take(i as int).last() == sv[i as int - 1]);
        }
        if str_eq(e.code.as_str(), code) && str_eq(e.target.as_str(), target) {
            return Some(e.clone());
        }
        i = i - 1;
    }
    proof {
        assert(sv.take(0) =~= Seq::<EdgeM>::empty());
    }
    None
}

/// `v` without its entries under `(source, code)`.
fn filter_not_key(v: &Vec<Edge>, source: &str, code: &str) -> (r: Vec<Edge>)
    ensures
        edges_view(r@) == remove_key_m(edges_view(v@), source@, code@),
{
    let ghost sv = edges_view(v@);
    let mut out: Vec<Edge> = Vec::new();
    let n = v.len();
    let mut i: usize = 0;
    while i < n
        invariant
            i <= n,
            n == v.len(),
            sv == edges_view(v@),
            edges_view(out@) == remove_key_m(sv.take(i as int), source@, code@),
        decreases n - i,
    {
        let e = &v[i];
        proof {
            assert(sv.take(i as int + 1).drop_last() =~= sv.take(i as int));
            assert(sv.take(i as int + 1).last() == sv[i as int]);
        }
        if !(str_eq(e.source.as_str(), source) && str_eq(e.code.as_str(), code)) {
            let ghost prev = out@;
            out.push(e.clone());
            proof {
                assert(edges_view(out@) =~= edges_view(prev).push(sv[i as int]));
            }
        }
        i = i + 1;
    }
    proof {
        assert(sv.take(n as int) =~= sv);
    }
    out
}

/// The ordered targets of `v` under `(source, code)`.
fn targets_of(v: &Vec<Edge>, source: &str, code: &str) -> (r: Vec<String>)
    ensures
        strs_view(r@) == targets_m(edges_view(v@), source@, code@),
{
    let ghost sv = edges_view(v@);
    let mut out: Vec<String> = Vec::new();
    let n = v.len();
    let mut i: usize = 0;
    while i < n
        invariant
            i <= n,
            n == v.len(),
            sv == edges_view(v@),
            strs_view(out@) == targets_m(sv.take(i as int), source@, code@),
        decreases n - i,
    {
        let e = &v[i];
        proof {
            assert(sv.take(i as int + 1).drop_last() =~= sv.take(i as int));
            assert(sv.take(i as int + 1).last() == sv[i as int]);
        }
        if str_eq(e.source.as_str(), source) && str_eq(e.code.as_str(), code) {
            let ghost prev = out@;
            out.push(e.target.clone());
            proof {
                assert(strs_view(out@) =~= strs_view(prev).push(sv[i as int].target));
            }
        }
        i = i + 1;
    }
    proof {
        assert(sv.take(n as int) =~= sv);
    }
    out
}

/// What a staging gateway offers its callers: classified writes, point
/// and ordered reads, the flush, and the durable deletes.
pub trait AsDataManager: View<V = DmView> {
    fn insert_edge(&mut self, source: &str, code: &str, no: u64, target: &str) -> String;

    fn set_target(&mut self, source: &str, code: &str, target: &str) -> String;

    fn append_target(&mut self, source: &str, code: &str, target: &str) -> String;

    fn get_target(&mut self, source: &str, code: &str) -> Result<String, EdgeError>;

    fn get_source(&mut self, code: &str, target: &str) -> Result<String, EdgeError>;

    fn get_target_v(&mut self, source: &str, code: &str) -> Vec<String>;

    fn get_list(&mut self, root: &str, dimension_v: &Vec<String>, attr_v: &Vec<String>) -> Vec<
        Vec<String>,
    >;

    fn commit(&mut self);

    fn delete(&mut self, point: &str);

    fn delete_code(&mut self, code: &str);

    fn delete_code_without_source(&mut self, code: &str, source_code: &str);

    fn delete_code_without_target(&mut self, code: &str, target_code: &str);
}

/// One staging session: the staging cache and the backing table it fronts.
pub struct DataManager {
    temp_v: Vec<Edge>,
    staged_v: Vec<Edge>,
    cache_v: Vec<Edge>,
    overwrite_v: Vec<Key>,
    store: EdgeStore,
}

impl View for DataManager {
    type V = DmView;

    closed spec fn view(&self) -> DmView {
        DmView {
            temp: edges_view(self.temp_v@),
            staged: edges_view(self.staged_v@),
            cache: edges_view(self.cache_v@),
            overwrites: keys_view(self.overwrite_v@),
            store: self.store@,
        }
    }
}

impl DataManager {
    /// Open a session over the given table, with an empty staging cache.
    pub fn new(store: EdgeStore) -> (r: Self)
        ensures
            r@.store == store@,
            r@.temp == Seq::<EdgeM>::empty(),
            r@.staged == Seq::<EdgeM>::empty(),
            r@.cache == Seq::<EdgeM>::empty(),
            r@.overwrites == Seq::<(Seq<char>, Seq<char>)>::empty(),
            wf(r@),
    {
        let r = DataManager {
            temp_v: Vec::new(),
            staged_v: Vec::new(),
            cache_v: Vec::new(),
            overwrite_v: Vec::new(),
            store,
        };
        proof {
            assert(r@.temp =~= Seq::<EdgeM>::empty());
            assert(r@.staged =~= Seq::<EdgeM>::empty());
            assert(r@.cache =~= Seq::<EdgeM>::empty());
            assert(r@.overwrites =~= Seq::<(Seq<char>, Seq<char>)>::empty());
        }
        r
    }

    /// End the session: the staging cache is discarded, the table returned.
    pub fn into_store(self) -> (r: EdgeStore)
        ensures
            r@ == self@.store,
    {
        self.store
    }

    /// A textual rendering of the durable fan-out under `point`.  The shape
    /// of the text is not part of this library's contract.
    pub fn render_node(&self, point: &str) -> String {
        self.store.render_node(point)
    }

    /// The last cache entry under `(source, code)`: staged writes first, then
    /// the temporary namespace, then remembered rows.
    fn mem_find(&self, source: &str, code: &str) -> (r: Option<Edge>)
        ensures
            (r is Some) == (last_match_m(mem_seq(self@), source@, code@) is Some),
            r matches Some(e) ==> last_match_m(mem_seq(self@), source@, code@) == Some(e@),
    {
        proof {
            lemma_last_match_concat(
                self@.cache + self@.temp,
                self@.staged,
                source@,
                code@,
            );
            lemma_last_match_concat(self@.cache, self@.temp, source@, code@);
            assert(self@.cache + self@.temp + self@.staged =~= (self@.cache + self@.temp)
                + self@.staged);
        }
        match vec_last_match(&self.staged_v, source, code) {
            Some(e) => Some(e),
            None => match vec_last_match(&self.temp_v, source, code) {
                Some(e) => Some(e),
                None => vec_last_match(&self.cache_v, source, code),
            },
        }
    }

    /// The last cache entry under `(code, target)`, in the same scan order.
    fn mem_find_src(&self, code: &str, target: &str) -> (r: Option<Edge>)
        ensures
            (r is Some) == (last_match_src_m(mem_seq(self@), code@, target@) is Some),
            r matches Some(e) ==> last_match_src_m(mem_seq(self@), code@, target@) == Some(e@),
    {
        proof {
            lemma_last_match_src_concat(
                self@.cache + self@.temp,
                self@.staged,
                code@,
                target@,
            );
            lemma_last_match_src_concat(self@.cache, self@.temp, code@, target@);
            assert(self@.cache + self@.temp + self@.staged =~= (self@.cache + self@.temp)
                + self@.staged);
        }
        match vec_last_match_src(&self.staged_v, code, target) {
            Some(e) => Some(e),
            None => match vec_last_match_src(&self.temp_v, code, target) {
                Some(e) => Some(e),
                None => vec_last_match_src(&self.cache_v, code, target),
            },
        }
    }

}

impl AsDataManager for DataManager {
    /// Record one edge with an explicit ordering number: in the temporary
    /// namespace when ephemeral, staged for flush otherwise.  Returns the
    /// synthetic identifier of an ephemeral edge, or the placeholder of one
    /// awaiting flush.
    fn insert_edge(&mut self, source: &str, code: &str, no: u64, target: &str) -> (r: String)
        ensures
            temp_m(source@, code@, target@) ==> push_temp_rel(
                old(self)@,
                final(self)@,
                (EdgeM { source: source@, code: code@, target: target@ }),
            ),
            !temp_m(source@, code@, target@) ==> push_staged_rel(
                old(self)@,
                final(self)@,
                (EdgeM { source: source@, code: code@, target: target@ }),
            ),
            wf(old(self)@) ==> wf(final(self)@),
    {
        let ghost em = EdgeM { source: source@, code: code@, target: target@ };
        if is_temp(source, code, target) {
            let id = new_point();
            let e = Edge {
                id: id.clone(),
                source: source.to_owned(),
                code: code.to_owned(),
                no,
                target: target.to_owned(),
            };
            let ghost prev = edges_view(self.temp_v@);
            self.temp_v.push(e);
            proof {
                assert(edges_view(self.temp_v@) =~= prev.push(em));
            }
            id
        } else {
            let e = Edge {
                id: String::new(),
                source: source.to_owned(),
                code: code.to_owned(),
                no,
                target: target.to_owned(),
            };
            let ghost prev = edges_view(self.staged_v@);
            self.staged_v.push(e);
            proof {
                assert(edges_view(self.staged_v@) =~= prev.push(em));
                if wf(old(self)@) {
                    lemma_clean_push(prev, em);
                }
            }
            String::new()
        }
    }

    /// Overwrite: replace every edge under `(source, code)` with the single
    /// edge to `target`.  An ephemeral overwrite stays in the temporary
    /// namespace; a durable one is staged, and the key's table rows are
    /// deleted at flush time, while reads see the new binding at once.
    fn set_target(&mut self, source: &str, code: &str, target: &str) -> (r: String)
        ensures
            temp_m(source@, code@, target@) ==> set_temp_rel(
                old(self)@,
                final(self)@,
                (EdgeM { source: source@, code: code@, target: target@ }),
            ),
            !temp_m(source@, code@, target@) ==> set_staged_rel(
                old(self)@,
                final(self)@,
                (EdgeM { source: source@, code: code@, target: target@ }),
            ),
            wf(old(self)@) ==> wf(final(self)@),
    {
        let ghost em = EdgeM { source: source@, code: code@, target: target@ };
        if is_temp(source, code, target) {
            let kept = filter_not_key(&self.temp_v, source, code);
            self.temp_v = kept;
            let id = new_point();
            let e = Edge {
                id: id.clone(),
                source: source.to_owned(),
                code: code.to_owned(),
                no: 0,
                target: target.to_owned(),
            };
            let ghost prev = edges_view(self.temp_v@);
            self.temp_v.push(e);
            proof {
                assert(edges_view(self.temp_v@) =~= prev.push(em));
            }
            id
        } else {
            let kept = filter_not_key(&self.staged_v, source, code);
            self.staged_v = kept;
            let kept_cache = filter_not_key(&self.cache_v, source, code);
            self.cache_v = kept_cache;
            self.overwrite_v.push(Key { source: source.to_owned(), code: code.to_owned() });
            let e = Edge {
                id: String::new(),
                source: source.to_owned(),
                code: code.to_owned(),
                no: 0,
                target: target.to_owned(),
            };
            let ghost prev = edges_view(self.staged_v@);
            self.staged_v.push(e);
            proof {
                assert(edges_view(self.staged_v@) =~= prev.push(em));
                assert(keys_view(self.overwrite_v@) =~= old(self)@.overwrites.push(
                    (source@, code@),
                ));
                if wf(old(self)@) {
                    lemma_clean_remove_key(old(self)@.staged, source@, code@);
                    lemma_clean_push(prev, em);
                }
            }
            String::new()
        }
    }

    /// Append: add one edge under `(source, code)` after the existing ones.
    /// The ordering number continues past the key's greatest — taken from the
    /// cache when the key is warm, from the table otherwise.
    fn append_target(&mut self, source: &str, code: &str, target: &str) -> (r: String)
        ensures
            temp_m(source@, code@, target@) ==> push_temp_rel(
                old(self)@,
                final(self)@,
                (EdgeM { source: source@, code: code@, target: target@ }),
            ),
            !temp_m(source@, code@, target@) ==> push_staged_rel(
                old(self)@,
                final(self)@,
                (EdgeM { source: source@, code: code@, target: target@ }),
            ),
            wf(old(self)@) ==> wf(final(self)@),
    {
        let no = match vec_last_match(&self.staged_v, source, code) {
            Some(e) => sat_inc(e.no),
            None => match vec_last_match(&self.cache_v, source, code) {
                Some(e) => sat_inc(e.no),
                None => match vec_last_match(&self.temp_v, source, code) {
                    Some(e) => sat_inc(e.no),
                    None => self.store.next_no(source, code),
                },
            },
        };
        self.insert_edge(source, code, no, target)
    }

    /// Point lookup of the target under `(source, code)`: the cache answers
    /// first; on a miss the first matching table row is remembered and
    /// returned; `NotFound` when neither has the key.
    fn get_target(&mut self, source: &str, code: &str) -> (r: Result<String, EdgeError>)
        ensures
            (r is Ok) == (point_target(old(self)@, source@, code@) is Some),
            r matches Ok(t) ==> point_target(old(self)@, source@, code@) == Some(t@),
            r matches Err(k) ==> k == EdgeError::NotFound,
            reads_rel(old(self)@, final(self)@),
            last_match_m(mem_seq(old(self)@), source@, code@) is Some ==> final(self)@.cache == old(
                self,
            )@.cache,
            last_match_m(mem_seq(old(self)@), source@, code@) is None ==> (first_match_m(
                old(self)@.store,
                source@,
                code@,
            ) matches Some(e) ==> final(self)@.cache == old(self)@.cache.push(e)),
            last_match_m(mem_seq(old(self)@), source@, code@) is None && first_match_m(
                old(self)@.store,
                source@,
                code@,
            ) is None ==> final(self)@.cache == old(self)@.cache,
            wf(old(self)@) ==> wf(final(self)@),
    {
        match self.mem_find(source, code) {
            Some(e) => Ok(e.target),
            None => match self.store.select_target(source, code) {
                Some(row) => {
                    let t = row.target.clone();
                    let ghost prev = edges_view(self.cache_v@);
                    let ghost em = row@;
                    self.cache_v.push(row);
                    proof {
                        assert(edges_view(self.cache_v@) =~= prev.push(em));
                    }
                    Ok(t)
                },
                None => Err(EdgeError::NotFound),
            },
        }
    }

    /// Point lookup of the source under `(code, target)`, the mirror of
    /// `get_target`.
    fn get_source(&mut self, code: &str, target: &str) -> (r: Result<String, EdgeError>)
        ensures
            (r is Ok) == (point_source(old(self)@, code@, target@) is Some),
            r matches Ok(s) ==> point_source(old(self)@, code@, target@) == Some(s@),
            r matches Err(k) ==> k == EdgeError::NotFound,
            reads_rel(old(self)@, final(self)@),
            last_match_src_m(mem_seq(old(self)@), code@, target@) is Some ==> final(self)@.cache
                == old(self)@.cache,
            last_match_src_m(mem_seq(old(self)@), code@, target@) is None ==> (first_match_src_m(
                old(self)@.store,
                code@,
                target@,
            ) matches Some(e) ==> final(self)@.cache == old(self)@.cache.push(e)),
            last_match_src_m(mem_seq(old(self)@), code@, target@) is None && first_match_src_m(
                old(self)@.store,
                code@,
                target@,
            ) is None ==> final(self)@.cache == old(self)@.cache,
            wf(old(self)@) ==> wf(final(self)@),
    {
        match self.mem_find_src(code, target) {
            Some(e) => Ok(e.source),
            None => match self.store.select_source(code, target) {
                Some(row) => {
                    let s = row.source.clone();
                    let ghost prev = edges_view(self.cache_v@);
                    let ghost em = row@;
                    self.cache_v.push(row);
                    proof {
                        assert(edges_view(self.cache_v@) =~= prev.push(em));
                    }
                    Ok(s)
                },
                None => Err(EdgeError::NotFound),
            },
        }
    }

    /// The full ordered sequence of targets under `(source, code)`.  A
    /// sigil-marked key is answered from the temporary namespace alone; a
    /// durable key forces a flush and re-reads the table, so the total order
    /// is observed.
    fn get_target_v(&mut self, source: &str, code: &str) -> (r: Vec<String>)
        ensures
            strs_view(r@) == target_seq(old(self)@, source@, code@),
            (has_sigil(source@) || has_sigil(code@)) ==> final(self)@ == old(self)@,
            !(has_sigil(source@) || has_sigil(code@)) ==> commit_rel(old(self)@, final(self)@),
            wf(old(self)@) ==> wf(final(self)@),
    {
        proof {
            reveal_strlit("");
        }
        if is_temp(source, code, "") {
            targets_of(&self.temp_v, source, code)
        } else {
            self.commit();
            self.store.select_targets(source, code)
        }
    }

    /// Flush: delete the overwritten keys' table rows, insert every staged
    /// edge in order as one batch, and clear the durable namespace of the
    /// cache.  The temporary namespace survives.  With nothing staged and
    /// nothing overwritten this is a no-op.
    fn commit(&mut self)
        ensures
            commit_rel(old(self)@, final(self)@),
            wf(final(self)@),
            wf(old(self)@) && clean_m(old(self)@.store) ==> clean_m(final(self)@.store),
    {
        let ghost store0 = self@.store;
        let ghost ks = keys_view(self.overwrite_v@);
        let n = self.overwrite_v.len();
        let mut i: usize = 0;
        proof {
            assert(ks.take(0) =~= Seq::<(Seq<char>, Seq<char>)>::empty());
        }
        while i < n
            invariant
                i <= n,
                n == self.overwrite_v.len(),
                ks == keys_view(self.overwrite_v@),
                self@.store == surviving(store0, ks.take(i as int)),
                self.temp_v@ == old(self).temp_v@,
                self.staged_v@ == old(self).staged_v@,
                self.cache_v@ == old(self).cache_v@,
                self.overwrite_v@ == old(self).overwrite_v@,
            decreases n - i,
        {
            let s = self.overwrite_v[i].source.clone();
            let c = self.overwrite_v[i].code.clone();
            proof {
                assert(ks.take(i as int + 1).drop_last() =~= ks.take(i as int));
                assert(ks.take(i as int + 1).last() == ks[i as int]);
                assert(ks[i as int] == (self.overwrite_v@[i as int].source@,
                self.overwrite_v@[i as int].code@));
            }
            self.store.delete_source_code(s.as_str(), c.as_str());
            i = i + 1;
        }
        proof {
            assert(ks.take(n as int) =~= ks);
        }
        let ghost survived = surviving(store0, ks);
        let ghost stv = edges_view(self.staged_v@);
        let n2 = self.staged_v.len();
        let mut j: usize = 0;
        proof {
            assert(survived + stv.take(0) =~= survived);
        }
        while j < n2
            invariant
                j <= n2,
                n2 == self.staged_v.len(),
                stv == edges_view(self.staged_v@),
                self@.store == survived + stv.take(j as int),
                self.temp_v@ == old(self).temp_v@,
                self.staged_v@ == old(self).staged_v@,
                self.cache_v@ == old(self).cache_v@,
                self.overwrite_v@ == old(self).overwrite_v@,
            decreases n2 - j,
        {
            let id = new_point();
            let s = self.staged_v[j].source.clone();
            let c = self.staged_v[j].code.clone();
            let t = self.staged_v[j].target.clone();
            let no = self.staged_v[j].no;
            proof {
                assert(stv[j as int] == self.staged_v@[j as int]@);
            }
            self.store.insert(id, s.as_str(), c.as_str(), no, t.as_str());
            proof {
                assert(self@.store =~= survived + stv.take(j as int + 1));
            }
            j = j + 1;
        }
        proof {
            assert(stv.take(n2 as int) =~= stv);
        }
        self.staged_v = Vec::new();
        self.cache_v = Vec::new();
        self.overwrite_v = Vec::new();
        proof {
            assert(final(self)@.staged =~= Seq::<EdgeM>::empty());
            assert(final(self)@.cache =~= Seq::<EdgeM>::empty());
            assert(final(self)@.overwrites =~= Seq::<(Seq<char>, Seq<char>)>::empty());
            if wf(old(self)@) && clean_m(old(self)@.store) {
                lemma_clean_surviving(old(self)@.store, old(self)@.overwrites);
                lemma_clean_concat(
                    surviving(old(self)@.store, old(self)@.overwrites),
                    old(self)@.staged,
                );
            }
        }
    }

    /// An aggregation over the durable graph: force a flush, walk the
    /// dimension labels forward from `root` as a frontier, and return one
    /// row per reached node holding its value under each attribute (the
    /// empty string where an attribute is absent).
    fn get_list(&mut self, root: &str, dimension_v: &Vec<String>, attr_v: &Vec<String>) -> (r:
        Vec<Vec<String>>)
        ensures
            commit_rel(old(self)@, final(self)@),
            wf(final(self)@),
            table_view(r@) == rows_list_m(
                committed(old(self)@),
                eval_path_m(
                    committed(old(self)@),
                    seq![root@],
                    dim_steps_m(strs_view(dimension_v@)),
                ),
                strs_view(attr_v@),
            ),
    {
        self.commit();
        let ghost mid = self@;
        let ghost sv = self@.store;
        let ghost dims = dim_steps_m(strs_view(dimension_v@));
        let mut frontier: Vec<String> = Vec::new();
        frontier.push(root.to_owned());
        proof {
            assert(strs_view(frontier@) =~= seq![root@]);
            assert(dims.skip(0) =~= dims);
        }
        let k = dimension_v.len();
        let mut i: usize = 0;
        while i < k
            invariant
                i <= k,
                k == dimension_v@.len(),
                dims == dim_steps_m(strs_view(dimension_v@)),
                sv == self@.store,
                self@ == mid,
                eval_path_m(sv, seq![root@], dims) == eval_path_m(
                    sv,
                    strs_view(frontier@),
                    dims.skip(i as int),
                ),
            decreases k - i,
        {
            let ghost fr = strs_view(frontier@);
            let mut next: Vec<String> = Vec::new();
            let m = frontier.len();
            let mut j: usize = 0;
            proof {
                assert(fr.take(0) =~= Seq::<Seq<char>>::empty());
                assert(dims[i as int] == (StepM { forward: true, code: dimension_v@[i as int]@ }));
            }
            while j < m
                invariant
                    j <= m,
                    m == frontier.len(),
                    fr == strs_view(frontier@),
                    i < k == dimension_v@.len(),
                    dims == dim_steps_m(strs_view(dimension_v@)),
                    sv == self@.store,
                    self@ == mid,
                    strs_view(next@) == frontier_step_m(sv, fr.take(j as int), dims[i as int]),
                decreases m - j,
            {
                proof {
                    assert(fr.take(j as int + 1).drop_last() =~= fr.take(j as int));
                    assert(fr.take(j as int + 1).last() == fr[j as int]);
                    assert(fr[j as int] == frontier@[j as int]@);
                }
                let mut fan = self.store.select_targets(
                    frontier[j].as_str(),
                    dimension_v[i].as_str(),
                );
                let ghost prev = next@;
                next.append(&mut fan);
                proof {
                    assert(strs_view(next@) =~= strs_view(prev) + strs_view(next@.skip(
                        prev.len() as int,
                    )));
                }
                j = j + 1;
            }
            proof {
                assert(fr.take(m as int) =~= fr);
                let rest = dims.skip(i as int);
                assert(rest.first() == dims[i as int]);
                assert(rest.drop_first() =~= dims.skip(i as int + 1));
            }
            frontier = next;
            i = i + 1;
        }
        proof {
            assert(dims.skip(k as int) =~= Seq::<StepM>::empty());
        }
        let ghost nodes = strs_view(frontier@);
        let ghost attrs = strs_view(attr_v@);
        let mut out: Vec<Vec<String>> = Vec::new();
        let m = frontier.len();
        let mut j: usize = 0;
        proof {
            assert(table_view(out@) =~= rows_list_m(sv, nodes.take(0), attrs));
        }
        while j < m
            invariant
                j <= m,
                m == frontier.len(),
                nodes == strs_view(frontier@),
                attrs == strs_view(attr_v@),
                sv == self@.store,
                self@ == mid,
                table_view(out@) == rows_list_m(sv, nodes.take(j as int), attrs),
            decreases m - j,
        {
            proof {
                assert(nodes.take(j as int + 1).drop_last() =~= nodes.take(j as int));
                assert(nodes.take(j as int + 1).last() == nodes[j as int]);
                assert(nodes[j as int] == frontier@[j as int]@);
            }
            let mut row: Vec<String> = Vec::new();
            let p = attr_v.len();
            let mut t: usize = 0;
            proof {
                assert(strs_view(row@) =~= row_m(sv, nodes[j as int], attrs.take(0)));
            }
            while t < p
                invariant
                    t <= p,
                    p == attr_v@.len(),
                    attrs == strs_view(attr_v@),
                    nodes == strs_view(frontier@),
                    j < m == frontier.len(),
                    sv == self@.store,
                    self@ == mid,
                    strs_view(row@) == row_m(sv, nodes[j as int], attrs.take(t as int)),
                decreases p - t,
            {
                proof {
                    assert(attrs.take(t as int + 1).drop_last() =~= attrs.take(t as int));
                    assert(attrs.take(t as int + 1).last() == attrs[t as int]);
                    assert(attrs[t as int] == attr_v@[t as int]@);
                }
                let cell = match self.store.select_target(
                    frontier[j].as_str(),
                    attr_v[t].as_str(),
                ) {
                    Some(e) => e.target,
                    None => String::new(),
                };
                let ghost prevr = row@;
                row.push(cell);
                proof {
                    assert(strs_view(row@) =~= strs_view(prevr).push(attr_val_m(
                        sv,
                        nodes[j as int],
                        attrs[t as int],
                    )));
                }
                t = t + 1;
            }
            proof {
                assert(attrs.take(p as int) =~= attrs);
            }
            let ghost prevo = out@;
            out.push(row);
            proof {
                assert(table_view(out@) =~= table_view(prevo).push(row_m(
                    sv,
                    nodes[j as int],
                    attrs,
                )));
            }
            j = j + 1;
        }
        proof {
            assert(nodes.take(m as int) =~= nodes);
        }
        out
    }

    /// Delete, durably, every edge whose source or target is `point`.  A
    /// flush comes first, so the deletion acts on the full durable view.
    fn delete(&mut self, point: &str)
        ensures
            final(self)@.store == remove_point_m(committed(old(self)@), point@),
            final(self)@.staged == Seq::<EdgeM>::empty(),
            final(self)@.cache == Seq::<EdgeM>::empty(),
            final(self)@.overwrites == Seq::<(Seq<char>, Seq<char>)>::empty(),
            final(self)@.temp == old(self)@.temp,
            wf(final(self)@),
    {
        self.commit();
        self.store.delete_by_point(point);
    }

    /// Delete, durably, every edge labeled `code`, after a flush.
    fn delete_code(&mut self, code: &str)
        ensures
            final(self)@.store == remove_code_m(committed(old(self)@), code@),
            final(self)@.staged == Seq::<EdgeM>::empty(),
            final(self)@.cache == Seq::<EdgeM>::empty(),
            final(self)@.overwrites == Seq::<(Seq<char>, Seq<char>)>::empty(),
            final(self)@.temp == old(self)@.temp,
            wf(final(self)@),
    {
        self.commit();
        self.store.delete_by_code(code);
    }

    /// Delete, durably and after a flush, every edge labeled `code` whose
    /// source node has no outgoing `source_code`-labeled edge.
    fn delete_code_without_source(&mut self, code: &str, source_code: &str)
        ensures
            final(self)@.store == remove_cws_m(
                committed(old(self)@),
                committed(old(self)@),
                code@,
                source_code@,
            ),
            final(self)@.staged == Seq::<EdgeM>::empty(),
            final(self)@.cache == Seq::<EdgeM>::empty(),
            final(self)@.overwrites == Seq::<(Seq<char>, Seq<char>)>::empty(),
            final(self)@.temp == old(self)@.temp,
            wf(final(self)@),
    {
        self.commit();
        self.store.delete_code_without_source(code, source_code);
    }

    /// Delete, durably and after a flush, every edge labeled `code` whose
    /// target node has no outgoing `target_code`-labeled edge.
    fn delete_code_without_target(&mut self, code: &str, target_code: &str)
        ensures
            final(self)@.store == remove_cwt_m(
                committed(old(self)@),
                committed(old(self)@),
                code@,
                target_code@,
            ),
            final(self)@.staged == Seq::<EdgeM>::empty(),
            final(self)@.cache == Seq::<EdgeM>::empty(),
            final(self)@.overwrites == Seq::<(Seq<char>, Seq<char>)>::empty(),
            final(self)@.temp == old(self)@.temp,
            wf(final(self)@),
    {
        self.commit();
        self.store.delete_code_without_target(code, target_code);
    }
}

} // verus!
