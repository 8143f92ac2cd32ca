//! The structured path resolver: evaluates a path expression as a frontier
//! of node identifiers, one step at a time, directly against the backing
//! table.  A forward step replaces the frontier with every target reachable
//! under the step's label from a frontier node; a backward step mirrors this
//! over edge sources.  An empty frontier propagates.  Writes address the
//! nodes the path's prefix resolves to.

use vstd::prelude::*;
use crate::edge::{EdgeM, strs_view, targets_m, sources_m, remove_key_m};
use crate::path::{Path, Step, Dir, StepM, steps_view};
use crate::store::EdgeStore;
use crate::graph::new_point;

verus! {

/// The nodes one step reaches from one point.
pub open spec fn fanout_m(store: Seq<EdgeM>, point: Seq<char>, st: StepM) -> Seq<Seq<char>> {
    if st.forward {
        targets_m(store, point, st.code)
    } else {
        sources_m(store, st.code, point)
    }
}

/// The frontier after one step: the fan-outs of its nodes, concatenated in
/// frontier order.
pub open spec fn frontier_step_m(store: Seq<EdgeM>, frontier: Seq<Seq<char>>, st: StepM) -> Seq<
    Seq<char>,
>
    decreases frontier.len(),
{
    if frontier.len() == 0 {
        Seq::empty()
    } else {
        frontier_step_m(store, frontier.drop_last(), st) + fanout_m(store, frontier.last(), st)
    }
}

/// The frontier after every step of the path, in order.
pub open spec fn eval_path_m(store: Seq<EdgeM>, frontier: Seq<Seq<char>>, steps: Seq<StepM>) -> Seq<
    Seq<char>,
>
    decreases steps.len(),
{
    if steps.len() == 0 {
        frontier
    } else {
        eval_path_m(store, frontier_step_m(store, frontier, steps.first()), steps.drop_first())
    }
}

/// The edges `root --code--> item`, one per item, in item order.
pub open spec fn items_rows_m(root: Seq<char>, code: Seq<char>, items: Seq<Seq<char>>) -> Seq<EdgeM>
    decreases items.len(),
{
    if items.len() == 0 {
        Seq::empty()
    } else {
        items_rows_m(root, code, items.drop_last()).push(
            EdgeM { source: root, code, target: items.last() },
        )
    }
}

/// The table after appending every item under every root, root-major.
pub open spec fn append_fold_m(
    store: Seq<EdgeM>,
    roots: Seq<Seq<char>>,
    code: Seq<char>,
    items: Seq<Seq<char>>,
) -> Seq<EdgeM>
    decreases roots.len(),
{
    if roots.len() == 0 {
        store
    } else {
        append_fold_m(store, roots.drop_last(), code, items) + items_rows_m(
            roots.last(),
            code,
            items,
        )
    }
}

/// One overwrite under one root: the key's rows give way to the items.
pub open spec fn set_one_m(
    store: Seq<EdgeM>,
    root: Seq<char>,
    code: Seq<char>,
    items: Seq<Seq<char>>,
) -> Seq<EdgeM> {
    remove_key_m(store, root, code) + items_rows_m(root, code, items)
}

/// The table after overwriting under every root in turn.
pub open spec fn set_fold_m(
    store: Seq<EdgeM>,
    roots: Seq<Seq<char>>,
    code: Seq<char>,
    items: Seq<Seq<char>>,
) -> Seq<EdgeM>
    decreases roots.len(),
{
    if roots.len() == 0 {
        store
    } else {
        set_fold_m(set_one_m(store, roots.first(), code, items), roots.drop_first(), code, items)
    }
}

proof fn lemma_set_fold_concat(
    store: Seq<EdgeM>,
    a: Seq<Seq<char>>,
    b: Seq<Seq<char>>,
    code: Seq<char>,
    items: Seq<Seq<char>>,
)
    ensures
        set_fold_m(store, a + b, code, items) == set_fold_m(
            set_fold_m(store, a, code, items),
            b,
            code,
            items,
        ),
    decreases a.len(),
{
    if a.len() == 0 {
        assert(a + b =~= b);
    } else {
        assert((a + b).first() == a.first());
        assert((a + b).drop_first() =~= a.drop_first() + b);
        lemma_set_fold_concat(set_one_m(store, a.first(), code, items), a.drop_first(), b, code,
            items);
    }
}

/// The path resolver over a backing table.
pub struct DbDataManager {
    store: EdgeStore,
}

impl View for DbDataManager {
    type V = Seq<EdgeM>;

    closed spec fn view(&self) -> Seq<EdgeM> {
        self.store@
    }
}

impl DbDataManager {
    pub fn new(store: EdgeStore) -> (r: Self)
        ensures
            r@ == store@,
    {
        DbDataManager { store }
    }

    /// End the resolver's session, returning the table.
    pub fn into_store(self) -> (r: EdgeStore)
        ensures
            r@ == self@,
    {
        self.store
    }

    /// This resolver writes through; committing changes nothing.
    pub fn commit(&mut self)
        ensures
            final(self)@ == old(self)@,
    {
    }

    /// The frontier after the first `k` steps, starting from `root` alone.
    fn eval_prefix(&self, root: &str, steps: &Vec<Step>, k: usize) -> (r: Vec<String>)
        requires
            k <= steps@.len(),
        ensures
            strs_view(r@) == eval_path_m(self@, seq![root@], steps_view(steps@).take(k as int)),
    {
        let ghost stv = steps_view(steps@);
        let mut rs: Vec<String> = Vec::new();
        rs.push(root.to_owned());
        proof {
            assert(strs_view(rs@) =~= seq![root@]);
            assert(stv.take(k as int).skip(0) =~= stv.take(k as int));
        }
        let mut i: usize = 0;
        while i < k
            invariant
                i <= k,
                k <= steps@.len(),
                stv == steps_view(steps@),
                eval_path_m(self@, seq![root@], stv.take(k as int)) == eval_path_m(
                    self@,
                    strs_view(rs@),
                    stv.take(k as int).skip(i as int),
                ),
            decreases k - i,
        {
            let st = &steps[i];
            let ghost frontier = strs_view(rs@);
            let mut next: Vec<String> = Vec::new();
            let m = rs.len();
            let mut j: usize = 0;
            proof {
                assert(frontier.take(0) =~= Seq::<Seq<char>>::empty());
            }
            while j < m
                invariant
                    j <= m,
                    m == rs.len(),
                    frontier == strs_view(rs@),
                    stv == steps_view(steps@),
                    i < k <= steps@.len(),
                    st == &steps[i as int],
                    strs_view(next@) == frontier_step_m(self@, frontier.take(j as int), stv[i as int]),
                decreases m - j,
            {
                proof {
                    assert(frontier.take(j as int + 1).drop_last() =~= frontier.take(j as int));
                    assert(frontier.take(j as int + 1).last() == frontier[j as int]);
                    assert(frontier[j as int] == rs@[j as int]@);
                }
                let mut fan = match st.dir {
                    Dir::Forward => self.store.select_targets(rs[j].as_str(), st.code.as_str()),
                    Dir::Backward => self.store.select_sources(st.code.as_str(), rs[j].as_str()),
                };
                proof {
                    assert(strs_view(fan@) == fanout_m(self@, frontier[j as int], stv[i as int]));
                }
                let ghost prev = next@;
                next.append(&mut fan);
                proof {
                    assert(strs_view(next@) =~= strs_view(prev) + strs_view(next@.skip(
                        prev.len() as int,
                    )));
                }
                j = j + 1;
            }
            proof {
                assert(frontier.take(m as int) =~= frontier);
                let rest = stv.take(k as int).skip(i as int);
                assert(rest.first() == stv[i as int]);
                assert(rest.drop_first() =~= stv.take(k as int).skip(i as int + 1));
            }
            rs = next;
            i = i + 1;
        }
        proof {
            assert(stv.take(k as int).skip(k as int) =~= Seq::<StepM>::empty());
        }
        rs
    }

    /// Resolve a structured path: the frontier after its steps, from its
    /// root.
    pub fn get(&mut self, path: &Path) -> (r: Vec<String>)
        ensures
            final(self)@ == old(self)@,
            strs_view(r@) == eval_path_m(
                old(self)@,
                seq![path.root@],
                steps_view(path.step_v@),
            ),
    {
        let k = path.step_v.len();
        let r = self.eval_prefix(path.root.as_str(), &path.step_v, k);
        proof {
            assert(steps_view(path.step_v@).take(path.step_v@.len() as int) =~= steps_view(
                path.step_v@,
            ));
        }
        r
    }

    /// Append every item under the last step's label, below every node the
    /// path's prefix resolves to.  An empty path changes nothing.
    pub fn append(&mut self, path: &Path, item_v: &Vec<String>)
        ensures
            path.step_v@.len() == 0 ==> final(self)@ == old(self)@,
            path.step_v@.len() > 0 ==> final(self)@ == append_fold_m(
                old(self)@,
                eval_path_m(
                    old(self)@,
                    seq![path.root@],
                    steps_view(path.step_v@).take(path.step_v@.len() - 1),
                ),
                steps_view(path.step_v@).last().code,
                strs_view(item_v@),
            ),
    {
        let n = path.step_v.len();
        if n == 0 {
            return ;
        }
        let roots = self.eval_prefix(path.root.as_str(), &path.step_v, n - 1);
        let code = &path.step_v[n - 1].code;
        proof {
            assert(steps_view(path.step_v@)[n - 1] == path.step_v@[n - 1]@);
            assert(steps_view(path.step_v@).last() == steps_view(path.step_v@)[n - 1]);
        }
        let ghost roots_v = strs_view(roots@);
        let ghost items_v = strs_view(item_v@);
        let m = roots.len();
        let mut j: usize = 0;
        proof {
            assert(append_fold_m(old(self)@, roots_v.take(0), code@, items_v) =~= old(self)@);
        }
        while j < m
            invariant
                j <= m,
                m == roots.len(),
                roots_v == strs_view(roots@),
                items_v == strs_view(item_v@),
                code@ == steps_view(path.step_v@).last().code,
                self@ == append_fold_m(old(self)@, roots_v.take(j as int), code@, items_v),
            decreases m - j,
        {
            proof {
                assert(roots_v.take(j as int + 1).drop_last() =~= roots_v.take(j as int));
                assert(roots_v.take(j as int + 1).last() == roots_v[j as int]);
                assert(roots_v[j as int] == roots@[j as int]@);
            }
            self.append_items(roots[j].as_str().to_owned(), code, item_v);
            j = j + 1;
        }
        proof {
            assert(roots_v.take(m as int) =~= roots_v);
        }
    }

    /// Overwrite under the last step's label, below every node the path's
    /// prefix resolves to: the key's rows give way to the items, root by
    /// root.  An empty path changes nothing.
    pub fn set(&mut self, path: &Path, item_v: &Vec<String>)
        ensures
            path.step_v@.len() == 0 ==> final(self)@ == old(self)@,
            path.step_v@.len() > 0 ==> final(self)@ == set_fold_m(
                old(self)@,
                eval_path_m(
                    old(self)@,
                    seq![path.root@],
                    steps_view(path.step_v@).take(path.step_v@.len() - 1),
                ),
                steps_view(path.step_v@).last().code,
                strs_view(item_v@),
            ),
    {
        let n = path.step_v.len();
        if n == 0 {
            return ;
        }
        let roots = self.eval_prefix(path.root.as_str(), &path.step_v, n - 1);
        let code = &path.step_v[n - 1].code;
        proof {
            assert(steps_view(path.step_v@)[n - 1] == path.step_v@[n - 1]@);
            assert(steps_view(path.step_v@).last() == steps_view(path.step_v@)[n - 1]);
        }
        let ghost roots_v = strs_view(roots@);
        let ghost items_v = strs_view(item_v@);
        let m = roots.len();
        let mut j: usize = 0;
        proof {
            assert(set_fold_m(old(self)@, roots_v.take(0), code@, items_v) =~= old(self)@);
        }
        while j < m
            invariant
                j <= m,
                m == roots.len(),
                roots_v == strs_view(roots@),
                items_v == strs_view(item_v@),
                code@ == steps_view(path.step_v@).last().code,
                self@ == set_fold_m(old(self)@, roots_v.take(j as int), code@, items_v),
            decreases m - j,
        {
            proof {
                lemma_set_fold_concat(old(self)@, roots_v.take(j as int), seq![roots_v[j as int]],
                    code@, items_v);
                assert(roots_v.take(j as int) + seq![roots_v[j as int]] =~= roots_v.take(
                    j as int + 1,
                ));
                assert(seq![roots_v[j as int]].first() == roots_v[j as int]);
                assert(seq![roots_v[j as int]].drop_first() =~= Seq::<Seq<char>>::empty());
                assert(roots_v[j as int] == roots@[j as int]@);
            }
            self.store.delete_source_code(roots[j].as_str(), code.as_str());
            self.append_items(roots[j].as_str().to_owned(), code, item_v);
            proof {
                let mid = set_fold_m(old(self)@, roots_v.take(j as int), code@, items_v);
                assert(self@ == set_one_m(mid, roots_v[j as int], code@, items_v));
                let single = seq![roots_v[j as int]];
                assert(single.len() == 1);
                assert(single.first() == roots_v[j as int]);
                assert(single.drop_first() =~= Seq::<Seq<char>>::empty());
                let one = set_one_m(mid, roots_v[j as int], code@, items_v);
                assert(set_fold_m(mid, single, code@, items_v) == set_fold_m(
                    one,
                    single.drop_first(),
                    code@,
                    items_v,
                ));
                assert(set_fold_m(one, Seq::<Seq<char>>::empty(), code@, items_v) == one);
            }
            j = j + 1;
        }
        proof {
            assert(roots_v.take(m as int) =~= roots_v);
        }
    }

    /// Append one row per item under `(root, code)`, in item order.
    fn append_items(&mut self, root: String, code: &String, item_v: &Vec<String>)
        ensures
            final(self)@ == old(self)@ + items_rows_m(root@, code@, strs_view(item_v@)),
    {
        let ghost items_v = strs_view(item_v@);
        let p = item_v.len();
        let mut t: usize = 0;
        proof {
            assert(old(self)@ + items_rows_m(root@, code@, items_v.take(0)) =~= old(self)@);
        }
        while t < p
            invariant
                t <= p,
                p == item_v.len(),
                items_v == strs_view(item_v@),
                self@ == old(self)@ + items_rows_m(root@, code@, items_v.take(t as int)),
            decreases p - t,
        {
            proof {
                assert(items_v.take(t as int + 1).drop_last() =~= items_v.take(t as int));
                assert(items_v.take(t as int + 1).last() == items_v[t as int]);
                assert(items_v[t as int] == item_v@[t as int]@);
            }
            let id = new_point();
            self.store.append_edge(id, root.as_str(), code.as_str(), item_v[t].as_str());
            proof {
                assert(self@ =~= old(self)@ + items_rows_m(root@, code@, items_v.take(
                    t as int + 1,
                )));
            }
            t = t + 1;
        }
        proof {
            assert(items_v.take(p as int) =~= items_v);
        }
    }
}

} // verus!
