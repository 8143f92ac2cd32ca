//! The laws the staging layer obeys, stated over the session model and
//! proved from the operations' contracts.

use vstd::prelude::*;
use crate::edge::{
    EdgeM, temp_m, has_sigil, clean_m, targets_m, first_match_m, last_match_m, remove_key_m,
    lemma_last_match_concat, lemma_targets_concat, lemma_targets_remove_key, lemma_clean_concat,
    lemma_clean_sigil_key_empty,
};
use crate::data::{
    DmView, wf, committed, surviving, target_seq, mem_seq, point_target, push_temp_rel,
    push_staged_rel, set_temp_rel, set_staged_rel, commit_rel, lemma_clean_surviving,
};

verus! {

/// Two durable appends under one key, starting from a key with no targets,
/// leave exactly the two targets in append order — whatever the cache and
/// the table held elsewhere, so whether each append was answered from cache
/// or table makes no difference to the ordered read.
pub proof fn lemma_append_append_order(
    a: DmView,
    b: DmView,
    c: DmView,
    source: Seq<char>,
    code: Seq<char>,
    t1: Seq<char>,
    t2: Seq<char>,
)
    requires
        !temp_m(source, code, t1),
        !temp_m(source, code, t2),
        push_staged_rel(a, b, EdgeM { source, code, target: t1 }),
        push_staged_rel(b, c, EdgeM { source, code, target: t2 }),
        target_seq(a, source, code) == Seq::<Seq<char>>::empty(),
    ensures
        target_seq(c, source, code) == seq![t1, t2],
{
    let e1 = EdgeM { source, code, target: t1 };
    let e2 = EdgeM { source, code, target: t2 };
    assert(committed(c) =~= committed(a).push(e1).push(e2));
    assert(targets_m(committed(a), source, code) == Seq::<Seq<char>>::empty());
    assert(committed(a).push(e1).drop_last() =~= committed(a));
    assert(targets_m(committed(a).push(e1), source, code) =~= seq![t1]);
    assert(committed(a).push(e1).push(e2).drop_last() =~= committed(a).push(e1));
    assert(targets_m(committed(a).push(e1).push(e2), source, code) =~= seq![t1, t2]);
    assert(targets_m(committed(c), source, code) == targets_m(
        committed(a).push(e1).push(e2),
        source,
        code,
    ));
}

/// The ephemeral mirror: two appends under a sigil-marked key leave exactly
/// the two targets in the temporary namespace's read.
pub proof fn lemma_append_append_order_temp(
    a: DmView,
    b: DmView,
    c: DmView,
    source: Seq<char>,
    code: Seq<char>,
    t1: Seq<char>,
    t2: Seq<char>,
)
    requires
        has_sigil(source) || has_sigil(code),
        push_temp_rel(a, b, EdgeM { source, code, target: t1 }),
        push_temp_rel(b, c, EdgeM { source, code, target: t2 }),
        target_seq(a, source, code) == Seq::<Seq<char>>::empty(),
    ensures
        target_seq(c, source, code) == seq![t1, t2],
{
    let e1 = EdgeM { source, code, target: t1 };
    let e2 = EdgeM { source, code, target: t2 };
    assert(c.temp =~= a.temp.push(e1).push(e2));
    assert(targets_m(a.temp, source, code) == Seq::<Seq<char>>::empty());
    assert(a.temp.push(e1).drop_last() =~= a.temp);
    assert(targets_m(a.temp.push(e1), source, code) =~= seq![t1]);
    assert(a.temp.push(e1).push(e2).drop_last() =~= a.temp.push(e1));
    assert(targets_m(a.temp.push(e1).push(e2), source, code) =~= seq![t1, t2]);
    assert(targets_m(c.temp, source, code) == targets_m(
        a.temp.push(e1).push(e2),
        source,
        code,
    ));
}

/// A durable overwrite leaves exactly its one target under the key — no
/// matter what stood there before, so after any chain of overwrites the last
/// one alone is read — and touches no other key's ordered read.
pub proof fn lemma_set_overwrites(
    a: DmView,
    b: DmView,
    source: Seq<char>,
    code: Seq<char>,
    t: Seq<char>,
)
    requires
        !temp_m(source, code, t),
        set_staged_rel(a, b, EdgeM { source, code, target: t }),
    ensures
        target_seq(b, source, code) == seq![t],
        forall|s2: Seq<char>, c2: Seq<char>|
            !(s2 == source && c2 == code) ==> #[trigger] target_seq(b, s2, c2) == target_seq(
                a,
                s2,
                c2,
            ),
{
    let e = EdgeM { source, code, target: t };
    let surv = surviving(a.store, a.overwrites);
    assert(surviving(b.store, b.overwrites) == remove_key_m(surv, source, code)) by {
        assert(b.overwrites.drop_last() =~= a.overwrites);
        assert(b.overwrites.last() == (source, code));
    }
    lemma_targets_concat(remove_key_m(surv, source, code), b.staged, source, code);
    lemma_targets_remove_key(surv, source, code, source, code);
    lemma_targets_remove_key(a.staged, source, code, source, code);
    assert(b.staged.drop_last() =~= remove_key_m(a.staged, source, code));
    assert(targets_m(committed(b), source, code) =~= seq![t]);
    assert forall|s2: Seq<char>, c2: Seq<char>|
        !(s2 == source && c2 == code) implies #[trigger] target_seq(b, s2, c2) == target_seq(
        a,
        s2,
        c2,
    ) by {
        if has_sigil(s2) || has_sigil(c2) {
            assert(b.temp == a.temp);
        } else {
            lemma_targets_concat(remove_key_m(surv, source, code), b.staged, s2, c2);
            lemma_targets_concat(surv, a.staged, s2, c2);
            lemma_targets_remove_key(surv, source, code, s2, c2);
            lemma_targets_remove_key(a.staged, source, code, s2, c2);
            assert(targets_m(b.staged, s2, c2) == targets_m(
                remove_key_m(a.staged, source, code),
                s2,
                c2,
            ));
        }
    }
}

/// The ephemeral mirror of the overwrite law.
pub proof fn lemma_set_overwrites_temp(
    a: DmView,
    b: DmView,
    source: Seq<char>,
    code: Seq<char>,
    t: Seq<char>,
)
    requires
        has_sigil(source) || has_sigil(code),
        set_temp_rel(a, b, EdgeM { source, code, target: t }),
    ensures
        target_seq(b, source, code) == seq![t],
{
    lemma_targets_remove_key(a.temp, source, code, source, code);
    assert(b.temp.drop_last() =~= remove_key_m(a.temp, source, code));
    assert(targets_m(b.temp, source, code) =~= seq![t]);
}

/// Ephemeral data never becomes durable: with nothing ephemeral staged and a
/// clean table, the rows a flush would write are all clean, and a durable
/// read of any sigil-marked key is empty.
pub proof fn lemma_ephemeral_never_durable(v: DmView, source: Seq<char>, code: Seq<char>)
    requires
        wf(v),
        clean_m(v.store),
    ensures
        clean_m(committed(v)),
        has_sigil(source) || has_sigil(code) ==> targets_m(committed(v), source, code) == Seq::<
            Seq<char>,
        >::empty(),
{
    lemma_clean_surviving(v.store, v.overwrites);
    lemma_clean_concat(surviving(v.store, v.overwrites), v.staged);
    if has_sigil(source) || has_sigil(code) {
        lemma_clean_sigil_key_empty(committed(v), source, code);
    }
}

/// A flush of a well-formed session keeps the table clean, so a fresh
/// session against the same table sees nothing ephemeral.
pub proof fn lemma_commit_keeps_clean(a: DmView, b: DmView)
    requires
        wf(a),
        clean_m(a.store),
        commit_rel(a, b),
    ensures
        clean_m(b.store),
{
    lemma_ephemeral_never_durable(a, Seq::empty(), Seq::empty());
}

/// A flush changes no ordered read: every key observes the same targets
/// before and after `commit`.
pub proof fn lemma_commit_preserves_reads(a: DmView, b: DmView)
    requires
        commit_rel(a, b),
    ensures
        forall|source: Seq<char>, code: Seq<char>|
            #[trigger] target_seq(b, source, code) == target_seq(a, source, code),
{
    assert(committed(b) =~= b.store);
    assert forall|source: Seq<char>, code: Seq<char>|
        #[trigger] target_seq(b, source, code) == target_seq(a, source, code) by {
        assert(targets_m(committed(b), source, code) == targets_m(committed(a), source, code));
    }
}

/// Two flushes in a row are one: the second finds nothing staged and nothing
/// overwritten, and leaves the session exactly as the first did — no row is
/// written twice.
pub proof fn lemma_commit_idempotent(a: DmView, b: DmView, c: DmView)
    requires
        commit_rel(a, b),
        commit_rel(b, c),
    ensures
        c == b,
{
    assert(committed(b) =~= b.store);
    assert(c =~= b);
}

/// The staging layer's autovivification is idempotent too: once a missed
/// lookup has recorded the edge toward `t` — ephemerally or staged — the
/// point lookup of `(source, code)` answers `t`.
pub proof fn lemma_gateway_anyway_idempotent(
    a: DmView,
    b: DmView,
    source: Seq<char>,
    code: Seq<char>,
    t: Seq<char>,
)
    requires
        point_target(a, source, code) is None,
        push_staged_rel(a, b, EdgeM { source, code, target: t }) || push_temp_rel(
            a,
            b,
            EdgeM { source, code, target: t },
        ),
    ensures
        point_target(b, source, code) == Some(t),
{
    let e = EdgeM { source, code, target: t };
    if push_staged_rel(a, b, e) {
        assert(mem_seq(b) =~= mem_seq(a).push(e));
        assert(mem_seq(a).push(e).drop_last() =~= mem_seq(a));
        assert(last_match_m(mem_seq(b), source, code) == Some(e));
    } else {
        lemma_last_match_concat(a.cache + a.temp, a.staged, source, code);
        assert(a.cache + a.temp + a.staged =~= (a.cache + a.temp) + a.staged);
        assert(last_match_m(a.staged, source, code) is None);
        lemma_last_match_concat(a.cache + b.temp, b.staged, source, code);
        assert(mem_seq(b) =~= (a.cache + b.temp) + b.staged);
        assert((a.cache + a.temp.push(e)).last() == e);
        assert(a.cache + b.temp =~= a.cache + a.temp.push(e));
        assert(last_match_m(a.cache + a.temp.push(e), source, code) == Some(e));
        assert(last_match_m(mem_seq(b), source, code) == Some(e));
    }
}

/// An autovivified edge is found, not recreated: once the edge toward `t`
/// stands where no `(source, code)` row stood, the point lookup returns `t`.
pub proof fn lemma_anyway_idempotent(
    store0: Seq<EdgeM>,
    source: Seq<char>,
    code: Seq<char>,
    t: Seq<char>,
)
    requires
        first_match_m(store0, source, code) is None,
    ensures
        first_match_m(store0.push(EdgeM { source, code, target: t }), source, code) == Some(
            EdgeM { source, code, target: t },
        ),
    decreases store0.len(),
{
    let e = EdgeM { source, code, target: t };
    if store0.len() == 0 {
        assert(store0.push(e).first() == e);
    } else {
        assert(store0.push(e).first() == store0.first());
        assert(store0.push(e).drop_first() =~= store0.drop_first().push(e));
        lemma_anyway_idempotent(store0.drop_first(), source, code, t);
    }
}

} // verus!
