//! Laws of the index.
//!
//! The central one: a well-formed index is determined, in everything a
//! query can observe, by the set of triples it holds. Synchronization is
//! therefore idempotent: two builds from the same listing answer every
//! query identically. Alongside it: absence of a pair is answered by
//! emptiness, never an error, and the last stored version of a pair is
//! its maximum under the version order.

use vstd::prelude::*;
use crate::split::{lex_lt, lemma_lex_eq, lemma_lex_flip};
use crate::version::{version_lt, lemma_version_flip};
use crate::index::{Index, BranchEntry, find_branch, find_arch, lemma_find_branch_at,
    lemma_find_branch_in, lemma_find_arch_at, lemma_find_arch_in};
use crate::cache::listing_has;

verus! {

/// Two strictly sorted sequences with the same members are equal.
pub proof fn lemma_strict_sorted_unique<T>(x: Seq<T>, y: Seq<T>, lt: spec_fn(T, T) -> bool)
    requires
        forall|i: int, j: int| 0 <= i < j < x.len() ==> lt(x[i], x[j]),
        forall|i: int, j: int| 0 <= i < j < y.len() ==> lt(y[i], y[j]),
        forall|a: T, b: T| #[trigger] lt(a, b) ==> !lt(b, a),
        forall|e: T| x.contains(e) <==> y.contains(e),
    ensures
        x == y,
    decreases x.len(),
{
    if x.len() == 0 {
        if y.len() > 0 {
            assert(y.contains(y[0]));
            assert(x.contains(y[0]));
        }
        assert(x =~= y);
    } else {
        assert(x.contains(x[0]));
        assert(y.contains(x[0]));
        let k = choose|k: int| 0 <= k < y.len() && y[k] == x[0];
        assert(y.contains(y[0]));
        assert(x.contains(y[0]));
        let m = choose|m: int| 0 <= m < x.len() && x[m] == y[0];
        if k > 0 {
            assert(lt(y[0], y[k]));
            if m == 0 {
                assert(false);
            } else {
                assert(lt(x[0], x[m]));
                assert(false);
            }
        }
        assert(x[0] == y[0]);
        let xt = x.skip(1);
        let yt = y.skip(1);
        assert forall|i: int, j: int| 0 <= i < j < xt.len() implies lt(xt[i], xt[j]) by {
            assert(xt[i] == x[i + 1] && xt[j] == x[j + 1]);
        }
        assert forall|i: int, j: int| 0 <= i < j < yt.len() implies lt(yt[i], yt[j]) by {
            assert(yt[i] == y[i + 1] && yt[j] == y[j + 1]);
        }
        assert forall|e: T| xt.contains(e) <==> yt.contains(e) by {
            if xt.contains(e) {
                let j = choose|j: int| 0 <= j < xt.len() && xt[j] == e;
                assert(x[j + 1] == e);
                assert(x.contains(e));
                assert(y.contains(e));
                let j2 = choose|j2: int| 0 <= j2 < y.len() && y[j2] == e;
                if j2 == 0 {
                    assert(lt(x[0], x[j + 1]));
                    assert(false);
                }
                assert(yt[j2 - 1] == e);
                assert(yt.contains(e));
            }
            if yt.contains(e) {
                let j = choose|j: int| 0 <= j < yt.len() && yt[j] == e;
                assert(y[j + 1] == e);
                assert(y.contains(e));
                assert(x.contains(e));
                let j2 = choose|j2: int| 0 <= j2 < x.len() && x[j2] == e;
                if j2 == 0 {
                    assert(lt(y[0], y[j + 1]));
                    assert(false);
                }
                assert(xt[j2 - 1] == e);
                assert(xt.contains(e));
            }
        }
        lemma_strict_sorted_unique(xt, yt, lt);
        assert forall|i: int| 0 <= i < x.len() implies x[i] == y[i] by {
            if i > 0 {
                assert(x[i] == xt[i - 1] && y[i] == yt[i - 1]);
            }
        }
        assert(x =~= y);
    }
}

/// In a well-formed index every branch name carries at least one triple.
pub proof fn lemma_branch_name_has_triple(idx: Index, b: Seq<char>)
    requires
        idx.wf(),
        idx.branch_names().contains(b),
    ensures
        exists|a: Seq<char>, v: Seq<char>| #[trigger] idx.contains_triple(b, a, v),
{
    let j = choose|j: int| 0 <= j < idx.branch_names().len() && idx.branch_names()[j] == b;
    let e = idx.branches@[j];
    assert(e.name@ == b);
    assert(e.wf());
    assert forall|k: int| 0 <= k < j implies (#[trigger] idx.branches@[k]).name@ != e.name@ by {
        assert(lex_lt(idx.branch_names()[k], idx.branch_names()[j]));
        lemma_lex_eq(idx.branch_names()[k], idx.branch_names()[j]);
        assert(idx.branch_names()[k] == idx.branches@[k].name@);
    }
    lemma_find_branch_at(idx.branches@, j);
    let ae = e.arches@[0];
    assert(ae.wf());
    let a = ae.name@;
    let v = ae.versions_view()[0];
    assert(find_arch(e.arches@, a) == Option::Some(ae));
    assert(ae.versions_view().contains(v));
    assert(idx.contains_triple(b, a, v));
}

/// A stored triple's branch name is among the branch names.
pub proof fn lemma_triple_branch_name(idx: Index, b: Seq<char>, a: Seq<char>, v: Seq<char>)
    requires
        idx.contains_triple(b, a, v),
    ensures
        idx.branch_names().contains(b),
{
    if find_branch(idx.branches@, b) is None {
        assert(!Seq::<Seq<char>>::empty().contains(v));
        assert(false);
    }
    lemma_find_branch_in(idx.branches@, b);
    let i = choose|i: int|
        0 <= i < idx.branches@.len() && idx.branches@[i] == find_branch(idx.branches@, b)->Some_0
            && (#[trigger] idx.branches@[i]).name@ == b;
    assert(idx.branch_names()[i] == b);
}

/// In a well-formed branch every architecture name carries a version.
pub proof fn lemma_arch_name_has_version(e: BranchEntry, a: Seq<char>)
    requires
        e.wf(),
        e.arch_names().contains(a),
    ensures
        exists|v: Seq<char>| #[trigger] e.has_version(a, v),
{
    let j = choose|j: int| 0 <= j < e.arch_names().len() && e.arch_names()[j] == a;
    let ae = e.arches@[j];
    assert(ae.name@ == a);
    assert(ae.wf());
    assert forall|k: int| 0 <= k < j implies (#[trigger] e.arches@[k]).name@ != ae.name@ by {
        assert(lex_lt(e.arch_names()[k], e.arch_names()[j]));
        lemma_lex_eq(e.arch_names()[k], e.arch_names()[j]);
        assert(e.arch_names()[k] == e.arches@[k].name@);
    }
    lemma_find_arch_at(e.arches@, j);
    let v = ae.versions_view()[0];
    assert(ae.versions_view().contains(v));
    assert(e.has_version(a, v));
}

/// A stored version's architecture name is among the architecture names.
pub proof fn lemma_version_arch_name(e: BranchEntry, a: Seq<char>, v: Seq<char>)
    requires
        e.has_version(a, v),
    ensures
        e.arch_names().contains(a),
{
    lemma_find_arch_in(e.arches@, a);
    let i = choose|i: int|
        0 <= i < e.arches@.len() && e.arches@[i] == find_arch(e.arches@, a)->Some_0 && (#[trigger]
        e.arches@[i]).name@ == a;
    assert(e.arch_names()[i] == a);
}

/// The architecture lists of two equivalent indexes agree at `b`.
proof fn lemma_spec_arches_equiv(i1: Index, i2: Index, b: Seq<char>)
    requires
        i1.wf(),
        i2.wf(),
        forall|b2: Seq<char>, a2: Seq<char>, v2: Seq<char>|
            #[trigger] i1.contains_triple(b2, a2, v2) <==> #[trigger] i2.contains_triple(
                b2,
                a2,
                v2,
            ),
    ensures
        i1.spec_arches(b) == i2.spec_arches(b),
{
    lemma_branch_membership_equiv(i1, i2, b);
    lemma_branch_membership_equiv(i2, i1, b);
    if find_branch(i1.branches@, b) is None {
        if find_branch(i2.branches@, b) is Some {
            lemma_find_branch_in(i2.branches@, b);
            let i = choose|i: int|
                0 <= i < i2.branches@.len() && i2.branches@[i] == find_branch(
                    i2.branches@,
                    b,
                )->Some_0 && (#[trigger] i2.branches@[i]).name@ == b;
            assert(i2.branch_names()[i] == b);
            assert(i2.branch_names().contains(b));
            lemma_branch_name_has_triple(i2, b);
            let (a0, v0) = choose|a0: Seq<char>, v0: Seq<char>| #[trigger] i2.contains_triple(
                b,
                a0,
                v0,
            );
            assert(i1.contains_triple(b, a0, v0));
            assert(!Seq::<Seq<char>>::empty().contains(v0));
            assert(false);
        }
    } else {
        if find_branch(i2.branches@, b) is None {
            lemma_find_branch_in(i1.branches@, b);
            let i = choose|i: int|
                0 <= i < i1.branches@.len() && i1.branches@[i] == find_branch(
                    i1.branches@,
                    b,
                )->Some_0 && (#[trigger] i1.branches@[i]).name@ == b;
            assert(i1.branch_names()[i] == b);
            assert(i1.branch_names().contains(b));
            lemma_branch_name_has_triple(i1, b);
            let (a0, v0) = choose|a0: Seq<char>, v0: Seq<char>| #[trigger] i1.contains_triple(
                b,
                a0,
                v0,
            );
            assert(i2.contains_triple(b, a0, v0));
            assert(!Seq::<Seq<char>>::empty().contains(v0));
            assert(false);
        }
        let e1 = find_branch(i1.branches@, b)->Some_0;
        let e2 = find_branch(i2.branches@, b)->Some_0;
        lemma_find_branch_in(i1.branches@, b);
        lemma_find_branch_in(i2.branches@, b);
        assert(e1.wf());
        assert(e2.wf());
        assert forall|a: Seq<char>| e1.arch_names().contains(a) <==> e2.arch_names().contains(
            a,
        ) by {
            if e1.arch_names().contains(a) {
                lemma_arch_name_has_version(e1, a);
                let v = choose|v: Seq<char>| #[trigger] e1.has_version(a, v);
                assert(i1.contains_triple(b, a, v));
                assert(i2.contains_triple(b, a, v));
                assert(e2.has_version(a, v));
                lemma_version_arch_name(e2, a, v);
            }
            if e2.arch_names().contains(a) {
                lemma_arch_name_has_version(e2, a);
                let v = choose|v: Seq<char>| #[trigger] e2.has_version(a, v);
                assert(i2.contains_triple(b, a, v));
                assert(i1.contains_triple(b, a, v));
                assert(e1.has_version(a, v));
                lemma_version_arch_name(e1, a, v);
            }
        }
        let lt = |p: Seq<char>, q: Seq<char>| lex_lt(p, q);
        assert forall|p: Seq<char>, q: Seq<char>| #[trigger] lt(p, q) implies !lt(q, p) by {
            lemma_lex_flip(p, q);
        }
        lemma_strict_sorted_unique(e1.arch_names(), e2.arch_names(), lt);
    }
}

/// If `b` is a branch of `i1` then it is one of `i2`.
proof fn lemma_branch_membership_equiv(i1: Index, i2: Index, b: Seq<char>)
    requires
        i1.wf(),
        forall|b2: Seq<char>, a2: Seq<char>, v2: Seq<char>|
            #[trigger] i1.contains_triple(b2, a2, v2) <==> #[trigger] i2.contains_triple(
                b2,
                a2,
                v2,
            ),
    ensures
        i1.branch_names().contains(b) ==> i2.branch_names().contains(b),
{
    if i1.branch_names().contains(b) {
        lemma_branch_name_has_triple(i1, b);
        let (a0, v0) = choose|a0: Seq<char>, v0: Seq<char>| #[trigger] i1.contains_triple(
            b,
            a0,
            v0,
        );
        assert(i2.contains_triple(b, a0, v0));
        lemma_triple_branch_name(i2, b, a0, v0);
    }
}

/// The version lists of two equivalent indexes agree at `(b, a)`.
proof fn lemma_spec_versions_equiv(i1: Index, i2: Index, b: Seq<char>, a: Seq<char>)
    requires
        i1.wf(),
        i2.wf(),
        forall|b2: Seq<char>, a2: Seq<char>, v2: Seq<char>|
            #[trigger] i1.contains_triple(b2, a2, v2) <==> #[trigger] i2.contains_triple(
                b2,
                a2,
                v2,
            ),
    ensures
        i1.spec_versions(b, a) == i2.spec_versions(b, a),
{
    lemma_spec_arches_equiv(i1, i2, b);
    assert forall|x: Seq<char>|
        i1.spec_versions(b, a).contains(x) <==> i2.spec_versions(b, a).contains(x) by {
        assert(i1.spec_versions(b, a).contains(x) == i1.contains_triple(b, a, x));
        assert(i2.spec_versions(b, a).contains(x) == i2.contains_triple(b, a, x));
    }
    if find_branch(i1.branches@, b) is None || find_arch(
        find_branch(i1.branches@, b)->Some_0.arches@,
        a,
    ) is None {
        assert(i1.spec_versions(b, a) =~= Seq::<Seq<char>>::empty());
        if i2.spec_versions(b, a).len() > 0 {
            let x = i2.spec_versions(b, a)[0];
            assert(i2.spec_versions(b, a).contains(x));
            assert(i1.spec_versions(b, a).contains(x));
            assert(false);
        }
        assert(i1.spec_versions(b, a) =~= i2.spec_versions(b, a));
    } else {
        if find_branch(i2.branches@, b) is None || find_arch(
            find_branch(i2.branches@, b)->Some_0.arches@,
            a,
        ) is None {
            assert(i2.spec_versions(b, a) =~= Seq::<Seq<char>>::empty());
            if i1.spec_versions(b, a).len() > 0 {
                let x = i1.spec_versions(b, a)[0];
                assert(i1.spec_versions(b, a).contains(x));
                assert(i2.spec_versions(b, a).contains(x));
                assert(false);
            }
            assert(i1.spec_versions(b, a) =~= i2.spec_versions(b, a));
        } else {
            let e1 = find_branch(i1.branches@, b)->Some_0;
            let e2 = find_branch(i2.branches@, b)->Some_0;
            lemma_find_branch_in(i1.branches@, b);
            lemma_find_branch_in(i2.branches@, b);
            assert(e1.wf());
            assert(e2.wf());
            let ae1 = find_arch(e1.arches@, a)->Some_0;
            let ae2 = find_arch(e2.arches@, a)->Some_0;
            lemma_find_arch_in(e1.arches@, a);
            lemma_find_arch_in(e2.arches@, a);
            assert(ae1.wf());
            assert(ae2.wf());
            assert(i1.spec_versions(b, a) == ae1.versions_view());
            assert(i2.spec_versions(b, a) == ae2.versions_view());
            let lt = |p: Seq<char>, q: Seq<char>| version_lt(p, q);
            assert forall|p: Seq<char>, q: Seq<char>| #[trigger] lt(p, q) implies !lt(q, p) by {
                lemma_version_flip(p, q);
            }
            assert forall|i: int, j: int|
                0 <= i < j < ae1.versions_view().len() implies lt(
                ae1.versions_view()[i],
                ae1.versions_view()[j],
            ) by {}
            assert forall|i: int, j: int|
                0 <= i < j < ae2.versions_view().len() implies lt(
                ae2.versions_view()[i],
                ae2.versions_view()[j],
            ) by {}
            lemma_strict_sorted_unique(ae1.versions_view(), ae2.versions_view(), lt);
        }
    }
}

/// Index equivalence: two well-formed indexes holding the same triples
/// answer every query identically — same branch list, same architecture
/// list under every branch, same version list (and so the same latest
/// version) under every pair. In particular, synchronizing twice against
/// an unchanged store yields index-equivalent results.
pub proof fn lemma_index_equivalent(i1: Index, i2: Index)
    requires
        i1.wf(),
        i2.wf(),
        forall|b: Seq<char>, a: Seq<char>, v: Seq<char>|
            #[trigger] i1.contains_triple(b, a, v) <==> #[trigger] i2.contains_triple(b, a, v),
    ensures
        i1.branch_names() == i2.branch_names(),
        forall|b: Seq<char>| #[trigger] i1.spec_arches(b) == i2.spec_arches(b),
        forall|b: Seq<char>, a: Seq<char>| #[trigger] i1.spec_versions(b, a) == i2.spec_versions(
            b,
            a,
        ),
{
    assert forall|b: Seq<char>| i1.branch_names().contains(b) <==> i2.branch_names().contains(
        b,
    ) by {
        lemma_branch_membership_equiv(i1, i2, b);
        lemma_branch_membership_equiv(i2, i1, b);
    }
    let lt = |p: Seq<char>, q: Seq<char>| lex_lt(p, q);
    assert forall|p: Seq<char>, q: Seq<char>| #[trigger] lt(p, q) implies !lt(q, p) by {
        lemma_lex_flip(p, q);
    }
    lemma_strict_sorted_unique(i1.branch_names(), i2.branch_names(), lt);
    assert forall|b: Seq<char>| #[trigger] i1.spec_arches(b) == i2.spec_arches(b) by {
        lemma_spec_arches_equiv(i1, i2, b);
    }
    assert forall|b: Seq<char>, a: Seq<char>| #[trigger] i1.spec_versions(b, a)
        == i2.spec_versions(b, a) by {
        lemma_spec_versions_equiv(i1, i2, b, a);
    }
}

/// Absence is safe: a pair whose architecture is not listed under its
/// branch has no versions, so queries answer the empty sequence and no
/// latest version — never an error.
pub proof fn lemma_absent_pair_empty(idx: Index, b: Seq<char>, a: Seq<char>)
    requires
        !idx.spec_arches(b).contains(a),
    ensures
        idx.spec_versions(b, a).len() == 0,
{
    match find_branch(idx.branches@, b) {
        Option::None => {},
        Option::Some(e) => {
            if find_arch(e.arches@, a) is Some {
                lemma_find_arch_in(e.arches@, a);
                let i = choose|i: int|
                    0 <= i < e.arches@.len() && e.arches@[i] == find_arch(e.arches@, a)->Some_0
                        && (#[trigger] e.arches@[i]).name@ == a;
                assert(e.arch_names()[i] == a);
                assert(idx.spec_arches(b).contains(a));
                assert(false);
            }
        },
    }
}

/// The last stored version of a pair is its maximum under the version
/// order: every stored version either is it or sorts strictly below it.
pub proof fn lemma_latest_is_max(idx: Index, b: Seq<char>, a: Seq<char>, v: Seq<char>)
    requires
        idx.wf(),
        idx.contains_triple(b, a, v),
    ensures
        idx.spec_versions(b, a).len() > 0,
        v == idx.spec_versions(b, a).last() || version_lt(v, idx.spec_versions(b, a).last()),
{
    let vs = idx.spec_versions(b, a);
    if find_branch(idx.branches@, b) is None {
        assert(!Seq::<Seq<char>>::empty().contains(v));
        assert(false);
    }
    let e = find_branch(idx.branches@, b)->Some_0;
    lemma_find_branch_in(idx.branches@, b);
    assert(e.wf());
    if find_arch(e.arches@, a) is None {
        assert(!Seq::<Seq<char>>::empty().contains(v));
        assert(false);
    }
    let ae = find_arch(e.arches@, a)->Some_0;
    lemma_find_arch_in(e.arches@, a);
    assert(ae.wf());
    assert(vs == ae.versions_view());
    let j = choose|j: int| 0 <= j < vs.len() && vs[j] == v;
    if j < vs.len() - 1 {
        assert(version_lt(ae.versions_view()[j], ae.versions_view()[vs.len() - 1]));
    }
}


/// Synchronization is idempotent: two well-formed indexes built from the
/// same listing (as `sync` guarantees of each successful build) answer
/// every query identically.
pub proof fn lemma_sync_idempotent(i1: Index, i2: Index, keys: Seq<Seq<char>>)
    requires
        i1.wf(),
        i2.wf(),
        forall|b: Seq<char>, a: Seq<char>, v: Seq<char>|
            #[trigger] i1.contains_triple(b, a, v) <==> listing_has(keys, b, a, v),
        forall|b: Seq<char>, a: Seq<char>, v: Seq<char>|
            #[trigger] i2.contains_triple(b, a, v) <==> listing_has(keys, b, a, v),
    ensures
        i1.branch_names() == i2.branch_names(),
        forall|b: Seq<char>| #[trigger] i1.spec_arches(b) == i2.spec_arches(b),
        forall|b: Seq<char>, a: Seq<char>| #[trigger] i1.spec_versions(b, a) == i2.spec_versions(
            b,
            a,
        ),
{
    assert forall|b: Seq<char>, a: Seq<char>, v: Seq<char>|
        #[trigger] i1.contains_triple(b, a, v) <==> #[trigger] i2.contains_triple(b, a, v) by {}
    lemma_index_equivalent(i1, i2);
}


/// Query results of a well-formed index are ascending: branch names and
/// architecture names strictly ascending lexicographically, version lists
/// strictly ascending under the version order.
pub proof fn lemma_query_order(idx: Index, b: Seq<char>, a: Seq<char>)
    requires
        idx.wf(),
    ensures
        forall|i: int, j: int|
            0 <= i < j < idx.branch_names().len() ==> lex_lt(
                idx.branch_names()[i],
                idx.branch_names()[j],
            ),
        forall|i: int, j: int|
            0 <= i < j < idx.spec_arches(b).len() ==> lex_lt(
                idx.spec_arches(b)[i],
                idx.spec_arches(b)[j],
            ),
        forall|i: int, j: int|
            0 <= i < j < idx.spec_versions(b, a).len() ==> version_lt(
                idx.spec_versions(b, a)[i],
                idx.spec_versions(b, a)[j],
            ),
{
    if find_branch(idx.branches@, b) is Some {
        let e = find_branch(idx.branches@, b)->Some_0;
        lemma_find_branch_in(idx.branches@, b);
        assert(e.wf());
        assert(idx.spec_arches(b) == e.arch_names());
        if find_arch(e.arches@, a) is Some {
            let ae = find_arch(e.arches@, a)->Some_0;
            lemma_find_arch_in(e.arches@, a);
            assert(ae.wf());
            assert(idx.spec_versions(b, a) == ae.versions_view());
        }
    }
}

} // verus!
