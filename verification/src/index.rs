//! The index: branch -> architecture -> ascending set of versions.
//!
//! The index is a nested sorted structure. Branch entries are strictly
//! ascending by name, architecture entries strictly ascending by name
//! within their branch, and versions strictly ascending under the version
//! order within their architecture, so every name and version occurs at
//! most once. Every entry is non-empty: a branch exists only with at least
//! one architecture, an architecture only with at least one version.

use vstd::prelude::*;
use vstd::string::*;
use crate::Cmp;
use crate::split::{lex_lt, lex_cmp_spec, lex_cmp, lemma_lex_eq, lemma_lex_flip, lemma_lex_trans};
use crate::version::{version_lt, version_cmp_spec, version_cmp, lemma_version_eq,
    lemma_version_flip, lemma_version_trans};

verus! {

pub struct ArchEntry {
    pub name: String,
    pub versions: Vec<String>,
}

pub struct BranchEntry {
    pub name: String,
    pub arches: Vec<ArchEntry>,
}

pub struct Index {
    pub branches: Vec<BranchEntry>,
}

/// The character sequences held by a sequence of strings.
pub open spec fn views(s: Seq<String>) -> Seq<Seq<char>> {
    s.map_values(|v: String| v@)
}

impl ArchEntry {
    /// The versions stored under this architecture, ascending.
    pub open spec fn versions_view(self) -> Seq<Seq<char>> {
        views(self.versions@)
    }

    pub open spec fn wf(self) -> bool {
        &&& self.name@.len() > 0
        &&& self.versions.len() > 0
        &&& (forall|i: int|
            0 <= i < self.versions@.len() ==> #[trigger] self.versions_view()[i].len() > 0)
        &&& (forall|i: int, j: int|
            0 <= i < j < self.versions@.len() ==> version_lt(
                self.versions_view()[i],
                self.versions_view()[j],
            ))
    }
}

impl BranchEntry {
    /// The architecture names stored under this branch, ascending.
    pub open spec fn arch_names(self) -> Seq<Seq<char>> {
        self.arches@.map_values(|e: ArchEntry| e.name@)
    }

    pub open spec fn wf(self) -> bool {
        &&& self.name@.len() > 0
        &&& self.arches.len() > 0
        &&& (forall|i: int| 0 <= i < self.arches@.len() ==> (#[trigger] self.arches@[i]).wf())
        &&& (forall|i: int, j: int|
            0 <= i < j < self.arches@.len() ==> lex_lt(self.arch_names()[i], self.arch_names()[j]))
    }

    /// Whether version `v` is stored under architecture `a` of this branch.
    pub open spec fn has_version(self, a: Seq<char>, v: Seq<char>) -> bool {
        match find_arch(self.arches@, a) {
            Option::None => false,
            Option::Some(ae) => ae.versions_view().contains(v),
        }
    }
}

impl Index {
    /// The branch names stored in the index, ascending.
    pub open spec fn branch_names(self) -> Seq<Seq<char>> {
        self.branches@.map_values(|e: BranchEntry| e.name@)
    }

    pub open spec fn wf(self) -> bool {
        &&& (forall|i: int| 0 <= i < self.branches@.len() ==> (#[trigger] self.branches@[i]).wf())
        &&& (forall|i: int, j: int|
            0 <= i < j < self.branches@.len() ==> lex_lt(
                self.branch_names()[i],
                self.branch_names()[j],
            ))
    }

    /// The architecture names under branch `b`; empty if `b` is unknown.
    pub open spec fn spec_arches(self, b: Seq<char>) -> Seq<Seq<char>> {
        match find_branch(self.branches@, b) {
            Option::None => Seq::<Seq<char>>::empty(),
            Option::Some(be) => be.arch_names(),
        }
    }

    /// The versions under the pair `(b, a)`, ascending; empty if unknown.
    pub open spec fn spec_versions(self, b: Seq<char>, a: Seq<char>) -> Seq<Seq<char>> {
        match find_branch(self.branches@, b) {
            Option::None => Seq::<Seq<char>>::empty(),
            Option::Some(be) => match find_arch(be.arches@, a) {
                Option::None => Seq::<Seq<char>>::empty(),
                Option::Some(ae) => ae.versions_view(),
            },
        }
    }

    /// Whether the triple `(b, a, v)` is stored in the index.
    pub open spec fn contains_triple(self, b: Seq<char>, a: Seq<char>, v: Seq<char>) -> bool {
        self.spec_versions(b, a).contains(v)
    }
}

pub open spec fn find_arch(s: Seq<ArchEntry>, name: Seq<char>) -> Option<ArchEntry>
    decreases s.len(),
{
    if s.len() == 0 {
        Option::None
    } else if s[0].name@ == name {
        Option::Some(s[0])
    } else {
        find_arch(s.skip(1), name)
    }
}

pub open spec fn find_branch(s: Seq<BranchEntry>, name: Seq<char>) -> Option<BranchEntry>
    decreases s.len(),
{
    if s.len() == 0 {
        Option::None
    } else if s[0].name@ == name {
        Option::Some(s[0])
    } else {
        find_branch(s.skip(1), name)
    }
}

/// A lookup among entries none of whose names match comes up empty.
pub proof fn lemma_find_arch_none(s: Seq<ArchEntry>, name: Seq<char>)
    requires
        forall|j: int| 0 <= j < s.len() ==> (#[trigger] s[j]).name@ != name,
    ensures
        find_arch(s, name) is None,
    decreases s.len(),
{
    if s.len() > 0 {
        lemma_find_arch_none(s.skip(1), name);
    }
}

pub proof fn lemma_find_branch_none(s: Seq<BranchEntry>, name: Seq<char>)
    requires
        forall|j: int| 0 <= j < s.len() ==> (#[trigger] s[j]).name@ != name,
    ensures
        find_branch(s, name) is None,
    decreases s.len(),
{
    if s.len() > 0 {
        lemma_find_branch_none(s.skip(1), name);
    }
}

/// A lookup finds the entry at `i` when no earlier entry's name matches.
pub proof fn lemma_find_arch_at(s: Seq<ArchEntry>, i: int)
    requires
        0 <= i < s.len(),
        forall|j: int| 0 <= j < i ==> (#[trigger] s[j]).name@ != s[i].name@,
    ensures
        find_arch(s, s[i].name@) == Option::Some(s[i]),
    decreases i,
{
    if i > 0 {
        lemma_find_arch_at(s.skip(1), i - 1);
    }
}

pub proof fn lemma_find_branch_at(s: Seq<BranchEntry>, i: int)
    requires
        0 <= i < s.len(),
        forall|j: int| 0 <= j < i ==> (#[trigger] s[j]).name@ != s[i].name@,
    ensures
        find_branch(s, s[i].name@) == Option::Some(s[i]),
    decreases i,
{
    if i > 0 {
        lemma_find_branch_at(s.skip(1), i - 1);
    }
}

/// A found entry is one of the entries, and its name is the one sought.
pub proof fn lemma_find_arch_in(s: Seq<ArchEntry>, name: Seq<char>)
    requires
        find_arch(s, name) is Some,
    ensures
        exists|i: int|
            0 <= i < s.len() && s[i] == find_arch(s, name)->Some_0 && (#[trigger] s[i]).name@
                == name,
    decreases s.len(),
{
    if s.len() > 0 {
        if s[0].name@ == name {
            assert(s[0] == find_arch(s, name)->Some_0);
        } else {
            lemma_find_arch_in(s.skip(1), name);
            let i = choose|i: int|
                0 <= i < s.skip(1).len() && s.skip(1)[i] == find_arch(s.skip(1), name)->Some_0
                    && (#[trigger] s.skip(1)[i]).name@ == name;
            assert(s[i + 1] == s.skip(1)[i]);
        }
    }
}

pub proof fn lemma_find_branch_in(s: Seq<BranchEntry>, name: Seq<char>)
    requires
        find_branch(s, name) is Some,
    ensures
        exists|i: int|
            0 <= i < s.len() && s[i] == find_branch(s, name)->Some_0 && (#[trigger] s[i]).name@
                == name,
    decreases s.len(),
{
    if s.len() > 0 {
        if s[0].name@ == name {
            assert(s[0] == find_branch(s, name)->Some_0);
        } else {
            lemma_find_branch_in(s.skip(1), name);
            let i = choose|i: int|
                0 <= i < s.skip(1).len() && s.skip(1)[i] == find_branch(s.skip(1), name)->Some_0
                    && (#[trigger] s.skip(1)[i]).name@ == name;
            assert(s[i + 1] == s.skip(1)[i]);
        }
    }
}

/// Inserting an entry whose name no earlier entry bears changes exactly
/// the lookup of that name.
pub proof fn lemma_find_arch_insert(s: Seq<ArchEntry>, i: int, e: ArchEntry, name: Seq<char>)
    requires
        0 <= i <= s.len(),
        forall|j: int| 0 <= j < i ==> (#[trigger] s[j]).name@ != e.name@,
    ensures
        find_arch(s.insert(i, e), name) == if name == e.name@ {
            Option::Some(e)
        } else {
            find_arch(s, name)
        },
    decreases i,
{
    let t = s.insert(i, e);
    if i == 0 {
        assert(t[0] == e);
        assert(t.skip(1) =~= s);
    } else {
        assert(t[0] == s[0]);
        assert(t.skip(1) =~= s.skip(1).insert(i - 1, e));
        lemma_find_arch_insert(s.skip(1), i - 1, e, name);
        assert(s.skip(1).len() == s.len() - 1);
    }
}

pub proof fn lemma_find_branch_insert(s: Seq<BranchEntry>, i: int, e: BranchEntry, name: Seq<char>)
    requires
        0 <= i <= s.len(),
        forall|j: int| 0 <= j < i ==> (#[trigger] s[j]).name@ != e.name@,
    ensures
        find_branch(s.insert(i, e), name) == if name == e.name@ {
            Option::Some(e)
        } else {
            find_branch(s, name)
        },
    decreases i,
{
    let t = s.insert(i, e);
    if i == 0 {
        assert(t[0] == e);
        assert(t.skip(1) =~= s);
    } else {
        assert(t[0] == s[0]);
        assert(t.skip(1) =~= s.skip(1).insert(i - 1, e));
        lemma_find_branch_insert(s.skip(1), i - 1, e, name);
        assert(s.skip(1).len() == s.len() - 1);
    }
}

/// Replacing the entry at `i` by one of the same name changes exactly the
/// lookup of that name, provided no earlier entry bears it.
pub proof fn lemma_find_arch_update(s: Seq<ArchEntry>, i: int, e: ArchEntry, name: Seq<char>)
    requires
        0 <= i < s.len(),
        e.name@ == s[i].name@,
        forall|j: int| 0 <= j < i ==> (#[trigger] s[j]).name@ != s[i].name@,
    ensures
        find_arch(s.update(i, e), name) == if name == s[i].name@ {
            Option::Some(e)
        } else {
            find_arch(s, name)
        },
    decreases i,
{
    let t = s.update(i, e);
    if i == 0 {
        assert(t[0] == e);
        assert(t.skip(1) =~= s.skip(1));
    } else {
        assert(t[0] == s[0]);
        assert(t.skip(1) =~= s.skip(1).update(i - 1, e));
        lemma_find_arch_update(s.skip(1), i - 1, e, name);
    }
}

pub proof fn lemma_find_branch_update(s: Seq<BranchEntry>, i: int, e: BranchEntry, name: Seq<char>)
    requires
        0 <= i < s.len(),
        e.name@ == s[i].name@,
        forall|j: int| 0 <= j < i ==> (#[trigger] s[j]).name@ != s[i].name@,
    ensures
        find_branch(s.update(i, e), name) == if name == s[i].name@ {
            Option::Some(e)
        } else {
            find_branch(s, name)
        },
    decreases i,
{
    let t = s.update(i, e);
    if i == 0 {
        assert(t[0] == e);
        assert(t.skip(1) =~= s.skip(1));
    } else {
        assert(t[0] == s[0]);
        assert(t.skip(1) =~= s.skip(1).update(i - 1, e));
        lemma_find_branch_update(s.skip(1), i - 1, e, name);
    }
}

/// Inserts `v` into an ascending version list, keeping it ascending and
/// duplicate-free.
fn version_insert(versions: &mut Vec<String>, v: &str)
    requires
        v@.len() > 0,
        forall|i: int|
            0 <= i < old(versions)@.len() ==> (#[trigger] old(versions)@[i])@.len() > 0,
        forall|i: int, j: int|
            0 <= i < j < old(versions)@.len() ==> version_lt(old(versions)@[i]@, old(versions)@[j]@),
    ensures
        final(versions)@.len() > 0,
        forall|i: int|
            0 <= i < final(versions)@.len() ==> (#[trigger] final(versions)@[i])@.len() > 0,
        forall|i: int, j: int|
            0 <= i < j < final(versions)@.len() ==> version_lt(
                final(versions)@[i]@,
                final(versions)@[j]@,
            ),
        forall|x: Seq<char>|
            #[trigger] views(final(versions)@).contains(x) <==> (views(old(versions)@).contains(x)
                || x == v@),
{
    let ghost vs0 = old(versions)@;
    let mut i: usize = 0;
    let mut present: bool = false;
    loop
        invariant_except_break
            !present,
        invariant
            vs0 == old(versions)@,
            versions@ == vs0,
            v@.len() > 0,
            0 <= i <= vs0.len(),
            forall|i0: int| 0 <= i0 < vs0.len() ==> (#[trigger] vs0[i0])@.len() > 0,
            forall|i0: int, j0: int|
                0 <= i0 < j0 < vs0.len() ==> version_lt(vs0[i0]@, vs0[j0]@),
            forall|j: int| 0 <= j < i ==> version_lt((#[trigger] vs0[j])@, v@),
        ensures
            present ==> (i < vs0.len() && vs0[i as int]@ == v@),
            !present ==> (i == vs0.len() || version_cmp_spec(vs0[i as int]@, v@) == Cmp::Gt),
        decreases vs0.len() - i,
    {
        if i == versions.len() {
            break;
        }
        let c = version_cmp(versions[i].as_str(), v);
        proof {
            lemma_version_eq(vs0[i as int]@, v@);
        }
        match c {
            Cmp::Eq => {
                present = true;
                break;
            },
            Cmp::Gt => {
                break;
            },
            Cmp::Lt => {
                i += 1;
            },
        }
    }
    if present {
        proof {
            assert(views(vs0)[i as int] == v@);
            assert(views(vs0).contains(v@));
        }
        return ;
    }
    proof {
        if i < vs0.len() {
            lemma_version_flip(vs0[i as int]@, v@);
            lemma_version_eq(vs0[i as int]@, v@);
            assert(version_lt(v@, vs0[i as int]@));
        }
        assert forall|j: int| i <= j < vs0.len() implies version_lt(v@, (#[trigger] vs0[j])@) by {
            if j > i {
                lemma_version_trans(v@, vs0[i as int]@, vs0[j]@);
            }
        }
        // v is not already present
        assert forall|j: int| 0 <= j < vs0.len() implies (#[trigger] vs0[j])@ != v@ by {
            lemma_version_eq(vs0[j]@, v@);
            if j < i {
                assert(version_lt(vs0[j]@, v@));
            } else {
                lemma_version_flip(vs0[j]@, v@);
            }
        }
    }
    let w = v.to_owned();
    versions.insert(i, w);
    proof {
        let t = versions@;
        assert(t == vs0.insert(i as int, w));
        assert forall|i0: int, j0: int|
            0 <= i0 < j0 < t.len() implies version_lt((#[trigger] t[i0])@, (#[trigger] t[j0])@) by {
            if j0 < i {
                assert(t[i0] == vs0[i0] && t[j0] == vs0[j0]);
            } else if j0 == i {
                assert(t[i0] == vs0[i0] && t[j0] == w);
            } else if i0 < i {
                assert(t[i0] == vs0[i0] && t[j0] == vs0[j0 - 1]);
            } else if i0 == i {
                assert(t[i0] == w && t[j0] == vs0[j0 - 1]);
            } else {
                assert(t[i0] == vs0[i0 - 1] && t[j0] == vs0[j0 - 1]);
            }
        }
        assert forall|x: Seq<char>| views(t).contains(x) implies (views(vs0).contains(x) || x
            == v@) by {
            let j = choose|j: int| 0 <= j < t.len() && views(t)[j] == x;
            if j < i {
                assert(views(vs0)[j] == x);
            } else if j > i {
                assert(views(vs0)[j - 1] == x);
            }
        }
        assert forall|x: Seq<char>| (views(vs0).contains(x) || x == v@) implies views(t).contains(
            x,
        ) by {
            if x == v@ {
                assert(views(t)[i as int] == x);
            } else {
                let j = choose|j: int| 0 <= j < vs0.len() && views(vs0)[j] == x;
                if j < i {
                    assert(views(t)[j] == x);
                } else {
                    assert(views(t)[j + 1] == x);
                }
            }
        }
    }
}

/// A fresh architecture entry holding exactly one version.
fn new_arch(a: &str, v: &str) -> (ae: ArchEntry)
    requires
        a@.len() > 0,
        v@.len() > 0,
    ensures
        ae.wf(),
        ae.name@ == a@,
        forall|x: Seq<char>| ae.versions_view().contains(x) <==> x == v@,
{
    let versions: Vec<String> = vec![v.to_owned()];
    let ae = ArchEntry { name: a.to_owned(), versions };
    proof {
        assert(ae.versions_view() =~= seq![v@]);
        assert forall|x: Seq<char>| ae.versions_view().contains(x) implies x == v@ by {
            let j = choose|j: int| 0 <= j < ae.versions_view().len() && ae.versions_view()[j] == x;
        }
        assert(ae.versions_view()[0] == v@);
    }
    ae
}

/// A fresh branch entry holding exactly one architecture and version.
fn new_branch(b: &str, a: &str, v: &str) -> (be: BranchEntry)
    requires
        b@.len() > 0,
        a@.len() > 0,
        v@.len() > 0,
    ensures
        be.wf(),
        be.name@ == b@,
        forall|a2: Seq<char>, v2: Seq<char>|
            #[trigger] be.has_version(a2, v2) <==> (a2 == a@ && v2 == v@),
{
    let ae = new_arch(a, v);
    let arches: Vec<ArchEntry> = vec![ae];
    let be = BranchEntry { name: b.to_owned(), arches };
    proof {
        assert(be.arches@ =~= seq![ae]);
        assert forall|a2: Seq<char>, v2: Seq<char>| #[trigger]
            be.has_version(a2, v2) <==> (a2 == a@ && v2 == v@) by {
            if a2 == a@ {
                assert(be.arches@[0].name@ == a2);
                assert(find_arch(be.arches@, a2) == Option::Some(ae));
            } else {
                assert(be.arches@[0].name@ != a2);
                assert(find_arch(be.arches@, a2) == find_arch(be.arches@.skip(1), a2));
                assert(be.arches@.skip(1).len() == 0);
            }
        }
        assert(be.arches@[0].wf());
    }
    be
}

/// Records version `v` under architecture `a` of branch `be`.
fn arch_insert(be: &mut BranchEntry, a: &str, v: &str)
    requires
        old(be).wf(),
        a@.len() > 0,
        v@.len() > 0,
    ensures
        final(be).wf(),
        final(be).name == old(be).name,
        forall|a2: Seq<char>, v2: Seq<char>|
            #[trigger] final(be).has_version(a2, v2) <==> (old(be).has_version(a2, v2) || (a2 == a@
                && v2 == v@)),
{
    let ghost be0 = *old(be);
    let ghost ar0 = old(be).arches@;
    let mut i: usize = 0;
    let mut found: bool = false;
    loop
        invariant_except_break
            !found,
        invariant
            be0 == *old(be),
            *be == be0,
            be0.wf(),
            a@.len() > 0,
            v@.len() > 0,
            0 <= i <= ar0.len(),
            ar0 == be0.arches@,
            forall|j: int| 0 <= j < i ==> lex_lt((#[trigger] ar0[j]).name@, a@),
        ensures
            found ==> (i < ar0.len() && ar0[i as int].name@ == a@),
            !found ==> (i == ar0.len() || lex_cmp_spec(ar0[i as int].name@, a@) == Cmp::Gt),
        decreases ar0.len() - i,
    {
        if i == be.arches.len() {
            break;
        }
        let c = lex_cmp(be.arches[i].name.as_str(), a);
        proof {
            lemma_lex_eq(ar0[i as int].name@, a@);
        }
        match c {
            Cmp::Eq => {
                found = true;
                break;
            },
            Cmp::Gt => {
                break;
            },
            Cmp::Lt => {
                i += 1;
            },
        }
    }
    proof {
        assert forall|j: int| 0 <= j < i implies (#[trigger] ar0[j]).name@ != a@ by {
            lemma_lex_eq(ar0[j].name@, a@);
        }
    }
    if found {
        let mut ae = be.arches.remove(i);
        proof {
            assert(ae == ar0[i as int]);
            assert(ae.wf());
            assert forall|k: int| 0 <= k < ae.versions@.len() implies (#[trigger] ae.versions@[k])@.len()
                > 0 by {
                assert(ae.versions_view()[k] == ae.versions@[k]@);
            }
            assert forall|k: int, l: int|
                0 <= k < l < ae.versions@.len() implies version_lt(
                ae.versions@[k]@,
                ae.versions@[l]@,
            ) by {
                assert(ae.versions_view()[k] == ae.versions@[k]@);
                assert(ae.versions_view()[l] == ae.versions@[l]@);
            }
        }
        version_insert(&mut ae.versions, v);
        let ghost ae1 = ae;
        be.arches.insert(i, ae);
        proof {
            let t = be.arches@;
            assert(t[i as int] == ae1);
            assert(t =~= ar0.update(i as int, ae1));
            assert(ae1.name@ == a@);
            assert forall|k: int| 0 <= k < ae1.versions@.len() implies (#[trigger]
                ae1.versions_view()[k]).len() > 0 by {
                assert(ae1.versions_view()[k] == ae1.versions@[k]@);
            }
            assert forall|k: int, l: int|
                0 <= k < l < ae1.versions@.len() implies version_lt(
                ae1.versions_view()[k],
                ae1.versions_view()[l],
            ) by {
                assert(ae1.versions_view()[k] == ae1.versions@[k]@);
                assert(ae1.versions_view()[l] == ae1.versions@[l]@);
            }
            assert(ae1.wf());
            assert(be.arch_names() =~= be0.arch_names());
            assert forall|i0: int, j0: int|
                0 <= i0 < j0 < t.len() implies lex_lt(
                be.arch_names()[i0],
                be.arch_names()[j0],
            ) by {
                assert(be0.arch_names()[i0] == be.arch_names()[i0]);
            }
            assert forall|i0: int| 0 <= i0 < t.len() implies (#[trigger] t[i0]).wf() by {
                if i0 != i {
                    assert(t[i0] == ar0[i0]);
                }
            }
            lemma_find_arch_at(ar0, i as int);
            assert forall|a2: Seq<char>, v2: Seq<char>| #[trigger]
                be.has_version(a2, v2) <==> (be0.has_version(a2, v2) || (a2 == a@ && v2 == v@)) by {
                lemma_find_arch_update(ar0, i as int, ae1, a2);
                if a2 == a@ {
                    assert(find_arch(t, a2) == Option::Some(ae1));
                    assert(find_arch(ar0, a2) == Option::Some(ar0[i as int]));
                    assert(be.has_version(a2, v2) == ae1.versions_view().contains(v2));
                    assert(be0.has_version(a2, v2) == ar0[i as int].versions_view().contains(v2));
                    assert(ae1.versions_view() == views(ae1.versions@));
                } else {
                    assert(find_arch(t, a2) == find_arch(ar0, a2));
                }
            }
        }
    } else {
        proof {
            if i < ar0.len() {
                lemma_lex_flip(ar0[i as int].name@, a@);
                assert(lex_lt(a@, ar0[i as int].name@));
            }
            assert forall|j: int| i <= j < ar0.len() implies lex_lt(
                a@,
                (#[trigger] ar0[j]).name@,
            ) by {
                if j > i {
                    assert(be0.arch_names()[i as int] == ar0[i as int].name@);
                    assert(be0.arch_names()[j] == ar0[j].name@);
                    assert(lex_lt(be0.arch_names()[i as int], be0.arch_names()[j]));
                    lemma_lex_trans(a@, ar0[i as int].name@, ar0[j].name@);
                }
            }
            assert forall|j: int| 0 <= j < ar0.len() implies (#[trigger] ar0[j]).name@ != a@ by {
                lemma_lex_eq(ar0[j].name@, a@);
                if j >= i {
                    lemma_lex_flip(ar0[j].name@, a@);
                }
            }
            lemma_find_arch_none(ar0, a@);
        }
        let ae = new_arch(a, v);
        be.arches.insert(i, ae);
        proof {
            let t = be.arches@;
            assert(t == ar0.insert(i as int, ae));
            lemma_find_arch_insert(ar0, i as int, ae, a@);
            assert forall|i0: int, j0: int|
                0 <= i0 < j0 < t.len() implies lex_lt(
                be.arch_names()[i0],
                be.arch_names()[j0],
            ) by {
                let names0 = be0.arch_names();
                let names = be.arch_names();
                if j0 < i {
                    assert(names[i0] == names0[i0] && names[j0] == names0[j0]);
                } else if j0 == i {
                    assert(names[i0] == names0[i0] && names[j0] == a@);
                } else if i0 < i {
                    assert(names[i0] == names0[i0] && names[j0] == names0[j0 - 1]);
                } else if i0 == i {
                    assert(names[i0] == a@ && names[j0] == names0[j0 - 1]);
                } else {
                    assert(names[i0] == names0[i0 - 1] && names[j0] == names0[j0 - 1]);
                }
            }
            assert forall|i0: int| 0 <= i0 < t.len() implies (#[trigger] t[i0]).wf() by {
                if i0 < i {
                    assert(t[i0] == ar0[i0]);
                } else if i0 > i {
                    assert(t[i0] == ar0[i0 - 1]);
                }
            }
            assert forall|a2: Seq<char>, v2: Seq<char>| #[trigger]
                be.has_version(a2, v2) <==> (be0.has_version(a2, v2) || (a2 == a@ && v2 == v@)) by {
                lemma_find_arch_insert(ar0, i as int, ae, a2);
                if a2 == a@ {
                    assert(find_arch(t, a2) == Option::Some(ae));
                    assert(be.has_version(a2, v2) == ae.versions_view().contains(v2));
                    assert(find_arch(ar0, a2) is None);
                    assert(!be0.has_version(a2, v2));
                } else {
                    assert(find_arch(t, a2) == find_arch(ar0, a2));
                }
            }
        }
    }
}

/// Finds the position of the entry named `a`, if any.
fn find_arch_pos(arches: &Vec<ArchEntry>, a: &str) -> (r: Option<usize>)
    ensures
        match r {
            Option::Some(i) => i < arches@.len() && arches@[i as int].name@ == a@ && find_arch(
                arches@,
                a@,
            ) == Option::Some(arches@[i as int]),
            Option::None => find_arch(arches@, a@) is None,
        },
{
    let mut i: usize = 0;
    while i < arches.len()
        invariant
            0 <= i <= arches@.len(),
            forall|j: int| 0 <= j < i ==> (#[trigger] arches@[j]).name@ != a@,
        decreases arches@.len() - i,
    {
        if crate::split::str_eq(arches[i].name.as_str(), a) {
            proof {
                lemma_find_arch_at(arches@, i as int);
            }
            return Option::Some(i);
        }
        i += 1;
    }
    proof {
        lemma_find_arch_none(arches@, a@);
    }
    Option::None
}

/// Finds the position of the entry named `b`, if any.
fn find_branch_pos(branches: &Vec<BranchEntry>, b: &str) -> (r: Option<usize>)
    ensures
        match r {
            Option::Some(i) => i < branches@.len() && branches@[i as int].name@ == b@
                && find_branch(branches@, b@) == Option::Some(branches@[i as int]),
            Option::None => find_branch(branches@, b@) is None,
        },
{
    let mut i: usize = 0;
    while i < branches.len()
        invariant
            0 <= i <= branches@.len(),
            forall|j: int| 0 <= j < i ==> (#[trigger] branches@[j]).name@ != b@,
        decreases branches@.len() - i,
    {
        if crate::split::str_eq(branches[i].name.as_str(), b) {
            proof {
                lemma_find_branch_at(branches@, i as int);
            }
            return Option::Some(i);
        }
        i += 1;
    }
    proof {
        lemma_find_branch_none(branches@, b@);
    }
    Option::None
}

impl Index {
    /// An index holding nothing at all.
    pub fn new() -> (idx: Index)
        ensures
            idx.wf(),
            idx.branches@.len() == 0,
            forall|b: Seq<char>, a: Seq<char>, v: Seq<char>| !(#[trigger] idx.contains_triple(
                b,
                a,
                v,
            )),
    {
        let idx = Index { branches: Vec::new() };
        proof {
            assert forall|b: Seq<char>, a: Seq<char>, v: Seq<char>| !(#[trigger]
                idx.contains_triple(b, a, v)) by {
                assert(find_branch(idx.branches@, b) is None);
            }
        }
        idx
    }

    /// All branch names, in ascending lexicographic order.
    pub fn branches(&self) -> (r: Vec<String>)
        ensures
            views(r@) == self.branch_names(),
    {
        let mut r: Vec<String> = Vec::new();
        let mut i: usize = 0;
        while i < self.branches.len()
            invariant
                0 <= i <= self.branches@.len(),
                views(r@) =~= self.branch_names().take(i as int),
            decreases self.branches@.len() - i,
        {
            let name = self.branches[i].name.clone();
            proof {
                assert(views(r@.push(name)) =~= views(r@).push(name@));
                assert(self.branch_names().take(i as int + 1) =~= self.branch_names().take(
                    i as int,
                ).push(self.branch_names()[i as int]));
            }
            r.push(name);
            i += 1;
        }
        proof {
            assert(self.branch_names().take(self.branches@.len() as int) =~= self.branch_names());
        }
        r
    }

    /// All architecture names under `branch`, in ascending lexicographic
    /// order; empty if the branch is unknown.
    pub fn architectures(&self, branch: &str) -> (r: Vec<String>)
        ensures
            views(r@) == self.spec_arches(branch@),
    {
        let mut r: Vec<String> = Vec::new();
        match find_branch_pos(&self.branches, branch) {
            Option::None => {
                proof {
                    assert(views(r@) =~= Seq::<Seq<char>>::empty());
                }
                r
            },
            Option::Some(p) => {
                let be = &self.branches[p];
                let mut i: usize = 0;
                while i < be.arches.len()
                    invariant
                        0 <= i <= be.arches@.len(),
                        views(r@) =~= be.arch_names().take(i as int),
                    decreases be.arches@.len() - i,
                {
                    let name = be.arches[i].name.clone();
                    proof {
                        assert(views(r@.push(name)) =~= views(r@).push(name@));
                        assert(be.arch_names().take(i as int + 1) =~= be.arch_names().take(
                            i as int,
                        ).push(be.arch_names()[i as int]));
                    }
                    r.push(name);
                    i += 1;
                }
                proof {
                    assert(be.arch_names().take(be.arches@.len() as int) =~= be.arch_names());
                }
                r
            },
        }
    }

    /// All versions under `(branch, arch)`, ascending under the version
    /// order; empty if the pair is unknown.
    pub fn versions(&self, branch: &str, arch: &str) -> (r: Vec<String>)
        ensures
            views(r@) == self.spec_versions(branch@, arch@),
    {
        let mut r: Vec<String> = Vec::new();
        let p = match find_branch_pos(&self.branches, branch) {
            Option::None => {
                proof {
                    assert(views(r@) =~= Seq::<Seq<char>>::empty());
                }
                return r;
            },
            Option::Some(p) => p,
        };
        let be = &self.branches[p];
        let q = match find_arch_pos(&be.arches, arch) {
            Option::None => {
                proof {
                    assert(views(r@) =~= Seq::<Seq<char>>::empty());
                }
                return r;
            },
            Option::Some(q) => q,
        };
        let ae = &be.arches[q];
        let mut i: usize = 0;
        while i < ae.versions.len()
            invariant
                0 <= i <= ae.versions@.len(),
                views(r@) =~= ae.versions_view().take(i as int),
            decreases ae.versions@.len() - i,
        {
            let name = ae.versions[i].clone();
            proof {
                assert(views(r@.push(name)) =~= views(r@).push(name@));
                assert(ae.versions_view().take(i as int + 1) =~= ae.versions_view().take(
                    i as int,
                ).push(ae.versions_view()[i as int]));
            }
            r.push(name);
            i += 1;
        }
        proof {
            assert(ae.versions_view().take(ae.versions@.len() as int) =~= ae.versions_view());
        }
        r
    }

    /// The greatest version under `(branch, arch)` in the version order,
    /// or `None` if the pair is unknown. Absence is a normal outcome, not
    /// an error.
    pub fn latest_version(&self, branch: &str, arch: &str) -> (r: Option<String>)
        ensures
            match r {
                Option::None => self.spec_versions(branch@, arch@).len() == 0,
                Option::Some(v) => self.spec_versions(branch@, arch@).len() > 0 && v@
                    == self.spec_versions(branch@, arch@).last(),
            },
    {
        let p = match find_branch_pos(&self.branches, branch) {
            Option::None => {
                return Option::None;
            },
            Option::Some(p) => p,
        };
        let be = &self.branches[p];
        let q = match find_arch_pos(&be.arches, arch) {
            Option::None => {
                return Option::None;
            },
            Option::Some(q) => q,
        };
        let ae = &be.arches[q];
        if ae.versions.len() == 0 {
            return Option::None;
        }
        let v = ae.versions[ae.versions.len() - 1].clone();
        proof {
            assert(ae.versions_view().last() == ae.versions@[ae.versions@.len() - 1]@);
        }
        Option::Some(v)
    }
}

/// Records the triple `(b, a, v)` in the index.
pub fn index_insert(idx: &mut Index, b: &str, a: &str, v: &str)
    requires
        old(idx).wf(),
        b@.len() > 0,
        a@.len() > 0,
        v@.len() > 0,
    ensures
        final(idx).wf(),
        forall|b2: Seq<char>, a2: Seq<char>, v2: Seq<char>|
            #[trigger] final(idx).contains_triple(b2, a2, v2) <==> (old(idx).contains_triple(
                b2,
                a2,
                v2,
            ) || (b2 == b@ && a2 == a@ && v2 == v@)),
{
    let ghost idx0 = *old(idx);
    let ghost br0 = old(idx).branches@;
    let mut i: usize = 0;
    let mut found: bool = false;
    loop
        invariant_except_break
            !found,
        invariant
            idx0 == *old(idx),
            *idx == idx0,
            idx0.wf(),
            b@.len() > 0,
            a@.len() > 0,
            v@.len() > 0,
            0 <= i <= br0.len(),
            br0 == idx0.branches@,
            forall|j: int| 0 <= j < i ==> lex_lt((#[trigger] br0[j]).name@, b@),
        ensures
            found ==> (i < br0.len() && br0[i as int].name@ == b@),
            !found ==> (i == br0.len() || lex_cmp_spec(br0[i as int].name@, b@) == Cmp::Gt),
        decreases br0.len() - i,
    {
        if i == idx.branches.len() {
            break;
        }
        let c = lex_cmp(idx.branches[i].name.as_str(), b);
        proof {
            lemma_lex_eq(br0[i as int].name@, b@);
        }
        match c {
            Cmp::Eq => {
                found = true;
                break;
            },
            Cmp::Gt => {
                break;
            },
            Cmp::Lt => {
                i += 1;
            },
        }
    }
    proof {
        assert forall|j: int| 0 <= j < i implies (#[trigger] br0[j]).name@ != b@ by {
            lemma_lex_eq(br0[j].name@, b@);
        }
    }
    if found {
        let mut be = idx.branches.remove(i);
        proof {
            assert(be == br0[i as int]);
            assert(be.wf());
        }
        arch_insert(&mut be, a, v);
        let ghost be1 = be;
        idx.branches.insert(i, be);
        proof {
            let t = idx.branches@;
            assert(t[i as int] == be1);
            assert(t =~= br0.update(i as int, be1));
            assert(be1.name@ == b@);
            assert(be1.wf());
            assert(idx.branch_names() =~= idx0.branch_names());
            assert forall|i0: int, j0: int|
                0 <= i0 < j0 < t.len() implies lex_lt(
                idx.branch_names()[i0],
                idx.branch_names()[j0],
            ) by {
                assert(idx0.branch_names()[i0] == idx.branch_names()[i0]);
            }
            assert forall|i0: int| 0 <= i0 < t.len() implies (#[trigger] t[i0]).wf() by {
                if i0 != i {
                    assert(t[i0] == br0[i0]);
                }
            }
            lemma_find_branch_at(br0, i as int);
            assert forall|b2: Seq<char>, a2: Seq<char>, v2: Seq<char>| #[trigger]
                idx.contains_triple(b2, a2, v2) <==> (idx0.contains_triple(b2, a2, v2) || (b2 == b@
                    && a2 == a@ && v2 == v@)) by {
                lemma_find_branch_update(br0, i as int, be1, b2);
                if b2 == b@ {
                    assert(find_branch(t, b2) == Option::Some(be1));
                    assert(find_branch(br0, b2) == Option::Some(br0[i as int]));
                    assert(idx.contains_triple(b2, a2, v2) == be1.has_version(a2, v2));
                    assert(idx0.contains_triple(b2, a2, v2) == br0[i as int].has_version(a2, v2));
                } else {
                    assert(find_branch(t, b2) == find_branch(br0, b2));
                    assert(idx.spec_versions(b2, a2) == idx0.spec_versions(b2, a2));
                }
            }
        }
    } else {
        proof {
            if i < br0.len() {
                lemma_lex_flip(br0[i as int].name@, b@);
                assert(lex_lt(b@, br0[i as int].name@));
            }
            assert forall|j: int| i <= j < br0.len() implies lex_lt(
                b@,
                (#[trigger] br0[j]).name@,
            ) by {
                if j > i {
                    assert(idx0.branch_names()[i as int] == br0[i as int].name@);
                    assert(idx0.branch_names()[j] == br0[j].name@);
                    assert(lex_lt(idx0.branch_names()[i as int], idx0.branch_names()[j]));
                    lemma_lex_trans(b@, br0[i as int].name@, br0[j].name@);
                }
            }
            assert forall|j: int| 0 <= j < br0.len() implies (#[trigger] br0[j]).name@ != b@ by {
                lemma_lex_eq(br0[j].name@, b@);
                if j >= i {
                    lemma_lex_flip(br0[j].name@, b@);
                }
            }
            lemma_find_branch_none(br0, b@);
        }
        let be = new_branch(b, a, v);
        idx.branches.insert(i, be);
        proof {
            let t = idx.branches@;
            assert(t == br0.insert(i as int, be));
            lemma_find_branch_insert(br0, i as int, be, b@);
            assert forall|i0: int, j0: int|
                0 <= i0 < j0 < t.len() implies lex_lt(
                idx.branch_names()[i0],
                idx.branch_names()[j0],
            ) by {
                let names0 = idx0.branch_names();
                let names = idx.branch_names();
                if j0 < i {
                    assert(names[i0] == names0[i0] && names[j0] == names0[j0]);
                } else if j0 == i {
                    assert(names[i0] == names0[i0] && names[j0] == b@);
                } else if i0 < i {
                    assert(names[i0] == names0[i0] && names[j0] == names0[j0 - 1]);
                } else if i0 == i {
                    assert(names[i0] == b@ && names[j0] == names0[j0 - 1]);
                } else {
                    assert(names[i0] == names0[i0 - 1] && names[j0] == names0[j0 - 1]);
                }
            }
            assert forall|i0: int| 0 <= i0 < t.len() implies (#[trigger] t[i0]).wf() by {
                if i0 < i {
                    assert(t[i0] == br0[i0]);
                } else if i0 > i {
                    assert(t[i0] == br0[i0 - 1]);
                }
            }
            assert forall|b2: Seq<char>, a2: Seq<char>, v2: Seq<char>| #[trigger]
                idx.contains_triple(b2, a2, v2) <==> (idx0.contains_triple(b2, a2, v2) || (b2 == b@
                    && a2 == a@ && v2 == v@)) by {
                lemma_find_branch_insert(br0, i as int, be, b2);
                if b2 == b@ {
                    assert(find_branch(t, b2) == Option::Some(be));
                    assert(idx.contains_triple(b2, a2, v2) == be.has_version(a2, v2));
                    assert(find_branch(br0, b2) is None);
                    assert(!idx0.contains_triple(b2, a2, v2));
                } else {
                    assert(find_branch(t, b2) == find_branch(br0, b2));
                    assert(idx.spec_versions(b2, a2) == idx0.spec_versions(b2, a2));
                }
            }
        }
    }
}

} // verus!
