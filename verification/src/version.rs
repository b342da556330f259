//! The total order over version identifiers.
//!
//! An identifier is split into dot-separated components. Components are
//! compared pairwise: two components that consist entirely of decimal
//! digits are compared by their numeric value; a numeric component sorts
//! before a non-numeric one; two non-numeric components are compared
//! lexicographically by code point. The first differing component decides;
//! an identifier with fewer components, all equal, sorts before the longer
//! one. Identifiers whose components all compare equal (for example
//! `1.02` and `1.2`) are ordered lexicographically as whole strings, so
//! only textually identical identifiers compare equal.

use vstd::prelude::*;
use vstd::string::*;
use crate::Cmp;
use crate::split::{
    spec_split, split_char, lex_cmp_spec, lex_cmp, lemma_lex_eq, lemma_lex_flip, lemma_lex_trans,
    lemma_char_eq,
};

verus! {

pub open spec fn is_digit(c: char) -> bool {
    48 <= c as u32 <= 57
}

pub open spec fn digit_val(c: char) -> nat {
    (c as u32 - 48) as nat
}

pub open spec fn all_digits(s: Seq<char>) -> bool {
    forall|i: int| 0 <= i < s.len() ==> is_digit(#[trigger] s[i])
}

/// A component is numeric when it is non-empty and all digits.
pub open spec fn seq_is_numeric(s: Seq<char>) -> bool {
    s.len() > 0 && all_digits(s)
}

/// The numeric value of a digit sequence, leading zeros allowed.
pub open spec fn digits_val(s: Seq<char>) -> nat
    decreases s.len(),
{
    if s.len() == 0 {
        0
    } else {
        digits_val(s.drop_last()) * 10 + digit_val(s.last())
    }
}

pub open spec fn pow10(n: nat) -> nat
    decreases n,
{
    if n == 0 {
        1
    } else {
        10 * pow10((n - 1) as nat)
    }
}

pub open spec fn num_cmp(x: nat, y: nat) -> Cmp {
    if x < y {
        Cmp::Lt
    } else if x > y {
        Cmp::Gt
    } else {
        Cmp::Eq
    }
}

/// Ordering of a single pair of components.
pub open spec fn comp_cmp_spec(a: Seq<char>, b: Seq<char>) -> Cmp {
    if seq_is_numeric(a) && seq_is_numeric(b) {
        num_cmp(digits_val(a), digits_val(b))
    } else if seq_is_numeric(a) {
        Cmp::Lt
    } else if seq_is_numeric(b) {
        Cmp::Gt
    } else {
        lex_cmp_spec(a, b)
    }
}

/// Ordering of two component sequences: first difference decides, a strict
/// prefix sorts before the longer sequence.
pub open spec fn comps_cmp_spec(a: Seq<Seq<char>>, b: Seq<Seq<char>>) -> Cmp
    decreases a.len(),
{
    if a.len() == 0 && b.len() == 0 {
        Cmp::Eq
    } else if a.len() == 0 {
        Cmp::Lt
    } else if b.len() == 0 {
        Cmp::Gt
    } else if comp_cmp_spec(a[0], b[0]) != Cmp::Eq {
        comp_cmp_spec(a[0], b[0])
    } else {
        comps_cmp_spec(a.skip(1), b.skip(1))
    }
}

/// The total order over version identifiers.
pub open spec fn version_cmp_spec(a: Seq<char>, b: Seq<char>) -> Cmp {
    let c = comps_cmp_spec(spec_split(a, '.'), spec_split(b, '.'));
    if c != Cmp::Eq {
        c
    } else {
        lex_cmp_spec(a, b)
    }
}

pub open spec fn version_lt(a: Seq<char>, b: Seq<char>) -> bool {
    version_cmp_spec(a, b) == Cmp::Lt
}

pub proof fn lemma_pow10_pos(n: nat)
    ensures
        pow10(n) >= 1,
    decreases n,
{
    if n > 0 {
        lemma_pow10_pos((n - 1) as nat);
    }
}

pub proof fn lemma_pow10_mono(m: nat, n: nat)
    requires
        m <= n,
    ensures
        pow10(m) <= pow10(n),
    decreases n,
{
    lemma_pow10_pos(m);
    if m < n {
        lemma_pow10_mono(m, (n - 1) as nat);
    }
}

/// A digit sequence's value is below ten to its length.
pub proof fn lemma_digits_val_bound(s: Seq<char>)
    requires
        all_digits(s),
    ensures
        digits_val(s) < pow10(s.len() as nat),
    decreases s.len(),
{
    if s.len() == 0 {
    } else {
        assert(all_digits(s.drop_last()));
        lemma_digits_val_bound(s.drop_last());
        assert(pow10(s.len() as nat) == 10 * pow10((s.len() - 1) as nat));
        assert(digit_val(s.last()) <= 9);
    }
}

/// A digit sequence that does not start with `0` has value at least ten to
/// one less than its length.
pub proof fn lemma_digits_val_first(s: Seq<char>)
    requires
        all_digits(s),
        s.len() > 0,
        s[0] != '0',
    ensures
        digits_val(s) >= pow10((s.len() - 1) as nat),
    decreases s.len(),
{
    lemma_char_eq(s[0], '0');
    if s.len() == 1 {
        assert(s.drop_last() =~= Seq::<char>::empty());
        assert(digit_val(s.last()) >= 1);
    } else {
        assert(s.drop_last()[0] == s[0]);
        assert(all_digits(s.drop_last()));
        lemma_digits_val_first(s.drop_last());
        assert(pow10((s.len() - 1) as nat) == 10 * pow10((s.len() - 2) as nat));
    }
}

pub proof fn lemma_digits_all_zero(s: Seq<char>)
    requires
        forall|j: int| 0 <= j < s.len() ==> s[j] == '0',
    ensures
        digits_val(s) == 0,
    decreases s.len(),
{
    if s.len() > 0 {
        lemma_digits_all_zero(s.drop_last());
        assert(s.last() == '0');
    }
}

/// Leading zeros do not change a digit sequence's value.
pub proof fn lemma_digits_val_zero_prefix(s: Seq<char>, k: int)
    requires
        0 <= k <= s.len(),
        forall|j: int| 0 <= j < k ==> s[j] == '0',
    ensures
        digits_val(s.skip(k)) == digits_val(s),
    decreases s.len(),
{
    if s.len() == k {
        assert(s.skip(k) =~= Seq::<char>::empty());
        lemma_digits_all_zero(s);
    } else {
        assert(s.skip(k).drop_last() =~= s.drop_last().skip(k));
        assert(s.skip(k).last() == s.last());
        assert(forall|j: int| 0 <= j < k ==> s.drop_last()[j] == s[j]);
        lemma_digits_val_zero_prefix(s.drop_last(), k);
    }
}

/// Appending equally many digits to each side keeps a strict value order.
pub proof fn lemma_val_append_mono(u: Seq<char>, v: Seq<char>, s: Seq<char>, t: Seq<char>)
    requires
        s.len() == t.len(),
        all_digits(s),
        all_digits(t),
        digits_val(u) < digits_val(v),
    ensures
        digits_val(u + s) < digits_val(v + t),
    decreases s.len(),
{
    if s.len() == 0 {
        assert(u + s =~= u);
        assert(v + t =~= v);
    } else {
        assert((u + s).drop_last() =~= u + s.drop_last());
        assert((v + t).drop_last() =~= v + t.drop_last());
        assert((u + s).last() == s.last());
        assert((v + t).last() == t.last());
        assert(all_digits(s.drop_last()));
        assert(all_digits(t.drop_last()));
        lemma_val_append_mono(u, v, s.drop_last(), t.drop_last());
        assert(digit_val(s.last()) <= 9);
    }
}

/// For digit sequences of equal length, the first differing digit decides
/// the numeric order.
pub proof fn lemma_val_lex(x: Seq<char>, y: Seq<char>, i: int)
    requires
        all_digits(x),
        all_digits(y),
        x.len() == y.len(),
        0 <= i < x.len(),
        forall|j: int| 0 <= j < i ==> x[j] == y[j],
        (x[i] as u32) < (y[i] as u32),
    ensures
        digits_val(x) < digits_val(y),
{
    let xp = x.take(i + 1);
    let yp = y.take(i + 1);
    assert(xp.drop_last() =~= x.take(i));
    assert(yp.drop_last() =~= y.take(i));
    assert(x.take(i) =~= y.take(i));
    assert(xp.last() == x[i]);
    assert(yp.last() == y[i]);
    assert(digit_val(x[i]) < digit_val(y[i]));
    assert(digits_val(xp) < digits_val(yp));
    assert(all_digits(x.skip(i + 1)));
    assert(all_digits(y.skip(i + 1)));
    lemma_val_append_mono(xp, yp, x.skip(i + 1), y.skip(i + 1));
    assert(x =~= xp + x.skip(i + 1));
    assert(y =~= yp + y.skip(i + 1));
}

pub proof fn lemma_comp_refl(a: Seq<char>)
    ensures
        comp_cmp_spec(a, a) == Cmp::Eq,
{
    lemma_lex_eq(a, a);
}

pub proof fn lemma_comp_flip(a: Seq<char>, b: Seq<char>)
    ensures
        comp_cmp_spec(b, a) == comp_cmp_spec(a, b).spec_flip(),
{
    lemma_lex_flip(a, b);
}

/// Component order is transitive; two `Eq` steps give `Eq`.
pub proof fn lemma_comp_trans(a: Seq<char>, b: Seq<char>, c: Seq<char>)
    requires
        comp_cmp_spec(a, b) != Cmp::Gt,
        comp_cmp_spec(b, c) != Cmp::Gt,
    ensures
        comp_cmp_spec(a, c) != Cmp::Gt,
        (comp_cmp_spec(a, b) == Cmp::Lt || comp_cmp_spec(b, c) == Cmp::Lt) ==> comp_cmp_spec(
            a,
            c,
        ) == Cmp::Lt,
        (comp_cmp_spec(a, b) == Cmp::Eq && comp_cmp_spec(b, c) == Cmp::Eq) ==> comp_cmp_spec(
            a,
            c,
        ) == Cmp::Eq,
{
    if !seq_is_numeric(a) && !seq_is_numeric(b) && !seq_is_numeric(c) {
        lemma_lex_eq(a, b);
        lemma_lex_eq(b, c);
        if lex_cmp_spec(a, b) == Cmp::Eq {
        } else if lex_cmp_spec(b, c) == Cmp::Eq {
        } else {
            lemma_lex_trans(a, b, c);
        }
    }
}

pub proof fn lemma_comps_refl(a: Seq<Seq<char>>)
    ensures
        comps_cmp_spec(a, a) == Cmp::Eq,
    decreases a.len(),
{
    if a.len() > 0 {
        lemma_comp_refl(a[0]);
        lemma_comps_refl(a.skip(1));
    }
}

pub proof fn lemma_comps_flip(a: Seq<Seq<char>>, b: Seq<Seq<char>>)
    ensures
        comps_cmp_spec(b, a) == comps_cmp_spec(a, b).spec_flip(),
    decreases a.len(),
{
    if a.len() > 0 && b.len() > 0 {
        lemma_comp_flip(a[0], b[0]);
        lemma_comps_flip(a.skip(1), b.skip(1));
    }
}

/// Component-sequence order is transitive; two `Eq` steps give `Eq`.
pub proof fn lemma_comps_trans(a: Seq<Seq<char>>, b: Seq<Seq<char>>, c: Seq<Seq<char>>)
    requires
        comps_cmp_spec(a, b) != Cmp::Gt,
        comps_cmp_spec(b, c) != Cmp::Gt,
    ensures
        comps_cmp_spec(a, c) != Cmp::Gt,
        (comps_cmp_spec(a, b) == Cmp::Lt || comps_cmp_spec(b, c) == Cmp::Lt) ==> comps_cmp_spec(
            a,
            c,
        ) == Cmp::Lt,
        (comps_cmp_spec(a, b) == Cmp::Eq && comps_cmp_spec(b, c) == Cmp::Eq) ==> comps_cmp_spec(
            a,
            c,
        ) == Cmp::Eq,
    decreases a.len(),
{
    if a.len() == 0 {
    } else if b.len() == 0 {
    } else if c.len() == 0 {
    } else {
        lemma_comp_trans(a[0], b[0], c[0]);
        if comp_cmp_spec(a[0], b[0]) == Cmp::Eq && comp_cmp_spec(b[0], c[0]) == Cmp::Eq {
            lemma_comps_trans(a.skip(1), b.skip(1), c.skip(1));
        }
    }
}

/// Version identifiers compare equal exactly when they are identical.
pub proof fn lemma_version_eq(a: Seq<char>, b: Seq<char>)
    ensures
        version_cmp_spec(a, b) == Cmp::Eq <==> a == b,
{
    lemma_lex_eq(a, b);
    if a == b {
        lemma_comps_refl(spec_split(a, '.'));
    }
}

/// Swapping the compared identifiers flips the outcome.
pub proof fn lemma_version_flip(a: Seq<char>, b: Seq<char>)
    ensures
        version_cmp_spec(b, a) == version_cmp_spec(a, b).spec_flip(),
{
    lemma_comps_flip(spec_split(a, '.'), spec_split(b, '.'));
    lemma_lex_flip(a, b);
}

/// The strict version order is transitive.
pub proof fn lemma_version_trans(a: Seq<char>, b: Seq<char>, c: Seq<char>)
    requires
        version_lt(a, b),
        version_lt(b, c),
    ensures
        version_lt(a, c),
{
    let sa = spec_split(a, '.');
    let sb = spec_split(b, '.');
    let sc = spec_split(c, '.');
    lemma_comps_trans(sa, sb, sc);
    if comps_cmp_spec(sa, sb) == Cmp::Eq && comps_cmp_spec(sb, sc) == Cmp::Eq {
        lemma_lex_trans(a, b, c);
    }
}

/// Whether every character of `s` is a decimal digit and `s` is non-empty.
fn is_numeric(s: &str) -> (r: bool)
    ensures
        r == seq_is_numeric(s@),
{
    let n = s.unicode_len();
    if n == 0 {
        return false;
    }
    let mut i: usize = 0;
    while i < n
        invariant
            n == s@.len(),
            0 <= i <= n,
            forall|j: int| 0 <= j < i ==> is_digit(#[trigger] s@[j]),
        decreases n - i,
    {
        let u = s.get_char(i) as u32;
        if u < 48 || u > 57 {
            return false;
        }
        i += 1;
    }
    true
}

/// Compares two numeric components by value: leading zeros are stripped,
/// then a longer remainder is larger, and equal-length remainders are
/// decided by their first differing digit.
fn cmp_numeric(a: &str, b: &str) -> (r: Cmp)
    requires
        seq_is_numeric(a@),
        seq_is_numeric(b@),
    ensures
        r == num_cmp(digits_val(a@), digits_val(b@)),
{
    let na = a.unicode_len();
    let nb = b.unicode_len();
    let mut ia: usize = 0;
    while ia < na && a.get_char(ia) == '0'
        invariant
            na == a@.len(),
            0 <= ia <= na,
            forall|j: int| 0 <= j < ia ==> a@[j] == '0',
        decreases na - ia,
    {
        ia += 1;
    }
    let mut ib: usize = 0;
    while ib < nb && b.get_char(ib) == '0'
        invariant
            nb == b@.len(),
            0 <= ib <= nb,
            forall|j: int| 0 <= j < ib ==> b@[j] == '0',
        decreases nb - ib,
    {
        ib += 1;
    }
    let ea = Ghost(a@.skip(ia as int));
    let eb = Ghost(b@.skip(ib as int));
    proof {
        lemma_digits_val_zero_prefix(a@, ia as int);
        lemma_digits_val_zero_prefix(b@, ib as int);
        assert(all_digits(ea@));
        assert(all_digits(eb@));
    }
    let la = na - ia;
    let lb = nb - ib;
    if la != lb {
        proof {
            let (shorter, longer, ls, ll) = if la < lb {
                (ea@, eb@, la as int, lb as int)
            } else {
                (eb@, ea@, lb as int, la as int)
            };
            lemma_digits_val_bound(shorter);
            assert(longer[0] != '0');
            lemma_digits_val_first(longer);
            lemma_pow10_mono(ls as nat, (ll - 1) as nat);
        }
        if la < lb {
            return Cmp::Lt;
        } else {
            return Cmp::Gt;
        }
    }
    let mut i: usize = 0;
    while i < la
        invariant
            na == a@.len(),
            nb == b@.len(),
            ia + la == na,
            ib + lb == nb,
            la == lb,
            0 <= i <= la,
            ea@ == a@.skip(ia as int),
            eb@ == b@.skip(ib as int),
            all_digits(ea@),
            all_digits(eb@),
            digits_val(ea@) == digits_val(a@),
            digits_val(eb@) == digits_val(b@),
            forall|j: int| 0 <= j < i ==> ea@[j] == eb@[j],
        decreases la - i,
    {
        let ca = a.get_char(ia + i);
        let cb = b.get_char(ib + i);
        proof {
            assert(ea@[i as int] == a@[ia + i]);
            assert(eb@[i as int] == b@[ib + i]);
            lemma_char_eq(ca, cb);
        }
        let ua = ca as u32;
        let ub = cb as u32;
        if ua < ub {
            proof {
                lemma_val_lex(ea@, eb@, i as int);
            }
            return Cmp::Lt;
        } else if ua > ub {
            proof {
                lemma_val_lex(eb@, ea@, i as int);
            }
            return Cmp::Gt;
        }
        i += 1;
    }
    proof {
        assert(ea@ =~= eb@);
    }
    Cmp::Eq
}

/// Compares a single pair of version components.
fn comp_cmp(a: &str, b: &str) -> (r: Cmp)
    ensures
        r == comp_cmp_spec(a@, b@),
{
    let num_a = is_numeric(a);
    let num_b = is_numeric(b);
    if num_a && num_b {
        cmp_numeric(a, b)
    } else if num_a {
        Cmp::Lt
    } else if num_b {
        Cmp::Gt
    } else {
        lex_cmp(a, b)
    }
}

/// Compares two version identifiers under the version order.
pub fn version_cmp(a: &str, b: &str) -> (r: Cmp)
    ensures
        r == version_cmp_spec(a@, b@),
{
    let pa = split_char(a, '.');
    let pb = split_char(b, '.');
    let ghost sa = spec_split(a@, '.');
    let ghost sb = spec_split(b@, '.');
    let na = pa.len();
    let nb = pb.len();
    let mut i: usize = 0;
    proof {
        assert(sa.skip(0) =~= sa);
        assert(sb.skip(0) =~= sb);
    }
    loop
        invariant
            sa == spec_split(a@, '.'),
            sb == spec_split(b@, '.'),
            pa@.map_values(|p: String| p@) == sa,
            pb@.map_values(|p: String| p@) == sb,
            na == pa.len(),
            nb == pb.len(),
            na == sa.len(),
            nb == sb.len(),
            0 <= i <= na,
            0 <= i <= nb,
            comps_cmp_spec(sa, sb) == comps_cmp_spec(sa.skip(i as int), sb.skip(i as int)),
        decreases na - i,
    {
        if i == na || i == nb {
            if na == nb {
                proof {
                    assert(sa.skip(i as int).len() == 0 && sb.skip(i as int).len() == 0);
                }
                return lex_cmp(a, b);
            } else if i == na {
                return Cmp::Lt;
            } else {
                return Cmp::Gt;
            }
        }
        proof {
            assert(sa.skip(i as int)[0] == sa[i as int]);
            assert(sb.skip(i as int)[0] == sb[i as int]);
            assert(pa@[i as int]@ == sa[i as int]);
            assert(pb@[i as int]@ == sb[i as int]);
        }
        let c = comp_cmp(pa[i].as_str(), pb[i].as_str());
        match c {
            Cmp::Eq => {
                proof {
                    assert(sa.skip(i as int).skip(1) =~= sa.skip(i as int + 1));
                    assert(sb.skip(i as int).skip(1) =~= sb.skip(i as int + 1));
                }
                i += 1;
            },
            _ => {
                return c;
            },
        }
    }
}

} // verus!
