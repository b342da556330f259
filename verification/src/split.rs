//! Splitting character sequences at a separator, and lexicographic
//! comparison of character sequences by code point.
//!
//! Both object keys (separated by `/`) and version identifiers (separated
//! by `.`) are taken apart with the same splitting function.

use vstd::prelude::*;
use vstd::string::*;
use crate::Cmp;

verus! {

/// The pieces of `s` between occurrences of the separator `sep`.
///
/// The result always has one more element than `s` has separators: an
/// empty input yields one empty piece, and a separator at either end
/// contributes an empty piece on that side.
pub open spec fn spec_split(s: Seq<char>, sep: char) -> Seq<Seq<char>>
    decreases s.len(),
{
    if s.len() == 0 {
        seq![Seq::<char>::empty()]
    } else if s[0] == sep {
        seq![Seq::<char>::empty()] + spec_split(s.skip(1), sep)
    } else {
        let rest = spec_split(s.skip(1), sep);
        seq![seq![s[0]] + rest[0]] + rest.skip(1)
    }
}

pub proof fn lemma_split_len(s: Seq<char>, sep: char)
    ensures
        spec_split(s, sep).len() >= 1,
    decreases s.len(),
{
    if s.len() == 0 {
    } else {
        lemma_split_len(s.skip(1), sep);
    }
}

/// Appending one character extends the last piece, or, if the character is
/// the separator, opens a new empty piece.
pub proof fn lemma_split_push(s: Seq<char>, sep: char, c: char)
    ensures
        c == sep ==> spec_split(s.push(c), sep) == spec_split(s, sep).push(Seq::<char>::empty()),
        c != sep ==> spec_split(s.push(c), sep) == ({
            let r = spec_split(s, sep);
            r.update(r.len() - 1, r.last().push(c))
        }),
    decreases s.len(),
{
    lemma_split_len(s, sep);
    let t = s.push(c);
    if s.len() == 0 {
        assert(t.skip(1) =~= Seq::<char>::empty());
        assert(spec_split(s, sep) == seq![Seq::<char>::empty()]);
        assert(spec_split(t.skip(1), sep) == seq![Seq::<char>::empty()]);
        if c == sep {
            assert(spec_split(t, sep) == seq![Seq::<char>::empty()] + spec_split(
                t.skip(1),
                sep,
            ));
            assert(spec_split(t, sep) =~~= spec_split(s, sep).push(Seq::<char>::empty()));
        } else {
            let rt = spec_split(t.skip(1), sep);
            assert(spec_split(t, sep) == seq![seq![t[0]] + rt[0]] + rt.skip(1));
            assert(rt.skip(1) =~= Seq::<Seq<char>>::empty());
            let r = spec_split(s, sep);
            assert(spec_split(t, sep) =~~= r.update(r.len() - 1, r.last().push(c)));
        }
    } else {
        lemma_split_len(s.skip(1), sep);
        assert(t.skip(1) =~= s.skip(1).push(c));
        lemma_split_push(s.skip(1), sep, c);
        let rest = spec_split(s.skip(1), sep);
        let rt = spec_split(t.skip(1), sep);
        if s[0] == sep {
            if c == sep {
                assert(spec_split(t, sep) =~~= spec_split(s, sep).push(Seq::<char>::empty()));
            } else {
                let r = spec_split(s, sep);
                assert(spec_split(t, sep) =~~= r.update(r.len() - 1, r.last().push(c)));
            }
        } else {
            if c == sep {
                assert(rt == rest.push(Seq::<char>::empty()));
                assert(rt[0] == rest[0]);
                assert(rt.skip(1) =~= rest.skip(1).push(Seq::<char>::empty()));
                assert(spec_split(t, sep) =~~= spec_split(s, sep).push(Seq::<char>::empty()));
            } else {
                let r = spec_split(s, sep);
                assert(rt == rest.update(rest.len() - 1, rest.last().push(c)));
                if rest.len() == 1 {
                    assert(rt[0] == rest[0].push(c));
                    assert(rt.skip(1) =~= rest.skip(1));
                    assert(seq![s[0]] + rest[0].push(c) =~= (seq![s[0]] + rest[0]).push(c));
                    assert(spec_split(t, sep) =~~= r.update(r.len() - 1, r.last().push(c)));
                } else {
                    assert(rt[0] == rest[0]);
                    assert(rt.skip(1) =~= rest.skip(1).update(rest.len() - 2, rest.last().push(c)));
                    assert(r.last() == rest.last());
                    assert(spec_split(t, sep) =~~= r.update(r.len() - 1, r.last().push(c)));
                }
            }
        }
    }
}

/// Splits `s` at every occurrence of `sep`.
pub fn split_char(s: &str, sep: char) -> (parts: Vec<String>)
    ensures
        parts@.map_values(|p: String| p@) == spec_split(s@, sep),
{
    let n = s.unicode_len();
    let mut parts: Vec<String> = Vec::new();
    let mut start: usize = 0;
    let mut i: usize = 0;
    proof {
        assert(s@.take(0) =~= Seq::<char>::empty());
        assert(parts@.map_values(|p: String| p@).push(s@.subrange(0, 0)) =~= spec_split(
            s@.take(0),
            sep,
        ));
    }
    while i < n
        invariant
            n == s@.len(),
            0 <= start <= i <= n,
            parts@.map_values(|p: String| p@).push(s@.subrange(start as int, i as int))
                =~= spec_split(s@.take(i as int), sep),
        decreases n - i,
    {
        let c = s.get_char(i);
        proof {
            lemma_split_push(s@.take(i as int), sep, c);
            assert(s@.take(i as int + 1) =~= s@.take(i as int).push(s@[i as int]));
            lemma_split_len(s@.take(i as int), sep);
        }
        if c == sep {
            let piece = s.substring_char(start, i).to_owned();
            proof {
                let old_views = parts@.map_values(|p: String| p@);
                assert((parts@.push(piece)).map_values(|p: String| p@) =~= old_views.push(
                    piece@,
                ));
                assert((parts@.push(piece)).map_values(|p: String| p@).push(s@.subrange(
                    i as int + 1,
                    i as int + 1,
                )) =~~= spec_split(s@.take(i as int + 1), sep));
            }
            parts.push(piece);
            start = i + 1;
        } else {
            proof {
                let views = parts@.map_values(|p: String| p@);
                let prev = views.push(s@.subrange(start as int, i as int));
                assert(prev.last() == s@.subrange(start as int, i as int));
                assert(s@.subrange(start as int, i as int).push(s@[i as int]) =~= s@.subrange(
                    start as int,
                    i as int + 1,
                ));
                assert(prev.update(prev.len() - 1, prev.last().push(s@[i as int])) =~~= views.push(
                    s@.subrange(start as int, i as int + 1),
                ));
            }
        }
        i += 1;
    }
    let piece = s.substring_char(start, n).to_owned();
    proof {
        assert(s@.take(n as int) =~= s@);
        let old_views = parts@.map_values(|p: String| p@);
        assert((parts@.push(piece)).map_values(|p: String| p@) =~= old_views.push(piece@));
    }
    parts.push(piece);
    parts
}

/// Three-way lexicographic comparison of character sequences by code
/// point, which for UTF-8 encoded strings coincides with byte-wise order.
///
/// A strict prefix sorts before the longer sequence; the result is `Eq`
/// exactly when the sequences are equal.
pub open spec fn lex_cmp_spec(a: Seq<char>, b: Seq<char>) -> Cmp
    decreases a.len(),
{
    if a.len() == 0 && b.len() == 0 {
        Cmp::Eq
    } else if a.len() == 0 {
        Cmp::Lt
    } else if b.len() == 0 {
        Cmp::Gt
    } else if (a[0] as u32) < (b[0] as u32) {
        Cmp::Lt
    } else if (a[0] as u32) > (b[0] as u32) {
        Cmp::Gt
    } else {
        lex_cmp_spec(a.skip(1), b.skip(1))
    }
}

/// Strict lexicographic order by code point.
pub open spec fn lex_lt(a: Seq<char>, b: Seq<char>) -> bool {
    lex_cmp_spec(a, b) == Cmp::Lt
}

/// Two characters are equal exactly when their code points are.
pub proof fn lemma_char_eq(c1: char, c2: char)
    ensures
        (c1 == c2) <==> (c1 as u32 == c2 as u32),
{
    if c1 as u32 == c2 as u32 {
        vstd::utf8::char_u32_cast(c1, c1 as u32);
        vstd::utf8::char_u32_cast(c2, c2 as u32);
    }
}

/// `lex_cmp_spec` answers `Eq` exactly on equal sequences.
pub proof fn lemma_lex_eq(a: Seq<char>, b: Seq<char>)
    ensures
        lex_cmp_spec(a, b) == Cmp::Eq <==> a == b,
    decreases a.len(),
{
    if a.len() == 0 || b.len() == 0 {
        if a.len() == 0 && b.len() == 0 {
            assert(a =~= b);
        } else {
            assert(a != b);
        }
    } else {
        lemma_lex_eq(a.skip(1), b.skip(1));
        lemma_char_eq(a[0], b[0]);
        if lex_cmp_spec(a, b) == Cmp::Eq {
            assert(a[0] == b[0]);
            assert(a.skip(1) == b.skip(1));
            assert(a =~= seq![a[0]] + a.skip(1));
            assert(b =~= seq![b[0]] + b.skip(1));
        }
        if a == b {
            assert(a.skip(1) =~= b.skip(1));
        }
    }
}

/// Swapping the arguments of `lex_cmp_spec` flips the outcome.
pub proof fn lemma_lex_flip(a: Seq<char>, b: Seq<char>)
    ensures
        lex_cmp_spec(b, a) == lex_cmp_spec(a, b).spec_flip(),
    decreases a.len(),
{
    if a.len() == 0 || b.len() == 0 {
    } else {
        lemma_lex_flip(a.skip(1), b.skip(1));
    }
}

/// Strict lexicographic order is transitive.
pub proof fn lemma_lex_trans(a: Seq<char>, b: Seq<char>, c: Seq<char>)
    requires
        lex_cmp_spec(a, b) == Cmp::Lt,
        lex_cmp_spec(b, c) == Cmp::Lt,
    ensures
        lex_cmp_spec(a, c) == Cmp::Lt,
    decreases a.len(),
{
    if a.len() == 0 {
    } else {
        lemma_char_eq(a[0], b[0]);
        lemma_char_eq(b[0], c[0]);
        lemma_char_eq(a[0], c[0]);
        if (a[0] as u32) == (b[0] as u32) && (b[0] as u32) == (c[0] as u32) {
            lemma_lex_trans(a.skip(1), b.skip(1), c.skip(1));
        }
    }
}

/// Compares two strings lexicographically by code point.
pub fn lex_cmp(a: &str, b: &str) -> (r: Cmp)
    ensures
        r == lex_cmp_spec(a@, b@),
{
    let na = a.unicode_len();
    let nb = b.unicode_len();
    let mut i: usize = 0;
    proof {
        assert(a@.skip(0) =~= a@);
        assert(b@.skip(0) =~= b@);
    }
    loop
        invariant
            na == a@.len(),
            nb == b@.len(),
            0 <= i <= na,
            0 <= i <= nb,
            lex_cmp_spec(a@, b@) == lex_cmp_spec(a@.skip(i as int), b@.skip(i as int)),
        decreases na - i,
    {
        if i == na || i == nb {
            if na == nb {
                proof {
                    assert(a@.skip(i as int).len() == 0 && b@.skip(i as int).len() == 0);
                }
                return Cmp::Eq;
            } else if i == na {
                return Cmp::Lt;
            } else {
                return Cmp::Gt;
            }
        }
        let ca = a.get_char(i);
        let cb = b.get_char(i);
        proof {
            assert(a@.skip(i as int)[0] == a@[i as int]);
            assert(b@.skip(i as int)[0] == b@[i as int]);
        }
        let ua = ca as u32;
        let ub = cb as u32;
        if ua < ub {
            return Cmp::Lt;
        } else if ua > ub {
            return Cmp::Gt;
        }
        proof {
            assert(a@.skip(i as int).skip(1) =~= a@.skip(i as int + 1));
            assert(b@.skip(i as int).skip(1) =~= b@.skip(i as int + 1));
        }
        i += 1;
    }
}

/// Whether two strings hold the same characters.
pub fn str_eq(a: &str, b: &str) -> (r: bool)
    ensures
        r == (a@ == b@),
{
    let c = lex_cmp(a, b);
    proof {
        lemma_lex_eq(a@, b@);
    }
    match c {
        Cmp::Eq => true,
        _ => false,
    }
}

} // verus!
