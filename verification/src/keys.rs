//! Parsing object keys against the path convention
//! `<branch>/<architecture>/<version>/<remainder>`.
//!
//! A key with fewer than three slash-separated segments, or with an empty
//! branch, architecture or version segment, is malformed and yields no
//! triple. The remainder (everything after the third separator) is opaque
//! and not part of the parse result.

use vstd::prelude::*;
use vstd::string::*;
use crate::split::{spec_split, split_char, lemma_split_len};

verus! {

/// The triple a well-formed key denotes, or `None` for a malformed key.
pub open spec fn parse_key_spec(s: Seq<char>) -> Option<(Seq<char>, Seq<char>, Seq<char>)> {
    let parts = spec_split(s, '/');
    if parts.len() >= 3 && parts[0].len() > 0 && parts[1].len() > 0 && parts[2].len() > 0 {
        Option::Some((parts[0], parts[1], parts[2]))
    } else {
        Option::None
    }
}

/// Splits a key into its branch, architecture and version segments.
pub fn parse_key(s: &str) -> (r: Option<(String, String, String)>)
    ensures
        match r {
            Option::Some(t) => parse_key_spec(s@) == Option::Some((t.0@, t.1@, t.2@))
                && t.0@.len() > 0 && t.1@.len() > 0 && t.2@.len() > 0,
            Option::None => parse_key_spec(s@) is None,
        },
{
    let parts = split_char(s, '/');
    proof {
        lemma_split_len(s@, '/');
    }
    if parts.len() < 3 {
        return Option::None;
    }
    let b = parts[0].clone();
    let a = parts[1].clone();
    let v = parts[2].clone();
    proof {
        assert(b@ == spec_split(s@, '/')[0]);
        assert(a@ == spec_split(s@, '/')[1]);
        assert(v@ == spec_split(s@, '/')[2]);
    }
    if b.as_str().is_empty() || a.as_str().is_empty() || v.as_str().is_empty() {
        return Option::None;
    }
    Option::Some((b, a, v))
}

} // verus!
