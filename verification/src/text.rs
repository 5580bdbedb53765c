//! Character-level helpers for links: scheme detection and the storage
//! normalization (prefixing `http://` when no scheme is named).
use vstd::prelude::*;
use vstd::string::StringExecFns;

verus! {

/// The scheme delimiter, as characters.
pub open spec fn scheme_sep() -> Seq<char> {
    seq![':', '/', '/']
}

/// The default scheme prefix, as characters.
pub open spec fn scheme_prefix() -> Seq<char> {
    seq!['h', 't', 't', 'p', ':', '/', '/']
}

/// `s` names a scheme: the delimiter `://` occurs somewhere in it.
pub open spec fn has_scheme(s: Seq<char>) -> bool {
    exists|i: int| 0 <= i && i + 3 <= s.len() && #[trigger] s.subrange(i, i + 3) == scheme_sep()
}

/// A link as stored: unchanged when it already names a scheme, else with
/// the default scheme prefixed.
pub open spec fn norm_link(l: Seq<char>) -> Seq<char> {
    if has_scheme(l) {
        l
    } else {
        scheme_prefix() + l
    }
}

/// The characters of `s`, collected into a vector.
pub fn str_chars(s: &str) -> (v: Vec<char>)
    ensures
        v@ == s@,
{
    broadcast use vstd::string::axiom_spec_iter;

    let mut v: Vec<char> = Vec::new();
    for c in it: s.chars()
        invariant
            it.seq() == s@,
            v@ == it.seq().subrange(0, it.index() as int),
    {
        v.push(c);
    }
    proof {
        assert(v@ =~= s@);
    }
    v
}

/// How many characters `s` holds.
pub fn char_count(s: &str) -> (n: usize)
    ensures
        n == s@.len(),
{
    let v = str_chars(s);
    v.len()
}

/// Whether `s` contains the scheme delimiter `://`.
pub fn contains_scheme(s: &str) -> (b: bool)
    ensures
        b == has_scheme(s@),
{
    let v = str_chars(s);
    let n = v.len();
    if n < 3 {
        return false;
    }
    let mut i: usize = 0;
    while i <= n - 3
        invariant
            3 <= n,
            i <= n,
            n == v.len(),
            v@ == s@,
            forall|j: int| 0 <= j < i ==> #[trigger] s@.subrange(j, j + 3) != scheme_sep(),
        decreases n - i,
    {
        if v[i] == ':' && v[i + 1] == '/' && v[i + 2] == '/' {
            proof {
                assert(s@.subrange(i as int, i + 3) =~= scheme_sep());
            }
            return true;
        }
        proof {
            assert(s@.subrange(i as int, i + 3) != scheme_sep()) by {
                assert(s@.subrange(i as int, i + 3)[0] == s@[i as int]);
                assert(s@.subrange(i as int, i + 3)[1] == s@[i + 1]);
                assert(s@.subrange(i as int, i + 3)[2] == s@[i + 2]);
            }
        }
        i += 1;
    }
    false
}

/// Applies the storage normalization to a raw link.
pub fn normalize(url: String) -> (r: String)
    ensures
        r@ == norm_link(url@),
{
    if contains_scheme(url.as_str()) {
        url
    } else {
        let mut s = String::from_str("http://");
        s.append(url.as_str());
        proof {
            reveal_strlit("http://");
            assert(s@ =~= scheme_prefix() + url@);
        }
        s
    }
}

} // verus!
