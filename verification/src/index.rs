//! One direction of the bidirectional index: an association list from
//! strings to strings, read in contracts as a `Map` over character
//! sequences. Keys are kept pairwise distinct.
use vstd::prelude::*;

verus! {

/// The entries of an association list, as pairs of character sequences.
pub open spec fn pairs_view(v: Seq<(String, String)>) -> Seq<(Seq<char>, Seq<char>)> {
    v.map_values(|p: (String, String)| (p.0@, p.1@))
}

/// The mapping an entry sequence denotes; later entries win, though with
/// distinct keys the order never matters.
pub open spec fn map_of_pairs(s: Seq<(Seq<char>, Seq<char>)>) -> Map<Seq<char>, Seq<char>>
    decreases s.len(),
{
    if s.len() == 0 {
        Map::empty()
    } else {
        map_of_pairs(s.drop_last()).insert(s.last().0, s.last().1)
    }
}

/// The mapping held by an association list.
pub open spec fn al_map(v: Vec<(String, String)>) -> Map<Seq<char>, Seq<char>> {
    map_of_pairs(pairs_view(v@))
}

/// No two entries share a key.
pub open spec fn distinct_key_seqs(s: Seq<(Seq<char>, Seq<char>)>) -> bool {
    forall|i: int, j: int| 0 <= i < j < s.len() ==> s[i].0 != s[j].0
}

/// Shorthand for an association list whose keys are pairwise distinct.
pub open spec fn al_distinct(v: Vec<(String, String)>) -> bool {
    distinct_key_seqs(pairs_view(v@))
}

/// Some key maps to `val`.
pub open spec fn map_has_value(m: Map<Seq<char>, Seq<char>>, val: Seq<char>) -> bool {
    exists|k: Seq<char>| #[trigger] m.contains_key(k) && m[k] == val
}

/// A key occurs in the mapping exactly when some entry holds it.
pub proof fn lemma_map_dom(s: Seq<(Seq<char>, Seq<char>)>, k: Seq<char>)
    ensures
        map_of_pairs(s).contains_key(k) <==> exists|i: int| 0 <= i < s.len() && s[i].0 == k,
    decreases s.len(),
{
    if s.len() > 0 {
        lemma_map_dom(s.drop_last(), k);
        if map_of_pairs(s).contains_key(k) {
            if s.last().0 == k {
                assert(s[s.len() - 1].0 == k);
            } else {
                let i = choose|i: int| 0 <= i < s.drop_last().len() && s.drop_last()[i].0 == k;
                assert(s[i].0 == k);
            }
        }
        if exists|i: int| 0 <= i < s.len() && s[i].0 == k {
            let i = choose|i: int| 0 <= i < s.len() && s[i].0 == k;
            if i < s.len() - 1 {
                assert(s.drop_last()[i].0 == k);
            }
        }
    }
}

/// With distinct keys, every entry stands in the mapping as it is written.
pub proof fn lemma_map_pair(s: Seq<(Seq<char>, Seq<char>)>, i: int)
    requires
        distinct_key_seqs(s),
        0 <= i < s.len(),
    ensures
        map_of_pairs(s).contains_pair(s[i].0, s[i].1),
    decreases s.len(),
{
    if i < s.len() - 1 {
        assert(s.drop_last()[i] == s[i]);
        assert(distinct_key_seqs(s.drop_last())) by {
            assert(forall|a: int, b: int|
                0 <= a < b < s.drop_last().len() ==> s.drop_last()[a] == s[a]
                    && s.drop_last()[b] == s[b]);
        }
        lemma_map_pair(s.drop_last(), i);
        assert(s[i].0 != s.last().0);
    }
}

/// With distinct keys, the value under a present key is the value of the
/// entry that holds the key.
pub proof fn lemma_map_value_index(s: Seq<(Seq<char>, Seq<char>)>, k: Seq<char>)
    requires
        distinct_key_seqs(s),
        map_of_pairs(s).contains_key(k),
    ensures
        exists|i: int|
            0 <= i < s.len() && s[i].0 == k && s[i].1 == map_of_pairs(s)[k],
{
    lemma_map_dom(s, k);
    let i = choose|i: int| 0 <= i < s.len() && s[i].0 == k;
    lemma_map_pair(s, i);
    assert(s[i].0 == k && s[i].1 == map_of_pairs(s)[k]);
}

/// Removing the entry that holds a key removes exactly that key from the
/// mapping.
proof fn lemma_map_remove_at(s: Seq<(Seq<char>, Seq<char>)>, i: int)
    requires
        distinct_key_seqs(s),
        0 <= i < s.len(),
    ensures
        map_of_pairs(s.remove(i)) =~= map_of_pairs(s).remove(s[i].0),
        distinct_key_seqs(s.remove(i)),
    decreases s.len(),
{
    assert(forall|a: int| 0 <= a < i ==> s.remove(i)[a] == s[a]);
    assert(forall|a: int| i <= a < s.len() - 1 ==> s.remove(i)[a] == s[a + 1]);
    if i == s.len() - 1 {
        assert(s.remove(i) =~= s.drop_last());
        lemma_map_dom(s.drop_last(), s[i].0);
        assert(!map_of_pairs(s.drop_last()).contains_key(s[i].0));
    } else {
        let t = s.remove(i);
        assert(t.drop_last() =~= s.drop_last().remove(i));
        assert(t.last() == s.last());
        assert(distinct_key_seqs(s.drop_last())) by {
            assert(forall|a: int|
                0 <= a < s.drop_last().len() ==> s.drop_last()[a] == s[a]);
        }
        lemma_map_remove_at(s.drop_last(), i);
        assert(map_of_pairs(t) =~= map_of_pairs(s.drop_last()).remove(s[i].0).insert(
            s.last().0,
            s.last().1,
        ));
        assert(s[i].0 != s.last().0);
    }
}

/// Looks a key up, returning its value when present.
pub fn al_get(v: &Vec<(String, String)>, k: &String) -> (r: Option<String>)
    requires
        al_distinct(*v),
    ensures
        r is Some <==> al_map(*v).contains_key(k@),
        r matches Some(val) ==> al_map(*v).contains_pair(k@, val@),
{
    let ghost s = pairs_view(v@);
    let n = v.len();
    let mut i: usize = 0;
    while i < n
        invariant
            n == v.len(),
            s == pairs_view(v@),
            distinct_key_seqs(s),
            forall|j: int| 0 <= j < i ==> s[j].0 != k@,
        decreases n - i,
    {
        if v[i].0 == *k {
            proof {
                lemma_map_pair(s, i as int);
                lemma_map_dom(s, k@);
            }
            return Some(v[i].1.clone());
        }
        i += 1;
    }
    proof {
        lemma_map_dom(s, k@);
    }
    None
}

/// Whether a key is present.
pub fn al_contains_key(v: &Vec<(String, String)>, k: &String) -> (b: bool)
    requires
        al_distinct(*v),
    ensures
        b == al_map(*v).contains_key(k@),
{
    let r = al_get(v, k);
    r.is_some()
}

/// Whether some entry holds `val` as its value.
pub fn al_has_value(v: &Vec<(String, String)>, val: &String) -> (b: bool)
    requires
        al_distinct(*v),
    ensures
        b == map_has_value(al_map(*v), val@),
{
    let ghost s = pairs_view(v@);
    let n = v.len();
    let mut i: usize = 0;
    while i < n
        invariant
            n == v.len(),
            s == pairs_view(v@),
            distinct_key_seqs(s),
            forall|j: int| 0 <= j < i ==> s[j].1 != val@,
        decreases n - i,
    {
        if v[i].1 == *val {
            proof {
                lemma_map_pair(s, i as int);
                assert(al_map(*v).contains_key(s[i as int].0) && al_map(*v)[s[i as int].0]
                    == val@);
            }
            return true;
        }
        i += 1;
    }
    proof {
        if map_has_value(al_map(*v), val@) {
            let k = choose|k: Seq<char>|
                #[trigger] al_map(*v).contains_key(k) && al_map(*v)[k] == val@;
            lemma_map_value_index(s, k);
        }
    }
    false
}

/// Removes the entry under a key, when one is there.
pub fn al_remove(v: &mut Vec<(String, String)>, k: &String)
    requires
        al_distinct(*old(v)),
    ensures
        al_distinct(*final(v)),
        al_map(*final(v)) == al_map(*old(v)).remove(k@),
        final(v)@.len() <= old(v)@.len(),
{
    let ghost s = pairs_view(old(v)@);
    let n = v.len();
    let mut i: usize = 0;
    while i < n
        invariant
            n == v.len(),
            v@ == old(v)@,
            s == pairs_view(v@),
            distinct_key_seqs(s),
            forall|j: int| 0 <= j < i ==> s[j].0 != k@,
        decreases n - i,
    {
        if v[i].0 == *k {
            v.remove(i);
            proof {
                assert(pairs_view(v@) =~= s.remove(i as int));
                lemma_map_remove_at(s, i as int);
            }
            return ;
        }
        i += 1;
    }
    proof {
        lemma_map_dom(s, k@);
        assert(!al_map(*v).contains_key(k@));
        assert(al_map(*v) =~= al_map(*v).remove(k@));
    }
}

/// Adds an entry under a key that is not yet present.
pub fn al_insert(v: &mut Vec<(String, String)>, k: String, val: String)
    requires
        al_distinct(*old(v)),
        !al_map(*old(v)).contains_key(k@),
    ensures
        al_distinct(*final(v)),
        al_map(*final(v)) == al_map(*old(v)).insert(k@, val@),
        final(v)@.len() == old(v)@.len() + 1,
{
    let ghost s = pairs_view(old(v)@);
    let ghost kk = k@;
    let ghost vv = val@;
    proof {
        lemma_map_dom(s, k@);
    }
    v.push((k, val));
    proof {
        let t = pairs_view(v@);
        assert(t.drop_last() =~= s);
        assert(t.last() == (kk, vv));
        assert(al_map(*v) == map_of_pairs(t));
        assert(distinct_key_seqs(t)) by {
            assert forall|a: int, b: int| 0 <= a < b < t.len() implies t[a].0 != t[b].0 by {
                if b < t.len() - 1 {
                    assert(t[a] == s[a] && t[b] == s[b]);
                } else {
                    assert(t[a] == s[a] && t[b].0 == kk);
                    assert(s[a].0 != kk);
                }
            }
        }
    }
}

} // verus!
