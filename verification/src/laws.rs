//! The store's cross-operation guarantees, stated once and proved from
//! the operation contracts alone.
use vstd::prelude::*;
use crate::codes::is_code;
use crate::store::created;
use crate::store::freshly_created;
use crate::store::touched;
use crate::store::EntryV;
use crate::store::Store;
use crate::store::RETENTION_SECS;

verus! {

/// The expiry recorded for a live code: the `at` of the ledger entry that
/// carries it. Meaningful only while some entry does.
pub open spec fn entry_expiry(s: Store, c: Seq<char>) -> u64 {
    let i = choose|i: int| 0 <= i < s.ledger().len() && s.ledger()[i].code == c;
    s.ledger()[i].at
}

/// When the last ledger entry carries the code, the recorded expiry is
/// that entry's.
proof fn lemma_entry_expiry_last(s: Store, c: Seq<char>)
    requires
        s.inv(),
        s.ledger().len() > 0,
        s.ledger().last().code == c,
    ensures
        entry_expiry(s, c) == s.ledger().last().at,
{
    let n = s.ledger().len() as int;
    assert(s.ledger()[n - 1].code == c);
    let i = choose|i: int| 0 <= i < s.ledger().len() && s.ledger()[i].code == c;
    if i != n - 1 {
        assert(s.ledger()[i].code != s.ledger()[n - 1].code);
        assert(false);
    }
}

/// A creation leaves a bijective pair behind: the returned code resolves
/// to the link, and the link maps back to the code.
pub proof fn lemma_create_then_resolve(s0: Store, s1: Store, link: Seq<char>, now: u64, c: Seq<
    char,
>)
    requires
        s0.inv(),
        created(s0, s1, link, now, c),
    ensures
        s1.code_map().contains_pair(c, link),
        s1.link_map().contains_pair(link, c),
{
    if s0.link_map().contains_key(link) && s0.ledger_has_code(s0.link_map()[link]) {
        let p = choose|p: int| 0 <= p < s0.ledger().len() && s0.ledger()[p].code == c;
        s0.lemma_ledger_entry_of_link(link, p);
    }
}

/// Re-creating a link before it expires returns the same code both
/// times, and never shortens the entry's remaining lifetime.
pub proof fn lemma_recreate_idempotent(
    s0: Store,
    s1: Store,
    s2: Store,
    link: Seq<char>,
    n1: u64,
    n2: u64,
    c1: Seq<char>,
    c2: Seq<char>,
)
    requires
        s0.inv(),
        s1.inv(),
        s2.inv(),
        created(s0, s1, link, n1, c1),
        created(s1, s2, link, n2, c2),
        n1 <= n2,
        n2 + RETENTION_SECS <= u64::MAX,
    ensures
        c2 == c1,
        entry_expiry(s2, c1) >= entry_expiry(s1, c1),
{
    lemma_create_then_resolve(s0, s1, link, n1, c1);
    let ev1 = EntryV { at: (n1 + RETENTION_SECS) as u64, link, code: c1 };
    assert(s1.ledger().last() == ev1);
    assert(s1.ledger()[s1.ledger().len() - 1].code == c1);
    assert(s1.ledger_has_code(c1));
    assert(s1.link_map()[link] == c1);
    assert(touched(s1, s2, link, n2, c2));
    lemma_entry_expiry_last(s1, c1);
    let ev2 = EntryV { at: (n2 + RETENTION_SECS) as u64, link, code: c1 };
    assert(s2.ledger().last() == ev2);
    lemma_entry_expiry_last(s2, c1);
}

/// Creations for two different (already-normalized) links never hand out
/// the same code.
pub proof fn lemma_distinct_links_distinct_codes(
    s0: Store,
    s1: Store,
    s2: Store,
    l1: Seq<char>,
    l2: Seq<char>,
    n1: u64,
    n2: u64,
    c1: Seq<char>,
    c2: Seq<char>,
)
    requires
        s0.inv(),
        s1.inv(),
        created(s0, s1, l1, n1, c1),
        created(s1, s2, l2, n2, c2),
        l1 != l2,
    ensures
        c1 != c2,
{
    lemma_create_then_resolve(s0, s1, l1, n1, c1);
    if s1.link_map().contains_key(l2) && s1.ledger_has_code(s1.link_map()[l2]) {
        let p = choose|p: int| 0 <= p < s1.ledger().len() && s1.ledger()[p].code == c2;
        s1.lemma_ledger_entry_of_link(l2, p);
        if c1 == c2 {
            assert(s1.code_map()[c1] == l1);
            assert(s1.code_map()[c2] == l2);
            assert(false);
        }
    } else {
        assert(!s1.code_map().contains_key(c2));
        assert(s1.code_map().contains_key(c1));
    }
}

/// A planted link -> code claim with no ledger entry behind it is not
/// honored: the next creation for that link issues a freshly allocated
/// code, and full consistency holds afterwards, provided the planted
/// claim was the only inconsistency. A code outside the code space can
/// never come back out of the generator.
pub proof fn lemma_desync_self_heal(
    s0: Store,
    s1: Store,
    link: Seq<char>,
    now: u64,
    stale: Seq<char>,
    c: Seq<char>,
)
    requires
        s0.inv(),
        s1.inv(),
        s0.link_map().contains_pair(link, stale),
        !s0.ledger_has_code(stale),
        forall|l: Seq<char>|
            l != link && #[trigger] s0.link_map().contains_key(l) ==> s0.code_map().contains_pair(
                s0.link_map()[l],
                l,
            ),
        created(s0, s1, link, now, c),
    ensures
        s1.wf(),
        s1.code_map().contains_pair(c, link),
        s1.link_map().contains_pair(link, c),
        !is_code(stale) ==> c != stale,
{
    assert(s0.link_map()[link] == stale);
    assert(freshly_created(s0, s1, link, now, c));
    assert forall|l: Seq<char>| #[trigger] s1.link_map().contains_key(l) implies s1.code_map()
        .contains_pair(s1.link_map()[l], l) by {
        if l == link {
            assert(s1.link_map()[l] == c);
        } else {
            assert(s0.link_map().contains_key(l));
            assert(s0.code_map().contains_pair(s0.link_map()[l], l));
            assert(s0.code_map().contains_key(s0.link_map()[l]));
            assert(s0.link_map()[l] != c);
        }
    }
}

} // verus!
