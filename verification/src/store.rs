//! The store: a bidirectional code <-> link index, an expiry ledger
//! ordered ascending by expiry time, and a logical clock. Entries live
//! for a fixed retention window after their last creation or touch and
//! are trimmed lazily from the front of the ledger.
use vstd::prelude::*;
use vstd::string::StringExecFns;
use crate::codes::CODE_SPACE;
use crate::codes::free_code;
use crate::codes::is_code;
use crate::codes::u64_to_dec;
use crate::index::al_contains_key;
use crate::index::al_distinct;
use crate::index::al_get;
use crate::index::al_insert;
use crate::index::al_map;
use crate::index::al_remove;
use crate::index::map_has_value;
use crate::text::char_count;
use crate::text::norm_link;
use crate::text::normalize;

verus! {

/// How long an entry lives after its creation or last touch.
pub const RETENTION_SECS: u64 = 3 * 60 * 60;

/// One ledger entry: the moment a mapping falls due for removal, with the
/// link and code it belongs to.
#[derive(Debug)]
pub struct RemoveInfo {
    pub at: u64,
    pub link: String,
    pub code: String,
}

/// A ledger entry as contracts read it.
#[verifier::ext_equal]
pub struct EntryV {
    pub at: u64,
    pub link: Seq<char>,
    pub code: Seq<char>,
}

impl View for RemoveInfo {
    type V = EntryV;

    open spec fn view(&self) -> EntryV {
        EntryV { at: self.at, link: self.link@, code: self.code@ }
    }
}

/// The store. `clock` is the largest time a mutating call has seen; the
/// caller's clock must never run backwards past it.
pub struct Store {
    pub remove_queue: Vec<RemoveInfo>,
    pub code_to_link: Vec<(String, String)>,
    pub link_to_code: Vec<(String, String)>,
    pub clock: u64,
}

/// The expiry moment a call at time `now` assigns.
pub fn instant_to_remove(now: u64) -> (r: u64)
    requires
        now + RETENTION_SECS <= u64::MAX,
    ensures
        r == now + RETENTION_SECS,
{
    now + RETENTION_SECS
}

impl Store {
    /// The expiry ledger, as contracts read it.
    pub open spec fn ledger(self) -> Seq<EntryV> {
        self.remove_queue@.map_values(|e: RemoveInfo| e@)
    }

    /// The code -> link direction of the index.
    pub open spec fn code_map(self) -> Map<Seq<char>, Seq<char>> {
        al_map(self.code_to_link)
    }

    /// The link -> code direction of the index.
    pub open spec fn link_map(self) -> Map<Seq<char>, Seq<char>> {
        al_map(self.link_to_code)
    }

    /// Some ledger entry carries this code.
    pub open spec fn ledger_has_code(self, c: Seq<char>) -> bool {
        exists|i: int| 0 <= i < self.ledger().len() && self.ledger()[i].code == c
    }

    /// The ledger is sorted ascending by expiry time.
    pub open spec fn ledger_sorted(self) -> bool {
        forall|i: int, j: int|
            0 <= i < j < self.ledger().len() ==> self.ledger()[i].at <= self.ledger()[j].at
    }

    /// No two ledger entries carry the same code.
    pub open spec fn ledger_codes_distinct(self) -> bool {
        forall|i: int, j: int|
            0 <= i < j < self.ledger().len() ==> self.ledger()[i].code != self.ledger()[j].code
    }

    /// Every ledger entry is recorded in both directions of the index.
    pub open spec fn ledger_backed(self) -> bool {
        forall|i: int|
            0 <= i < self.ledger().len() ==> self.code_map().contains_pair(
                #[trigger] self.ledger()[i].code,
                self.ledger()[i].link,
            ) && self.link_map().contains_pair(self.ledger()[i].link, self.ledger()[i].code)
    }

    /// Every code in the index has its ledger entry.
    pub open spec fn codes_ledgered(self) -> bool {
        forall|c: Seq<char>|
            #[trigger] self.code_map().contains_key(c) ==> self.ledger_has_code(c)
    }

    /// No two links claim the same code.
    pub open spec fn link_codes_unique(self) -> bool {
        forall|l1: Seq<char>, l2: Seq<char>|
            #[trigger] self.link_map().contains_key(l1) && #[trigger] self.link_map().contains_key(
                l2,
            ) && l1 != l2 ==> self.link_map()[l1] != self.link_map()[l2]
    }

    /// No expiry lies beyond the retention window of the latest call.
    pub open spec fn ledger_fresh_bound(self) -> bool {
        forall|i: int|
            0 <= i < self.ledger().len() ==> #[trigger] self.ledger()[i].at
                <= self.clock + RETENTION_SECS
    }

    /// What every operation preserves, and what a repairable state still
    /// satisfies: the link map may claim codes with no ledger entry
    /// behind them, but everything the ledger records is consistent.
    pub open spec fn inv(self) -> bool {
        &&& al_distinct(self.code_to_link)
        &&& al_distinct(self.link_to_code)
        &&& self.ledger_sorted()
        &&& self.ledger_codes_distinct()
        &&& self.ledger_backed()
        &&& self.codes_ledgered()
        &&& self.link_codes_unique()
        &&& self.ledger_fresh_bound()
    }

    /// Full consistency: additionally, every link -> code claim is backed
    /// by the code map (and hence, with `inv`, by the ledger).
    pub open spec fn wf(self) -> bool {
        &&& self.inv()
        &&& forall|l: Seq<char>|
            #[trigger] self.link_map().contains_key(l) ==> self.code_map().contains_pair(
                self.link_map()[l],
                l,
            )
    }

    /// Under `inv`, a ledger entry whose code a link claims belongs to
    /// that very link.
    pub proof fn lemma_ledger_entry_of_link(self, link: Seq<char>, p: int)
        requires
            self.inv(),
            self.link_map().contains_key(link),
            0 <= p < self.ledger().len(),
            self.ledger()[p].code == self.link_map()[link],
        ensures
            self.ledger()[p].link == link,
            self.code_map().contains_pair(self.link_map()[link], link),
    {
        let e = self.ledger()[p];
        assert(self.link_map().contains_pair(e.link, e.code));
        if e.link != link {
            assert(self.link_map()[e.link] == self.link_map()[link]);
            assert(false);
        }
        assert(self.code_map().contains_pair(e.code, e.link));
    }

    /// An empty store.
    pub fn new() -> (s: Store)
        ensures
            s.inv(),
            s.wf(),
            s.ledger() == Seq::<EntryV>::empty(),
            s.code_map() == Map::<Seq<char>, Seq<char>>::empty(),
            s.link_map() == Map::<Seq<char>, Seq<char>>::empty(),
            s.clock == 0,
            s.remove_queue@.len() == 0,
            s.code_to_link@.len() == 0,
            s.link_to_code@.len() == 0,
    {
        let s = Store {
            remove_queue: Vec::new(),
            code_to_link: Vec::new(),
            link_to_code: Vec::new(),
            clock: 0,
        };
        proof {
            assert(s.ledger() =~= Seq::<EntryV>::empty());
            assert(s.code_map() =~= Map::<Seq<char>, Seq<char>>::empty());
            assert(s.link_map() =~= Map::<Seq<char>, Seq<char>>::empty());
        }
        s
    }

    /// Resolves a code back to its link, when the code is live.
    pub fn load(&self, code: &str) -> (r: Option<String>)
        requires
            self.inv(),
        ensures
            r is Some <==> self.code_map().contains_key(code@),
            r matches Some(link) ==> self.code_map().contains_pair(code@, link@),
    {
        let key = code.to_owned();
        al_get(&self.code_to_link, &key)
    }

    /// Plants a link -> code claim with no ledger entry behind it: the
    /// desynchronization that `create` must repair. Only tests have a
    /// reason to call this; every ordinary operation keeps `wf`.
    pub fn seed_link_to_code(&mut self, link: String, code: String)
        requires
            old(self).inv(),
            !old(self).link_map().contains_key(link@),
            !map_has_value(old(self).link_map(), code@),
            !old(self).code_map().contains_key(code@),
        ensures
            final(self).inv(),
            final(self).link_map() == old(self).link_map().insert(link@, code@),
            final(self).code_map() == old(self).code_map(),
            final(self).ledger() == old(self).ledger(),
            final(self).clock == old(self).clock,
            !final(self).ledger_has_code(code@),
    {
        let ghost pre = *self;
        let ghost lk = link@;
        let ghost ck = code@;
        al_insert(&mut self.link_to_code, link, code);
        proof {
            assert(self.ledger() == pre.ledger());
            assert forall|i: int| 0 <= i < self.ledger().len() implies self.code_map()
                .contains_pair(#[trigger] self.ledger()[i].code, self.ledger()[i].link)
                && self.link_map().contains_pair(self.ledger()[i].link, self.ledger()[i].code) by {
                assert(pre.code_map().contains_pair(pre.ledger()[i].code, pre.ledger()[i].link));
                assert(pre.link_map().contains_pair(pre.ledger()[i].link, pre.ledger()[i].code));
                assert(pre.ledger()[i].link != lk);
            }
            assert forall|l1: Seq<char>, l2: Seq<char>|
                #[trigger] self.link_map().contains_key(l1) && #[trigger] self.link_map()
                    .contains_key(l2) && l1 != l2 implies self.link_map()[l1]
                != self.link_map()[l2] by {
                if l1 == lk {
                    assert(pre.link_map().contains_key(l2));
                    assert(pre.link_map()[l2] != ck);
                } else if l2 == lk {
                    assert(pre.link_map().contains_key(l1));
                    assert(pre.link_map()[l1] != ck);
                } else {
                    assert(pre.link_map().contains_key(l1) && pre.link_map().contains_key(l2));
                }
            }
            if self.ledger_has_code(ck) {
                let i = choose|i: int| 0 <= i < self.ledger().len() && self.ledger()[i].code == ck;
                assert(pre.code_map().contains_pair(pre.ledger()[i].code, pre.ledger()[i].link));
            }
        }
    }
    /// A plain-text snapshot of the ledger and both directions of the
    /// index, for humans; it promises nothing beyond being safe to call.
    pub fn info(&self) -> String {
        let mut out = String::from_str("ledger:\n");
        let mut i: usize = 0;
        while i < self.remove_queue.len()
            decreases self.remove_queue@.len() - i,
        {
            let e = &self.remove_queue[i];
            out.append(e.code.as_str());
            out.append(" -> ");
            out.append(e.link.as_str());
            out.append(" @ ");
            let at = u64_to_dec(e.at);
            out.append(at.as_str());
            out.append("\n");
            i += 1;
        }
        out.append("code -> link:\n");
        let mut i: usize = 0;
        while i < self.code_to_link.len()
            decreases self.code_to_link@.len() - i,
        {
            out.append(self.code_to_link[i].0.as_str());
            out.append(" -> ");
            out.append(self.code_to_link[i].1.as_str());
            out.append("\n");
            i += 1;
        }
        out.append("link -> code:\n");
        let mut i: usize = 0;
        while i < self.link_to_code.len()
            decreases self.link_to_code@.len() - i,
        {
            out.append(self.link_to_code[i].0.as_str());
            out.append(" -> ");
            out.append(self.link_to_code[i].1.as_str());
            out.append("\n");
            i += 1;
        }
        out
    }

    /// Where in the ledger a code stands, if anywhere.
    fn find_code(q: &Vec<RemoveInfo>, code: &String) -> (r: Option<usize>)
        ensures
            r matches Some(p) ==> p < q@.len() && q@[p as int].code@ == code@,
            r is None ==> forall|i: int| 0 <= i < q@.len() ==> q@[i].code@ != code@,
    {
        let n = q.len();
        let mut i: usize = 0;
        while i < n
            invariant
                n == q@.len(),
                forall|j: int| 0 <= j < i ==> q@[j].code@ != code@,
            decreases n - i,
        {
            if q[i].code == *code {
                return Some(i);
            }
            i += 1;
        }
        None
    }

    /// Allocates a fresh code for a link not yet mapped, records it in
    /// both directions and appends its ledger entry.
    fn insert_fresh(&mut self, url: String, now: u64) -> (code: String)
        requires
            old(self).inv(),
            !old(self).link_map().contains_key(url@),
            now >= old(self).clock,
            now + RETENTION_SECS <= u64::MAX,
            old(self).code_to_link@.len() + old(self).link_to_code@.len() < CODE_SPACE,
        ensures
            final(self).inv(),
            freshly_created(*old(self), *final(self), url@, now, code@),
            old(self).wf() ==> final(self).wf(),
            final(self).code_to_link@.len() == old(self).code_to_link@.len() + 1,
            final(self).link_to_code@.len() == old(self).link_to_code@.len() + 1,
    {
        let ghost pre = *self;
        let ghost lk = url@;
        let code = free_code(&self.code_to_link, &self.link_to_code);
        let ghost ck = code@;
        let e = RemoveInfo { at: instant_to_remove(now), link: url.clone(), code: code.clone() };
        al_insert(&mut self.code_to_link, code.clone(), url.clone());
        al_insert(&mut self.link_to_code, url, code.clone());
        self.remove_queue.push(e);
        self.clock = now;
        proof {
            let post = *self;
            let ev = EntryV { at: (now + RETENTION_SECS) as u64, link: lk, code: ck };
            assert(post.ledger() =~= pre.ledger().push(ev));
            // the relation itself
            if map_has_value(pre.link_map().remove(lk), ck) {
                let k = choose|k: Seq<char>|
                    #[trigger] pre.link_map().remove(lk).contains_key(k) && pre.link_map().remove(
                        lk,
                    )[k] == ck;
                assert(pre.link_map().contains_key(k) && pre.link_map()[k] == ck);
            }
            assert(freshly_created(pre, post, lk, now, ck));
            // old ledger entries are untouched and their codes differ from
            // the fresh one
            assert forall|i: int| 0 <= i < pre.ledger().len() implies post.ledger()[i]
                == pre.ledger()[i] && pre.ledger()[i].code != ck && pre.ledger()[i].link
                != lk by {
                assert(pre.code_map().contains_pair(pre.ledger()[i].code, pre.ledger()[i].link));
                assert(pre.link_map().contains_pair(pre.ledger()[i].link, pre.ledger()[i].code));
            }
            assert(post.ledger_sorted());
            assert(post.ledger_codes_distinct());
            assert(post.ledger_backed());
            assert forall|c: Seq<char>| #[trigger] post.code_map().contains_key(c) implies post
                .ledger_has_code(c) by {
                if c == ck {
                    assert(post.ledger()[post.ledger().len() - 1].code == ck);
                } else {
                    assert(pre.code_map().contains_key(c));
                    let i = choose|i: int|
                        0 <= i < pre.ledger().len() && pre.ledger()[i].code == c;
                    assert(post.ledger()[i].code == c);
                }
            }
            assert forall|l1: Seq<char>, l2: Seq<char>|
                #[trigger] post.link_map().contains_key(l1) && #[trigger] post.link_map()
                    .contains_key(l2) && l1 != l2 implies post.link_map()[l1]
                != post.link_map()[l2] by {
                if l1 == lk {
                    assert(pre.link_map().contains_key(l2));
                    assert(!map_has_value(pre.link_map(), ck));
                    assert(pre.link_map()[l2] != ck);
                } else if l2 == lk {
                    assert(pre.link_map().contains_key(l1));
                    assert(pre.link_map()[l1] != ck);
                } else {
                    assert(pre.link_map().contains_key(l1) && pre.link_map().contains_key(l2));
                }
            }
            assert(post.inv());
            if pre.wf() {
                assert forall|l: Seq<char>| #[trigger] post.link_map().contains_key(l) implies post
                    .code_map().contains_pair(post.link_map()[l], l) by {
                    if l != lk {
                        assert(pre.link_map().contains_key(l));
                        assert(pre.code_map().contains_pair(pre.link_map()[l], l));
                        assert(map_has_value(pre.link_map(), pre.link_map()[l]));
                        assert(pre.link_map()[l] != ck);
                    }
                }
            }
        }
        code
    }
}

/// Viewing a ledger commutes with removing an entry.
proof fn lemma_view_remove(q: Seq<RemoveInfo>, i: int)
    requires
        0 <= i < q.len(),
    ensures
        q.remove(i).map_values(|e: RemoveInfo| e@) =~= q.map_values(|e: RemoveInfo| e@).remove(i),
{
    assert(forall|a: int| 0 <= a < i ==> q.remove(i)[a] == q[a]);
    assert(forall|a: int| i <= a < q.len() - 1 ==> q.remove(i)[a] == q[a + 1]);
}

impl Store {
    /// Creates or refreshes the mapping for an already-normalized link;
    /// always hands a code back.
    pub fn create_inner(&mut self, url: String, now: u64) -> (r: Option<String>)
        requires
            old(self).inv(),
            now >= old(self).clock,
            now + RETENTION_SECS <= u64::MAX,
            old(self).code_to_link@.len() + old(self).link_to_code@.len() < CODE_SPACE,
        ensures
            final(self).inv(),
            old(self).wf() ==> final(self).wf(),
            r is Some,
            r matches Some(code) ==> created(*old(self), *final(self), url@, now, code@),
            final(self).code_to_link@.len() <= old(self).code_to_link@.len() + 1,
            final(self).link_to_code@.len() <= old(self).link_to_code@.len() + 1,
    {
        let ghost pre = *self;
        let ghost lk = url@;
        let existing = al_get(&self.link_to_code, &url);
        match existing {
            None => Some(self.insert_fresh(url, now)),
            Some(code) => {
                let ghost ck = code@;
                proof {
                    assert(pre.link_map().contains_pair(lk, ck));
                }
                match Self::find_code(&self.remove_queue, &code) {
                    Some(p) => {
                        // the touch path: move the entry to the back with
                        // a fresh expiry
                        let ghost pp = p as int;
                        proof {
                            assert(pre.ledger()[pp].code == ck);
                            pre.lemma_ledger_entry_of_link(lk, pp);
                        }
                        let mut e = self.remove_queue.remove(p);
                        e.at = instant_to_remove(now);
                        self.remove_queue.push(e);
                        self.clock = now;
                        proof {
                            let post = *self;
                            let ev = EntryV {
                                at: (now + RETENTION_SECS) as u64,
                                link: lk,
                                code: ck,
                            };
                            lemma_view_remove(pre.remove_queue@, pp);
                            assert(post.ledger() =~= pre.ledger().remove(pp).push(ev));
                            assert(touched(pre, post, lk, now, ck));
                            // each surviving slot shows an entry of the
                            // old ledger
                            let mid = pre.ledger().remove(pp);
                            assert(forall|a: int| 0 <= a < pp ==> #[trigger] mid[a]
                                == pre.ledger()[a]);
                            assert(forall|a: int| pp <= a < mid.len() ==> #[trigger] mid[a]
                                == pre.ledger()[a + 1]);
                            assert(post.ledger_sorted());
                            assert forall|i: int, j: int|
                                0 <= i < j < post.ledger().len() implies post.ledger()[i].code
                                != post.ledger()[j].code by {
                                if j < post.ledger().len() - 1 {
                                } else {
                                    assert(post.ledger()[j].code == ck);
                                    assert(pre.ledger()[pp].code == ck);
                                }
                            }
                            assert(post.ledger_backed());
                            assert forall|c: Seq<char>|
                                #[trigger] post.code_map().contains_key(c) implies post
                                .ledger_has_code(c) by {
                                let i = choose|i: int|
                                    0 <= i < pre.ledger().len() && pre.ledger()[i].code == c;
                                if i == pp {
                                    assert(post.ledger()[post.ledger().len() - 1].code == c);
                                } else if i < pp {
                                    assert(post.ledger()[i].code == c);
                                } else {
                                    assert(post.ledger()[i - 1].code == c);
                                }
                            }
                            assert(post.inv());
                        }
                        Some(code)
                    },
                    None => {
                        // the link claimed a code the ledger does not
                        // know: repair the two maps, then start afresh
                        proof {
                            if pre.ledger_has_code(ck) {
                                let i = choose|i: int|
                                    0 <= i < pre.ledger().len() && pre.ledger()[i].code == ck;
                                assert(pre.remove_queue@[i].code@ == ck);
                            }
                            if pre.code_map().contains_key(ck) {
                                assert(pre.ledger_has_code(ck));
                            }
                            if pre.wf() {
                                assert(pre.code_map().contains_pair(ck, lk));
                            }
                        }
                        al_remove(&mut self.link_to_code, &url);
                        al_remove(&mut self.code_to_link, &code);
                        proof {
                            let mid = *self;
                            assert(mid.code_map() =~= pre.code_map());
                            assert(mid.ledger() == pre.ledger());
                            // every ledger entry keeps its claims: none of
                            // them carried the repaired link or code
                            assert forall|i: int| 0 <= i < mid.ledger().len() implies mid
                                .code_map().contains_pair(
                                #[trigger] mid.ledger()[i].code,
                                mid.ledger()[i].link,
                            ) && mid.link_map().contains_pair(
                                mid.ledger()[i].link,
                                mid.ledger()[i].code,
                            ) by {
                                let e = pre.ledger()[i];
                                assert(pre.code_map().contains_pair(e.code, e.link));
                                assert(pre.link_map().contains_pair(e.link, e.code));
                                if e.link == lk {
                                    assert(pre.link_map()[lk] == e.code);
                                    assert(e.code == ck);
                                }
                            }
                            assert forall|c: Seq<char>|
                                #[trigger] mid.code_map().contains_key(c) implies mid
                                .ledger_has_code(c) by {
                                assert(pre.code_map().contains_key(c));
                            }
                            assert(mid.inv());
                            assert(!mid.link_map().contains_key(lk));
                        }
                        let ghost mid = *self;
                        let code2 = self.insert_fresh(url, now);
                        proof {
                            let post = *self;
                            let c2 = code2@;
                            assert(freshly_created(mid, post, lk, now, c2));
                            assert(!pre.code_map().contains_key(c2)) by {
                                assert(!mid.code_map().contains_key(c2));
                            }
                            assert(!map_has_value(pre.link_map().remove(lk), c2)) by {
                                assert(mid.link_map().remove(lk) =~= pre.link_map().remove(lk));
                            }
                            assert(post.code_map() == pre.code_map().insert(c2, lk)) by {
                                assert(mid.code_map() == pre.code_map());
                            }
                            assert(post.link_map() == pre.link_map().insert(lk, c2)) by {
                                let a = mid.link_map().insert(lk, c2);
                                let b = pre.link_map().insert(lk, c2);
                                assert(a =~= b);
                            }
                            assert(freshly_created(pre, post, lk, now, c2));
                            if pre.wf() {
                                assert(false);
                            }
                        }
                        Some(code2)
                    },
                }
            },
        }
    }

    /// Creates or refreshes the mapping for a caller-supplied link: links
    /// of fewer than five characters are rejected, a missing scheme is
    /// prefixed, and the normalized link is handed to the core.
    pub fn create(&mut self, url: String, now: u64) -> (r: Option<String>)
        requires
            old(self).inv(),
            now >= old(self).clock,
            now + RETENTION_SECS <= u64::MAX,
            old(self).code_to_link@.len() + old(self).link_to_code@.len() < CODE_SPACE,
        ensures
            final(self).inv(),
            final(self).ledger_sorted(),
            old(self).wf() ==> final(self).wf(),
            r is None <==> url@.len() < 5,
            url@.len() < 5 ==> *final(self) == *old(self),
            r matches Some(code) ==> created(*old(self), *final(self), norm_link(url@), now, code@),
            final(self).code_to_link@.len() <= old(self).code_to_link@.len() + 1,
            final(self).link_to_code@.len() <= old(self).link_to_code@.len() + 1,
    {
        if char_count(url.as_str()) < 5 {
            return None;
        }
        let nurl = normalize(url);
        self.create_inner(nurl, now)
    }
}

/// How many entries at the front of the ledger are due at or before
/// `now`.
pub open spec fn expired_prefix(q: Seq<EntryV>, now: u64) -> nat
    decreases q.len(),
{
    if q.len() == 0 || q[0].at > now {
        0
    } else {
        (1 + expired_prefix(q.drop_first(), now)) as nat
    }
}

/// The codes of the first `j` ledger entries.
pub open spec fn codes_before(q: Seq<EntryV>, j: int) -> Set<Seq<char>> {
    Set::new(|c: Seq<char>| exists|i: int| 0 <= i < j && (#[trigger] q[i]).code == c)
}

/// The links of the first `j` ledger entries.
pub open spec fn links_before(q: Seq<EntryV>, j: int) -> Set<Seq<char>> {
    Set::new(|l: Seq<char>| exists|i: int| 0 <= i < j && (#[trigger] q[i]).link == l)
}

/// The codes a reap at `now` removes.
pub open spec fn reaped_codes(q: Seq<EntryV>, now: u64) -> Set<Seq<char>> {
    codes_before(q, expired_prefix(q, now) as int)
}

/// The links a reap at `now` removes.
pub open spec fn reaped_links(q: Seq<EntryV>, now: u64) -> Set<Seq<char>> {
    links_before(q, expired_prefix(q, now) as int)
}

proof fn lemma_expired_prefix(q: Seq<EntryV>, now: u64)
    ensures
        expired_prefix(q, now) <= q.len(),
        forall|i: int| 0 <= i < expired_prefix(q, now) ==> (#[trigger] q[i]).at <= now,
        expired_prefix(q, now) < q.len() ==> q[expired_prefix(q, now) as int].at > now,
    decreases q.len(),
{
    if q.len() > 0 && q[0].at <= now {
        lemma_expired_prefix(q.drop_first(), now);
        assert(forall|i: int| 0 <= i < q.len() - 1 ==> #[trigger] q.drop_first()[i] == q[i + 1]);
        assert forall|i: int| 0 <= i < expired_prefix(q, now) implies (#[trigger] q[i]).at
            <= now by {
            if i > 0 {
                assert(q.drop_first()[i - 1] == q[i]);
                assert(q.drop_first()[i - 1].at <= now);
            }
        }
    }
}

proof fn lemma_expired_prefix_unique(q: Seq<EntryV>, now: u64, j: int)
    requires
        0 <= j <= q.len(),
        forall|i: int| 0 <= i < j ==> (#[trigger] q[i]).at <= now,
        j == q.len() || q[j].at > now,
    ensures
        j == expired_prefix(q, now),
{
    lemma_expired_prefix(q, now);
    let k = expired_prefix(q, now) as int;
    if j < k {
        assert(q[j].at <= now);
        assert(false);
    } else if k < j {
        assert(q[k].at <= now);
        assert(false);
    }
}

impl Store {
    /// Trims every due entry from the front of the ledger and removes its
    /// pair from both directions of the index; entries behind the first
    /// one still alive are untouched. Peeks before it drains, so a call
    /// with nothing due changes nothing.
    pub fn remove_expired(&mut self, now: u64)
        requires
            old(self).inv(),
        ensures
            final(self).inv(),
            old(self).wf() ==> final(self).wf(),
            final(self).clock == old(self).clock,
            final(self).ledger() == old(self).ledger().skip(
                expired_prefix(old(self).ledger(), now) as int,
            ),
            final(self).code_map() == old(self).code_map().remove_keys(
                reaped_codes(old(self).ledger(), now),
            ),
            final(self).link_map() == old(self).link_map().remove_keys(
                reaped_links(old(self).ledger(), now),
            ),
            forall|i: int|
                0 <= i < expired_prefix(old(self).ledger(), now) ==> !final(self).code_map()
                    .contains_key((#[trigger] old(self).ledger()[i]).code),
            final(self).code_to_link@.len() <= old(self).code_to_link@.len(),
            final(self).link_to_code@.len() <= old(self).link_to_code@.len(),
    {
        let ghost pre = *self;
        proof {
            lemma_expired_prefix(pre.ledger(), now);
        }
        // the cheap peek: with nothing due, leave without touching a thing
        if self.remove_queue.len() == 0 || self.remove_queue[0].at > now {
            proof {
                lemma_expired_prefix_unique(pre.ledger(), now, 0);
                assert(self.ledger() =~= pre.ledger().skip(0));
                assert(codes_before(pre.ledger(), 0) =~= Set::<Seq<char>>::empty());
                assert(links_before(pre.ledger(), 0) =~= Set::<Seq<char>>::empty());
                assert(self.code_map() =~= pre.code_map().remove_keys(
                    reaped_codes(pre.ledger(), now),
                ));
                assert(self.link_map() =~= pre.link_map().remove_keys(
                    reaped_links(pre.ledger(), now),
                ));
            }
            return ;
        }
        let ghost mut j: int = 0;
        proof {
            assert(self.ledger() =~= pre.ledger().skip(0));
            assert(codes_before(pre.ledger(), 0) =~= Set::<Seq<char>>::empty());
            assert(links_before(pre.ledger(), 0) =~= Set::<Seq<char>>::empty());
            assert(self.code_map() =~= pre.code_map().remove_keys(codes_before(pre.ledger(), 0)));
            assert(self.link_map() =~= pre.link_map().remove_keys(links_before(pre.ledger(), 0)));
        }
        while self.remove_queue.len() > 0 && self.remove_queue[0].at <= now
            invariant
                self.inv(),
                pre.inv(),
                pre.wf() ==> self.wf(),
                0 <= j <= pre.ledger().len(),
                self.ledger() == pre.ledger().skip(j),
                self.clock == pre.clock,
                forall|i: int| 0 <= i < j ==> (#[trigger] pre.ledger()[i]).at <= now,
                self.code_map() == pre.code_map().remove_keys(codes_before(pre.ledger(), j)),
                self.link_map() == pre.link_map().remove_keys(links_before(pre.ledger(), j)),
                self.code_to_link@.len() <= pre.code_to_link@.len(),
                self.link_to_code@.len() <= pre.link_to_code@.len(),
            decreases self.remove_queue.len(),
        {
            let ghost prev = *self;
            let e = self.remove_queue.remove(0);
            let ghost ec = e.code@;
            let ghost el = e.link@;
            proof {
                lemma_view_remove(prev.remove_queue@, 0);
                assert(e@ == prev.remove_queue@[0]@);
                assert(e@ == prev.ledger()[0]);
                assert(prev.ledger()[0] == pre.ledger()[j]);
                assert(prev.ledger()[0].code == ec);
                assert(prev.ledger()[0].link == el);
                assert(prev.code_map().contains_pair(ec, el));
                assert(prev.link_map().contains_pair(el, ec));
            }
            al_remove(&mut self.code_to_link, &e.code);
            al_remove(&mut self.link_to_code, &e.link);
            proof {
                let post = *self;
                assert(post.ledger() =~= prev.ledger().remove(0));
                assert(post.ledger() =~= pre.ledger().skip(j + 1)) by {
                    assert(forall|a: int|
                        0 <= a < prev.ledger().len() - 1 ==> #[trigger] prev.ledger().remove(0)[a]
                            == prev.ledger()[a + 1]);
                }
                // the maps lose exactly the reaped pair: no other live
                // entry shares its code or its link
                assert forall|i: int| 0 <= i < post.ledger().len() implies post.code_map()
                    .contains_pair((#[trigger] post.ledger()[i]).code, post.ledger()[i].link)
                    && post.link_map().contains_pair(
                    post.ledger()[i].link,
                    post.ledger()[i].code,
                ) by {
                    let f = prev.ledger()[i + 1];
                    assert(prev.code_map().contains_pair(f.code, f.link));
                    assert(prev.link_map().contains_pair(f.link, f.code));
                    assert(f.code != ec);
                    if f.link == el {
                        assert(prev.link_map()[el] == f.code && prev.link_map()[el] == ec);
                        assert(false);
                    }
                }
                assert forall|c: Seq<char>| #[trigger] post.code_map().contains_key(c) implies post
                    .ledger_has_code(c) by {
                    assert(prev.code_map().contains_key(c));
                    let i = choose|i: int|
                        0 <= i < prev.ledger().len() && prev.ledger()[i].code == c;
                    assert(i != 0);
                    assert(post.ledger()[i - 1].code == c);
                }
                assert(post.inv());
                if prev.wf() {
                    assert forall|l: Seq<char>| #[trigger] post.link_map().contains_key(
                        l,
                    ) implies post.code_map().contains_pair(post.link_map()[l], l) by {
                        assert(prev.link_map().contains_key(l));
                        assert(prev.code_map().contains_pair(prev.link_map()[l], l));
                        if prev.link_map()[l] == ec {
                            assert(prev.code_map().contains_pair(ec, el));
                            assert(l == el);
                            assert(false);
                        }
                    }
                }
                // fold the removed pair into the prefix sets
                assert(codes_before(pre.ledger(), j + 1) =~= codes_before(pre.ledger(), j).insert(
                    ec,
                )) by {
                    assert(pre.ledger()[j].code == ec);
                }
                assert(links_before(pre.ledger(), j + 1) =~= links_before(pre.ledger(), j).insert(
                    el,
                )) by {
                    assert(pre.ledger()[j].link == el);
                }
                assert(post.code_map() =~= pre.code_map().remove_keys(
                    codes_before(pre.ledger(), j + 1),
                ));
                assert(post.link_map() =~= pre.link_map().remove_keys(
                    links_before(pre.ledger(), j + 1),
                ));
                j = j + 1;
            }
        }
        proof {
            if self.remove_queue.len() == 0 {
                lemma_expired_prefix_unique(pre.ledger(), now, j);
            } else {
                assert(self.ledger()[0] == pre.ledger()[j]);
                lemma_expired_prefix_unique(pre.ledger(), now, j);
            }
            assert forall|i: int| 0 <= i < expired_prefix(pre.ledger(), now) implies !self
                .code_map().contains_key((#[trigger] pre.ledger()[i]).code) by {
                assert(codes_before(pre.ledger(), j).contains(pre.ledger()[i].code));
            }
        }
    }
}

/// The "touch" outcome of a creation: the link was already mapped and its
/// ledger entry found, so the entry moves to the back of the ledger with
/// a fresh expiry and the existing code is returned unchanged.
pub open spec fn touched(
    pre: Store,
    post: Store,
    link: Seq<char>,
    now: u64,
    code: Seq<char>,
) -> bool {
    &&& pre.link_map().contains_key(link)
    &&& code == pre.link_map()[link]
    &&& pre.ledger_has_code(code)
    &&& post.code_map() == pre.code_map()
    &&& post.link_map() == pre.link_map()
    &&& exists|p: int|
        0 <= p < pre.ledger().len() && pre.ledger()[p].code == code && post.ledger()
            == pre.ledger().remove(p).push(
            EntryV { at: (now + RETENTION_SECS) as u64, link, code },
        )
    &&& post.clock == now
}

/// The "fresh" outcome of a creation: a code claimed nowhere beforehand
/// now maps to the link in both directions, and a new entry stands at the
/// back of the ledger.
pub open spec fn freshly_created(
    pre: Store,
    post: Store,
    link: Seq<char>,
    now: u64,
    code: Seq<char>,
) -> bool {
    &&& !pre.code_map().contains_key(code)
    &&& !map_has_value(pre.link_map().remove(link), code)
    &&& is_code(code)
    &&& post.code_map() == pre.code_map().insert(code, link)
    &&& post.link_map() == pre.link_map().insert(link, code)
    &&& post.ledger() == pre.ledger().push(
        EntryV { at: (now + RETENTION_SECS) as u64, link, code },
    )
    &&& post.clock == now
}

/// What a creation at time `now` does for an already-normalized link: a
/// touch when the link is mapped and its code has its ledger entry, else
/// a fresh allocation (repairing the mapping first when it was stale).
pub open spec fn created(
    pre: Store,
    post: Store,
    link: Seq<char>,
    now: u64,
    code: Seq<char>,
) -> bool {
    if pre.link_map().contains_key(link) && pre.ledger_has_code(pre.link_map()[link]) {
        touched(pre, post, link, now, code)
    } else {
        freshly_created(pre, post, link, now, code)
    }
}

} // verus!
