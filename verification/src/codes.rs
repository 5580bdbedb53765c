//! Short codes: decimal strings for numbers drawn from a bounded space.
use vstd::prelude::*;
use vstd::string::StringExecFns;
use crate::index::al_contains_key;
use crate::index::al_distinct;
use crate::index::al_has_value;
use crate::index::al_map;
use crate::index::lemma_map_dom;
use crate::index::lemma_map_value_index;
use crate::index::map_has_value;
use crate::index::pairs_view;

verus! {

/// The code space: codes are the decimal strings of 0 ..= 999_999.
pub const CODE_SPACE: u64 = 1000000;

/// The character for a single decimal digit.
pub open spec fn digit_char(d: nat) -> char {
    if d == 0 {
        '0'
    } else if d == 1 {
        '1'
    } else if d == 2 {
        '2'
    } else if d == 3 {
        '3'
    } else if d == 4 {
        '4'
    } else if d == 5 {
        '5'
    } else if d == 6 {
        '6'
    } else if d == 7 {
        '7'
    } else if d == 8 {
        '8'
    } else {
        '9'
    }
}

/// The canonical decimal rendering of a number, with no leading zeros
/// (except for the number 0 itself).
pub open spec fn dec_seq(n: nat) -> Seq<char>
    decreases n,
{
    if n < 10 {
        seq![digit_char(n)]
    } else {
        dec_seq(n / 10).push(digit_char(n % 10))
    }
}

/// A sequence of characters that is the decimal rendering of some number
/// inside the code space.
pub open spec fn is_code(s: Seq<char>) -> bool {
    exists|n: nat| n < CODE_SPACE && s == dec_seq(n)
}

proof fn lemma_digit_char_inj(d1: nat, d2: nat)
    requires
        d1 < 10,
        d2 < 10,
        digit_char(d1) == digit_char(d2),
    ensures
        d1 == d2,
{
}

proof fn lemma_dec_seq_len(n: nat)
    ensures
        dec_seq(n).len() >= 1,
        n < 10 <==> dec_seq(n).len() == 1,
    decreases n,
{
    if n >= 10 {
        lemma_dec_seq_len(n / 10);
    }
}

/// Distinct numbers have distinct decimal renderings.
pub proof fn lemma_dec_seq_injective(a: nat, b: nat)
    requires
        dec_seq(a) == dec_seq(b),
    ensures
        a == b,
    decreases a + b,
{
    lemma_dec_seq_len(a);
    lemma_dec_seq_len(b);
    if a < 10 && b < 10 {
        assert(dec_seq(a)[0] == digit_char(a));
        assert(dec_seq(b)[0] == digit_char(b));
        lemma_digit_char_inj(a, b);
    } else if a >= 10 && b >= 10 {
        assert(dec_seq(a).last() == digit_char(a % 10));
        assert(dec_seq(b).last() == digit_char(b % 10));
        lemma_digit_char_inj(a % 10, b % 10);
        assert(dec_seq(a).drop_last() =~= dec_seq(a / 10));
        assert(dec_seq(b).drop_last() =~= dec_seq(b / 10));
        lemma_dec_seq_injective(a / 10, b / 10);
    }
}

/// Renders a number as its decimal string.
pub fn u64_to_dec(n: u64) -> (r: String)
    ensures
        r@ == dec_seq(n as nat),
    decreases n,
{
    if n < 10 {
        String::from_str(digit_str((n % 10) as u8))
    } else {
        let mut s = u64_to_dec(n / 10);
        s.append(digit_str((n % 10) as u8));
        proof {
            assert(s@ =~= dec_seq((n / 10) as nat).push(digit_char((n % 10) as nat)));
        }
        s
    }
}

/// The one-character string for a decimal digit.
fn digit_str(d: u8) -> (r: &'static str)
    requires
        d < 10,
    ensures
        r@ == seq![digit_char(d as nat)],
{
    proof {
        reveal_strlit("0");
        reveal_strlit("1");
        reveal_strlit("2");
        reveal_strlit("3");
        reveal_strlit("4");
        reveal_strlit("5");
        reveal_strlit("6");
        reveal_strlit("7");
        reveal_strlit("8");
        reveal_strlit("9");
    }
    let r = match d {
        0 => "0",
        1 => "1",
        2 => "2",
        3 => "3",
        4 => "4",
        5 => "5",
        6 => "6",
        7 => "7",
        8 => "8",
        _ => "9",
    };
    proof {
        assert(r@ =~= seq![digit_char(d as nat)]);
    }
    r
}

/// If the decimal renderings of all numbers below `n` occur in `keys`,
/// then `keys` holds at least `n` elements (the renderings are pairwise
/// distinct, so each needs a slot of its own).
pub proof fn lemma_codes_pigeonhole(keys: Seq<Seq<char>>, n: nat)
    requires
        forall|m: nat| m < n ==> #[trigger] keys.contains(dec_seq(m)),
    ensures
        n <= keys.len(),
    decreases n,
{
    if n > 0 {
        let last: nat = (n - 1) as nat;
        assert(keys.contains(dec_seq(last)));
        let j = choose|j: int| 0 <= j < keys.len() && keys[j] == dec_seq(last);
        let keys2 = keys.remove(j);
        assert forall|m: nat| m < last implies #[trigger] keys2.contains(dec_seq(m)) by {
            assert(keys.contains(dec_seq(m)));
            let j2 = choose|j2: int| 0 <= j2 < keys.len() && keys[j2] == dec_seq(m);
            if dec_seq(m) == dec_seq(last) {
                lemma_dec_seq_injective(m, last);
            }
            assert(keys[j2] != keys[j]);
            if j2 < j {
                assert(keys2[j2] == keys[j2]);
            } else {
                assert(keys2[j2 - 1] == keys[j2]);
            }
        }
        lemma_codes_pigeonhole(keys2, last);
    }
}

/// Declares rand's thread-local generator handle, so that draws can be
/// taken through it; nothing is assumed about its insides.
#[verifier::external_type_specification]
#[verifier::external_body]
pub struct ExThreadRng(rand::rngs::ThreadRng);

/// Relies on rand::thread_rng: a handle to the thread-local generator.
#[verifier::external_body]
fn new_rng() -> rand::rngs::ThreadRng {
    rand::thread_rng()
}

/// Relies on rand::Rng::gen_range over `0..bound`: a uniform draw below
/// `bound`. The range is non-empty, so the call does not panic.
#[verifier::external_body]
fn gen_below(rng: &mut rand::rngs::ThreadRng, bound: u64) -> (n: u64)
    requires
        bound > 0,
    ensures
        n < bound,
{
    rand::Rng::gen_range(rng, 0..bound)
}

/// The decimal rendering of `m` is claimed somewhere: as a key of the
/// code map or as a value of the link map.
pub open spec fn code_taken(
    ctl: Vec<(String, String)>,
    ltc: Vec<(String, String)>,
    m: nat,
) -> bool {
    al_map(ctl).contains_key(dec_seq(m)) || map_has_value(al_map(ltc), dec_seq(m))
}

/// A code in use nowhere: neither a key of the code map nor a value of
/// the link map. Candidates are drawn uniformly at random and re-drawn on
/// collision; after a bounded number of collisions the space is scanned
/// instead, so that the call provably returns. The scan must find a free
/// code: fewer than `CODE_SPACE` codes can be claimed at once.
pub fn free_code(ctl: &Vec<(String, String)>, ltc: &Vec<(String, String)>) -> (code: String)
    requires
        al_distinct(*ctl),
        al_distinct(*ltc),
        ctl@.len() + ltc@.len() < CODE_SPACE,
    ensures
        !al_map(*ctl).contains_key(code@),
        !map_has_value(al_map(*ltc), code@),
        is_code(code@),
{
    let mut rng = new_rng();
    let mut t: u64 = 0;
    while t < 64
        invariant
            al_distinct(*ctl),
            al_distinct(*ltc),
        decreases 64 - t,
    {
        let n = gen_below(&mut rng, CODE_SPACE);
        let code = u64_to_dec(n);
        if !al_contains_key(ctl, &code) && !al_has_value(ltc, &code) {
            proof {
                assert((n as nat) < CODE_SPACE && code@ == dec_seq(n as nat));
            }
            return code;
        }
        t = t + 1;
    }
    let total = ctl.len() + ltc.len();
    let mut n: u64 = 0;
    while n <= total as u64
        invariant
            al_distinct(*ctl),
            al_distinct(*ltc),
            ctl@.len() + ltc@.len() < CODE_SPACE,
            total == ctl@.len() + ltc@.len(),
            n <= total + 1,
            forall|m: nat| m < n ==> #[trigger] code_taken(*ctl, *ltc, m),
        decreases total + 1 - n,
    {
        let code = u64_to_dec(n);
        if !al_contains_key(ctl, &code) && !al_has_value(ltc, &code) {
            proof {
                assert((n as nat) < CODE_SPACE && code@ == dec_seq(n as nat));
            }
            return code;
        }
        proof {
            assert(code_taken(*ctl, *ltc, n as nat));
        }
        n = n + 1;
    }
    proof {
        let left = pairs_view(ctl@).map_values(|p: (Seq<char>, Seq<char>)| p.0);
        let right = pairs_view(ltc@).map_values(|p: (Seq<char>, Seq<char>)| p.1);
        let keys = left + right;
        assert(keys.len() == total);
        assert forall|m: nat| m < total + 1 implies #[trigger] keys.contains(dec_seq(m)) by {
            assert(code_taken(*ctl, *ltc, m));
            if al_map(*ctl).contains_key(dec_seq(m)) {
                lemma_map_dom(pairs_view(ctl@), dec_seq(m));
                let i = choose|i: int|
                    0 <= i < pairs_view(ctl@).len() && pairs_view(ctl@)[i].0 == dec_seq(m);
                assert(keys[i] == left[i]);
                assert(keys[i] == dec_seq(m));
            } else {
                let k = choose|k: Seq<char>|
                    #[trigger] al_map(*ltc).contains_key(k) && al_map(*ltc)[k] == dec_seq(m);
                lemma_map_value_index(pairs_view(ltc@), k);
                let i = choose|i: int|
                    0 <= i < pairs_view(ltc@).len() && pairs_view(ltc@)[i].0 == k
                        && pairs_view(ltc@)[i].1 == al_map(*ltc)[k];
                assert(keys[left.len() + i] == right[i]);
                assert(keys[left.len() + i] == dec_seq(m));
            }
        }
        lemma_codes_pigeonhole(keys, (total + 1) as nat);
        assert(false);
    }
    String::new()
}

} // verus!
