//! The enumerator: every string over the 94-character printable alphabet
//! (`!` through `~`, ASCII 33 to 126) of every length up to a bound, each
//! exactly once, lengths in increasing order. A cursor holds only its
//! current length and its position within that length, so independent
//! cursors can each walk their own share of the rank space.

use vstd::prelude::*;
use vstd::arithmetic::div_mod::{lemma_fundamental_div_mod, lemma_multiply_divide_lt};

verus! {

/// A byte of the candidate alphabet: printable ASCII excluding space.
pub open spec fn is_alphabet_byte(b: u8) -> bool {
    33 <= b <= 126
}

/// A well-formed candidate for a run bounded by `max_len`: no longer than
/// the bound, alphabet bytes only.
pub open spec fn valid_candidate(s: Seq<u8>, max_len: nat) -> bool {
    s.len() <= max_len && forall|j: int| 0 <= j < s.len() ==> is_alphabet_byte(s[j])
}

/// 94 to the power `l`: how many strings of length `l` the alphabet yields.
pub open spec fn pow94(l: nat) -> nat
    decreases l,
{
    if l == 0 {
        1
    } else {
        94 * pow94((l - 1) as nat)
    }
}

/// The total count of strings of length at most `l`: the sum over lengths
/// `0..=l` of `94^length`.
pub open spec fn count_up_to(l: nat) -> nat
    decreases l,
{
    if l == 0 {
        1
    } else {
        count_up_to((l - 1) as nat) + pow94(l)
    }
}

/// The rank at which strings of length `l` begin in the enumeration order.
pub open spec fn rank_base(l: nat) -> nat {
    if l == 0 {
        0
    } else {
        count_up_to((l - 1) as nat)
    }
}

/// The string of length `l` at position `i < 94^l` within its length
/// class: the base-94 digits of `i`, most significant first, mapped onto
/// the alphabet.
pub open spec fn nth_string(l: nat, i: nat) -> Seq<u8>
    decreases l,
{
    if l == 0 {
        Seq::empty()
    } else {
        nth_string((l - 1) as nat, i / 94).push((33 + (i % 94)) as u8)
    }
}

/// The base-94 value a string of alphabet bytes stands for.
pub open spec fn value_of(s: Seq<u8>) -> int
    decreases s.len(),
{
    if s.len() == 0 {
        0
    } else {
        94 * value_of(s.drop_last()) + (s.last() - 33)
    }
}

/// All strings of length exactly `l`, ordered by value.
pub open spec fn candidates_of_length(l: nat) -> Seq<Seq<u8>> {
    Seq::new(pow94(l), |i: int| nth_string(l, i as nat))
}

/// Every string of length at most `n`: length classes in increasing order,
/// values in increasing order within each class.
pub open spec fn all_candidates(n: nat) -> Seq<Seq<u8>>
    decreases n,
{
    if n == 0 {
        candidates_of_length(0)
    } else {
        all_candidates((n - 1) as nat) + candidates_of_length(n)
    }
}

/// The rank a string occupies in the enumeration order: all shorter
/// strings come first, then the string's own value.
pub open spec fn rank_of(s: Seq<u8>) -> int {
    rank_base(s.len()) + value_of(s)
}

proof fn lemma_pow94_pos(l: nat)
    ensures
        pow94(l) >= 1,
    decreases l,
{
    if l > 0 {
        lemma_pow94_pos((l - 1) as nat);
    }
}

proof fn lemma_pow94_mono(a: nat, b: nat)
    requires
        a <= b,
    ensures
        pow94(a) <= pow94(b),
    decreases b,
{
    if a < b {
        lemma_pow94_mono(a, (b - 1) as nat);
        lemma_pow94_pos((b - 1) as nat);
    }
}

proof fn lemma_count_mono(a: nat, b: nat)
    requires
        a <= b,
    ensures
        count_up_to(a) <= count_up_to(b),
    decreases b,
{
    if a < b {
        lemma_count_mono(a, (b - 1) as nat);
        lemma_pow94_pos(b);
    }
}

/// The concrete sizes for the largest supported bound: they fit a `u64`
/// with room to spare.
proof fn lemma_numeric_bounds()
    ensures
        pow94(8) == 6095689385410816,
        count_up_to(8) == 6161234432565771,
{
    assert(pow94(0) == 1);
    assert(pow94(1) == 94);
    assert(pow94(2) == 8836);
    assert(pow94(3) == 830584);
    assert(pow94(4) == 78074896);
    assert(pow94(5) == 7339040224);
    assert(pow94(6) == 689869781056);
    assert(pow94(7) == 64847759419264);
    assert(pow94(8) == 6095689385410816);
    assert(count_up_to(0) == 1);
    assert(count_up_to(1) == 95);
    assert(count_up_to(2) == 8931);
    assert(count_up_to(3) == 839515);
    assert(count_up_to(4) == 78914411);
    assert(count_up_to(5) == 7417954635);
    assert(count_up_to(6) == 697287735691);
    assert(count_up_to(7) == 65545047154955);
    assert(count_up_to(8) == 6161234432565771);
}

/// The rank space of one length class follows directly on the previous
/// classes.
proof fn lemma_rank_base_step(l: nat)
    ensures
        rank_base(l + 1) == rank_base(l) + pow94(l),
{
    if l == 0 {
        assert(count_up_to(0) == 1);
    }
}

/// The string at position `i` of length class `l` has length `l`, uses
/// only alphabet bytes, and decodes back to `i`.
proof fn lemma_nth_string_props(l: nat, i: nat)
    requires
        i < pow94(l),
    ensures
        nth_string(l, i).len() == l,
        value_of(nth_string(l, i)) == i,
        forall|j: int| 0 <= j < l ==> is_alphabet_byte(nth_string(l, i)[j]),
    decreases l,
{
    if l > 0 {
        let q = i / 94;
        let r = i % 94;
        assert(i < 94 * pow94((l - 1) as nat));
        lemma_multiply_divide_lt(i as int, 94, pow94((l - 1) as nat) as int);
        lemma_fundamental_div_mod(i as int, 94);
        lemma_nth_string_props((l - 1) as nat, q);
        let prefix = nth_string((l - 1) as nat, q);
        let s = prefix.push((33 + r) as u8);
        assert(s.drop_last() =~= prefix);
        assert(s.last() == (33 + r) as u8);
        assert(value_of(s) == 94 * q + r);
    }
}

/// The length of the whole enumeration up to `n`.
proof fn lemma_all_candidates_len(n: nat)
    ensures
        all_candidates(n).len() == count_up_to(n),
    decreases n,
{
    if n > 0 {
        lemma_all_candidates_len((n - 1) as nat);
    }
}

/// Where each string stands: position `i` of length class `l` is rank
/// `rank_base(l) + i` of the whole enumeration.
proof fn lemma_all_candidates_index(n: nat, l: nat, i: nat)
    requires
        l <= n,
        i < pow94(l),
    ensures
        rank_base(l) + i < all_candidates(n).len(),
        all_candidates(n)[rank_base(l) + i as int] == nth_string(l, i),
    decreases n,
{
    lemma_all_candidates_len(n);
    if n == 0 {
        assert(all_candidates(0)[rank_base(0) + i as int] == candidates_of_length(0)[i as int]);
    } else {
        lemma_all_candidates_len((n - 1) as nat);
        if l < n {
            lemma_all_candidates_index((n - 1) as nat, l, i);
            lemma_rank_base_step(l);
            lemma_count_mono(l, (n - 1) as nat);
            assert(rank_base(l) + i < count_up_to((n - 1) as nat));
        } else {
            lemma_rank_base_step((n - 1) as nat);
            assert(all_candidates(n)[rank_base(l) + i as int] == candidates_of_length(n)[i as int]);
        }
    }
}

/// Every entry of the enumeration sits at the rank its own length and
/// value say it should, and is a well-formed candidate.
proof fn lemma_all_candidates_rank(n: nat, k: int)
    requires
        0 <= k < all_candidates(n).len(),
    ensures
        rank_of(all_candidates(n)[k]) == k,
        valid_candidate(all_candidates(n)[k], n),
    decreases n,
{
    lemma_all_candidates_len(n);
    if n == 0 {
        lemma_nth_string_props(0, k as nat);
    } else {
        lemma_all_candidates_len((n - 1) as nat);
        if k < count_up_to((n - 1) as nat) {
            lemma_all_candidates_rank((n - 1) as nat, k);
            assert(all_candidates(n)[k] == all_candidates((n - 1) as nat)[k]);
        } else {
            let i = k - count_up_to((n - 1) as nat);
            assert(all_candidates(n)[k] == candidates_of_length(n)[i]);
            lemma_nth_string_props(n, i as nat);
        }
    }
}

/// Every string of alphabet bytes stands at the position its own base-94
/// value names within its length class.
proof fn lemma_string_is_nth(s: Seq<u8>)
    requires
        forall|j: int| 0 <= j < s.len() ==> is_alphabet_byte(s[j]),
    ensures
        0 <= value_of(s) < pow94(s.len()),
        nth_string(s.len(), value_of(s) as nat) == s,
    decreases s.len(),
{
    if s.len() == 0 {
        assert(nth_string(0, 0) =~= s);
    } else {
        let p = s.drop_last();
        let l = s.len();
        assert(forall|j: int| 0 <= j < p.len() ==> is_alphabet_byte(p[j]));
        lemma_string_is_nth(p);
        let v1 = value_of(p);
        let d = s.last() - 33;
        let v = value_of(s);
        assert(v == v1 * 94 + d) by {
            vstd::arithmetic::mul::lemma_mul_is_commutative(94, v1);
        }
        assert(v < pow94(l)) by {
            assert(pow94(l) == 94 * pow94((l - 1) as nat));
            assert((v1 + 1) * 94 <= pow94((l - 1) as nat) * 94) by {
                vstd::arithmetic::mul::lemma_mul_inequality(
                    v1 + 1,
                    pow94((l - 1) as nat) as int,
                    94,
                );
            }
            vstd::arithmetic::mul::lemma_mul_is_commutative(94, pow94((l - 1) as nat) as int);
            assert(v < (v1 + 1) * 94) by {
                vstd::arithmetic::mul::lemma_mul_is_distributive_add_other_way(94, v1, 1);
            }
        }
        vstd::arithmetic::div_mod::lemma_fundamental_div_mod_converse(v, 94, v1, d);
        assert(nth_string(l, v as nat) == nth_string((l - 1) as nat, v1 as nat).push(
            (33 + d) as u8,
        ));
        assert(s =~= p.push(s.last()));
    }
}

/// Law: for a bound `n`, the enumeration holds exactly
/// `sum over l in [0, n] of 94^l` candidates, no two alike; every one of
/// them is a well-formed candidate — length at most `n`, alphabet bytes
/// only — and, the other way round, every well-formed candidate appears:
/// no duplicates, no omissions.
pub proof fn lemma_enumeration_exact(n: nat)
    ensures
        all_candidates(n).len() == count_up_to(n),
        forall|i: int, j: int|
            0 <= i < j < all_candidates(n).len() ==> all_candidates(n)[i] != all_candidates(n)[j],
        forall|k: int|
            0 <= k < all_candidates(n).len() ==> valid_candidate(#[trigger] all_candidates(n)[k], n),
        forall|s: Seq<u8>| #[trigger] valid_candidate(s, n) ==> all_candidates(n).contains(s),
{
    assert forall|s: Seq<u8>| #[trigger] valid_candidate(s, n) implies all_candidates(n).contains(
        s,
    ) by {
        lemma_string_is_nth(s);
        lemma_all_candidates_index(n, s.len(), value_of(s) as nat);
        assert(all_candidates(n)[rank_base(s.len()) + value_of(s)] == s);
    }
    lemma_all_candidates_len(n);
    assert forall|k: int| 0 <= k < all_candidates(n).len() implies valid_candidate(
        #[trigger] all_candidates(n)[k],
        n,
    ) by {
        lemma_all_candidates_rank(n, k);
    }
    assert forall|i: int, j: int|
        0 <= i < j < all_candidates(n).len() implies all_candidates(n)[i] != all_candidates(
        n,
    )[j] by {
        lemma_all_candidates_rank(n, i);
        lemma_all_candidates_rank(n, j);
    }
}

/// 94 to the power `l`, as a machine word; defined for every bound the
/// enumerator supports.
pub fn pow94_exec(l: usize) -> (r: u64)
    requires
        l <= 8,
    ensures
        r == pow94(l as nat),
{
    proof {
        lemma_numeric_bounds();
    }
    let mut acc: u64 = 1;
    let mut j: usize = 0;
    while j < l
        invariant
            j <= l <= 8,
            acc == pow94(j as nat),
        decreases l - j,
    {
        proof {
            lemma_pow94_mono((j + 1) as nat, 8);
            lemma_numeric_bounds();
            assert(pow94((j + 1) as nat) == 94 * pow94(j as nat));
        }
        acc = acc * 94;
        j += 1;
    }
    acc
}

/// The total count of candidates for a bound `l`, as a machine word.
pub fn count_up_to_exec(l: usize) -> (r: u64)
    requires
        l <= 8,
    ensures
        r == count_up_to(l as nat),
{
    proof {
        lemma_numeric_bounds();
    }
    let mut acc: u64 = 1;
    let mut j: usize = 0;
    while j < l
        invariant
            j <= l <= 8,
            acc == count_up_to(j as nat),
        decreases l - j,
    {
        proof {
            lemma_count_mono((j + 1) as nat, 8);
            lemma_numeric_bounds();
            lemma_pow94_mono((j + 1) as nat, 8);
        }
        let p = pow94_exec(j + 1);
        acc = acc + p;
        j += 1;
    }
    acc
}

/// Build the candidate at position `i` of length class `l`.
fn candidate_at(l: usize, i: u64) -> (r: Vec<u8>)
    requires
        l <= 8,
        i < pow94(l as nat),
    ensures
        r@ == nth_string(l as nat, i as nat),
    decreases l,
{
    if l == 0 {
        Vec::new()
    } else {
        proof {
            assert(i < 94 * pow94((l - 1) as nat));
            lemma_multiply_divide_lt(i as int, 94, pow94((l - 1) as nat) as int);
        }
        let mut v = candidate_at(l - 1, i / 94);
        v.push(33 + (i % 94) as u8);
        v
    }
}

/// A cursor over the enumeration: the bound, the current length class and
/// the position within it. Restarting means building a fresh cursor;
/// parallel consumption means giving each worker its own cursor over its
/// own rank range.
pub struct Enumerator {
    /// The run's bound on candidate length.
    pub max_len: usize,
    /// The length class the cursor stands in.
    pub len: usize,
    /// The position within the current length class.
    pub index: u64,
}

impl Enumerator {
    /// The cursor's structural invariant: within the bound, and the
    /// position within the current class, with the exhausted cursor
    /// resting one class past the bound.
    pub open spec fn wf(&self) -> bool {
        &&& self.max_len <= 8
        &&& self.len <= self.max_len + 1
        &&& (self.len <= self.max_len ==> self.index < pow94(self.len as nat))
        &&& (self.len > self.max_len ==> self.index == 0)
    }

    /// The rank of the candidate the cursor will yield next; equals
    /// `total()` once the cursor is exhausted.
    pub open spec fn emitted(&self) -> int {
        rank_base(self.len as nat) + self.index
    }

    /// How many candidates the whole run yields.
    pub open spec fn total(&self) -> int {
        count_up_to(self.max_len as nat) as int
    }

    /// A fresh cursor at the start of the enumeration: the empty string
    /// comes first.
    pub fn new(max_len: usize) -> (r: Self)
        requires
            max_len <= 8,
        ensures
            r.wf(),
            r.max_len == max_len,
            r.emitted() == 0,
    {
        proof {
            lemma_pow94_pos(0);
        }
        Enumerator { max_len, len: 0, index: 0 }
    }

    /// A cursor positioned at rank `start`: the handoff point when a
    /// worker is assigned the share of the rank space beginning there.
    pub fn starting_at(max_len: usize, start: u64) -> (r: Self)
        requires
            max_len <= 8,
            start <= count_up_to(max_len as nat),
        ensures
            r.wf(),
            r.max_len == max_len,
            r.emitted() == start,
    {
        let mut l: usize = 0;
        let mut rem: u64 = start;
        let mut found = false;
        let mut f_len: usize = max_len + 1;
        let mut f_idx: u64 = 0;
        while l <= max_len
            invariant
                max_len <= 8,
                l <= max_len + 1,
                start <= count_up_to(max_len as nat),
                !found ==> rank_base(l as nat) + rem == start,
                found ==> f_len <= max_len && f_idx < pow94(f_len as nat) && rank_base(
                    f_len as nat,
                ) + f_idx == start,
            decreases max_len + 1 - l,
        {
            let p = pow94_exec(l);
            if !found {
                if rem < p {
                    f_len = l;
                    f_idx = rem;
                    found = true;
                } else {
                    proof {
                        lemma_rank_base_step(l as nat);
                    }
                    rem = rem - p;
                }
            }
            l += 1;
        }
        if found {
            Enumerator { max_len, len: f_len, index: f_idx }
        } else {
            proof {
                assert(rank_base((max_len + 1) as nat) == count_up_to(max_len as nat));
            }
            Enumerator { max_len, len: max_len + 1, index: 0 }
        }
    }

    /// Yield the candidate at the cursor's rank and advance by one;
    /// `None` exactly when the enumeration is exhausted.
    pub fn next(&mut self) -> (r: Option<Vec<u8>>)
        requires
            old(self).wf(),
        ensures
            final(self).wf(),
            final(self).max_len == old(self).max_len,
            old(self).emitted() < old(self).total() ==> {
                &&& r is Some
                &&& r.unwrap()@ == all_candidates(old(self).max_len as nat)[old(self).emitted()]
                &&& final(self).emitted() == old(self).emitted() + 1
            },
            old(self).emitted() >= old(self).total() ==> r is None && *final(self) == *old(self),
    {
        proof {
            lemma_all_candidates_len(self.max_len as nat);
        }
        if self.len > self.max_len {
            proof {
                assert(rank_base(self.len as nat) == count_up_to(self.max_len as nat));
            }
            return None;
        }
        proof {
            lemma_rank_base_step(self.len as nat);
            lemma_count_mono(self.len as nat, self.max_len as nat);
            lemma_all_candidates_index(self.max_len as nat, self.len as nat, self.index as nat);
            lemma_numeric_bounds();
            lemma_pow94_mono(self.len as nat, 8);
        }
        let cand = candidate_at(self.len, self.index);
        self.index = self.index + 1;
        let class_size = pow94_exec(self.len);
        if self.index == class_size {
            self.len = self.len + 1;
            self.index = 0;
        }
        Some(cand)
    }
}

} // verus!
