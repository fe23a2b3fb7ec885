//! The dispatcher's verified core: turn a candidate into its formatted
//! record, and produce the records of any consecutive share of the rank
//! space. The worker pool and the channel around it hand each worker a
//! range of ranks and forward what `run_range` returns; every candidate of
//! the run is covered by exactly one range, so every record is produced
//! exactly once whatever the worker count.

use vstd::prelude::*;
use crate::digest::{spec_sha1, hex_of, fits_message, sha1};
use crate::enumerate::{
    all_candidates, count_up_to, valid_candidate, Enumerator, lemma_enumeration_exact,
};

verus! {

/// The record for candidate `c`: the candidate's bytes, one tab, and the
/// digest rendered as 40 lowercase hex digits.
pub open spec fn spec_record(c: Seq<u8>) -> Seq<u8>
    recommends
        fits_message(c.len()),
{
    c + seq![9u8] + hex_of(spec_sha1(c))
}

/// The full, deterministic record sequence of a run bounded by `n`, in
/// enumeration order.
pub open spec fn record_seq(n: nat) -> Seq<Seq<u8>> {
    Seq::new(all_candidates(n).len(), |k: int| spec_record(all_candidates(n)[k]))
}

/// Format one candidate's record: hash its bytes, render the digest in
/// hex, join the two with a tab.
pub fn make_record(cand: &Vec<u8>) -> (r: Vec<u8>)
    requires
        cand@.len() <= 8,
    ensures
        r@ == spec_record(cand@),
{
    let digest = sha1(cand.as_slice());
    let hex = digest.to_hex();
    let mut out: Vec<u8> = Vec::new();
    out.extend_from_slice(cand.as_slice());
    out.push(9);
    out.extend_from_slice(hex.as_slice());
    proof {
        assert(out@ =~= spec_record(cand@));
    }
    out
}

/// One worker's share: the records for ranks `start..end`, in enumeration
/// order. Total for every range inside the run: each assigned candidate
/// yields exactly one record.
pub fn run_range(max_len: usize, start: u64, end: u64) -> (r: Vec<Vec<u8>>)
    requires
        max_len <= 8,
        start <= end,
        end <= count_up_to(max_len as nat),
    ensures
        r@.len() == end - start,
        forall|k: int|
            0 <= k < r@.len() ==> #[trigger] r@[k]@ == record_seq(max_len as nat)[start + k],
{
    let mut en = Enumerator::starting_at(max_len, start);
    let share: u64 = end - start;
    let mut out: Vec<Vec<u8>> = Vec::new();
    let mut produced: u64 = 0;
    while produced < share
        invariant
            en.wf(),
            en.max_len == max_len,
            max_len <= 8,
            share == end - start,
            end <= count_up_to(max_len as nat),
            produced <= share,
            en.emitted() == start + produced,
            out@.len() == produced,
            forall|k: int|
                0 <= k < out@.len() ==> #[trigger] out@[k]@ == record_seq(max_len as nat)[start
                    + k],
        decreases share - produced,
    {
        proof {
            lemma_enumeration_exact(max_len as nat);
        }
        let cand_opt = en.next();
        let cand = cand_opt.unwrap();
        proof {
            assert(valid_candidate(cand@, max_len as nat));
        }
        let rec = make_record(&cand);
        out.push(rec);
        produced += 1;
    }
    out
}

/// Cut points dividing the rank space `0..total` into consecutive worker
/// shares: the first is 0, the last is `total`, and they never go back.
pub open spec fn is_cut_sequence(cuts: Seq<int>, total: int) -> bool {
    &&& cuts.len() >= 1
    &&& cuts[0] == 0
    &&& cuts[cuts.len() - 1] == total
    &&& forall|i: int| 0 <= i < cuts.len() - 1 ==> #[trigger] cuts[i] <= cuts[i + 1]
}

/// The record batches the workers produce when worker `i` is assigned
/// ranks `cuts[i] .. cuts[i + 1]`.
pub open spec fn partition_batches(n: nat, cuts: Seq<int>) -> Seq<Seq<Seq<u8>>> {
    Seq::new((cuts.len() - 1) as nat, |i: int| record_seq(n).subrange(cuts[i], cuts[i + 1]))
}

proof fn lemma_cuts_ordered(cuts: Seq<int>, i: int, j: int)
    requires
        forall|k: int| 0 <= k < cuts.len() - 1 ==> #[trigger] cuts[k] <= cuts[k + 1],
        0 <= i <= j < cuts.len(),
    ensures
        cuts[i] <= cuts[j],
    decreases j - i,
{
    if i < j {
        lemma_cuts_ordered(cuts, i, j - 1);
    }
}

/// Consecutive shares of any sequence, concatenated, are the stretch from
/// the first cut to the last.
proof fn lemma_shares_flatten<A>(s: Seq<A>, cuts: Seq<int>)
    requires
        cuts.len() >= 1,
        0 <= cuts[0],
        cuts[cuts.len() - 1] <= s.len(),
        forall|k: int| 0 <= k < cuts.len() - 1 ==> #[trigger] cuts[k] <= cuts[k + 1],
    ensures
        Seq::new((cuts.len() - 1) as nat, |i: int| s.subrange(cuts[i], cuts[i + 1])).flatten()
            =~= s.subrange(cuts[0], cuts[cuts.len() - 1]),
    decreases cuts.len(),
{
    let batches = Seq::new((cuts.len() - 1) as nat, |i: int| s.subrange(cuts[i], cuts[i + 1]));
    if cuts.len() == 1 {
        assert(batches.len() == 0);
        assert(batches.flatten() =~= Seq::<A>::empty());
    } else {
        let rest_cuts = cuts.subrange(1, cuts.len() as int);
        assert forall|k: int| 0 <= k < rest_cuts.len() - 1 implies #[trigger] rest_cuts[k]
            <= rest_cuts[k + 1] by {
            assert(cuts[k + 1] <= cuts[k + 2]);
        }
        lemma_cuts_ordered(cuts, 0, 1);
        lemma_cuts_ordered(cuts, 1, cuts.len() - 1);
        lemma_shares_flatten(s, rest_cuts);
        let rest_batches = Seq::new(
            (rest_cuts.len() - 1) as nat,
            |i: int| s.subrange(rest_cuts[i], rest_cuts[i + 1]),
        );
        assert(batches.drop_first() =~= rest_batches);
        assert(batches.flatten() == batches.first() + batches.drop_first().flatten());
        assert(batches.first() + rest_batches.flatten() =~= s.subrange(
            cuts[0],
            cuts[cuts.len() - 1],
        ));
    }
}

/// Law: however the rank space is cut into consecutive worker shares —
/// one worker or many, shares large or empty — the batches together are
/// exactly the run's record sequence. Re-running with the same bound and
/// any partition therefore delivers the same records, and in particular
/// the same set of candidate-to-digest pairs.
pub proof fn lemma_partition_complete(n: nat, cuts: Seq<int>)
    requires
        is_cut_sequence(cuts, record_seq(n).len() as int),
    ensures
        partition_batches(n, cuts).flatten() == record_seq(n),
        partition_batches(n, cuts).flatten().to_set() == record_seq(n).to_set(),
{
    lemma_shares_flatten(record_seq(n), cuts);
    assert(record_seq(n).subrange(0, record_seq(n).len() as int) =~= record_seq(n));
}

} // verus!
