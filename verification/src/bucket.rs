//! Per-bucket, per-round state: committed designations, ancillary holders,
//! and the priority ranks, together with the winner-selection rule.

use vstd::prelude::*;

use crate::basis::BlockDivisionBasis;
use crate::selections::strictly_sorted;
use crate::sequences::lemma_distinct_bounded_len;
use crate::sequences::lemma_filter_elements;
use crate::sequences::lemma_filter_nonempty;
use crate::sequences::lemma_filter_push;
use crate::sequences::lemma_filter_sorted;
use crate::sequences::lemma_filter_split;

verus! {

/// `rk` assigns every participant a distinct rank in `[0, n)`: a full
/// permutation of the rank space.
pub open spec fn is_rank_permutation(rk: Seq<usize>, n: nat) -> bool {
    &&& rk.len() == n
    &&& forall|i: int| 0 <= i < rk.len() ==> (#[trigger] rk[i]) < n
    &&& forall|i: int, j: int| 0 <= i < j < rk.len() ==> rk[i] != rk[j]
}

/// Mathematical content of a `BucketState`.
#[verifier::ext_equal]
pub ghost struct BucketStateModel {
    pub designations: Seq<usize>,
    pub ancillary_designations: Seq<Option<usize>>,
    pub ranks: Option<Seq<usize>>,
}

impl BucketStateModel {
    /// Structural well-formedness for one (round, bucket) cell of a basis
    /// with `n` participants, `n_anc` ancillaries in this bucket, and
    /// capacity `cap`.
    pub open spec fn wf(self, n: nat, n_anc: nat, cap: usize) -> bool {
        &&& strictly_sorted(self.designations)
        &&& forall|i: int|
            0 <= i < self.designations.len() ==> (#[trigger] self.designations[i]) < n
        &&& self.designations.len() <= cap
        &&& self.ancillary_designations.len() == n_anc
        &&& forall|a: int|
            0 <= a < self.ancillary_designations.len() && (#[trigger] self.ancillary_designations[a]) is Some
                ==> self.ancillary_designations[a].unwrap() < n
        &&& match self.ranks {
            Some(rk) => is_rank_permutation(rk, n),
            None => true,
        }
    }

    /// The rank of participant `p` in this cell (meaningful only when the
    /// cell's ranks are present).
    pub open spec fn rank_of(self, p: int) -> usize {
        self.ranks.unwrap()[p]
    }
}

/// How many of the candidates strictly outrank (have a lower rank than) `c`.
pub open spec fn num_better(rk: Seq<usize>, cands: Seq<usize>, c: usize) -> nat {
    cands.filter(|d: usize| rk[d as int] < rk[c as int]).len()
}

/// The winner set: the candidates that at most `k - 1` other candidates
/// outrank. With distinct ranks these are exactly the `k` best-ranked
/// candidates (or all of them, when fewer than `k` contend).
pub open spec fn spec_winners(rk: Seq<usize>, cands: Seq<usize>, k: int) -> Seq<usize> {
    cands.filter(|c: usize| num_better(rk, cands, c) < k)
}

/// Everything the resolver needs to know about `spec_winners`: the winners
/// are a strictly sorted subset of the candidates, there are at most `k` of
/// them, and membership is exactly the `num_better` threshold test.
pub proof fn lemma_winners(rk: Seq<usize>, cands: Seq<usize>, k: int)
    requires
        strictly_sorted(cands),
        forall|i: int| 0 <= i < cands.len() ==> (#[trigger] cands[i]) < rk.len(),
        forall|i: int, j: int| 0 <= i < j < rk.len() ==> rk[i] != rk[j],
        k >= 0,
    ensures
        strictly_sorted(spec_winners(rk, cands, k)),
        spec_winners(rk, cands, k).len() <= k,
        forall|i: int|
            0 <= i < spec_winners(rk, cands, k).len() ==> cands.contains(
                #[trigger] spec_winners(rk, cands, k)[i],
            ),
        forall|x: usize|
            #[trigger] cands.contains(x) ==> (spec_winners(rk, cands, k).contains(x) <==> num_better(
                rk,
                cands,
                x,
            ) < k),
{
    let pred = |c: usize| num_better(rk, cands, c) < k;
    let w = spec_winners(rk, cands, k);
    lemma_filter_sorted(cands, pred);
    lemma_filter_elements(cands, pred);
    // Membership: one direction from filter elements, the other by finding
    // the index of x in cands and using the filter containment lemma.
    assert forall|x: usize| #[trigger] cands.contains(x) implies (w.contains(x) <==> pred(x)) by {
        if pred(x) {
            lemma_filter_nonempty(cands, pred, x);
            let i = choose|i: int| 0 <= i < cands.len() && cands[i] == x;
            cands.lemma_filter_contains(pred, i);
        }
        if w.contains(x) {
            let i = choose|i: int| 0 <= i < w.len() && w[i] == x;
        }
    }
    // Cardinality: distinct candidates have distinct ranks, so `num_better`
    // is injective on the winners; its values lie in [0, k).
    let f = |c: usize| num_better(rk, cands, c) as int;
    let g = w.map_values(f);
    assert(g.len() == w.len());
    assert forall|i: int, j: int| 0 <= i < j < g.len() implies g[i] != g[j] by {
        let ci = w[i];
        let cj = w[j];
        assert(strictly_sorted(w));
        assert(ci < cj);
        assert(cands.contains(ci) && cands.contains(cj));
        if rk[ci as int] < rk[cj as int] {
            lemma_num_better_strict(rk, cands, ci, cj);
        } else {
            assert(rk[ci as int] != rk[cj as int]);
            lemma_num_better_strict(rk, cands, cj, ci);
        }
    }
    assert(g.no_duplicates());
    assert forall|i: int| 0 <= i < g.len() implies 0 <= #[trigger] g[i] < k by {
        assert(pred(w[i]));
    }
    lemma_distinct_bounded_len(g, k);
}

/// With distinct ranks, a better-ranked candidate is outranked by strictly
/// fewer candidates.
proof fn lemma_num_better_strict(rk: Seq<usize>, cands: Seq<usize>, c1: usize, c2: usize)
    requires
        cands.contains(c1),
        c1 < rk.len(),
        c2 < rk.len(),
        rk[c1 as int] < rk[c2 as int],
    ensures
        num_better(rk, cands, c1) < num_better(rk, cands, c2),
{
    let p = |d: usize| rk[d as int] < rk[c1 as int];
    let q = |d: usize| rk[d as int] < rk[c2 as int];
    lemma_filter_split(cands, p, q);
    lemma_filter_nonempty(cands, |d: usize| q(d) && !p(d), c1);
}

/// State of one bucket in one round. `designations` is the strictly sorted
/// list of participant indices holding a slot; `ancillary_designations[a]`
/// is the holder of ancillary `a`, if any; `ranks` is the priority table
/// for this (round, bucket), or `None` in a censored projection.
#[derive(Debug)]
pub struct BucketState {
    pub designations: Vec<usize>,
    pub ancillary_designations: Vec<Option<usize>>,
    pub ranks: Option<Vec<usize>>,
}

impl View for BucketState {
    type V = BucketStateModel;

    open spec fn view(&self) -> BucketStateModel {
        BucketStateModel {
            designations: self.designations@,
            ancillary_designations: self.ancillary_designations@,
            ranks: match self.ranks {
                Some(rk) => Some(rk@),
                None => None,
            },
        }
    }
}

impl Clone for BucketState {
    fn clone(&self) -> (r: Self)
        ensures
            r@ == self@,
    {
        BucketState {
            designations: self.designations.clone(),
            ancillary_designations: self.ancillary_designations.clone(),
            ranks: match &self.ranks {
                Some(rk) => Some(rk.clone()),
                None => None,
            },
        }
    }
}

impl BucketState {
    /// A fresh cell for a bucket offering `ancillary_count` ancillaries:
    /// nobody designated, no ancillary held, no ranks yet.
    pub fn new(ancillary_count: usize) -> (r: BucketState)
        ensures
            r@.designations == Seq::<usize>::empty(),
            r@.ancillary_designations.len() == ancillary_count,
            forall|a: int|
                0 <= a < r@.ancillary_designations.len() ==> (
                #[trigger] r@.ancillary_designations[a]) is None,
            r@.ranks is None,
    {
        let mut anc: Vec<Option<usize>> = Vec::new();
        for a in 0..ancillary_count
            invariant
                anc@.len() == a,
                forall|i: int| 0 <= i < a ==> (#[trigger] anc@[i]) is None,
        {
            anc.push(None);
        }
        BucketState { designations: Vec::new(), ancillary_designations: anc, ranks: None }
    }

    /// Empties the designations and ancillary holders of this cell; the
    /// rank table stays.
    pub fn clear(&mut self)
        ensures
            final(self)@ == (BucketStateModel {
                designations: Seq::<usize>::empty(),
                ancillary_designations: Seq::new(
                    old(self)@.ancillary_designations.len(),
                    |a: int| None,
                ),
                ranks: old(self)@.ranks,
            }),
    {
        self.designations.clear();
        let len = self.ancillary_designations.len();
        for a in 0..len
            invariant
                len == self.ancillary_designations@.len(),
                self.designations@.len() == 0,
                self.ranks == old(self).ranks,
                forall|j: int|
                    0 <= j < a ==> (#[trigger] self.ancillary_designations@[j]) is None,
        {
            self.ancillary_designations[a] = None;
        }
        proof {
            assert(self.ancillary_designations@ =~= Seq::new(
                old(self)@.ancillary_designations.len(),
                |a: int| None,
            ));
            assert(self.designations@ =~= Seq::<usize>::empty());
            assert(self@ =~= (BucketStateModel {
                designations: Seq::<usize>::empty(),
                ancillary_designations: Seq::new(
                    old(self)@.ancillary_designations.len(),
                    |a: int| None,
                ),
                ranks: old(self)@.ranks,
            }));
        }
    }

    /// The rank of `participant` in this cell.
    pub fn get_rank(&self, participant: usize) -> (r: usize)
        requires
            self@.ranks is Some,
            participant < self@.ranks.unwrap().len(),
        ensures
            r == self@.rank_of(participant as int),
    {
        match &self.ranks {
            Some(rk) => rk[participant],
            None => 0,
        }
    }

    /// Whether `contender` is at least as well ranked as `opponent` in this
    /// cell (the contender wins ties).
    pub fn is_winner(&self, contender: usize, opponent: usize) -> (r: bool)
        requires
            self@.ranks is Some,
            contender < self@.ranks.unwrap().len(),
            opponent < self@.ranks.unwrap().len(),
        ensures
            r == (self@.rank_of(contender as int) <= self@.rank_of(opponent as int)),
    {
        self.get_rank(contender) <= self.get_rank(opponent)
    }

    /// Keeps the `winner_count` best-ranked of the given candidates.
    pub fn get_winners(&self, candidates: &Vec<usize>, winner_count: usize) -> (r: Vec<usize>)
        requires
            self@.ranks is Some,
            strictly_sorted(candidates@),
            forall|i: int|
                0 <= i < candidates@.len() ==> (#[trigger] candidates@[i])
                    < self@.ranks.unwrap().len(),
        ensures
            r@ == spec_winners(self@.ranks.unwrap(), candidates@, winner_count as int),
    {
        let ghost rk = self@.ranks.unwrap();
        let ghost pred = |c: usize| num_better(rk, candidates@, c) < winner_count as int;
        let mut r: Vec<usize> = Vec::new();
        for i in 0..candidates.len()
            invariant
                self@.ranks is Some,
                rk == self@.ranks.unwrap(),
                pred == (|c: usize| num_better(rk, candidates@, c) < winner_count as int),
                forall|j: int| 0 <= j < candidates@.len() ==> (#[trigger] candidates@[j]) < rk.len(),
                r@ == candidates@.subrange(0, i as int).filter(pred),
        {
            let c = candidates[i];
            let mut count: usize = 0;
            let ghost inner = |d: usize| rk[d as int] < rk[c as int];
            for j in 0..candidates.len()
                invariant
                    self@.ranks is Some,
                    rk == self@.ranks.unwrap(),
                    i < candidates@.len(),
                    c == candidates@[i as int],
                    inner == (|d: usize| rk[d as int] < rk[c as int]),
                    forall|q: int|
                        0 <= q < candidates@.len() ==> (#[trigger] candidates@[q]) < rk.len(),
                    count == candidates@.subrange(0, j as int).filter(inner).len(),
                    count <= j,
            {
                proof {
                    lemma_filter_push(candidates@.subrange(0, j as int), inner, candidates@[j as int]);
                    assert(candidates@.subrange(0, j + 1) =~= candidates@.subrange(
                        0,
                        j as int,
                    ).push(candidates@[j as int]));
                }
                if self.get_rank(candidates[j]) < self.get_rank(c) {
                    count = count + 1;
                }
            }
            proof {
                assert(candidates@.subrange(0, candidates@.len() as int) =~= candidates@);
                assert(count == num_better(rk, candidates@, c));
                lemma_filter_push(candidates@.subrange(0, i as int), pred, candidates@[i as int]);
                assert(candidates@.subrange(0, i + 1) =~= candidates@.subrange(0, i as int).push(
                    candidates@[i as int],
                ));
            }
            if count < winner_count {
                r.push(c);
            }
        }
        proof {
            assert(candidates@.subrange(0, candidates@.len() as int) =~= candidates@);
        }
        r
    }
}

/// The round-by-round states of one bucket: entry `r` is the bucket's state
/// in round `r`.
#[derive(Debug)]
pub struct RoundStates {
    pub round_states: Vec<BucketState>,
}

impl View for RoundStates {
    type V = Seq<BucketStateModel>;

    open spec fn view(&self) -> Seq<BucketStateModel> {
        Seq::new(self.round_states@.len(), |r: int| self.round_states@[r]@)
    }
}

impl Clone for RoundStates {
    fn clone(&self) -> (r: Self)
        ensures
            r@ == self@,
    {
        let r = RoundStates { round_states: self.round_states.clone() };
        proof {
            assert(r@ =~= self@);
        }
        r
    }
}

/// No round strictly before `round` has given ancillary `a` of this bucket
/// to a holder other than `participant`.
pub open spec fn spec_ancillary_available(
    states: Seq<BucketStateModel>,
    round: int,
    a: int,
    participant: usize,
) -> bool {
    forall|r: int|
        0 <= r < round ==> ((#[trigger] states[r].ancillary_designations[a]) is None
            || states[r].ancillary_designations[a] == Some(participant))
}

impl RoundStates {
    /// One fresh `BucketState` per round of the basis, for bucket
    /// `bucket_index`.
    pub fn new(basis: &BlockDivisionBasis, bucket_index: usize) -> (r: RoundStates)
        requires
            basis@.wf(),
            bucket_index < basis@.bucket_count(),
        ensures
            r@.len() == basis@.round_count(),
            forall|i: int|
                0 <= i < r@.len() ==> (#[trigger] r@[i]).designations == Seq::<usize>::empty()
                    && r@[i].ancillary_designations.len() == basis@.ancillary_count(
                    bucket_index as int,
                ) && (forall|a: int|
                    0 <= a < r@[i].ancillary_designations.len() ==> (
                    #[trigger] r@[i].ancillary_designations[a]) is None) && r@[i].ranks is None,
    {
        let round_count = basis.get_selection_rounds().len();
        let ancillary_count = basis.get_bucket_definitions()[bucket_index].available_ancillaries.len();
        let mut round_states: Vec<BucketState> = Vec::new();
        for i in 0..round_count
            invariant
                round_states@.len() == i,
                ancillary_count == basis@.ancillary_count(bucket_index as int),
                forall|j: int|
                    0 <= j < i ==> (#[trigger] round_states@[j])@.designations
                        == Seq::<usize>::empty() && round_states@[j]@.ancillary_designations.len()
                        == ancillary_count && (forall|a: int|
                        0 <= a < round_states@[j]@.ancillary_designations.len() ==> (
                        #[trigger] round_states@[j]@.ancillary_designations[a]) is None)
                        && round_states@[j]@.ranks is None,
        {
            round_states.push(BucketState::new(ancillary_count));
        }
        RoundStates { round_states }
    }

    /// Whether ancillary `ancillary_designation` can still be contested by
    /// `participant` in `round`: no earlier round may have handed it to a
    /// different participant (sticky ownership).
    pub fn ancillary_designation_is_available_for_this_round(
        &self,
        round: usize,
        ancillary_designation: usize,
        participant: usize,
    ) -> (r: bool)
        requires
            round <= self@.len(),
            forall|i: int|
                0 <= i < self@.len() ==> ancillary_designation < (
                #[trigger] self@[i]).ancillary_designations.len(),
        ensures
            r == spec_ancillary_available(
                self@,
                round as int,
                ancillary_designation as int,
                participant,
            ),
    {
        for n in 0..round
            invariant
                round <= self@.len(),
                forall|i: int|
                    0 <= i < self@.len() ==> ancillary_designation < (
                    #[trigger] self@[i]).ancillary_designations.len(),
                spec_ancillary_available(
                    self@,
                    n as int,
                    ancillary_designation as int,
                    participant,
                ),
        {
            match self.round_states[n].ancillary_designations[ancillary_designation] {
                Some(holder) => {
                    if holder != participant {
                        proof {
                            assert(self@[n as int].ancillary_designations[ancillary_designation as int]
                                == Some(holder));
                        }
                        return false;
                    }
                },
                None => {},
            }
            proof {
                assert forall|r: int| 0 <= r < n + 1 implies ((
                #[trigger] self@[r].ancillary_designations[ancillary_designation as int]) is None
                    || self@[r].ancillary_designations[ancillary_designation as int] == Some(
                    participant,
                )) by {
                    if r < n {
                    } else {
                        assert(self@[n as int].ancillary_designations[ancillary_designation as int]
                            == self.round_states@[n as int]@.ancillary_designations[ancillary_designation as int]);
                    }
                }
            }
        }
        true
    }

    /// The state of this bucket in `round`.
    pub fn get_state(&self, round: usize) -> (r: &BucketState)
        requires
            round < self@.len(),
        ensures
            r@ == self@[round as int],
    {
        &self.round_states[round]
    }

    /// Mutable access to the state of this bucket in `round`.
    pub fn get_state_mut(&mut self, round: usize) -> (r: &mut BucketState)
        requires
            round < old(self)@.len(),
        ensures
            r@ == old(self)@[round as int],
            final(self)@ == old(self)@.update(round as int, final(r)@),
            final(self)@.len() == old(self)@.len(),
    {
        &mut self.round_states[round]
    }

    /// All per-round states of this bucket.
    pub fn get_states(&self) -> (r: &Vec<BucketState>)
        ensures
            r@.len() == self@.len(),
            forall|i: int| 0 <= i < r@.len() ==> (#[trigger] r@[i])@ == self@[i],
    {
        &self.round_states
    }

    /// Mutable access to all per-round states of this bucket.
    pub fn get_states_mut(&mut self) -> (r: &mut Vec<BucketState>)
        ensures
            *r == old(self).round_states,
            final(self).round_states == *final(r),
    {
        &mut self.round_states
    }
}

} // verus!
