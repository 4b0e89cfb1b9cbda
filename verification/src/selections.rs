//! Submitted selections and their per-selection outcomes.

use vstd::prelude::*;

use crate::basis::BasisModel;
use crate::basis::BlockDivisionBasis;

verus! {

/// Outcome attached to one resolved selection. Rejections here are reported
/// results of a successful submission, never operation failures.
#[derive(Debug)]
pub enum SelectionResult {
    /// The pick was committed: the participant holds a slot, and every
    /// requested ancillary, in the targeted (round, bucket).
    Confirmed,
    /// Enough capacity remained, but participants with better (lower) ranks
    /// filled the available slots.
    RejectedOutranked,
    /// The bucket had no capacity left for this round: rounds before it had
    /// already consumed every slot.
    RejectedNoCapacity,
    /// One or more requested ancillaries were unavailable; the indices of
    /// the failing ancillaries are listed.
    RejectedAncillaryUnavailable(Vec<usize>),
}

/// Mathematical content of a `SelectionResult`.
#[verifier::ext_equal]
pub ghost enum SelectionResultModel {
    Confirmed,
    RejectedOutranked,
    RejectedNoCapacity,
    RejectedAncillaryUnavailable(Seq<usize>),
}

impl View for SelectionResult {
    type V = SelectionResultModel;

    open spec fn view(&self) -> SelectionResultModel {
        match self {
            SelectionResult::Confirmed => SelectionResultModel::Confirmed,
            SelectionResult::RejectedOutranked => SelectionResultModel::RejectedOutranked,
            SelectionResult::RejectedNoCapacity => SelectionResultModel::RejectedNoCapacity,
            SelectionResult::RejectedAncillaryUnavailable(v) => SelectionResultModel::RejectedAncillaryUnavailable(
                v@,
            ),
        }
    }
}

impl Clone for SelectionResult {
    fn clone(&self) -> (r: Self)
        ensures
            r@ == self@,
    {
        match self {
            SelectionResult::Confirmed => SelectionResult::Confirmed,
            SelectionResult::RejectedOutranked => SelectionResult::RejectedOutranked,
            SelectionResult::RejectedNoCapacity => SelectionResult::RejectedNoCapacity,
            SelectionResult::RejectedAncillaryUnavailable(v) => SelectionResult::RejectedAncillaryUnavailable(
                v.clone(),
            ),
        }
    }
}

/// The request part of a selection, stripped of any recorded outcome.
/// Resolution depends only on this content, never on previously recorded
/// outcomes.
#[verifier::ext_equal]
pub ghost struct SelectionContent {
    pub bucket_index: usize,
    pub ancillaries: Seq<usize>,
}

/// Mathematical content of a `Selection`.
#[verifier::ext_equal]
pub ghost struct SelectionModel {
    pub bucket_index: usize,
    pub ancillaries: Seq<usize>,
    pub state: Option<SelectionResultModel>,
}

/// `s` holds strictly increasing values: a sorted list with no duplicates,
/// the canonical representation of a finite set of indices.
pub open spec fn strictly_sorted(s: Seq<usize>) -> bool {
    forall|i: int, j: int| 0 <= i < j < s.len() ==> s[i] < s[j]
}

impl SelectionModel {
    pub open spec fn content(self) -> SelectionContent {
        SelectionContent { bucket_index: self.bucket_index, ancillaries: self.ancillaries }
    }

    /// The selection targets an existing bucket and lists existing
    /// ancillaries of that bucket, in canonical (strictly sorted) order.
    pub open spec fn valid(self, basis: BasisModel) -> bool {
        &&& self.bucket_index < basis.bucket_count()
        &&& strictly_sorted(self.ancillaries)
        &&& forall|i: int|
            0 <= i < self.ancillaries.len() ==> (#[trigger] self.ancillaries[i]) < basis.ancillary_count(
                self.bucket_index as int,
            )
    }
}

/// One requested pick: a bucket, the indices of the requested ancillaries of
/// that bucket (strictly sorted), and the outcome recorded for this pick by
/// the most recent resolution pass, if any.
#[derive(Debug)]
pub struct Selection {
    pub bucket_index: usize,
    pub ancillaries: Vec<usize>,
    pub state: Option<SelectionResult>,
}

impl View for Selection {
    type V = SelectionModel;

    open spec fn view(&self) -> SelectionModel {
        SelectionModel {
            bucket_index: self.bucket_index,
            ancillaries: self.ancillaries@,
            state: match self.state {
                Some(r) => Some(r@),
                None => None,
            },
        }
    }
}

impl Clone for Selection {
    fn clone(&self) -> (r: Self)
        ensures
            r@ == self@,
    {
        Selection {
            bucket_index: self.bucket_index,
            ancillaries: self.ancillaries.clone(),
            state: match &self.state {
                Some(r) => Some(r.clone()),
                None => None,
            },
        }
    }
}

/// Model of an optional selection outcome.
pub open spec fn opt_result_model(s: Option<SelectionResult>) -> Option<SelectionResultModel> {
    match s {
        Some(r) => Some(r@),
        None => None,
    }
}

/// Model of an optional stored selection.
pub open spec fn opt_selection_model(s: Option<Selection>) -> Option<SelectionModel> {
    match s {
        Some(sel) => Some(sel@),
        None => None,
    }
}

/// Every stored selection of every participant for every round, indexed as
/// `state[round][participant][pick]`. A `None` pick is an explicit "no
/// pick" placeholder.
#[derive(Debug)]
pub struct Selections {
    pub state: Vec<Vec<Vec<Option<Selection>>>>,
}

impl View for Selections {
    type V = Seq<Seq<Seq<Option<SelectionModel>>>>;

    open spec fn view(&self) -> Seq<Seq<Seq<Option<SelectionModel>>>> {
        Seq::new(
            self.state@.len(),
            |r: int|
                Seq::new(
                    self.state@[r]@.len(),
                    |p: int|
                        Seq::new(
                            self.state@[r]@[p]@.len(),
                            |k: int| opt_selection_model(self.state@[r]@[p]@[k]),
                        ),
                ),
        )
    }
}

/// The erased content of a full selection table: what resolution reads.
pub open spec fn selections_content(s: Seq<Seq<Seq<Option<SelectionModel>>>>) -> Seq<
    Seq<Seq<Option<SelectionContent>>>,
> {
    Seq::new(
        s.len(),
        |r: int|
            Seq::new(
                s[r].len(),
                |p: int|
                    Seq::new(
                        s[r][p].len(),
                        |k: int|
                            match s[r][p][k] {
                                Some(m) => Some(m.content()),
                                None => None,
                            },
                    ),
            ),
    )
}

/// The outcome table recorded in a full selection table: the per-pick
/// result of the most recent resolution pass.
pub open spec fn selections_results(s: Seq<Seq<Seq<Option<SelectionModel>>>>) -> Seq<
    Seq<Seq<Option<SelectionResultModel>>>,
> {
    Seq::new(
        s.len(),
        |r: int|
            Seq::new(
                s[r].len(),
                |p: int|
                    Seq::new(
                        s[r][p].len(),
                        |k: int|
                            match s[r][p][k] {
                                Some(m) => m.state,
                                None => None,
                            },
                    ),
            ),
    )
}

/// The selection table with every recorded outcome erased and every
/// request kept.
pub open spec fn spec_clear_results(s: Seq<Seq<Seq<Option<SelectionModel>>>>) -> Seq<
    Seq<Seq<Option<SelectionModel>>>,
> {
    Seq::new(
        s.len(),
        |r: int|
            Seq::new(
                s[r].len(),
                |p: int|
                    Seq::new(
                        s[r][p].len(),
                        |k: int|
                            match s[r][p][k] {
                                Some(m) => Some(
                                    SelectionModel {
                                        bucket_index: m.bucket_index,
                                        ancillaries: m.ancillaries,
                                        state: None,
                                    },
                                ),
                                None => None,
                            },
                    ),
            ),
    )
}

/// Dimensions and element validity of a selection table for `basis`.
pub open spec fn selections_wf(s: Seq<Seq<Seq<Option<SelectionModel>>>>, basis: BasisModel) -> bool {
    &&& s.len() == basis.round_count()
    &&& forall|r: int| 0 <= r < s.len() ==> (#[trigger] s[r]).len() == basis.participant_count()
    &&& forall|r: int, p: int|
        0 <= r < s.len() && 0 <= p < s[r].len() ==> (#[trigger] s[r][p]).len() == basis.picks_allowed(
            p,
            r,
        )
    &&& forall|r: int, p: int, k: int|
        0 <= r < s.len() && 0 <= p < s[r].len() && 0 <= k < s[r][p].len() && s[r][p][k] is Some ==> (
        #[trigger] s[r][p][k]).unwrap().valid(basis)
}

impl Selections {
    /// An empty selection table for `basis`: one placeholder row per
    /// (round, participant), sized to that participant's pick quota, with
    /// every pick `None`.
    pub fn new(basis: &BlockDivisionBasis) -> (r: Selections)
        requires
            basis@.wf(),
        ensures
            selections_wf(r@, basis@),
            forall|rr: int, p: int, k: int|
                0 <= rr < r@.len() && 0 <= p < r@[rr].len() && 0 <= k < r@[rr][p].len() ==> (
                #[trigger] r@[rr][p][k]) is None,
    {
        let round_count = basis.get_selection_rounds().len();
        let participant_count = basis.get_participant_definitions().len();
        let mut state: Vec<Vec<Vec<Option<Selection>>>> = Vec::new();
        for round in 0..round_count
            invariant
                basis@.wf(),
                round_count == basis@.round_count(),
                participant_count == basis@.participant_count(),
                state@.len() == round,
                forall|r: int| 0 <= r < round ==> (#[trigger] state@[r])@.len() == participant_count,
                forall|r: int, p: int|
                    0 <= r < round && 0 <= p < participant_count ==> (#[trigger] state@[r]@[p])@.len()
                        == basis@.picks_allowed(p, r),
                forall|r: int, p: int, k: int|
                    0 <= r < round && 0 <= p < participant_count && 0 <= k
                        < state@[r]@[p]@.len() ==> (#[trigger] state@[r]@[p]@[k]) is None,
        {
            let mut round_rows: Vec<Vec<Option<Selection>>> = Vec::new();
            for p in 0..participant_count
                invariant
                    basis@.wf(),
                    round < round_count,
                    round_count == basis@.round_count(),
                    participant_count == basis@.participant_count(),
                    round_rows@.len() == p,
                    forall|q: int|
                        0 <= q < p ==> (#[trigger] round_rows@[q])@.len() == basis@.picks_allowed(
                            q,
                            round as int,
                        ),
                    forall|q: int, k: int|
                        0 <= q < p && 0 <= k < round_rows@[q]@.len() ==> (
                        #[trigger] round_rows@[q]@[k]) is None,
            {
                let quota = basis.get_participant_definitions()[p].round_picks_allowed[round];
                let mut row: Vec<Option<Selection>> = Vec::new();
                for k in 0..quota
                    invariant
                        row@.len() == k,
                        forall|j: int| 0 <= j < k ==> (#[trigger] row@[j]) is None,
                {
                    row.push(None);
                }
                round_rows.push(row);
            }
            state.push(round_rows);
        }
        let r = Selections { state };
        proof {
            assert forall|rr: int, p: int|
                0 <= rr < r@.len() && 0 <= p < r@[rr].len() implies (#[trigger] r@[rr][p]).len()
                == basis@.picks_allowed(p, rr) by {}
        }
        r
    }

    /// The stored rows for one round, if the round exists.
    pub fn get(&self, round: usize) -> (r: Option<&Vec<Vec<Option<Selection>>>>)
        ensures
            match r {
                Some(v) => {
                    &&& round < self@.len()
                    &&& v@.len() == self@[round as int].len()
                    &&& forall|p: int|
                        0 <= p < v@.len() ==> (#[trigger] v@[p])@.len() == self@[round as int][p].len()
                    &&& forall|p: int, k: int|
                        0 <= p < v@.len() && 0 <= k < v@[p]@.len() ==> opt_selection_model(
                            #[trigger] v@[p]@[k],
                        ) == self@[round as int][p][k]
                },
                None => round >= self@.len(),
            },
    {
        if round < self.state.len() {
            Some(&self.state[round])
        } else {
            None
        }
    }

    /// Erases every recorded outcome, keeping every stored request: the
    /// first step of a resolution pass, which recomputes all outcomes.
    pub fn clear_results(&mut self)
        ensures
            final(self)@ == spec_clear_results(old(self)@),
    {
        let round_count = self.state.len();
        for r in 0..round_count
            invariant
                round_count == self.state@.len(),
                self@.len() == old(self)@.len(),
                forall|rr: int| 0 <= rr < r ==> (#[trigger] self@[rr]) == spec_clear_results(old(self)@)[rr],
                forall|rr: int| r <= rr < self@.len() ==> (#[trigger] self@[rr]) == old(self)@[rr],
        {
            let participant_count = self.state[r].len();
            for p in 0..participant_count
                invariant
                    r < round_count,
                    round_count == self.state@.len(),
                    participant_count == self.state@[r as int]@.len(),
                    self@.len() == old(self)@.len(),
                    forall|rr: int|
                        0 <= rr < r ==> (#[trigger] self@[rr]) == spec_clear_results(
                            old(self)@,
                        )[rr],
                    forall|rr: int| r < rr < self@.len() ==> (#[trigger] self@[rr]) == old(self)@[rr],
                    self@[r as int].len() == old(self)@[r as int].len(),
                    forall|pp: int|
                        0 <= pp < p ==> (#[trigger] self@[r as int][pp]) == spec_clear_results(
                            old(self)@,
                        )[r as int][pp],
                    forall|pp: int|
                        p <= pp < self@[r as int].len() ==> (#[trigger] self@[r as int][pp]) == old(
                            self,
                        )@[r as int][pp],
            {
                let quota = self.state[r][p].len();
                for k in 0..quota
                    invariant
                        r < round_count,
                        p < participant_count,
                        round_count == self.state@.len(),
                        participant_count == self.state@[r as int]@.len(),
                        quota == self.state@[r as int]@[p as int]@.len(),
                        self@.len() == old(self)@.len(),
                        forall|rr: int|
                            0 <= rr < r ==> (#[trigger] self@[rr]) == spec_clear_results(
                                old(self)@,
                            )[rr],
                        forall|rr: int|
                            r < rr < self@.len() ==> (#[trigger] self@[rr]) == old(self)@[rr],
                        self@[r as int].len() == old(self)@[r as int].len(),
                        forall|pp: int|
                            0 <= pp < p ==> (#[trigger] self@[r as int][pp]) == spec_clear_results(
                                old(self)@,
                            )[r as int][pp],
                        forall|pp: int|
                            p < pp < self@[r as int].len() ==> (#[trigger] self@[r as int][pp])
                                == old(self)@[r as int][pp],
                        self@[r as int][p as int].len() == old(self)@[r as int][p as int].len(),
                        forall|kk: int|
                            0 <= kk < k ==> (#[trigger] self@[r as int][p as int][kk])
                                == spec_clear_results(old(self)@)[r as int][p as int][kk],
                        forall|kk: int|
                            k <= kk < self@[r as int][p as int].len() ==> (
                            #[trigger] self@[r as int][p as int][kk]) == old(
                                self,
                            )@[r as int][p as int][kk],
                {
                    let replacement: Option<Selection> = match &self.state[r][p][k] {
                        Some(sel) => Some(
                            Selection {
                                bucket_index: sel.bucket_index,
                                ancillaries: sel.ancillaries.clone(),
                                state: None,
                            },
                        ),
                        None => None,
                    };
                    let ghost prev = self@;
                    self.state[r][p][k] = replacement;
                    proof {
                        let ri = r as int;
                        let pi = p as int;
                        let ki = k as int;
                        assert(self@[ri][pi] =~= prev[ri][pi].update(
                            ki,
                            self@[ri][pi][ki],
                        ));
                        assert(self@[ri] =~= prev[ri].update(pi, self@[ri][pi]));
                        assert(self@ =~= prev.update(ri, self@[ri]));
                        if prev[ri][pi][ki] is Some {
                            let m = prev[ri][pi][ki].unwrap();
                            let newm = self@[ri][pi][ki].unwrap();
                            assert(newm.ancillaries =~= m.ancillaries);
                            assert(newm =~= SelectionModel {
                                bucket_index: m.bucket_index,
                                ancillaries: m.ancillaries,
                                state: None,
                            });
                        }
                        assert(self@[ri][pi][ki] == spec_clear_results(old(self)@)[ri][pi][ki]);
                    }
                }
            }
        }
        proof {
            assert(self@ =~= spec_clear_results(old(self)@));
        }
    }

    /// Replaces one participant's row for one round; everything else is
    /// untouched.
    pub fn set(&mut self, round: usize, participant: usize, selections: Vec<Option<Selection>>)
        requires
            round < old(self)@.len(),
            participant < old(self)@[round as int].len(),
        ensures
            final(self)@ == old(self)@.update(
                round as int,
                old(self)@[round as int].update(
                    participant as int,
                    Seq::new(
                        selections@.len(),
                        |k: int| opt_selection_model(selections@[k]),
                    ),
                ),
            ),
    {
        let ghost sel_row = Seq::new(selections@.len(), |k: int| opt_selection_model(selections@[k]));
        self.state[round][participant] = selections;
        proof {
            assert(self@ =~~= old(self)@.update(
                round as int,
                old(self)@[round as int].update(participant as int, sel_row),
            ));
        }
    }
}

} // verus!
