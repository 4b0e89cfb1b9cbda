//! The mutable state of one division: basis, rank tables, stored
//! selections, committed designations, and the round gate.

use vstd::prelude::*;

use crate::basis::BasisModel;
use crate::basis::BlockDivisionBasis;
use crate::basis::DivisionError;
use crate::bucket::BucketState;
use crate::bucket::BucketStateModel;
use crate::bucket::RoundStates;
use crate::random::random_below;
use crate::resolve::buckets_wf;
use crate::resolve::content_wf;
use crate::resolve::entry_in_table;
use crate::resolve::gather_participants;
use crate::resolve::gather_picks;
use crate::resolve::gather_rounds;
use crate::resolve::insert_by_rank;
use crate::resolve::lemma_gather_valid;
use crate::resolve::lemma_insert_by_rank_splice;
use crate::resolve::lemma_sort_by_rank;
use crate::resolve::lemma_sort_elements;
use crate::resolve::lemma_sort_step;
use crate::resolve::record_result;
use crate::resolve::sorted_by_rank;
use crate::resolve::spec_apply;
use crate::resolve::spec_attempt;
use crate::resolve::spec_cleared;
use crate::resolve::spec_gather;
use crate::resolve::spec_no_results;
use crate::resolve::spec_resolve;
use crate::resolve::spec_slots_available;
use crate::resolve::spec_sort_by_rank;
use crate::resolve::spec_used_before;
use crate::resolve::EntryModel;
use crate::resolve::ResolutionModel;
use crate::selections::selections_content;
use crate::selections::selections_results;
use crate::selections::selections_wf;
use crate::selections::SelectionContent;
use crate::selections::Selection;
use crate::selections::SelectionModel;
use crate::selections::SelectionResult;
use crate::selections::Selections;
use crate::sequences::insert_sorted_vec;
use crate::sequences::vec_contains;

verus! {

/// Mathematical content of a `BlockDivisionState`.
#[verifier::ext_equal]
pub ghost struct StateModel {
    pub basis: BasisModel,
    pub buckets: Seq<Seq<BucketStateModel>>,
    pub selections: Seq<Seq<Seq<Option<SelectionModel>>>>,
    pub current_open_round: Option<usize>,
}

impl StateModel {
    /// Structural well-formedness of a whole division state.
    pub open spec fn wf(self) -> bool {
        &&& self.basis.wf()
        &&& buckets_wf(self.basis, self.buckets)
        &&& selections_wf(self.selections, self.basis)
        &&& match self.current_open_round {
            Some(r) => (r as int) < self.basis.round_count(),
            None => true,
        }
    }

    /// No rank table is censored: the authoritative state the resolver
    /// works on.
    pub open spec fn ranks_complete(self) -> bool {
        crate::resolve::ranks_complete(self.buckets)
    }

    /// The stored selection contents, stripped of recorded outcomes.
    pub open spec fn content(self) -> Seq<Seq<Seq<Option<crate::selections::SelectionContent>>>> {
        crate::selections::selections_content(self.selections)
    }
}

/// The full state of one division. Created once from a basis (which draws
/// the rank tables), then mutated only through selection submission and the
/// round gate; designations are recomputed from scratch on every selection
/// write.
#[derive(Debug)]
pub struct BlockDivisionState {
    pub basis: BlockDivisionBasis,
    pub bucket_states: Vec<RoundStates>,
    pub selections: Selections,
    pub current_open_round: Option<usize>,
}

impl View for BlockDivisionState {
    type V = StateModel;

    open spec fn view(&self) -> StateModel {
        StateModel {
            basis: self.basis@,
            buckets: Seq::new(self.bucket_states@.len(), |b: int| self.bucket_states@[b]@),
            selections: self.selections@,
            current_open_round: self.current_open_round,
        }
    }
}

/// One work item of a resolution pass: a stored pick annotated with the
/// participant's rank for the pick's (round, bucket) cell.
struct SelectionInstance {
    rank: usize,
    round: usize,
    participant: usize,
    pick: usize,
    bucket: usize,
    ancillaries: Vec<usize>,
}

spec fn instance_model(s: SelectionInstance) -> crate::resolve::EntryModel {
    crate::resolve::EntryModel {
        rank: s.rank,
        round: s.round,
        participant: s.participant,
        pick: s.pick,
        bucket: s.bucket,
        ancillaries: s.ancillaries@,
    }
}

spec fn instances_model(v: Seq<SelectionInstance>) -> Seq<crate::resolve::EntryModel> {
    Seq::new(v.len(), |i: int| instance_model(v[i]))
}

/// The picks of one submission, as models.
pub open spec fn rows_model(v: Seq<Option<Selection>>) -> Seq<Option<SelectionModel>> {
    Seq::new(v.len(), |k: int| crate::selections::opt_selection_model(v[k]))
}

/// The canonical stored form of a submission: each pick's ancillaries in
/// sorted-set form, recorded outcomes erased.
pub open spec fn normalized_rows(rows: Seq<Option<SelectionModel>>) -> Seq<Option<SelectionModel>> {
    Seq::new(
        rows.len(),
        |k: int|
            match rows[k] {
                Some(m) => Some(
                    SelectionModel {
                        bucket_index: m.bucket_index,
                        ancillaries: crate::sequences::sorted_set_of(m.ancillaries),
                        state: None,
                    },
                ),
                None => None,
            },
    )
}

/// The content a submission stores: the canonical form of its requests.
pub open spec fn normalized_content_row(rows: Seq<Option<SelectionModel>>) -> Seq<
    Option<SelectionContent>,
> {
    Seq::new(
        rows.len(),
        |k: int|
            match rows[k] {
                Some(m) => Some(
                    SelectionContent {
                        bucket_index: m.bucket_index,
                        ancillaries: crate::sequences::sorted_set_of(m.ancillaries),
                    },
                ),
                None => None,
            },
    )
}

/// The first structural error among the first `upto` picks of a
/// submission: an unknown bucket, or an unknown ancillary of a known
/// bucket, in pick order.
pub open spec fn spec_rows_check(
    basis: BasisModel,
    rows: Seq<Option<SelectionModel>>,
    upto: int,
) -> Option<DivisionError>
    decreases upto,
{
    if upto <= 0 {
        None
    } else {
        match spec_rows_check(basis, rows, upto - 1) {
            Some(e) => Some(e),
            None => match rows[upto - 1] {
                None => None,
                Some(s) => if (s.bucket_index as int) >= basis.bucket_count() {
                    Some(DivisionError::UnknownBucket)
                } else if exists|j: int|
                    0 <= j < s.ancillaries.len() && (#[trigger] s.ancillaries[j]) as int
                        >= basis.ancillary_count(s.bucket_index as int) {
                    Some(DivisionError::UnknownAncillary)
                } else {
                    None
                },
            },
        }
    }
}

/// Once a pick fails the structural check, later picks cannot change the
/// reported error.
pub proof fn lemma_rows_check_stable(
    basis: BasisModel,
    rows: Seq<Option<SelectionModel>>,
    u1: int,
    u2: int,
)
    requires
        u1 <= u2,
        spec_rows_check(basis, rows, u1) is Some,
    ensures
        spec_rows_check(basis, rows, u2) == spec_rows_check(basis, rows, u1),
    decreases u2 - u1,
{
    if u1 < u2 {
        lemma_rows_check_stable(basis, rows, u1, u2 - 1);
    }
}

/// A submission that passes the structural check references only existing
/// buckets and ancillaries, in every pick.
pub proof fn lemma_rows_check_clean(basis: BasisModel, rows: Seq<Option<SelectionModel>>, k: int)
    requires
        spec_rows_check(basis, rows, rows.len() as int) is None,
        0 <= k < rows.len(),
        rows[k] is Some,
    ensures
        (rows[k].unwrap().bucket_index as int) < basis.bucket_count(),
        forall|j: int|
            0 <= j < rows[k].unwrap().ancillaries.len() ==> (
            #[trigger] rows[k].unwrap().ancillaries[j]) < basis.ancillary_count(
                rows[k].unwrap().bucket_index as int,
            ),
{
    if spec_rows_check(basis, rows, k + 1) is Some {
        lemma_rows_check_stable(basis, rows, k + 1, rows.len() as int);
    }
}

/// The full structural check of a submission: the round gate, the
/// participant, the pick count, then each pick's references.
pub open spec fn spec_submit_check(
    m: StateModel,
    participant: usize,
    rows: Seq<Option<SelectionModel>>,
) -> Option<DivisionError> {
    match m.current_open_round {
        None => Some(DivisionError::RoundClosed),
        Some(r) => if (participant as int) >= m.basis.participant_count() {
            Some(DivisionError::UnknownParticipant)
        } else if rows.len() != m.basis.picks_allowed(participant as int, r as int) {
            Some(DivisionError::InvalidPickCount)
        } else {
            spec_rows_check(m.basis, rows, rows.len() as int)
        },
    }
}

/// The content table after a submission by `participant` for round `r` is
/// stored.
pub open spec fn spec_submitted_content(
    m: StateModel,
    r: int,
    participant: int,
    rows: Seq<Option<SelectionModel>>,
) -> Seq<Seq<Seq<Option<SelectionContent>>>> {
    m.content().update(r, m.content()[r].update(participant, normalized_content_row(rows)))
}

/// Draws a uniformly random permutation of the ranks `0..n` by repeatedly
/// drawing without replacement from the ranks not yet assigned.
fn random_permutation(n: usize) -> (r: Vec<usize>)
    requires
        n >= 1,
    ensures
        crate::bucket::is_rank_permutation(r@, n as nat),
{
    let mut avail: Vec<usize> = Vec::new();
    for i in 0..n
        invariant
            avail@.len() == i,
            forall|j: int| 0 <= j < i ==> #[trigger] avail@[j] == j,
    {
        avail.push(i);
    }
    let mut out: Vec<usize> = Vec::new();
    for p in 0..n
        invariant
            avail@.len() == n - p,
            out@.len() == p,
            crate::selections::strictly_sorted(avail@),
            forall|j: int| 0 <= j < avail@.len() ==> (#[trigger] avail@[j]) < n,
            forall|j: int| 0 <= j < out@.len() ==> (#[trigger] out@[j]) < n,
            forall|j1: int, j2: int| 0 <= j1 < j2 < out@.len() ==> out@[j1] != out@[j2],
            forall|j1: int, j2: int|
                0 <= j1 < out@.len() && 0 <= j2 < avail@.len() ==> out@[j1] != avail@[j2],
    {
        let ghost avail0 = avail@;
        let idx = random_below(avail.len());
        let v = avail.remove(idx);
        proof {
            avail0.remove_ensures(idx as int);
        }
        out.push(v);
    }
    out
}

impl BlockDivisionState {
    /// Draws the rank tables: one fresh permutation of `0..participants`
    /// per (round, bucket), replacing whatever was there. Called exactly
    /// once, at division creation; ranks are never regenerated afterwards.
    fn generate_ranks(&mut self)
        requires
            old(self)@.wf(),
        ensures
            final(self)@.wf(),
            final(self)@.ranks_complete(),
            final(self).basis == old(self).basis,
            final(self).selections == old(self).selections,
            final(self).current_open_round == old(self).current_open_round,
            final(self)@.buckets.len() == old(self)@.buckets.len(),
            forall|b: int|
                0 <= b < old(self)@.buckets.len() ==> (#[trigger] final(self)@.buckets[b]).len()
                    == old(self)@.buckets[b].len(),
            forall|b: int, r: int|
                0 <= b < old(self)@.buckets.len() && 0 <= r < old(self)@.buckets[b].len() ==> (
                #[trigger] final(self)@.buckets[b][r]).designations == old(
                    self,
                )@.buckets[b][r].designations && final(self)@.buckets[b][r].ancillary_designations
                    == old(self)@.buckets[b][r].ancillary_designations,
    {
        let n = self.basis.get_participant_definitions().len();
        let bucket_count = self.bucket_states.len();
        for b in 0..bucket_count
            invariant
                self@.wf(),
                n == self@.basis.participant_count(),
                bucket_count == self.bucket_states@.len(),
                self.basis == old(self).basis,
                self.selections == old(self).selections,
                self.current_open_round == old(self).current_open_round,
                self@.buckets.len() == old(self)@.buckets.len(),
                forall|bb: int|
                    0 <= bb < old(self)@.buckets.len() ==> (#[trigger] self@.buckets[bb]).len()
                        == old(self)@.buckets[bb].len(),
                forall|bb: int, r: int|
                    0 <= bb < old(self)@.buckets.len() && 0 <= r < old(self)@.buckets[bb].len()
                        ==> (#[trigger] self@.buckets[bb][r]).designations == old(
                        self,
                    )@.buckets[bb][r].designations
                        && self@.buckets[bb][r].ancillary_designations == old(
                        self,
                    )@.buckets[bb][r].ancillary_designations,
                forall|bb: int, r: int|
                    0 <= bb < b && 0 <= r < old(self)@.buckets[bb].len() ==> (
                    #[trigger] self@.buckets[bb][r]).ranks is Some,
        {
            let round_count = self.bucket_states[b].round_states.len();
            for r in 0..round_count
                invariant
                    self@.wf(),
                    n == self@.basis.participant_count(),
                    n >= 1,
                    b < self.bucket_states@.len(),
                    bucket_count == self.bucket_states@.len(),
                    round_count == self.bucket_states@[b as int]@.len(),
                    self.basis == old(self).basis,
                    self.selections == old(self).selections,
                    self.current_open_round == old(self).current_open_round,
                    self@.buckets.len() == old(self)@.buckets.len(),
                    forall|bb: int|
                        0 <= bb < old(self)@.buckets.len() ==> (#[trigger] self@.buckets[bb]).len()
                            == old(self)@.buckets[bb].len(),
                    forall|bb: int, rr: int|
                        0 <= bb < old(self)@.buckets.len() && 0 <= rr < old(
                            self,
                        )@.buckets[bb].len() ==> (#[trigger] self@.buckets[bb][rr]).designations
                            == old(self)@.buckets[bb][rr].designations
                            && self@.buckets[bb][rr].ancillary_designations == old(
                            self,
                        )@.buckets[bb][rr].ancillary_designations,
                    forall|bb: int, rr: int|
                        0 <= bb < b && 0 <= rr < old(self)@.buckets[bb].len() ==> (
                        #[trigger] self@.buckets[bb][rr]).ranks is Some,
                    forall|rr: int|
                        0 <= rr < r ==> (#[trigger] self@.buckets[b as int][rr]).ranks is Some,
            {
                let perm = random_permutation(n);
                let ghost prev = self@;
                self.bucket_states[b].round_states[r].ranks = Some(perm);
                proof {
                    let bi = b as int;
                    let ri = r as int;
                    let newcell = BucketStateModel {
                        designations: prev.buckets[bi][ri].designations,
                        ancillary_designations: prev.buckets[bi][ri].ancillary_designations,
                        ranks: Some(perm@),
                    };
                    assert(self@.buckets[bi] =~= prev.buckets[bi].update(ri, newcell));
                    assert(self@.buckets =~= prev.buckets.update(
                        bi,
                        prev.buckets[bi].update(ri, newcell),
                    ));
                    assert(newcell.wf(
                        self@.basis.participant_count(),
                        self@.basis.ancillary_count(bi),
                        self@.basis.capacity(bi),
                    ));
                }
            }
        }
    }

    /// Creates the full state of a fresh division from its basis: empty
    /// designations and selections, no open round, and newly drawn rank
    /// tables.
    pub fn new(basis: &BlockDivisionBasis) -> (r: BlockDivisionState)
        requires
            basis@.wf(),
        ensures
            r@.wf(),
            r@.ranks_complete(),
            r@.basis == basis@,
            r@.current_open_round is None,
            forall|b: int, rr: int|
                0 <= b < r@.buckets.len() && 0 <= rr < r@.buckets[b].len() ==> (
                #[trigger] r@.buckets[b][rr]).designations == Seq::<usize>::empty() && (forall|
                    a: int,
                |
                    0 <= a < r@.buckets[b][rr].ancillary_designations.len() ==> (
                    #[trigger] r@.buckets[b][rr].ancillary_designations[a]) is None),
            forall|rr: int, p: int, k: int|
                0 <= rr < r@.selections.len() && 0 <= p < r@.selections[rr].len() && 0 <= k
                    < r@.selections[rr][p].len() ==> (#[trigger] r@.selections[rr][p][k]) is None,
    {
        let bucket_count = basis.get_bucket_definitions().len();
        let mut bucket_states: Vec<RoundStates> = Vec::new();
        for b in 0..bucket_count
            invariant
                basis@.wf(),
                bucket_count == basis@.bucket_count(),
                bucket_states@.len() == b,
                forall|bb: int|
                    0 <= bb < b ==> (#[trigger] bucket_states@[bb])@.len() == basis@.round_count(),
                forall|bb: int, rr: int|
                    0 <= bb < b && 0 <= rr < bucket_states@[bb]@.len() ==> (
                    #[trigger] bucket_states@[bb]@[rr]).designations == Seq::<usize>::empty()
                        && bucket_states@[bb]@[rr].ancillary_designations.len()
                        == basis@.ancillary_count(bb) && (forall|a: int|
                        0 <= a < bucket_states@[bb]@[rr].ancillary_designations.len() ==> (
                        #[trigger] bucket_states@[bb]@[rr].ancillary_designations[a]) is None)
                        && bucket_states@[bb]@[rr].ranks is None,
        {
            bucket_states.push(RoundStates::new(basis, b));
        }
        let selections = Selections::new(basis);
        let mut r = BlockDivisionState {
            basis: basis.clone(),
            bucket_states,
            selections,
            current_open_round: None,
        };
        proof {
            assert(r@.wf());
        }
        r.generate_ranks();
        r
    }
}

impl BlockDivisionState {
    pub fn get_basis(&self) -> (r: &BlockDivisionBasis)
        ensures
            r@ == self@.basis,
    {
        &self.basis
    }

    pub fn get_current_open_round(&self) -> (r: &Option<usize>)
        ensures
            *r == self@.current_open_round,
    {
        &self.current_open_round
    }

    /// Mutable access to the per-bucket round states.
    pub fn get_bucket_states_mut(&mut self) -> (r: &mut Vec<RoundStates>)
        ensures
            *r == old(self).bucket_states,
            final(self).bucket_states == *final(r),
            final(self).basis == old(self).basis,
            final(self).selections == old(self).selections,
            final(self).current_open_round == old(self).current_open_round,
    {
        &mut self.bucket_states
    }

    /// The number of selection rounds of this division.
    pub fn round_count(&self) -> (r: usize)
        ensures
            r == self@.basis.round_count(),
    {
        self.basis.get_selection_rounds().len()
    }

    /// Opens round `round_index` for submissions (closing any other), or
    /// closes all submission with `None`. Rejects an out-of-bounds index
    /// and changes nothing else.
    pub fn set_open_round(&mut self, round_index: Option<usize>) -> (r: Result<(), DivisionError>)
        ensures
            final(self).basis == old(self).basis,
            final(self).bucket_states == old(self).bucket_states,
            final(self).selections == old(self).selections,
            match round_index {
                Some(i) => if (i as int) < old(self)@.basis.round_count() {
                    r is Ok && final(self).current_open_round == Some(i)
                } else {
                    r == Result::<(), DivisionError>::Err(DivisionError::InvalidRoundIndex)
                        && final(self).current_open_round == old(self).current_open_round
                },
                None => r is Ok && final(self).current_open_round is None,
            },
    {
        match round_index {
            Some(i) => {
                if i < self.basis.get_selection_rounds().len() {
                    self.current_open_round = Some(i);
                    Ok(())
                } else {
                    Err(DivisionError::InvalidRoundIndex)
                }
            },
            None => {
                self.current_open_round = None;
                Ok(())
            },
        }
    }

    /// The capacity of `bucket_index` still unconsumed when `current_round`
    /// begins: the bucket's capacity minus the designations committed in
    /// every round strictly before it (never negative).
    pub fn slots_available_this_round(&self, bucket_index: usize, current_round: usize) -> (r:
        usize)
        requires
            self@.wf(),
            (bucket_index as int) < self@.basis.bucket_count(),
            (current_round as int) < self@.basis.round_count(),
        ensures
            r as int == spec_slots_available(
                self@.basis.capacity(bucket_index as int),
                self@.buckets[bucket_index as int],
                current_round as int,
            ),
    {
        let cap = self.basis.get_bucket_definitions()[bucket_index].available_slots;
        let ghost rounds_b = self@.buckets[bucket_index as int];
        let mut used: usize = 0;
        for rr in 0..current_round
            invariant
                self@.wf(),
                (bucket_index as int) < self@.basis.bucket_count(),
                (current_round as int) < self@.basis.round_count(),
                cap == self@.basis.capacity(bucket_index as int),
                rounds_b == self@.buckets[bucket_index as int],
                used == spec_used_before(rounds_b, rr as int),
                used <= cap,
        {
            let len = self.bucket_states[bucket_index].round_states[rr].designations.len();
            proof {
                assert(len == rounds_b[rr as int].designations.len());
            }
            if len >= cap - used {
                proof {
                    crate::resolve::lemma_used_before_mono(
                        rounds_b,
                        rr + 1,
                        current_round as int,
                    );
                }
                return 0;
            }
            used = used + len;
        }
        cap - used
    }

    /// Attempts to commit one pick of `participant` in `round`, following
    /// the resolver's rule: the ancillary check first, then the cumulative
    /// capacity check, then winner selection among the round's current
    /// designees plus the participant. Changes at most the targeted
    /// (bucket, round) cell; stored selections and the round gate are never
    /// touched.
    pub fn attempt_selection(&mut self, round: usize, participant: usize, selection: &Selection) -> (res: SelectionResult)
        requires
            old(self)@.wf(),
            old(self)@.ranks_complete(),
            (round as int) < old(self)@.basis.round_count(),
            (participant as int) < old(self)@.basis.participant_count(),
            selection@.valid(old(self)@.basis),
        ensures
            final(self)@.wf(),
            final(self)@.ranks_complete(),
            final(self).basis == old(self).basis,
            final(self).selections == old(self).selections,
            final(self).current_open_round == old(self).current_open_round,
            final(self)@.buckets == spec_attempt(
                old(self)@.basis,
                old(self)@.buckets,
                round as int,
                participant,
                selection@.content(),
            ).buckets,
            res@ == spec_attempt(
                old(self)@.basis,
                old(self)@.buckets,
                round as int,
                participant,
                selection@.content(),
            ).result,
    {
        let ghost basis_m = self@.basis;
        let ghost bks0 = self@.buckets;
        let ghost c = selection@.content();
        let b = selection.bucket_index;
        let ghost rounds_b = bks0[b as int];
        let ghost n = basis_m.participant_count();
        proof {
            crate::resolve::lemma_attempt_wf(basis_m, bks0, round as int, participant, c);
        }
        // Ancillary check: collect every requested ancillary the
        // participant would lose.
        let mut bad: Vec<usize> = Vec::new();
        let n_anc = selection.ancillaries.len();
        for i in 0..n_anc
            invariant
                *self == *old(self),
                self@.wf(),
                self@.ranks_complete(),
                basis_m == self@.basis,
                bks0 == self@.buckets,
                rounds_b == bks0[b as int],
                n == basis_m.participant_count(),
                c == selection@.content(),
                b == selection.bucket_index,
                n_anc == selection.ancillaries@.len(),
                (round as int) < basis_m.round_count(),
                (participant as int) < basis_m.participant_count(),
                selection@.valid(basis_m),
                bad@ == crate::resolve::spec_bad_ancillaries(
                    rounds_b,
                    round as int,
                    participant,
                    c.ancillaries,
                    i as int,
                ),
        {
            let a = selection.ancillaries[i];
            proof {
                assert(c.ancillaries[i as int] == a);
                assert((a as int) < basis_m.ancillary_count(b as int));
                assert forall|j: int| 0 <= j < self.bucket_states@[b as int]@.len() implies a < (
                #[trigger] self.bucket_states@[b as int]@[j]).ancillary_designations.len() by {
                    assert(self@.buckets[b as int][j].wf(
                        n,
                        basis_m.ancillary_count(b as int),
                        basis_m.capacity(b as int),
                    ));
                }
            }
            let avail = self.bucket_states[b].ancillary_designation_is_available_for_this_round(
                round,
                a,
                participant,
            );
            let mut lose = !avail;
            proof {
                assert(self@.buckets[b as int][round as int].wf(
                    n,
                    basis_m.ancillary_count(b as int),
                    basis_m.capacity(b as int),
                ));
            }
            match self.bucket_states[b].round_states[round].ancillary_designations[a] {
                Some(q) => {
                    if !self.bucket_states[b].round_states[round].is_winner(participant, q) {
                        lose = true;
                    }
                },
                None => {},
            }
            proof {
                assert(lose == crate::resolve::spec_ancillary_lost(
                    rounds_b,
                    round as int,
                    participant,
                    a,
                ));
            }
            if lose {
                bad.push(a);
            }
        }
        if bad.len() > 0 {
            return SelectionResult::RejectedAncillaryUnavailable(bad);
        }
        // Capacity check: rounds before this one deplete the bucket.
        let slots = self.slots_available_this_round(b, round);
        if slots == 0 {
            return SelectionResult::RejectedNoCapacity;
        }
        // Winner selection among the current designees plus the participant.
        proof {
            assert(self@.buckets[b as int][round as int].wf(
                n,
                basis_m.ancillary_count(b as int),
                basis_m.capacity(b as int),
            ));
            crate::sequences::lemma_insert_sorted(
                rounds_b[round as int].designations,
                participant,
            );
        }
        let candidates = insert_sorted_vec(
            &self.bucket_states[b].round_states[round].designations,
            participant,
        );
        proof {
            assert forall|i: int| 0 <= i < candidates@.len() implies (#[trigger] candidates@[i])
                < self@.buckets[b as int][round as int].ranks.unwrap().len() by {
                assert(candidates@.contains(candidates@[i]));
                let ds = rounds_b[round as int].designations;
                if ds.contains(candidates@[i]) {
                    let w = choose|w: int| 0 <= w < ds.len() && ds[w] == candidates@[i];
                }
            }
        }
        let winners = self.bucket_states[b].round_states[round].get_winners(&candidates, slots);
        if vec_contains(&winners, participant) {
            // Commit: the winners become the round's designations and the
            // participant takes every requested ancillary.
            let ghost wins = winners@;
            let ghost cell0 = rounds_b[round as int];
            self.bucket_states[b].round_states[round].designations = winners;
            proof {
                let cell1 = BucketStateModel {
                    designations: wins,
                    ancillary_designations: cell0.ancillary_designations,
                    ranks: cell0.ranks,
                };
                assert(self@.buckets[b as int] =~= rounds_b.update(round as int, cell1));
                assert(self@.buckets =~= bks0.update(
                    b as int,
                    rounds_b.update(round as int, cell1),
                ));
            }
            let anc_total = self.bucket_states[b].round_states[round].ancillary_designations.len();
            proof {
                assert(anc_total == cell0.ancillary_designations.len());
                assert(Seq::new(
                    cell0.ancillary_designations.len(),
                    |aa: int|
                        if c.ancillaries.subrange(0, 0).contains(aa as usize) {
                            Some(participant)
                        } else {
                            cell0.ancillary_designations[aa]
                        },
                ) =~= cell0.ancillary_designations);
                assert(self@.buckets =~~= bks0.update(
                    b as int,
                    rounds_b.update(
                        round as int,
                        BucketStateModel {
                            designations: wins,
                            ancillary_designations: Seq::new(
                                cell0.ancillary_designations.len(),
                                |aa: int|
                                    if c.ancillaries.subrange(0, 0).contains(aa as usize) {
                                        Some(participant)
                                    } else {
                                        cell0.ancillary_designations[aa]
                                    },
                            ),
                            ranks: cell0.ranks,
                        },
                    ),
                ));
            }
            for i in 0..n_anc
                invariant
                    anc_total == cell0.ancillary_designations.len(),
                    basis_m == self@.basis,
                    self.basis == old(self).basis,
                    self.selections == old(self).selections,
                    self.current_open_round == old(self).current_open_round,
                    c == selection@.content(),
                    b == selection.bucket_index,
                    n_anc == selection.ancillaries@.len(),
                    (b as int) < bks0.len(),
                    bks0[b as int] == rounds_b,
                    (round as int) < rounds_b.len(),
                    selection@.valid(basis_m),
                    basis_m.wf(),
                    buckets_wf(basis_m, bks0),
                    cell0 == rounds_b[round as int],
                    self@.buckets =~~= bks0.update(
                        b as int,
                        rounds_b.update(
                            round as int,
                            BucketStateModel {
                                designations: wins,
                                ancillary_designations: Seq::new(
                                    cell0.ancillary_designations.len(),
                                    |a: int|
                                        if c.ancillaries.subrange(0, i as int).contains(a as usize) {
                                            Some(participant)
                                        } else {
                                            cell0.ancillary_designations[a]
                                        },
                                ),
                                ranks: cell0.ranks,
                            },
                        ),
                    ),
            {
                let a = selection.ancillaries[i];
                let ghost prev = self@;
                proof {
                    assert(c.ancillaries[i as int] == a);
                    assert((a as int) < basis_m.ancillary_count(b as int));
                    assert((a as int) < cell0.ancillary_designations.len());
                    assert(self@.buckets.len() == bks0.len());
                    assert(self.bucket_states@.len() == self@.buckets.len());
                    assert((b as int) < self.bucket_states@.len());
                    assert(self@.buckets[b as int].len() == rounds_b.len());
                    assert(self.bucket_states@[b as int]@.len() == self@.buckets[b as int].len());
                    assert((round as int) < rounds_b.len());
                    assert(self@.buckets[b as int][round as int].ancillary_designations.len()
                        == cell0.ancillary_designations.len());
                    assert(self.bucket_states@[b as int]@[round as int].ancillary_designations.len()
                        == cell0.ancillary_designations.len());
                }
                self.bucket_states[b].round_states[round].ancillary_designations[a] = Some(
                    participant,
                );
                proof {
                    let cell_prev = prev.buckets[b as int][round as int];
                    let cell_next = BucketStateModel {
                        designations: cell_prev.designations,
                        ancillary_designations: cell_prev.ancillary_designations.update(
                            a as int,
                            Some(participant),
                        ),
                        ranks: cell_prev.ranks,
                    };
                    assert(self@.buckets[b as int] =~= prev.buckets[b as int].update(
                        round as int,
                        cell_next,
                    ));
                    assert(self@.buckets =~= prev.buckets.update(
                        b as int,
                        prev.buckets[b as int].update(round as int, cell_next),
                    ));
                    assert(cell_next.ancillary_designations =~= Seq::new(
                        cell0.ancillary_designations.len(),
                        |aa: int|
                            if c.ancillaries.subrange(0, i + 1).contains(aa as usize) {
                                Some(participant)
                            } else {
                                cell0.ancillary_designations[aa]
                            },
                    )) by {
                        assert forall|aa: int|
                            0 <= aa < cell0.ancillary_designations.len() implies cell_next.ancillary_designations[aa]
                            == if c.ancillaries.subrange(0, i + 1).contains(aa as usize) {
                            Some(participant)
                        } else {
                            cell0.ancillary_designations[aa]
                        } by {
                            assert(c.ancillaries.subrange(0, i + 1) =~= c.ancillaries.subrange(
                                0,
                                i as int,
                            ).push(a));
                            if aa == a as int {
                                assert(c.ancillaries.subrange(0, i + 1).contains(a)) by {
                                    assert(c.ancillaries.subrange(0, i + 1)[i as int] == a);
                                }
                            } else {
                                assert(c.ancillaries.subrange(0, i + 1).contains(aa as usize)
                                    == c.ancillaries.subrange(0, i as int).contains(aa as usize))
                                    by {
                                    if c.ancillaries.subrange(0, i as int).contains(aa as usize) {
                                        let w = choose|w: int|
                                            0 <= w < i && c.ancillaries.subrange(0, i as int)[w]
                                                == aa as usize;
                                        assert(c.ancillaries.subrange(0, i + 1)[w] == aa as usize);
                                    }
                                    if c.ancillaries.subrange(0, i + 1).contains(aa as usize) {
                                        let w = choose|w: int|
                                            0 <= w <= i && #[trigger] c.ancillaries.subrange(
                                                0,
                                                i + 1,
                                            )[w] == aa as usize;
                                        if w < i {
                                            assert(c.ancillaries.subrange(0, i as int)[w]
                                                == aa as usize);
                                        }
                                    }
                                }
                            }
                        }
                    }
                    assert(self@.buckets =~~= bks0.update(
                        b as int,
                        rounds_b.update(
                            round as int,
                            BucketStateModel {
                                designations: wins,
                                ancillary_designations: Seq::new(
                                    cell0.ancillary_designations.len(),
                                    |aa: int|
                                        if c.ancillaries.subrange(0, i + 1).contains(aa as usize) {
                                            Some(participant)
                                        } else {
                                            cell0.ancillary_designations[aa]
                                        },
                                ),
                                ranks: cell0.ranks,
                            },
                        ),
                    ));
                }
            }
            proof {
                assert(c.ancillaries.subrange(0, c.ancillaries.len() as int) =~= c.ancillaries);
                assert(Seq::new(
                    cell0.ancillary_designations.len(),
                    |aa: int|
                        if c.ancillaries.subrange(0, c.ancillaries.len() as int).contains(
                            aa as usize,
                        ) {
                            Some(participant)
                        } else {
                            cell0.ancillary_designations[aa]
                        },
                ) =~= crate::resolve::spec_assign_ancillaries(
                    cell0.ancillary_designations,
                    c.ancillaries,
                    participant,
                ));
                assert(self@.buckets =~~= spec_attempt(
                    basis_m,
                    bks0,
                    round as int,
                    participant,
                    c,
                ).buckets);
            }
            SelectionResult::Confirmed
        } else {
            SelectionResult::RejectedOutranked
        }
    }

    /// Builds the resolution worklist: one entry per stored pick, across
    /// every round and participant, each annotated with the participant's
    /// rank for the pick's (round, bucket) cell.
    fn gather_worklist(&self) -> (w: Vec<SelectionInstance>)
        requires
            self@.wf(),
            self@.ranks_complete(),
        ensures
            instances_model(w@) == spec_gather(self@.content(), self@.buckets),
    {
        let ghost basis_m = self@.basis;
        let ghost bks = self@.buckets;
        let ghost tbl = self@.content();
        let mut w: Vec<SelectionInstance> = Vec::new();
        let round_count = self.selections.state.len();
        for r in 0..round_count
            invariant
                self@.wf(),
                self@.ranks_complete(),
                basis_m == self@.basis,
                bks == self@.buckets,
                tbl == self@.content(),
                round_count == self.selections.state@.len(),
                round_count == tbl.len(),
                instances_model(w@) == gather_rounds(tbl, bks, r as int),
        {
            let participant_count = self.selections.state[r].len();
            for p in 0..participant_count
                invariant
                    self@.wf(),
                    self@.ranks_complete(),
                    basis_m == self@.basis,
                    bks == self@.buckets,
                    tbl == self@.content(),
                    r < round_count,
                    round_count == self.selections.state@.len(),
                    round_count == tbl.len(),
                    participant_count == self.selections.state@[r as int]@.len(),
                    participant_count == tbl[r as int].len(),
                    instances_model(w@) == gather_rounds(tbl, bks, r as int) + gather_participants(
                        tbl[r as int],
                        bks,
                        r as int,
                        p as int,
                    ),
            {
                let quota = self.selections.state[r][p].len();
                for k in 0..quota
                    invariant
                        self@.wf(),
                        self@.ranks_complete(),
                        basis_m == self@.basis,
                        bks == self@.buckets,
                        tbl == self@.content(),
                        r < round_count,
                        p < participant_count,
                        round_count == self.selections.state@.len(),
                        round_count == tbl.len(),
                        participant_count == self.selections.state@[r as int]@.len(),
                        participant_count == tbl[r as int].len(),
                        quota == self.selections.state@[r as int]@[p as int]@.len(),
                        quota == tbl[r as int][p as int].len(),
                        instances_model(w@) == gather_rounds(tbl, bks, r as int)
                            + gather_participants(tbl[r as int], bks, r as int, p as int)
                            + gather_picks(
                            tbl[r as int][p as int],
                            bks,
                            r as int,
                            p as int,
                            k as int,
                        ),
                {
                    let ghost w_prev = w@;
                    match &self.selections.state[r][p][k] {
                        Some(sel) => {
                            let bucket = sel.bucket_index;
                            proof {
                                assert(self@.selections[r as int][p as int][k as int] == Some(
                                    sel@,
                                ));
                                assert(tbl[r as int][p as int][k as int] == Some(sel@.content()));
                                assert(sel@.valid(basis_m));
                                assert((bucket as int) < bks.len());
                                assert(self@.buckets[bucket as int][r as int].wf(
                                    basis_m.participant_count(),
                                    basis_m.ancillary_count(bucket as int),
                                    basis_m.capacity(bucket as int),
                                ));
                                assert(self@.buckets[bucket as int][r as int].ranks is Some);
                            }
                            let rank = self.bucket_states[bucket].round_states[r].get_rank(p);
                            let inst = SelectionInstance {
                                rank,
                                round: r,
                                participant: p,
                                pick: k,
                                bucket,
                                ancillaries: sel.ancillaries.clone(),
                            };
                            proof {
                                assert(inst.ancillaries@ =~= sel.ancillaries@);
                            }
                            w.push(inst);
                            proof {
                                assert(instance_model(inst) == EntryModel {
                                    rank: crate::resolve::entry_rank(
                                        bks,
                                        r as int,
                                        p as int,
                                        bucket as int,
                                    ),
                                    round: r,
                                    participant: p,
                                    pick: k,
                                    bucket,
                                    ancillaries: sel@.content().ancillaries,
                                });
                                assert(instances_model(w@) =~= instances_model(w_prev).push(
                                    instance_model(inst),
                                ));
                                assert(instances_model(w@) =~= gather_rounds(tbl, bks, r as int)
                                    + gather_participants(tbl[r as int], bks, r as int, p as int)
                                    + gather_picks(
                                    tbl[r as int][p as int],
                                    bks,
                                    r as int,
                                    p as int,
                                    k + 1,
                                ));
                            }
                        },
                        None => {
                            proof {
                                assert(self@.selections[r as int][p as int][k as int] is None);
                                assert(tbl[r as int][p as int][k as int] is None);
                                assert(instances_model(w@) =~= gather_rounds(tbl, bks, r as int)
                                    + gather_participants(tbl[r as int], bks, r as int, p as int)
                                    + gather_picks(
                                    tbl[r as int][p as int],
                                    bks,
                                    r as int,
                                    p as int,
                                    k + 1,
                                ));
                            }
                        },
                    }
                }
                proof {
                    assert(gather_participants(tbl[r as int], bks, r as int, p + 1)
                        == gather_participants(tbl[r as int], bks, r as int, p as int)
                        + gather_picks(
                        tbl[r as int][p as int],
                        bks,
                        r as int,
                        p as int,
                        tbl[r as int][p as int].len() as int,
                    ));
                    assert(instances_model(w@) =~= gather_rounds(tbl, bks, r as int)
                        + gather_participants(tbl[r as int], bks, r as int, p + 1));
                }
            }
            proof {
                assert(gather_rounds(tbl, bks, r + 1) == gather_rounds(tbl, bks, r as int)
                    + gather_participants(tbl[r as int], bks, r as int, tbl[r as int].len() as int));
                assert(instances_model(w@) =~= gather_rounds(tbl, bks, r + 1));
            }
        }
        proof {
            assert(instances_model(w@) =~= gather_rounds(tbl, bks, tbl.len() as int));
        }
        w
    }

    /// Clears every designation and every ancillary assignment of every
    /// (bucket, round) cell, keeping all rank tables: the start state of a
    /// resolution pass.
    fn clear_all_designations(&mut self)
        requires
            old(self)@.wf(),
        ensures
            final(self)@.wf(),
            final(self).basis == old(self).basis,
            final(self).selections == old(self).selections,
            final(self).current_open_round == old(self).current_open_round,
            final(self)@.buckets == spec_cleared(old(self)@.buckets),
            final(self)@.ranks_complete() == old(self)@.ranks_complete(),
    {
        let ghost bks0 = self@.buckets;
        let bucket_count = self.bucket_states.len();
        for b in 0..bucket_count
            invariant
                self@.wf(),
                bucket_count == self.bucket_states@.len(),
                bks0 == old(self)@.buckets,
                self.basis == old(self).basis,
                self.selections == old(self).selections,
                self.current_open_round == old(self).current_open_round,
                self@.buckets.len() == bks0.len(),
                forall|bb: int|
                    0 <= bb < bks0.len() ==> (#[trigger] self@.buckets[bb]).len()
                        == bks0[bb].len(),
                forall|bb: int, rr: int|
                    0 <= bb < b && 0 <= rr < bks0[bb].len() ==> (#[trigger] self@.buckets[bb][rr])
                        == spec_cleared(bks0)[bb][rr],
                forall|bb: int, rr: int|
                    b <= bb < bks0.len() && 0 <= rr < bks0[bb].len() ==> (
                    #[trigger] self@.buckets[bb][rr]) == bks0[bb][rr],
        {
            let round_count = self.bucket_states[b].round_states.len();
            for r in 0..round_count
                invariant
                    self@.wf(),
                    b < bucket_count,
                    bucket_count == self.bucket_states@.len(),
                    round_count == self.bucket_states@[b as int]@.len(),
                    bks0 == old(self)@.buckets,
                    self.basis == old(self).basis,
                    self.selections == old(self).selections,
                    self.current_open_round == old(self).current_open_round,
                    self@.buckets.len() == bks0.len(),
                    forall|bb: int|
                        0 <= bb < bks0.len() ==> (#[trigger] self@.buckets[bb]).len()
                            == bks0[bb].len(),
                    forall|bb: int, rr: int|
                        0 <= bb < b && 0 <= rr < bks0[bb].len() ==> (
                        #[trigger] self@.buckets[bb][rr]) == spec_cleared(bks0)[bb][rr],
                    forall|rr: int|
                        0 <= rr < r ==> (#[trigger] self@.buckets[b as int][rr]) == spec_cleared(
                            bks0,
                        )[b as int][rr],
                    forall|rr: int|
                        r <= rr < bks0[b as int].len() ==> (#[trigger] self@.buckets[b as int][rr])
                            == bks0[b as int][rr],
                    forall|bb: int, rr: int|
                        b < bb < bks0.len() && 0 <= rr < bks0[bb].len() ==> (
                        #[trigger] self@.buckets[bb][rr]) == bks0[bb][rr],
            {
                let ghost prev = self@;
                self.bucket_states[b].round_states[r].clear();
                proof {
                    let bi = b as int;
                    let ri = r as int;
                    assert(self@.buckets[bi] =~= prev.buckets[bi].update(
                        ri,
                        self@.buckets[bi][ri],
                    ));
                    assert(self@.buckets =~= prev.buckets.update(bi, self@.buckets[bi]));
                    assert(self@.buckets[bi][ri] == (BucketStateModel {
                        designations: Seq::<usize>::empty(),
                        ancillary_designations: Seq::new(
                            prev.buckets[bi][ri].ancillary_designations.len(),
                            |a: int| None,
                        ),
                        ranks: prev.buckets[bi][ri].ranks,
                    }));
                    assert(prev.buckets[bi][ri] == bks0[bi][ri]);
                    assert(self@.buckets[bi][ri].ancillary_designations =~= Seq::new(
                        bks0[bi][ri].ancillary_designations.len(),
                        |a: int| None::<usize>,
                    ));
                    assert(self@.buckets[bi][ri] =~= spec_cleared(bks0)[bi][ri]);
                }
            }
        }
        proof {
            assert forall|bb: int| 0 <= bb < bks0.len() implies #[trigger] self@.buckets[bb]
                =~= spec_cleared(bks0)[bb] by {
                assert forall|rr: int| 0 <= rr < bks0[bb].len() implies #[trigger] self@.buckets[bb][rr]
                    == spec_cleared(bks0)[bb][rr] by {}
            }
            assert(self@.buckets =~= spec_cleared(bks0));
            if old(self)@.ranks_complete() {
                assert forall|bb: int, rr: int|
                    0 <= bb < self@.buckets.len() && 0 <= rr < self@.buckets[bb].len() implies (
                #[trigger] self@.buckets[bb][rr]).ranks is Some by {
                    assert(self@.buckets[bb][rr] == spec_cleared(bks0)[bb][rr]);
                    assert(bks0[bb][rr].ranks is Some);
                }
            }
            if self@.ranks_complete() {
                assert forall|bb: int, rr: int|
                    0 <= bb < bks0.len() && 0 <= rr < bks0[bb].len() implies (
                #[trigger] bks0[bb][rr]).ranks is Some by {
                    assert(self@.buckets[bb][rr] == spec_cleared(bks0)[bb][rr]);
                    assert(self@.buckets[bb][rr].ranks is Some);
                }
            }
        }
    }

    /// Sorts the worklist by rank ascending with a stable insertion sort:
    /// the single global tie-break of the resolver.
    fn sort_worklist(worklist: Vec<SelectionInstance>) -> (s: Vec<SelectionInstance>)
        ensures
            instances_model(s@) == spec_sort_by_rank(instances_model(worklist@)),
    {
        let ghost entries0 = instances_model(worklist@);
        let ghost total = worklist@.len() as int;
        let mut rest = worklist;
        let mut s: Vec<SelectionInstance> = Vec::new();
        while rest.len() > 0
            invariant
                entries0 == instances_model(worklist@),
                total == worklist@.len() as int,
                rest@.len() <= total,
                instances_model(rest@) == entries0.subrange(total - rest@.len(), total),
                instances_model(s@) == spec_sort_by_rank(
                    entries0.subrange(0, total - rest@.len()),
                ),
                sorted_by_rank(instances_model(s@)),
            decreases rest@.len(),
        {
            let ghost done = total - rest@.len();
            let ghost rest_prev = rest@;
            let ghost s_prev = instances_model(s@);
            let e = rest.remove(0);
            proof {
                assert(instance_model(e) == instances_model(rest_prev)[0]);
                assert(entries0.subrange(done, total)[0] == entries0[done]);
                assert(instance_model(e) == entries0[done]);
                assert(instances_model(rest@) =~= instances_model(rest_prev).subrange(
                    1,
                    rest_prev.len() as int,
                ));
                assert(instances_model(rest@) =~= entries0.subrange(done + 1, total));
            }
            let mut idx = s.len();
            while idx > 0 && s[idx - 1].rank > e.rank
                invariant
                    idx <= s@.len(),
                    forall|j: int|
                        idx <= j < s@.len() ==> (#[trigger] s@[j]).rank > e.rank,
                decreases idx,
            {
                idx = idx - 1;
            }
            let ghost s_vec_prev = s@;
            s.insert(idx, e);
            proof {
                assert forall|j: int| idx as int <= j < s_prev.len() implies (
                #[trigger] s_prev[j]).rank > e.rank by {
                    assert(s_prev[j] == instance_model(s_vec_prev[j]));
                }
                if idx > 0 {
                    assert(s_prev[idx - 1].rank <= e.rank) by {
                        assert(s_prev[idx - 1] == instance_model(s_vec_prev[idx - 1]));
                    }
                }
                lemma_insert_by_rank_splice(s_prev, instance_model(e), idx as int);
                assert(instances_model(s@) =~= s_prev.subrange(0, idx as int).push(
                    instance_model(e),
                ) + s_prev.subrange(idx as int, s_prev.len() as int));
                assert(instances_model(s@) == insert_by_rank(s_prev, instance_model(e)));
                assert(entries0.subrange(0, done + 1) =~= entries0.subrange(0, done).push(
                    entries0[done],
                ));
                lemma_sort_step(entries0.subrange(0, done), entries0[done]);
                crate::resolve::lemma_insert_by_rank(s_prev, instance_model(e));
            }
        }
        proof {
            assert(entries0.subrange(0, total) =~= entries0);
        }
        s
    }

    /// Recomputes every designation, every ancillary holder, and every
    /// recorded per-pick outcome from the stored selections and the rank
    /// tables alone: clears all committed state, gathers every stored pick,
    /// sorts by rank, and attempts each pick in order. The outcome is a
    /// pure function of basis, ranks, and stored selection contents —
    /// independent of submission order.
    pub fn determine_designations_from_current_selections(&mut self)
        requires
            old(self)@.wf(),
            old(self)@.ranks_complete(),
        ensures
            final(self)@.wf(),
            final(self)@.ranks_complete(),
            final(self).basis == old(self).basis,
            final(self).current_open_round == old(self).current_open_round,
            selections_content(final(self)@.selections) == selections_content(
                old(self)@.selections,
            ),
            final(self)@.buckets == spec_resolve(
                old(self)@.basis,
                old(self)@.buckets,
                old(self)@.content(),
            ).buckets,
            selections_results(final(self)@.selections) == spec_resolve(
                old(self)@.basis,
                old(self)@.buckets,
                old(self)@.content(),
            ).results,
    {
        let ghost basis_m = self@.basis;
        let ghost bks0 = self@.buckets;
        let ghost tbl = self@.content();
        // The table bounds below come from the executable lengths.
        let round_count = self.selections.state.len();
        let participant_count = self.basis.get_participant_definitions().len();
        proof {
            assert(content_wf(tbl, basis_m));
            lemma_gather_valid(tbl, bks0, basis_m, tbl.len() as int);
            lemma_sort_by_rank(spec_gather(tbl, bks0));
        }
        let worklist = self.gather_worklist();
        let sorted_list = Self::sort_worklist(worklist);
        let ghost entries = spec_sort_by_rank(spec_gather(tbl, bks0));
        proof {
            assert(instances_model(sorted_list@) == entries);
            assert forall|i: int| 0 <= i < entries.len() implies {
                let e = #[trigger] entries[i];
                e.valid(basis_m) && entry_in_table(e, tbl)
            } by {
                lemma_sort_elements(spec_gather(tbl, bks0), i);
                let g = spec_gather(tbl, bks0);
                let w = choose|w: int| 0 <= w < g.len() && g[w] == entries[i];
            }
        }
        self.selections.clear_results();
        self.clear_all_designations();
        let ghost init = ResolutionModel {
            buckets: spec_cleared(bks0),
            results: spec_no_results(tbl),
        };
        proof {
            assert(selections_content(self@.selections) =~~= tbl);
            assert(selections_results(self@.selections) =~~= spec_no_results(tbl));
            assert(selections_wf(self@.selections, basis_m));
            assert(self@.wf());
            assert(self@.ranks_complete()) by {
                assert forall|bb: int, rr: int|
                    0 <= bb < self@.buckets.len() && 0 <= rr < self@.buckets[bb].len() implies (
                #[trigger] self@.buckets[bb][rr]).ranks is Some by {
                    assert(self@.buckets[bb][rr] == spec_cleared(bks0)[bb][rr]);
                    assert(bks0[bb][rr].ranks is Some);
                }
            }
        }
        let ghost total = entries.len() as int;
        let mut rest = sorted_list;
        while rest.len() > 0
            invariant
                self@.wf(),
                self@.ranks_complete(),
                basis_m == self@.basis,
                self.basis == old(self).basis,
                self.current_open_round == old(self).current_open_round,
                total == entries.len() as int,
                rest@.len() <= total,
                instances_model(rest@) == entries.subrange(total - rest@.len(), total),
                forall|i: int|
                    0 <= i < entries.len() ==> {
                        let e = #[trigger] entries[i];
                        e.valid(basis_m) && entry_in_table(e, tbl)
                    },
                selections_content(self@.selections) == tbl,
                self@.buckets == spec_apply(basis_m, init, entries, total - rest@.len()).buckets,
                selections_results(self@.selections) == spec_apply(
                    basis_m,
                    init,
                    entries,
                    total - rest@.len(),
                ).results,
            decreases rest@.len(),
        {
            let ghost done = total - rest@.len();
            let ghost rest_prev = rest@;
            let e = rest.remove(0);
            proof {
                assert(instance_model(e) == instances_model(rest_prev)[0]);
                assert(entries.subrange(done, total)[0] == entries[done]);
                assert(instance_model(e) == entries[done]);
                assert(instances_model(rest@) =~= instances_model(rest_prev).subrange(
                    1,
                    rest_prev.len() as int,
                ));
                assert(instances_model(rest@) =~= entries.subrange(done + 1, total));
                assert(entries[done].valid(basis_m));
            }
            let round = e.round;
            let participant = e.participant;
            let pick = e.pick;
            let mut sel = Selection {
                bucket_index: e.bucket,
                ancillaries: e.ancillaries,
                state: None,
            };
            let ghost pre = self@;
            proof {
                assert(sel@.content() == SelectionContent {
                    bucket_index: entries[done].bucket,
                    ancillaries: entries[done].ancillaries,
                });
                assert(sel@.valid(basis_m));
            }
            let res = self.attempt_selection(round, participant, &sel);
            proof {
                assert(self@.buckets == spec_attempt(
                    basis_m,
                    pre.buckets,
                    round as int,
                    participant,
                    sel@.content(),
                ).buckets);
                assert(self@.buckets == spec_apply(basis_m, init, entries, done + 1).buckets);
            }
            sel.state = Some(res);
            let ghost before_write = self@;
            proof {
                assert(entry_in_table(entries[done], tbl));
                assert(tbl[round as int][participant as int][pick as int] == Some(
                    sel@.content(),
                ));
                assert(self@.selections[round as int][participant as int][pick as int] is Some);
                assert((round as int) < self@.selections.len());
                assert((participant as int) < self@.selections[round as int].len());
                assert((pick as int) < self@.selections[round as int][participant as int].len());
                assert((round as int) < self.selections.state@.len());
                assert((participant as int) < self.selections.state@[round as int]@.len());
                assert((pick as int)
                    < self.selections.state@[round as int]@[participant as int]@.len());
            }
            self.selections.state[round][participant][pick] = Some(sel);
            proof {
                let ri = round as int;
                let pi = participant as int;
                let ki = pick as int;
                assert(self@.selections[ri][pi] =~= before_write.selections[ri][pi].update(
                    ki,
                    self@.selections[ri][pi][ki],
                ));
                assert(self@.selections[ri] =~= before_write.selections[ri].update(
                    pi,
                    self@.selections[ri][pi],
                ));
                assert(self@.selections =~= before_write.selections.update(
                    ri,
                    self@.selections[ri],
                ));
                assert(selections_content(self@.selections) =~~= tbl);
                assert(selections_results(self@.selections) =~~= record_result(
                    spec_apply(basis_m, init, entries, done).results,
                    ri,
                    pi,
                    ki,
                    res@,
                ));
                assert(selections_results(self@.selections) =~~= spec_apply(
                    basis_m,
                    init,
                    entries,
                    done + 1,
                ).results);
                assert(selections_wf(self@.selections, basis_m));
            }
        }
        proof {
            assert(entries.subrange(0, total) =~= entries);
            assert(self@.buckets == spec_resolve(basis_m, bks0, tbl).buckets);
            assert(selections_results(self@.selections) == spec_resolve(
                basis_m,
                bks0,
                tbl,
            ).results);
        }
    }

    /// Replaces this participant's picks for the open round and runs a full
    /// recomputation; returns the participant's per-pick outcomes. A
    /// structural error (no open round, unknown participant, wrong pick
    /// count, unknown bucket or ancillary) aborts the submission before any
    /// mutation.
    pub fn set_selections_for_current_round(
        &mut self,
        participant_index: usize,
        selections: Vec<Option<Selection>>,
    ) -> (r: Result<Vec<Option<SelectionResult>>, DivisionError>)
        requires
            old(self)@.wf(),
            old(self)@.ranks_complete(),
        ensures
            match r {
                Err(e) => {
                    &&& spec_submit_check(old(self)@, participant_index, rows_model(selections@))
                        == Some(e)
                    &&& final(self).basis == old(self).basis
                    &&& final(self).bucket_states == old(self).bucket_states
                    &&& final(self).selections == old(self).selections
                    &&& final(self).current_open_round == old(self).current_open_round
                },
                Ok(out) => {
                    &&& spec_submit_check(old(self)@, participant_index, rows_model(selections@)) is None
                    &&& old(self)@.current_open_round is Some
                    &&& final(self)@.wf()
                    &&& final(self)@.ranks_complete()
                    &&& final(self).basis == old(self).basis
                    &&& final(self).current_open_round == old(self).current_open_round
                    &&& {
                        let rr = old(self)@.current_open_round.unwrap() as int;
                        let new_content = spec_submitted_content(
                            old(self)@,
                            rr,
                            participant_index as int,
                            rows_model(selections@),
                        );
                        let resolved = spec_resolve(
                            old(self)@.basis,
                            old(self)@.buckets,
                            new_content,
                        );
                        &&& selections_content(final(self)@.selections) == new_content
                        &&& final(self)@.buckets == resolved.buckets
                        &&& selections_results(final(self)@.selections) == resolved.results
                        &&& out@.len() == new_content[rr][participant_index as int].len()
                        &&& forall|k: int|
                            0 <= k < out@.len() ==> crate::selections::opt_result_model(
                                #[trigger] out@[k],
                            ) == resolved.results[rr][participant_index as int][k]
                    }
                },
            },
    {
        let ghost m0 = self@;
        let ghost rows_m = rows_model(selections@);
        let open_round = match self.current_open_round {
            Some(rr) => rr,
            None => {
                return Err(DivisionError::RoundClosed);
            },
        };
        if participant_index >= self.basis.get_participant_definitions().len() {
            return Err(DivisionError::UnknownParticipant);
        }
        let quota = self.basis.get_participant_definitions()[participant_index].round_picks_allowed[open_round];
        if selections.len() != quota {
            return Err(DivisionError::InvalidPickCount);
        }
        let bucket_count = self.basis.get_bucket_definitions().len();
        let mut stored: Vec<Option<Selection>> = Vec::new();
        let pick_count = selections.len();
        for k in 0..pick_count
            invariant
                *self == *old(self),
                self@.wf(),
                m0 == self@,
                rows_m == rows_model(selections@),
                pick_count == selections@.len(),
                bucket_count == self@.basis.bucket_count(),
                self@.current_open_round == Some(open_round),
                (participant_index as int) < self@.basis.participant_count(),
                rows_m.len() == self@.basis.picks_allowed(
                    participant_index as int,
                    open_round as int,
                ),
                spec_rows_check(self@.basis, rows_m, k as int) is None,
                stored@.len() == k,
                forall|kk: int|
                    0 <= kk < k ==> crate::selections::opt_selection_model(#[trigger] stored@[kk])
                        == normalized_rows(rows_m)[kk],
        {
            let ghost prev_stored = stored@;
            match &selections[k] {
                Some(s) => {
                    proof {
                        assert(rows_m[k as int] == Some(s@));
                    }
                    if s.bucket_index >= bucket_count {
                        proof {
                            lemma_rows_check_stable(
                                self@.basis,
                                rows_m,
                                k + 1,
                                rows_m.len() as int,
                            );
                        }
                        return Err(DivisionError::UnknownBucket);
                    }
                    let anc_count = self.basis.get_bucket_definitions()[s.bucket_index].available_ancillaries.len();
                    let anc_len = s.ancillaries.len();
                    for j in 0..anc_len
                        invariant
                            *self == *old(self),
                            self@.wf(),
                            m0 == self@,
                            rows_m == rows_model(selections@),
                            pick_count == selections@.len(),
                            k < pick_count,
                            rows_m[k as int] == Some(s@),
                            self@.current_open_round == Some(open_round),
                            (participant_index as int) < self@.basis.participant_count(),
                            rows_m.len() == self@.basis.picks_allowed(
                                participant_index as int,
                                open_round as int,
                            ),
                            spec_rows_check(self@.basis, rows_m, k as int) is None,
                            (s@.bucket_index as int) < self@.basis.bucket_count(),
                            anc_len == s.ancillaries@.len(),
                            anc_count == self@.basis.ancillary_count(s.bucket_index as int),
                            forall|jj: int|
                                0 <= jj < j ==> (#[trigger] s.ancillaries@[jj]) < anc_count,
                    {
                        if s.ancillaries[j] >= anc_count {
                            proof {
                                assert(rows_m[k as int] == Some(s@));
                                assert(s@.ancillaries[j as int] >= anc_count);
                                lemma_rows_check_stable(
                                    self@.basis,
                                    rows_m,
                                    k + 1,
                                    rows_m.len() as int,
                                );
                            }
                            return Err(DivisionError::UnknownAncillary);
                        }
                    }
                    let norm = crate::sequences::normalize_indices(&s.ancillaries);
                    proof {
                        crate::sequences::lemma_sorted_set_of(s.ancillaries@);
                    }
                    stored.push(
                        Some(
                            Selection {
                                bucket_index: s.bucket_index,
                                ancillaries: norm,
                                state: None,
                            },
                        ),
                    );
                    proof {
                        assert(crate::selections::opt_selection_model(stored@[k as int])
                            == normalized_rows(rows_m)[k as int]);
                    }
                },
                None => {
                    stored.push(None);
                    proof {
                        assert(rows_m[k as int] is None);
                        assert(crate::selections::opt_selection_model(stored@[k as int])
                            == normalized_rows(rows_m)[k as int]);
                    }
                },
            }
        }
        let ghost new_content = spec_submitted_content(
            m0,
            open_round as int,
            participant_index as int,
            rows_m,
        );
        proof {
            assert((open_round as int) < self@.selections.len());
            assert((participant_index as int) < self@.selections[open_round as int].len());
        }
        let ghost before_set = self@;
        self.selections.set(open_round, participant_index, stored);
        proof {
            assert forall|kk: int| 0 <= kk < rows_m.len() implies #[trigger] self@.selections[open_round as int][participant_index as int][kk]
                == normalized_rows(rows_m)[kk] by {}
            assert(selections_content(self@.selections) =~~= new_content);
            assert(selections_wf(self@.selections, self@.basis)) by {
                assert forall|rr2: int, p2: int, k2: int|
                    0 <= rr2 < self@.selections.len() && 0 <= p2 < self@.selections[rr2].len() && 0
                        <= k2 < self@.selections[rr2][p2].len() && self@.selections[rr2][p2][k2] is Some implies (
                #[trigger] self@.selections[rr2][p2][k2]).unwrap().valid(self@.basis) by {
                    if rr2 == open_round as int && p2 == participant_index as int {
                        let sm = self@.selections[rr2][p2][k2].unwrap();
                        assert(rows_m[k2] is Some);
                        let raw = rows_m[k2].unwrap();
                        assert(spec_rows_check(self@.basis, rows_m, rows_m.len() as int) is None);
                        lemma_rows_check_clean(self@.basis, rows_m, k2);
                        crate::sequences::lemma_sorted_set_of(raw.ancillaries);
                        assert forall|i2: int|
                            0 <= i2 < sm.ancillaries.len() implies (#[trigger] sm.ancillaries[i2])
                            < self@.basis.ancillary_count(sm.bucket_index as int) by {
                            assert(sm.ancillaries.contains(sm.ancillaries[i2]));
                            assert(raw.ancillaries.contains(sm.ancillaries[i2]));
                            let w = choose|w: int|
                                0 <= w < raw.ancillaries.len() && raw.ancillaries[w]
                                    == sm.ancillaries[i2];
                        }
                    } else {
                        assert(before_set.selections[rr2][p2][k2]
                            == self@.selections[rr2][p2][k2]);
                    }
                }
            }
            assert(self@.wf());
            assert(self@.content() =~~= new_content);
            assert(self@.buckets == m0.buckets);
            assert(self@.ranks_complete());
        }
        let ghost before_resolve = self@;
        self.determine_designations_from_current_selections();
        let ghost resolved = spec_resolve(m0.basis, m0.buckets, new_content);
        proof {
            assert(before_resolve.content() == new_content);
            assert(self@.buckets == resolved.buckets);
            assert(selections_results(self@.selections) == resolved.results);
            assert(selections_content(self@.selections) == new_content);
        }
        let mut out: Vec<Option<SelectionResult>> = Vec::new();
        proof {
            assert((open_round as int) < self@.selections.len());
            assert((participant_index as int) < self@.selections[open_round as int].len());
            assert((open_round as int) < self.selections.state@.len());
            assert((participant_index as int)
                < self.selections.state@[open_round as int]@.len());
        }
        let row_len = self.selections.state[open_round][participant_index].len();
        for k in 0..row_len
            invariant
                self@.wf(),
                self@.ranks_complete(),
                (open_round as int) < self@.selections.len(),
                (participant_index as int) < self@.selections[open_round as int].len(),
                (open_round as int) < self.selections.state@.len(),
                (participant_index as int) < self.selections.state@[open_round as int]@.len(),
                row_len
                    == self.selections.state@[open_round as int]@[participant_index as int]@.len(),
                selections_results(self@.selections) == resolved.results,
                out@.len() == k,
                forall|kk: int|
                    0 <= kk < k ==> crate::selections::opt_result_model(#[trigger] out@[kk])
                        == selections_results(
                        self@.selections,
                    )[open_round as int][participant_index as int][kk],
        {
            match &self.selections.state[open_round][participant_index][k] {
                Some(sel) => {
                    match &sel.state {
                        Some(st) => {
                            out.push(Some(st.clone()));
                        },
                        None => {
                            out.push(None);
                        },
                    }
                    proof {
                        assert(self@.selections[open_round as int][participant_index as int][k as int]
                            == Some(sel@));
                    }
                },
                None => {
                    out.push(None);
                    proof {
                        assert(self@.selections[open_round as int][participant_index as int][k as int] is None);
                    }
                },
            }
        }
        proof {
            assert(new_content[open_round as int][participant_index as int].len()
                == self@.selections[open_round as int][participant_index as int].len());
        }
        Ok(out)
    }

    /// The first round whose ranks a participant-facing projection must
    /// hide: the round after the open one, or round 0 when no round is
    /// open.
    pub open spec fn censor_start(self) -> int {
        match self.current_open_round {
            Some(i) => i + 1,
            None => 0,
        }
    }

    /// Censors the state for presentation to a participant: removes the
    /// rank tables of every round strictly after the open round (of every
    /// round, when none is open), and keeps everything else — committed
    /// designations and ancillary holders remain visible.
    pub fn censor_ranks(&mut self)
        requires
            old(self)@.wf(),
        ensures
            final(self)@.wf(),
            final(self).basis == old(self).basis,
            final(self).selections == old(self).selections,
            final(self).current_open_round == old(self).current_open_round,
            final(self)@.buckets.len() == old(self)@.buckets.len(),
            forall|b: int|
                0 <= b < old(self)@.buckets.len() ==> (#[trigger] final(self)@.buckets[b]).len()
                    == old(self)@.buckets[b].len(),
            forall|b: int, r: int|
                0 <= b < old(self)@.buckets.len() && 0 <= r < old(self)@.buckets[b].len() ==> (
                #[trigger] final(self)@.buckets[b][r]) == if r >= old(self).censor_start() {
                    BucketStateModel {
                        designations: old(self)@.buckets[b][r].designations,
                        ancillary_designations: old(self)@.buckets[b][r].ancillary_designations,
                        ranks: None,
                    }
                } else {
                    old(self)@.buckets[b][r]
                },
    {
        let round_total = self.basis.get_selection_rounds().len();
        let start = match self.current_open_round {
            Some(i) => {
                proof {
                    assert((i as int) < round_total as int);
                }
                i + 1
            },
            None => 0,
        };
        let bucket_count = self.bucket_states.len();
        for b in 0..bucket_count
            invariant
                self@.wf(),
                bucket_count == self.bucket_states@.len(),
                start == old(self).censor_start(),
                self.basis == old(self).basis,
                self.selections == old(self).selections,
                self.current_open_round == old(self).current_open_round,
                self@.buckets.len() == old(self)@.buckets.len(),
                forall|bb: int|
                    0 <= bb < old(self)@.buckets.len() ==> (#[trigger] self@.buckets[bb]).len()
                        == old(self)@.buckets[bb].len(),
                forall|bb: int, r: int|
                    0 <= bb < b && 0 <= r < old(self)@.buckets[bb].len() ==> (
                    #[trigger] self@.buckets[bb][r]) == if r >= start as int {
                        BucketStateModel {
                            designations: old(self)@.buckets[bb][r].designations,
                            ancillary_designations: old(self)@.buckets[bb][r].ancillary_designations,
                            ranks: None,
                        }
                    } else {
                        old(self)@.buckets[bb][r]
                    },
                forall|bb: int, r: int|
                    b <= bb < old(self)@.buckets.len() && 0 <= r < old(self)@.buckets[bb].len()
                        ==> (#[trigger] self@.buckets[bb][r]) == old(self)@.buckets[bb][r],
        {
            let round_count = self.bucket_states[b].round_states.len();
            let mut r = start;
            while r < round_count
                invariant
                    self@.wf(),
                    b < self.bucket_states@.len(),
                    bucket_count == self.bucket_states@.len(),
                    round_count == self.bucket_states@[b as int]@.len(),
                    start <= r,
                    self.basis == old(self).basis,
                    self.selections == old(self).selections,
                    self.current_open_round == old(self).current_open_round,
                    self@.buckets.len() == old(self)@.buckets.len(),
                    forall|bb: int|
                        0 <= bb < old(self)@.buckets.len() ==> (#[trigger] self@.buckets[bb]).len()
                            == old(self)@.buckets[bb].len(),
                    forall|bb: int, rr: int|
                        0 <= bb < b && 0 <= rr < old(self)@.buckets[bb].len() ==> (
                        #[trigger] self@.buckets[bb][rr]) == if rr >= start as int {
                            BucketStateModel {
                                designations: old(self)@.buckets[bb][rr].designations,
                                ancillary_designations: old(self)@.buckets[bb][rr].ancillary_designations,
                                ranks: None,
                            }
                        } else {
                            old(self)@.buckets[bb][rr]
                        },
                    forall|rr: int|
                        start as int <= rr < r ==> (#[trigger] self@.buckets[b as int][rr])
                            == (BucketStateModel {
                            designations: old(self)@.buckets[b as int][rr].designations,
                            ancillary_designations: old(self)@.buckets[b as int][rr].ancillary_designations,
                            ranks: None,
                        }),
                    forall|rr: int|
                        0 <= rr < old(self)@.buckets[b as int].len() && !(start as int <= rr < r)
                            ==> (#[trigger] self@.buckets[b as int][rr]) == old(self)@.buckets[b as int][rr],
                    forall|bb: int, rr: int|
                        b < bb < old(self)@.buckets.len() && 0 <= rr < old(self)@.buckets[bb].len() ==> (#[trigger] self@.buckets[bb][rr]) == old(self)@.buckets[bb][rr],
                decreases round_count - r,
            {
                let ghost prev = self@;
                self.bucket_states[b].round_states[r].ranks = None;
                proof {
                    let bi = b as int;
                    let ri = r as int;
                    let newcell = BucketStateModel {
                        designations: prev.buckets[bi][ri].designations,
                        ancillary_designations: prev.buckets[bi][ri].ancillary_designations,
                        ranks: None,
                    };
                    assert(self@.buckets[bi] =~= prev.buckets[bi].update(ri, newcell));
                    assert(self@.buckets =~= prev.buckets.update(
                        bi,
                        prev.buckets[bi].update(ri, newcell),
                    ));
                }
                r = r + 1;
            }
        }
    }
}

} // verus!
