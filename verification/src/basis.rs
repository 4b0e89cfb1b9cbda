//! Immutable configuration of a division: the buckets being contested, the
//! participants contesting them, and the ordered selection rounds.

use vstd::prelude::*;

verus! {

/// Errors surfaced by the engine. Structural and input errors abort an
/// operation before any mutation; per-selection rejections are reported
/// through `SelectionResult` instead, never through this type.
#[derive(Debug, Clone, Copy, PartialEq, Eq, Structural)]
pub enum DivisionError {
    /// Malformed configuration handed to `BlockDivisionBasis::create`.
    InvalidBasis,
    /// No division is stored under the given identifier.
    UnknownDivision,
    /// Participant index outside the basis.
    UnknownParticipant,
    /// Bucket index outside the basis.
    UnknownBucket,
    /// Ancillary index outside the targeted bucket's ancillary list.
    UnknownAncillary,
    /// Round index outside the basis.
    InvalidRoundIndex,
    /// Submitted pick list length differs from the participant's quota.
    InvalidPickCount,
    /// Submission while no round, or a different round, is open.
    RoundClosed,
    /// The backing store failed to load or save a division.
    PersistenceFailure,
    /// The per-division write lock could not be acquired.
    LockAcquisitionFailure,
}

/// Mathematical content of a `BucketDef`.
#[verifier::ext_equal]
pub ghost struct BucketDefModel {
    pub name: Seq<char>,
    pub available_slots: usize,
    pub available_ancillaries: Seq<Seq<char>>,
}

/// One capacity-limited resource. `available_slots` is the total number of
/// designations the bucket can hold over all rounds together;
/// `available_ancillaries` names its exclusively-held sub-resources,
/// referenced elsewhere by index into this list.
#[derive(Debug)]
pub struct BucketDef {
    pub name: String,
    pub available_slots: usize,
    pub available_ancillaries: Vec<String>,
}

impl View for BucketDef {
    type V = BucketDefModel;

    open spec fn view(&self) -> BucketDefModel {
        BucketDefModel {
            name: self.name@,
            available_slots: self.available_slots,
            available_ancillaries: Seq::new(
                self.available_ancillaries@.len(),
                |i: int| self.available_ancillaries@[i]@,
            ),
        }
    }
}

impl Clone for BucketDef {
    fn clone(&self) -> (r: Self)
        ensures
            r@ == self@,
    {
        let r = BucketDef {
            name: self.name.clone(),
            available_slots: self.available_slots,
            available_ancillaries: self.available_ancillaries.clone(),
        };
        proof {
            assert(r@.available_ancillaries =~= self@.available_ancillaries);
            assert(r@ =~= self@);
        }
        r
    }
}

/// Mathematical content of a `ParticipantDef`.
#[verifier::ext_equal]
pub ghost struct ParticipantDefModel {
    pub name: Seq<char>,
    pub email: Seq<char>,
    pub round_picks_allowed: Seq<usize>,
}

/// One participant: display name, contact address, and the number of picks
/// the participant may submit in each round (one entry per round).
#[derive(Debug)]
pub struct ParticipantDef {
    pub name: String,
    pub email: String,
    pub round_picks_allowed: Vec<usize>,
}

impl View for ParticipantDef {
    type V = ParticipantDefModel;

    open spec fn view(&self) -> ParticipantDefModel {
        ParticipantDefModel {
            name: self.name@,
            email: self.email@,
            round_picks_allowed: self.round_picks_allowed@,
        }
    }
}

impl Clone for ParticipantDef {
    fn clone(&self) -> (r: Self)
        ensures
            r@ == self@,
    {
        ParticipantDef {
            name: self.name.clone(),
            email: self.email.clone(),
            round_picks_allowed: self.round_picks_allowed.clone(),
        }
    }
}

impl ParticipantDef {
    pub fn create(name: String, email: String, round_picks_allowed: Vec<usize>) -> (r:
        ParticipantDef)
        ensures
            r@.name == name@,
            r@.email == email@,
            r@.round_picks_allowed == round_picks_allowed@,
    {
        ParticipantDef { name, email, round_picks_allowed }
    }

    pub fn get_name(&self) -> (r: &str)
        ensures
            r@ == self@.name,
    {
        self.name.as_str()
    }

    pub fn get_email(&self) -> (r: &str)
        ensures
            r@ == self@.email,
    {
        self.email.as_str()
    }

    pub fn get_round_picks_allowed(&self) -> (r: &Vec<usize>)
        ensures
            r@ == self@.round_picks_allowed,
    {
        &self.round_picks_allowed
    }
}

/// Mathematical content of a `BlockDivisionBasis`.
#[verifier::ext_equal]
pub ghost struct BasisModel {
    pub buckets: Seq<BucketDefModel>,
    pub participants: Seq<ParticipantDefModel>,
    pub rounds: Seq<Seq<char>>,
}

impl BasisModel {
    /// A well-formed basis has at least one bucket, participant, and round,
    /// and gives every participant exactly one pick quota per round.
    pub open spec fn wf(self) -> bool {
        &&& self.buckets.len() > 0
        &&& self.participants.len() > 0
        &&& self.rounds.len() > 0
        &&& forall|p: int|
            0 <= p < self.participants.len() ==> (#[trigger] self.participants[p]).round_picks_allowed.len()
                == self.rounds.len()
    }

    pub open spec fn bucket_count(self) -> nat {
        self.buckets.len()
    }

    pub open spec fn participant_count(self) -> nat {
        self.participants.len()
    }

    pub open spec fn round_count(self) -> nat {
        self.rounds.len()
    }

    /// Capacity of bucket `b`.
    pub open spec fn capacity(self, b: int) -> usize {
        self.buckets[b].available_slots
    }

    /// Number of ancillaries offered by bucket `b`.
    pub open spec fn ancillary_count(self, b: int) -> nat {
        self.buckets[b].available_ancillaries.len()
    }

    /// Pick quota of participant `p` in round `r`.
    pub open spec fn picks_allowed(self, p: int, r: int) -> usize {
        self.participants[p].round_picks_allowed[r]
    }
}

/// Immutable description of a division: ordered buckets, ordered
/// participants, and ordered round names. All references elsewhere in the
/// engine are dense 0-based indices into these three lists.
#[derive(Debug)]
pub struct BlockDivisionBasis {
    pub bucket_definitions: Vec<BucketDef>,
    pub participant_definitions: Vec<ParticipantDef>,
    pub selection_round_names: Vec<String>,
}

impl View for BlockDivisionBasis {
    type V = BasisModel;

    open spec fn view(&self) -> BasisModel {
        BasisModel {
            buckets: Seq::new(self.bucket_definitions@.len(), |i: int| self.bucket_definitions@[i]@),
            participants: Seq::new(
                self.participant_definitions@.len(),
                |i: int| self.participant_definitions@[i]@,
            ),
            rounds: Seq::new(
                self.selection_round_names@.len(),
                |i: int| self.selection_round_names@[i]@,
            ),
        }
    }
}

impl Clone for BlockDivisionBasis {
    fn clone(&self) -> (r: Self)
        ensures
            r@ == self@,
    {
        let r = BlockDivisionBasis {
            bucket_definitions: self.bucket_definitions.clone(),
            participant_definitions: self.participant_definitions.clone(),
            selection_round_names: self.selection_round_names.clone(),
        };
        proof {
            assert forall|i: int| 0 <= i < r.bucket_definitions@.len() implies r.bucket_definitions@[i]@
                == self.bucket_definitions@[i]@ by {}
            assert(r@.buckets =~= self@.buckets);
            assert(r@.participants =~= self@.participants);
            assert(r@.rounds =~= self@.rounds);
            assert(r@ =~= self@);
        }
        r
    }
}

impl BlockDivisionBasis {
    /// Builds a basis after validating it: every list must be non-empty and
    /// each participant must carry exactly one pick quota per round.
    pub fn create(
        bucket_definitions: Vec<BucketDef>,
        participant_definitions: Vec<ParticipantDef>,
        selection_round_names: Vec<String>,
    ) -> (r: Result<BlockDivisionBasis, DivisionError>)
        ensures
            match r {
                Ok(b) => b@.wf() && b@ == (BlockDivisionBasis {
                    bucket_definitions,
                    participant_definitions,
                    selection_round_names,
                })@,
                Err(e) => e == DivisionError::InvalidBasis && !(BlockDivisionBasis {
                    bucket_definitions,
                    participant_definitions,
                    selection_round_names,
                })@.wf(),
            },
    {
        let ghost m = (BlockDivisionBasis {
            bucket_definitions,
            participant_definitions,
            selection_round_names,
        })@;
        if bucket_definitions.len() == 0 || participant_definitions.len() == 0
            || selection_round_names.len() == 0 {
            return Err(DivisionError::InvalidBasis);
        }
        let round_count = selection_round_names.len();
        for p in 0..participant_definitions.len()
            invariant
                forall|q: int|
                    0 <= q < p ==> (#[trigger] m.participants[q]).round_picks_allowed.len()
                        == round_count,
                m == (BlockDivisionBasis {
                    bucket_definitions,
                    participant_definitions,
                    selection_round_names,
                })@,
                m.participants.len() == participant_definitions@.len(),
                round_count == m.rounds.len(),
                forall|q: int|
                    0 <= q < m.participants.len() ==> (#[trigger] m.participants[q])
                        == participant_definitions@[q]@,
        {
            if participant_definitions[p].round_picks_allowed.len() != round_count {
                proof {
                    assert(m.participants[p as int] == participant_definitions@[p as int]@);
                    assert(m.participants[p as int].round_picks_allowed.len() != m.rounds.len());
                }
                return Err(DivisionError::InvalidBasis);
            }
        }
        Ok(BlockDivisionBasis { bucket_definitions, participant_definitions, selection_round_names })
    }

    pub fn get_selection_rounds(&self) -> (r: &Vec<String>)
        ensures
            r@.len() == self@.rounds.len(),
            forall|i: int| 0 <= i < r@.len() ==> (#[trigger] r@[i])@ == self@.rounds[i],
    {
        &self.selection_round_names
    }

    pub fn get_bucket_definitions(&self) -> (r: &Vec<BucketDef>)
        ensures
            r@.len() == self@.buckets.len(),
            forall|i: int| 0 <= i < r@.len() ==> (#[trigger] r@[i])@ == self@.buckets[i],
    {
        &self.bucket_definitions
    }

    pub fn get_participant_definitions(&self) -> (r: &Vec<ParticipantDef>)
        ensures
            r@.len() == self@.participants.len(),
            forall|i: int| 0 <= i < r@.len() ==> (#[trigger] r@[i])@ == self@.participants[i],
    {
        &self.participant_definitions
    }
}

} // verus!
