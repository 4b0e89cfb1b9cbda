//! The request surface the engine consumes: plain-data request bodies and
//! the participant-view handle with its stable hash key.

use vstd::prelude::*;

use crate::basis::BlockDivisionBasis;
use crate::hash::fnv_mix;
use crate::hash::spec_decimal;
use crate::hash::spec_hash_str;
use crate::hash::u64_to_decimal;
use crate::hash::FNV_OFFSET_BASIS;
use crate::selections::Selection;
use crate::state::BlockDivisionState;

verus! {

/// Request for the full state of one division.
#[derive(Debug)]
pub struct GetStateRequest {
    pub id: String,
}

impl GetStateRequest {
    pub fn get_id(&self) -> (r: &str)
        ensures
            r@ == self.id@,
    {
        self.id.as_str()
    }
}

/// Request to delete one division.
#[derive(Debug)]
pub struct DeleteStateRequest {
    pub id: String,
}

impl DeleteStateRequest {
    pub fn get_id(&self) -> (r: &str)
        ensures
            r@ == self.id@,
    {
        self.id.as_str()
    }
}

/// Request to open one round of a division (or close them all).
#[derive(Debug)]
pub struct SetOpenRoundRequest {
    pub id: String,
    pub round: Option<usize>,
}

impl SetOpenRoundRequest {
    pub fn get_id(&self) -> (r: &str)
        ensures
            r@ == self.id@,
    {
        self.id.as_str()
    }

    pub fn get_round(&self) -> (r: &Option<usize>)
        ensures
            *r == self.round,
    {
        &self.round
    }
}

/// Request to create a division from a new basis.
#[derive(Debug)]
pub struct NewBasisRequest {
    pub id: String,
    pub basis: BlockDivisionBasis,
}

impl NewBasisRequest {
    pub fn get_id(&self) -> (r: &str)
        ensures
            r@ == self.id@,
    {
        self.id.as_str()
    }

    pub fn get_basis(&self) -> (r: &BlockDivisionBasis)
        ensures
            r@ == self.basis@,
    {
        &self.basis
    }
}

/// Request to overwrite the whole state of one division.
#[derive(Debug)]
pub struct SetStateRequest {
    pub id: String,
    pub state: BlockDivisionState,
}

impl SetStateRequest {
    pub fn get_id(&self) -> (r: &str)
        ensures
            r@ == self.id@,
    {
        self.id.as_str()
    }

    pub fn get_state(&self) -> (r: &BlockDivisionState)
        ensures
            r@ == self.state@,
    {
        &self.state
    }
}

/// Body of a per-participant state request.
#[derive(Debug)]
pub struct BlockDivisionStateRequestBody {
    pub user_id: String,
    pub division_id: String,
}

impl BlockDivisionStateRequestBody {
    pub fn get_user_id(&self) -> (r: &str)
        ensures
            r@ == self.user_id@,
    {
        self.user_id.as_str()
    }

    pub fn get_division_id(&self) -> (r: &str)
        ensures
            r@ == self.division_id@,
    {
        self.division_id.as_str()
    }
}

/// Request for a participant's censored view, addressed by view hash.
#[derive(Debug)]
pub struct GetUserViewRequest {
    pub hash: String,
}

impl GetUserViewRequest {
    pub fn get_hash(&self) -> (r: &str)
        ensures
            r@ == self.hash@,
    {
        self.hash.as_str()
    }
}

/// A participant's submitted picks for one division's open round.
#[derive(Debug)]
pub struct SubmitSelections {
    pub user_id: usize,
    pub state_id: String,
    pub selections: Vec<Option<Selection>>,
}

/// The content hash of a `UserView`: its participant index mixed with its
/// division identifier.
pub open spec fn spec_user_view_hash(user_id: i32, state_id: Seq<char>) -> u64 {
    spec_hash_str(fnv_mix(FNV_OFFSET_BASIS, user_id as u64), state_id)
}

/// A handle identifying one participant's view of one division; its hash
/// serves as the key under which the handle is stored and later looked up.
#[derive(Debug)]
pub struct UserView {
    pub user_id: i32,
    pub state_id: String,
}

impl UserView {
    pub fn create(user_id: i32, state_id: String) -> (r: UserView)
        ensures
            r.user_id == user_id,
            r.state_id@ == state_id@,
    {
        UserView { user_id, state_id }
    }

    pub fn get_state_id(&self) -> (r: &str)
        ensures
            r@ == self.state_id@,
    {
        self.state_id.as_str()
    }

    pub fn get_user_id(&self) -> (r: i32)
        ensures
            r == self.user_id,
    {
        self.user_id
    }

    /// The stable key of this view: the decimal rendering of its content
    /// hash.
    pub fn get_hash(&self) -> (r: String)
        ensures
            r@ == spec_decimal(spec_user_view_hash(self.user_id, self.state_id@) as nat),
    {
        let h = crate::hash::hash_str(
            crate::hash::mix(FNV_OFFSET_BASIS, self.user_id as u64),
            self.state_id.as_str(),
        );
        u64_to_decimal(h)
    }
}

} // verus!
