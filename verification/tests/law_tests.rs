use block_divider::basis::BlockDivisionBasis;
use block_divider::basis::BucketDef;
use block_divider::basis::ParticipantDef;
use block_divider::selections::Selection;
use block_divider::state::BlockDivisionState;

fn small_basis(
    capacities: &[usize],
    participant_count: usize,
    round_count: usize,
) -> BlockDivisionBasis {
    let mut buckets: Vec<BucketDef> = Vec::new();
    for (i, cap) in capacities.iter().enumerate() {
        buckets.push(BucketDef {
            name: format!("bucket {}", i),
            available_slots: *cap,
            available_ancillaries: vec![format!("ancillary of bucket {}", i)],
        });
    }
    let mut participants: Vec<ParticipantDef> = Vec::new();
    for i in 0..participant_count {
        participants.push(ParticipantDef::create(
            format!("P{}", i),
            format!("p{}@example.com", i),
            vec![1; round_count],
        ));
    }
    let mut rounds = Vec::new();
    for r in 0..round_count {
        rounds.push(format!("round {}", r));
    }
    BlockDivisionBasis::create(buckets, participants, rounds).expect("Should work.")
}

fn one_pick(bucket: usize, ancillaries: Vec<usize>) -> Vec<Option<Selection>> {
    vec![Some(Selection {
        bucket_index: bucket,
        ancillaries,
        state: None,
    })]
}

fn set_all_ranks(state: &mut BlockDivisionState, ranks: &[Vec<Vec<usize>>]) {
    for (b, per_round) in ranks.iter().enumerate() {
        for (r, table) in per_round.iter().enumerate() {
            state.bucket_states[b].round_states[r].ranks = Some(table.clone());
        }
    }
}

/// Every generated rank table is a full permutation: for every (round,
/// bucket), the assigned ranks are exactly {0, ..., participant_count - 1}
/// with no duplicates. This exercises the real random draw.
#[test]
fn generated_ranks_are_full_permutations() {
    let basis = small_basis(&[2, 3, 1], 5, 4);
    let state = BlockDivisionState::new(&basis);
    for b in 0..3 {
        for r in 0..4 {
            let mut ranks = state.bucket_states[b].round_states[r]
                .ranks
                .clone()
                .expect("Ranks must be present.");
            ranks.sort();
            assert_eq!(ranks, vec![0, 1, 2, 3, 4]);
        }
    }
}

/// Recomputation is order-independent: submitting A's then B's picks gives
/// the same designations and ancillary holders as B's then A's, given the
/// same rank tables.
#[test]
fn submission_order_is_irrelevant() {
    let basis = small_basis(&[2], 3, 1);
    let ranks = [vec![vec![1, 0, 2]]];

    let mut first = BlockDivisionState::new(&basis);
    set_all_ranks(&mut first, &ranks);
    first.set_open_round(Some(0)).expect("Should work.");
    first
        .set_selections_for_current_round(0, one_pick(0, vec![]))
        .expect("Should work.");
    first
        .set_selections_for_current_round(1, one_pick(0, vec![0]))
        .expect("Should work.");

    let mut second = BlockDivisionState::new(&basis);
    set_all_ranks(&mut second, &ranks);
    second.set_open_round(Some(0)).expect("Should work.");
    second
        .set_selections_for_current_round(1, one_pick(0, vec![0]))
        .expect("Should work.");
    second
        .set_selections_for_current_round(0, one_pick(0, vec![]))
        .expect("Should work.");

    let a = first.bucket_states[0].get_state(0);
    let b = second.bucket_states[0].get_state(0);
    assert_eq!(a.designations, b.designations);
    assert_eq!(a.ancillary_designations, b.ancillary_designations);
    assert_eq!(a.designations, vec![0, 1]);
    assert_eq!(a.ancillary_designations, vec![Some(1)]);
}

/// Cumulative capacity: for every bucket and round, the designations of
/// rounds 0..=r together never exceed the capacity.
#[test]
fn cumulative_capacity_within_bounds() {
    let basis = small_basis(&[2], 4, 2);
    let ranks = [vec![vec![0, 1, 2, 3], vec![0, 1, 2, 3]]];
    let mut state = BlockDivisionState::new(&basis);
    set_all_ranks(&mut state, &ranks);
    // Round 0: the two best-ranked participants fill the bucket.
    state.set_open_round(Some(0)).expect("Should work.");
    state
        .set_selections_for_current_round(0, one_pick(0, vec![]))
        .expect("Should work.");
    state
        .set_selections_for_current_round(1, one_pick(0, vec![]))
        .expect("Should work.");
    // Round 1: the remaining participants contest the bucket; their ranks
    // sit below every round-0 commitment, so rounds resolve in order.
    state.set_open_round(Some(1)).expect("Should work.");
    state
        .set_selections_for_current_round(2, one_pick(0, vec![]))
        .expect("Should work.");
    state
        .set_selections_for_current_round(3, one_pick(0, vec![]))
        .expect("Should work.");

    let cap = state.basis.bucket_definitions[0].available_slots;
    let mut total = 0;
    for r in 0..2 {
        total += state.bucket_states[0].get_state(r).designations.len();
        assert!(total <= cap);
    }
    assert_eq!(state.bucket_states[0].get_state(0).designations, vec![0, 1]);
    assert!(state.bucket_states[0].get_state(1).designations.is_empty());
}

/// Ancillary exclusivity: across all rounds, each ancillary has at most
/// one holder.
#[test]
fn at_most_one_ancillary_holder() {
    let basis = small_basis(&[3], 3, 3);
    let ranks = [vec![vec![0, 1, 2], vec![0, 1, 2], vec![0, 1, 2]]];
    let mut state = BlockDivisionState::new(&basis);
    set_all_ranks(&mut state, &ranks);
    for round in 0..3 {
        state.set_open_round(Some(round)).expect("Should work.");
        for p in 0..3 {
            state
                .set_selections_for_current_round(p, one_pick(0, vec![0]))
                .expect("Should work.");
        }
    }
    let mut holders: Vec<usize> = Vec::new();
    for r in 0..3 {
        if let Some(h) = state.bucket_states[0].get_state(r).ancillary_designations[0] {
            holders.push(h);
        }
    }
    holders.dedup();
    assert!(holders.len() <= 1);
    assert_eq!(holders, vec![0]);
}

/// Idempotence: resubmitting an unchanged selection set returns the same
/// outcomes and leaves designations unchanged.
#[test]
fn resubmission_is_idempotent() {
    let basis = small_basis(&[1], 2, 1);
    let ranks = [vec![vec![0, 1]]];
    let mut state = BlockDivisionState::new(&basis);
    set_all_ranks(&mut state, &ranks);
    state.set_open_round(Some(0)).expect("Should work.");
    let first = state
        .set_selections_for_current_round(1, one_pick(0, vec![0]))
        .expect("Should work.");
    let designations_before = state.bucket_states[0].get_state(0).designations.clone();
    let second = state
        .set_selections_for_current_round(1, one_pick(0, vec![0]))
        .expect("Should work.");
    assert_eq!(format!("{:?}", first), format!("{:?}", second));
    assert_eq!(
        state.bucket_states[0].get_state(0).designations,
        designations_before
    );
}

/// View censorship: with round 2 of 4 open, the projection keeps rank data
/// for rounds 0..=2 and hides it for round 3; designations stay visible.
#[test]
fn censoring_hides_future_rounds_only() {
    let basis = small_basis(&[2], 3, 4);
    let mut state = BlockDivisionState::new(&basis);
    state.set_open_round(Some(2)).expect("Should work.");
    state
        .set_selections_for_current_round(0, one_pick(0, vec![]))
        .expect("Should work.");
    state.censor_ranks();
    for r in 0..3 {
        assert!(state.bucket_states[0].get_state(r).ranks.is_some());
    }
    assert!(state.bucket_states[0].get_state(3).ranks.is_none());
    assert_eq!(state.bucket_states[0].get_state(2).designations, vec![0]);

    // With no round open, every round's ranks are hidden.
    let mut closed = BlockDivisionState::new(&basis);
    closed.set_open_round(None).expect("Should work.");
    closed.censor_ranks();
    for r in 0..4 {
        assert!(closed.bucket_states[0].get_state(r).ranks.is_none());
    }
}
