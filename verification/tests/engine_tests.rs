use block_divider::basis::BlockDivisionBasis;
use block_divider::basis::BucketDef;
use block_divider::basis::ParticipantDef;
use block_divider::selections::Selection;
use block_divider::selections::SelectionResult;
use block_divider::state::BlockDivisionState;

fn bucketname(i: usize) -> String {
    "Bucket ".to_string() + &i.to_string()
}

fn create_basis() -> BlockDivisionBasis {
    let mut buckets: Vec<BucketDef> = Vec::new();
    for n in [0usize, 1, 2, 3, 4, 5] {
        buckets.insert(
            n,
            BucketDef {
                name: bucketname(n),
                available_slots: 5,
                available_ancillaries: Vec::from(["Black Butte".to_string()]),
            },
        );
    }

    let rounds: Vec<String> = Vec::from([
        "Predesignation".to_string(),
        "Round 1".to_string(),
        "Round 2".to_string(),
        "Round 3".to_string(),
    ]);

    let mut round_picks: Vec<usize> = Vec::new();
    for n in 0..rounds.len() {
        round_picks.insert(n, 1);
    }

    let mut participants: Vec<ParticipantDef> = Vec::new();
    for participant in [
        (0usize, "Participant A", "testing_a@autoscheda.com"),
        (1usize, "Participant B", "testing_b@autoscheda.com"),
        (2usize, "Participant C", "testing_c@autoscheda.com"),
    ] {
        participants.insert(
            participant.0,
            ParticipantDef::create(
                participant.1.to_string(),
                participant.2.to_string(),
                round_picks.clone(),
            ),
        );
    }

    BlockDivisionBasis::create(buckets, participants, rounds).expect("Should work.")
}

/// The submission-and-recomputation flow of the original engine: with one
/// pick per round, participant 0's selection of bucket 0 with its ancillary
/// in the opened first round must end designated.
#[test]
fn state_selection_and_calculation() {
    let basis = create_basis();
    let mut bds = BlockDivisionState::new(&basis);

    let participant_index = 0usize;
    let current_bucket_index = 0usize;
    let current_round_index = 0usize;

    let mut selections_a: Vec<Option<Selection>> = Vec::new();
    for _n in 0..1 {
        selections_a.push(Some(Selection {
            bucket_index: current_bucket_index,
            ancillaries: vec![0],
            state: None,
        }));
    }

    bds.set_open_round(Some(current_round_index))
        .expect("Couldn't set open round.");
    bds.set_selections_for_current_round(participant_index, selections_a)
        .expect("Should be able to input selection.");

    assert!(current_round_index == (*bds.get_current_open_round()).expect("Should not be none."));

    let pertinent_designations = &bds.bucket_states[current_bucket_index]
        .get_state(current_round_index)
        .designations;

    let correctly_assigned = pertinent_designations.contains(&participant_index);
    if !correctly_assigned {
        println!(
            "Assignment failed. Designations for bucket {} and round {} are {:?}",
            bucketname(current_bucket_index),
            current_round_index,
            pertinent_designations
        );
    }
    assert!(correctly_assigned);
}

/// Builds a small division with hand-picked rank tables so outcomes are
/// deterministic: `ranks[bucket][round][participant]`.
fn state_with_ranks(
    capacities: &[usize],
    ancillaries_per_bucket: usize,
    participant_picks: &[Vec<usize>],
    round_count: usize,
    ranks: &[Vec<Vec<usize>>],
) -> BlockDivisionState {
    let mut buckets: Vec<BucketDef> = Vec::new();
    for (i, cap) in capacities.iter().enumerate() {
        let mut anc = Vec::new();
        for a in 0..ancillaries_per_bucket {
            anc.push(format!("ancillary {} of bucket {}", a, i));
        }
        buckets.push(BucketDef {
            name: bucketname(i),
            available_slots: *cap,
            available_ancillaries: anc,
        });
    }
    let mut participants: Vec<ParticipantDef> = Vec::new();
    for (i, picks) in participant_picks.iter().enumerate() {
        participants.push(ParticipantDef::create(
            format!("P{}", i),
            format!("p{}@example.com", i),
            picks.clone(),
        ));
    }
    let mut rounds = Vec::new();
    for r in 0..round_count {
        rounds.push(format!("round {}", r));
    }
    let basis = BlockDivisionBasis::create(buckets, participants, rounds).expect("Should work.");
    let mut state = BlockDivisionState::new(&basis);
    for (b, per_round) in ranks.iter().enumerate() {
        for (r, table) in per_round.iter().enumerate() {
            state.bucket_states[b].round_states[r].ranks = Some(table.clone());
        }
    }
    state
}

fn one_pick(bucket: usize, ancillaries: Vec<usize>) -> Vec<Option<Selection>> {
    vec![Some(Selection {
        bucket_index: bucket,
        ancillaries,
        state: None,
    })]
}

/// The worked example of the design: one bucket of capacity 2, two rounds,
/// three participants with ranks 0, 1, 2 in round 0. The two best-ranked
/// win the first round; the third is outranked, and the bucket is full for
/// the second round whatever the ranks there say.
#[test]
fn capacity_example() {
    let ranks = [vec![vec![0, 1, 2], vec![0, 1, 2]]];
    let mut state = state_with_ranks(&[2], 0, &[vec![1, 1], vec![1, 1], vec![1, 1]], 2, &ranks);

    state.set_open_round(Some(0)).expect("Should work.");
    let r0 = state
        .set_selections_for_current_round(0, one_pick(0, vec![]))
        .expect("Should work.");
    assert!(matches!(r0[0], Some(SelectionResult::Confirmed)));
    let r1 = state
        .set_selections_for_current_round(1, one_pick(0, vec![]))
        .expect("Should work.");
    assert!(matches!(r1[0], Some(SelectionResult::Confirmed)));
    let r2 = state
        .set_selections_for_current_round(2, one_pick(0, vec![]))
        .expect("Should work.");
    assert!(matches!(r2[0], Some(SelectionResult::RejectedOutranked)));

    // Winners are the two lowest ranks.
    let designations = &state.bucket_states[0].get_state(0).designations;
    assert_eq!(designations, &vec![0usize, 1]);

    // Round 1: remaining capacity is 2 - 2 = 0; any selection is rejected
    // for capacity, regardless of rank.
    state.set_open_round(Some(1)).expect("Should work.");
    let r2b = state
        .set_selections_for_current_round(2, one_pick(0, vec![]))
        .expect("Should work.");
    assert!(matches!(r2b[0], Some(SelectionResult::RejectedNoCapacity)));
    assert!(state.bucket_states[0].get_state(1).designations.is_empty());
}

/// The best-ranked participant wins an ancillary contest in the same
/// round; the loser's whole selection is rejected with the failing
/// ancillary listed.
#[test]
fn ancillary_contest_same_round() {
    let ranks = [vec![vec![1, 0, 2]]];
    let mut state = state_with_ranks(&[3], 1, &[vec![1], vec![1], vec![1]], 1, &ranks);

    state.set_open_round(Some(0)).expect("Should work.");
    let ra = state
        .set_selections_for_current_round(1, one_pick(0, vec![0]))
        .expect("Should work.");
    assert!(matches!(ra[0], Some(SelectionResult::Confirmed)));

    // Participant 0 is outranked by the current holder (rank 0 < rank 1).
    let rb = state
        .set_selections_for_current_round(0, one_pick(0, vec![0]))
        .expect("Should work.");
    match &rb[0] {
        Some(SelectionResult::RejectedAncillaryUnavailable(bad)) => {
            assert_eq!(bad, &vec![0usize]);
        }
        other => panic!("unexpected outcome: {:?}", other),
    }
    assert_eq!(
        state.bucket_states[0].get_state(0).ancillary_designations[0],
        Some(1)
    );
    // Losing the ancillary rejects the whole pick: no slot either.
    assert_eq!(state.bucket_states[0].get_state(0).designations, vec![1]);
}

/// Ancillary ownership is sticky across rounds: once round 0 assigned the
/// ancillary, a round-1 contender is rejected even though round 1's ranks
/// favor it.
#[test]
fn ancillary_sticky_across_rounds() {
    let ranks = [vec![vec![0, 1], vec![1, 0]]];
    let mut state = state_with_ranks(&[4], 1, &[vec![1, 1], vec![1, 1]], 2, &ranks);

    state.set_open_round(Some(0)).expect("Should work.");
    let ra = state
        .set_selections_for_current_round(0, one_pick(0, vec![0]))
        .expect("Should work.");
    assert!(matches!(ra[0], Some(SelectionResult::Confirmed)));

    state.set_open_round(Some(1)).expect("Should work.");
    let rb = state
        .set_selections_for_current_round(1, one_pick(0, vec![0]))
        .expect("Should work.");
    match &rb[0] {
        Some(SelectionResult::RejectedAncillaryUnavailable(bad)) => {
            assert_eq!(bad, &vec![0usize]);
        }
        other => panic!("unexpected outcome: {:?}", other),
    }
    // The holder from round 0 keeps the ancillary; round 1 assigns nobody.
    assert_eq!(
        state.bucket_states[0].get_state(0).ancillary_designations[0],
        Some(0)
    );
    assert_eq!(
        state.bucket_states[0].get_state(1).ancillary_designations[0],
        None
    );
}

/// A submission's ancillary list is normalized to a sorted set before it
/// is stored: duplicates collapse and order is canonical.
#[test]
fn ancillary_list_normalized() {
    let ranks = [vec![vec![0, 1]]];
    let mut state = state_with_ranks(&[2], 3, &[vec![1], vec![1]], 1, &ranks);

    state.set_open_round(Some(0)).expect("Should work.");
    state
        .set_selections_for_current_round(0, one_pick(0, vec![2, 0, 2, 0]))
        .expect("Should work.");
    let stored = state.selections.state[0][0][0]
        .as_ref()
        .expect("Should be stored.");
    assert_eq!(stored.ancillaries, vec![0usize, 2]);
    assert_eq!(
        state.bucket_states[0].get_state(0).ancillary_designations,
        vec![Some(0), None, Some(0)]
    );
}

/// `get_winners` keeps exactly the `k` best-ranked candidates.
#[test]
fn winners_are_best_ranked() {
    let ranks = [vec![vec![2, 0, 1]]];
    let state = state_with_ranks(&[3], 0, &[vec![1], vec![1], vec![1]], 1, &ranks);
    let cell = state.bucket_states[0].get_state(0);
    let winners = cell.get_winners(&vec![0, 1, 2], 2);
    assert_eq!(winners, vec![1, 2]);
    let winners_all = cell.get_winners(&vec![0, 1, 2], 3);
    assert_eq!(winners_all, vec![0, 1, 2]);
    assert!(cell.is_winner(1, 0));
    assert!(!cell.is_winner(0, 1));
    assert_eq!(cell.get_rank(0), 2);
}

/// Submissions replace the participant's previous row for the round: only
/// the latest stored picks count in the recomputation.
#[test]
fn resubmission_replaces_previous_row() {
    let ranks = [vec![vec![0, 1]], vec![vec![1, 0]]];
    let mut state = state_with_ranks(&[1, 1], 0, &[vec![1], vec![1]], 1, &ranks);

    state.set_open_round(Some(0)).expect("Should work.");
    state
        .set_selections_for_current_round(0, one_pick(0, vec![]))
        .expect("Should work.");
    assert_eq!(state.bucket_states[0].get_state(0).designations, vec![0]);

    // Participant 0 switches to bucket 1; bucket 0 must empty out.
    state
        .set_selections_for_current_round(0, one_pick(1, vec![]))
        .expect("Should work.");
    assert!(state.bucket_states[0].get_state(0).designations.is_empty());
    assert_eq!(state.bucket_states[1].get_state(0).designations, vec![0]);
}
