//! The mathematical model of the selection resolver: what one resolution
//! pass computes, as a pure function of the basis, the rank tables, and the
//! stored selection contents. The executable resolver in `state.rs` is
//! proved to compute exactly this function.

use vstd::prelude::*;

use crate::basis::BasisModel;
use crate::bucket::spec_winners;
use crate::bucket::BucketStateModel;
use crate::selections::SelectionContent;
use crate::selections::SelectionResultModel;
use crate::sequences::insert_sorted;
use crate::bucket::spec_ancillary_available;

verus! {

/// Dimensions and element validity of a full bucket-state table for
/// `basis`, and the permutation property of every present rank table.
pub open spec fn buckets_wf(basis: BasisModel, bks: Seq<Seq<BucketStateModel>>) -> bool {
    &&& bks.len() == basis.bucket_count()
    &&& forall|b: int| 0 <= b < bks.len() ==> (#[trigger] bks[b]).len() == basis.round_count()
    &&& forall|b: int, r: int|
        0 <= b < bks.len() && 0 <= r < bks[b].len() ==> (#[trigger] bks[b][r]).wf(
            basis.participant_count(),
            basis.ancillary_count(b),
            basis.capacity(b),
        )
}

/// Every cell of the table carries its rank permutation (nothing is
/// censored): the authoritative state resolution works on.
pub open spec fn ranks_complete(bks: Seq<Seq<BucketStateModel>>) -> bool {
    forall|b: int, r: int|
        0 <= b < bks.len() && 0 <= r < bks[b].len() ==> (#[trigger] bks[b][r]).ranks is Some
}

/// One work item of a resolution pass: one stored pick, annotated with the
/// submitting participant's rank for the targeted bucket in the pick's own
/// round.
#[verifier::ext_equal]
pub ghost struct EntryModel {
    pub rank: usize,
    pub round: usize,
    pub participant: usize,
    pub pick: usize,
    pub bucket: usize,
    pub ancillaries: Seq<usize>,
}

impl EntryModel {
    /// The entry indexes existing rows of `basis` and carries a valid
    /// selection content.
    pub open spec fn valid(self, basis: BasisModel) -> bool {
        &&& (self.round as int) < basis.round_count()
        &&& (self.participant as int) < basis.participant_count()
        &&& (self.bucket as int) < basis.bucket_count()
        &&& (self.pick as int) < basis.picks_allowed(self.participant as int, self.round as int)
        &&& crate::selections::strictly_sorted(self.ancillaries)
        &&& forall|i: int|
            0 <= i < self.ancillaries.len() ==> (#[trigger] self.ancillaries[i])
                < basis.ancillary_count(self.bucket as int)
    }
}

/// The rank annotation an entry must carry: the participant's rank in the
/// pick's (round, bucket) cell.
pub open spec fn entry_rank(bks: Seq<Seq<BucketStateModel>>, round: int, p: int, bucket: int) -> usize {
    bks[bucket][round].rank_of(p)
}

// ---------------------------------------------------------------------------
// Gathering: every stored pick of every round and participant, in round,
// participant, pick order.
// ---------------------------------------------------------------------------

/// Entries for the first `upto` picks of participant `p` in round `r`.
pub open spec fn gather_picks(
    row: Seq<Option<SelectionContent>>,
    bks: Seq<Seq<BucketStateModel>>,
    r: int,
    p: int,
    upto: int,
) -> Seq<EntryModel>
    decreases upto,
{
    if upto <= 0 {
        Seq::empty()
    } else {
        gather_picks(row, bks, r, p, upto - 1) + match row[upto - 1] {
            Some(c) => seq![
                EntryModel {
                    rank: entry_rank(bks, r, p, c.bucket_index as int),
                    round: r as usize,
                    participant: p as usize,
                    pick: (upto - 1) as usize,
                    bucket: c.bucket_index,
                    ancillaries: c.ancillaries,
                },
            ],
            None => Seq::empty(),
        }
    }
}

/// Entries for the first `upto` participants of round `r`.
pub open spec fn gather_participants(
    tbl_r: Seq<Seq<Option<SelectionContent>>>,
    bks: Seq<Seq<BucketStateModel>>,
    r: int,
    upto: int,
) -> Seq<EntryModel>
    decreases upto,
{
    if upto <= 0 {
        Seq::empty()
    } else {
        gather_participants(tbl_r, bks, r, upto - 1) + gather_picks(
            tbl_r[upto - 1],
            bks,
            r,
            upto - 1,
            tbl_r[upto - 1].len() as int,
        )
    }
}

/// Entries for the first `upto` rounds.
pub open spec fn gather_rounds(
    tbl: Seq<Seq<Seq<Option<SelectionContent>>>>,
    bks: Seq<Seq<BucketStateModel>>,
    upto: int,
) -> Seq<EntryModel>
    decreases upto,
{
    if upto <= 0 {
        Seq::empty()
    } else {
        gather_rounds(tbl, bks, upto - 1) + gather_participants(
            tbl[upto - 1],
            bks,
            upto - 1,
            tbl[upto - 1].len() as int,
        )
    }
}

/// The full worklist of a resolution pass, before sorting.
pub open spec fn spec_gather(
    tbl: Seq<Seq<Seq<Option<SelectionContent>>>>,
    bks: Seq<Seq<BucketStateModel>>,
) -> Seq<EntryModel> {
    gather_rounds(tbl, bks, tbl.len() as int)
}

// ---------------------------------------------------------------------------
// Sorting: stable insertion sort by rank ascending. The single global
// tie-break: a lower rank is always processed first; equal ranks keep
// gathering order.
// ---------------------------------------------------------------------------

/// Inserts `e` after every element of rank at most `e.rank`.
pub open spec fn insert_by_rank(s: Seq<EntryModel>, e: EntryModel) -> Seq<EntryModel>
    decreases s.len(),
{
    if s.len() == 0 {
        seq![e]
    } else if s.last().rank <= e.rank {
        s.push(e)
    } else {
        insert_by_rank(s.drop_last(), e).push(s.last())
    }
}

/// Stable sort by rank: elements are inserted left to right.
pub open spec fn spec_sort_by_rank(s: Seq<EntryModel>) -> Seq<EntryModel>
    decreases s.len(),
{
    if s.len() == 0 {
        Seq::empty()
    } else {
        insert_by_rank(spec_sort_by_rank(s.drop_last()), s.last())
    }
}

/// Nondecreasing rank order.
pub open spec fn sorted_by_rank(s: Seq<EntryModel>) -> bool {
    forall|i: int, j: int| 0 <= i < j < s.len() ==> s[i].rank <= s[j].rank
}

/// `insert_by_rank` keeps a sequence sorted, adds exactly the new element,
/// and otherwise permutes nothing.
pub proof fn lemma_insert_by_rank(s: Seq<EntryModel>, e: EntryModel)
    requires
        sorted_by_rank(s),
    ensures
        sorted_by_rank(insert_by_rank(s, e)),
        insert_by_rank(s, e).len() == s.len() + 1,
        insert_by_rank(s, e).to_multiset() == s.to_multiset().insert(e),
    decreases s.len(),
{
    broadcast use vstd::seq_lib::group_to_multiset_ensures;

    let r = insert_by_rank(s, e);
    if s.len() == 0 {
        assert(seq![e] =~= Seq::<EntryModel>::empty().push(e));
        assert(r.to_multiset() == s.to_multiset().insert(e));
    } else if s.last().rank <= e.rank {
        assert forall|i: int, j: int| 0 <= i < j < r.len() implies r[i].rank <= r[j].rank by {
            if j == r.len() - 1 {
                assert(r[i] == s[i]);
            }
        }
        assert(s.push(e).to_multiset() == s.to_multiset().insert(e));
    } else {
        assert(sorted_by_rank(s.drop_last()));
        lemma_insert_by_rank(s.drop_last(), e);
        let rd = insert_by_rank(s.drop_last(), e);
        assert forall|i: int, j: int| 0 <= i < j < r.len() implies r[i].rank <= r[j].rank by {
            if j == r.len() - 1 {
                assert(r[j] == s.last());
                if i < rd.len() {
                    lemma_sorted_insert_elements(s.drop_last(), e, i);
                }
            }
        }
        assert(s.drop_last().push(s.last()) =~= s);
        assert(s.to_multiset() == s.drop_last().to_multiset().insert(s.last()));
        assert(rd.push(s.last()).to_multiset() == rd.to_multiset().insert(s.last()));
        assert(r.to_multiset() =~= s.to_multiset().insert(e));
    }
}

/// Each element of `insert_by_rank(s, e)` is either `e` or drawn from `s`.
pub proof fn lemma_sorted_insert_elements(s: Seq<EntryModel>, e: EntryModel, i: int)
    requires
        0 <= i < insert_by_rank(s, e).len(),
    ensures
        insert_by_rank(s, e)[i] == e || s.contains(insert_by_rank(s, e)[i]),
    decreases s.len(),
{
    let r = insert_by_rank(s, e);
    if s.len() == 0 {
    } else if s.last().rank <= e.rank {
        if i < s.len() {
            assert(s[i] == r[i]);
        }
    } else {
        if i == r.len() - 1 {
            assert(s[s.len() - 1] == s.last());
        } else {
            lemma_sorted_insert_elements(s.drop_last(), e, i);
            if s.drop_last().contains(r[i]) {
                let w = choose|w: int| 0 <= w < s.drop_last().len() && s.drop_last()[w] == r[i];
                assert(s[w] == r[i]);
            }
        }
    }
}

/// Sorting yields a sorted permutation of the input.
pub proof fn lemma_sort_by_rank(s: Seq<EntryModel>)
    ensures
        sorted_by_rank(spec_sort_by_rank(s)),
        spec_sort_by_rank(s).len() == s.len(),
        spec_sort_by_rank(s).to_multiset() == s.to_multiset(),
    decreases s.len(),
{
    broadcast use vstd::seq_lib::group_to_multiset_ensures;

    if s.len() > 0 {
        lemma_sort_by_rank(s.drop_last());
        lemma_insert_by_rank(spec_sort_by_rank(s.drop_last()), s.last());
        assert(s.drop_last().push(s.last()) =~= s);
        assert(s.to_multiset() == s.drop_last().to_multiset().insert(s.last()));
    }
}

/// Every element of the sorted worklist is an element of the unsorted one.
pub proof fn lemma_sort_elements(s: Seq<EntryModel>, i: int)
    requires
        0 <= i < spec_sort_by_rank(s).len(),
    ensures
        s.contains(spec_sort_by_rank(s)[i]),
{
    broadcast use vstd::seq_lib::group_to_multiset_ensures;

    lemma_sort_by_rank(s);
    let x = spec_sort_by_rank(s)[i];
    assert(spec_sort_by_rank(s).to_multiset().contains(x));
    assert(s.to_multiset().contains(x));
}

/// Sorting one more element inserts it into the sorted prefix.
pub proof fn lemma_sort_step(s: Seq<EntryModel>, x: EntryModel)
    ensures
        spec_sort_by_rank(s.push(x)) == insert_by_rank(spec_sort_by_rank(s), x),
{
    assert(s.push(x).drop_last() =~= s);
    assert(s.push(x).last() == x);
}

/// `insert_by_rank` splices the new element in at the boundary index
/// between the ranks at most `e.rank` and the ranks above it.
pub proof fn lemma_insert_by_rank_splice(s: Seq<EntryModel>, e: EntryModel, idx: int)
    requires
        sorted_by_rank(s),
        0 <= idx <= s.len(),
        idx > 0 ==> s[idx - 1].rank <= e.rank,
        forall|j: int| idx <= j < s.len() ==> (#[trigger] s[j]).rank > e.rank,
    ensures
        insert_by_rank(s, e) == s.subrange(0, idx).push(e) + s.subrange(idx, s.len() as int),
    decreases s.len(),
{
    if s.len() == 0 {
        assert(insert_by_rank(s, e) =~= s.subrange(0, idx).push(e) + s.subrange(
            idx,
            s.len() as int,
        ));
    } else if s.last().rank <= e.rank {
        assert(idx == s.len());
        assert(s.subrange(0, idx) =~= s);
        assert(insert_by_rank(s, e) =~= s.subrange(0, idx).push(e) + s.subrange(
            idx,
            s.len() as int,
        ));
    } else {
        assert(idx < s.len());
        assert(sorted_by_rank(s.drop_last()));
        lemma_insert_by_rank_splice(s.drop_last(), e, idx);
        assert(insert_by_rank(s, e) =~= s.subrange(0, idx).push(e) + s.subrange(
            idx,
            s.len() as int,
        ));
    }
}

/// Whether the selection-content table stores exactly this entry's content
/// at the entry's own coordinates.
pub open spec fn entry_in_table(
    e: EntryModel,
    tbl: Seq<Seq<Seq<Option<SelectionContent>>>>,
) -> bool {
    tbl[e.round as int][e.participant as int][e.pick as int] == Some(
        SelectionContent { bucket_index: e.bucket, ancillaries: e.ancillaries },
    )
}

/// Dimensions and element validity of a content table (the erased form of
/// `selections_wf`).
pub open spec fn content_wf(tbl: Seq<Seq<Seq<Option<SelectionContent>>>>, basis: BasisModel) -> bool {
    &&& basis.round_count() <= usize::MAX
    &&& basis.participant_count() <= usize::MAX
    &&& tbl.len() == basis.round_count()
    &&& forall|r: int| 0 <= r < tbl.len() ==> (#[trigger] tbl[r]).len() == basis.participant_count()
    &&& forall|r: int, p: int|
        0 <= r < tbl.len() && 0 <= p < tbl[r].len() ==> (#[trigger] tbl[r][p]).len()
            == basis.picks_allowed(p, r)
    &&& forall|r: int, p: int, k: int|
        0 <= r < tbl.len() && 0 <= p < tbl[r].len() && 0 <= k < tbl[r][p].len() && (#[trigger] tbl[r][p][k]) is Some
            ==> {
            let c = tbl[r][p][k].unwrap();
            &&& (c.bucket_index as int) < basis.bucket_count()
            &&& crate::selections::strictly_sorted(c.ancillaries)
            &&& forall|i: int|
                0 <= i < c.ancillaries.len() ==> (#[trigger] c.ancillaries[i])
                    < basis.ancillary_count(c.bucket_index as int)
        }
}

/// Every gathered pick entry is valid for the basis, sits in the table, and
/// carries its cell's rank annotation.
pub proof fn lemma_gather_picks_valid(
    tbl: Seq<Seq<Seq<Option<SelectionContent>>>>,
    bks: Seq<Seq<BucketStateModel>>,
    basis: BasisModel,
    r: int,
    p: int,
    upto: int,
)
    requires
        content_wf(tbl, basis),
        0 <= r < tbl.len(),
        0 <= p < tbl[r].len(),
        upto <= tbl[r][p].len(),
    ensures
        forall|i: int|
            0 <= i < gather_picks(tbl[r][p], bks, r, p, upto).len() ==> {
                let e = #[trigger] gather_picks(tbl[r][p], bks, r, p, upto)[i];
                e.valid(basis) && entry_in_table(e, tbl) && e.rank == entry_rank(
                    bks,
                    e.round as int,
                    e.participant as int,
                    e.bucket as int,
                )
            },
    decreases upto,
{
    if upto > 0 {
        lemma_gather_picks_valid(tbl, bks, basis, r, p, upto - 1);
        let left = gather_picks(tbl[r][p], bks, r, p, upto - 1);
        let whole = gather_picks(tbl[r][p], bks, r, p, upto);
        assert forall|i: int| 0 <= i < whole.len() implies {
            let e = #[trigger] whole[i];
            e.valid(basis) && entry_in_table(e, tbl) && e.rank == entry_rank(
                bks,
                e.round as int,
                e.participant as int,
                e.bucket as int,
            )
        } by {
            if i < left.len() {
                assert(whole[i] == left[i]);
            } else {
                assert(tbl[r][p][upto - 1] is Some);
                let c = tbl[r][p][upto - 1].unwrap();
                assert(whole[i] == EntryModel {
                    rank: entry_rank(bks, r, p, c.bucket_index as int),
                    round: r as usize,
                    participant: p as usize,
                    pick: (upto - 1) as usize,
                    bucket: c.bucket_index,
                    ancillaries: c.ancillaries,
                });
                assert(SelectionContent {
                    bucket_index: c.bucket_index,
                    ancillaries: c.ancillaries,
                } =~= c);
            }
        }
    }
}

/// Every gathered entry of one round is valid, in the table, and carries
/// its cell's rank.
pub proof fn lemma_gather_participants_valid(
    tbl: Seq<Seq<Seq<Option<SelectionContent>>>>,
    bks: Seq<Seq<BucketStateModel>>,
    basis: BasisModel,
    r: int,
    upto: int,
)
    requires
        content_wf(tbl, basis),
        0 <= r < tbl.len(),
        upto <= tbl[r].len(),
    ensures
        forall|i: int|
            0 <= i < gather_participants(tbl[r], bks, r, upto).len() ==> {
                let e = #[trigger] gather_participants(tbl[r], bks, r, upto)[i];
                e.valid(basis) && entry_in_table(e, tbl) && e.rank == entry_rank(
                    bks,
                    e.round as int,
                    e.participant as int,
                    e.bucket as int,
                )
            },
    decreases upto,
{
    if upto > 0 {
        lemma_gather_participants_valid(tbl, bks, basis, r, upto - 1);
        lemma_gather_picks_valid(tbl, bks, basis, r, upto - 1, tbl[r][upto - 1].len() as int);
        let left = gather_participants(tbl[r], bks, r, upto - 1);
        let right = gather_picks(tbl[r][upto - 1], bks, r, upto - 1, tbl[r][upto - 1].len() as int);
        let whole = gather_participants(tbl[r], bks, r, upto);
        assert forall|i: int| 0 <= i < whole.len() implies {
            let e = #[trigger] whole[i];
            e.valid(basis) && entry_in_table(e, tbl) && e.rank == entry_rank(
                bks,
                e.round as int,
                e.participant as int,
                e.bucket as int,
            )
        } by {
            if i < left.len() {
                assert(whole[i] == left[i]);
            } else {
                assert(whole[i] == right[i - left.len()]);
            }
        }
    }
}

/// Every entry of the full worklist is valid, in the table, and carries its
/// cell's rank.
pub proof fn lemma_gather_valid(
    tbl: Seq<Seq<Seq<Option<SelectionContent>>>>,
    bks: Seq<Seq<BucketStateModel>>,
    basis: BasisModel,
    upto: int,
)
    requires
        content_wf(tbl, basis),
        upto <= tbl.len(),
    ensures
        forall|i: int|
            0 <= i < gather_rounds(tbl, bks, upto).len() ==> {
                let e = #[trigger] gather_rounds(tbl, bks, upto)[i];
                e.valid(basis) && entry_in_table(e, tbl) && e.rank == entry_rank(
                    bks,
                    e.round as int,
                    e.participant as int,
                    e.bucket as int,
                )
            },
    decreases upto,
{
    if upto > 0 {
        lemma_gather_valid(tbl, bks, basis, upto - 1);
        lemma_gather_participants_valid(tbl, bks, basis, upto - 1, tbl[upto - 1].len() as int);
        let left = gather_rounds(tbl, bks, upto - 1);
        let right = gather_participants(tbl[upto - 1], bks, upto - 1, tbl[upto - 1].len() as int);
        let whole = gather_rounds(tbl, bks, upto);
        assert forall|i: int| 0 <= i < whole.len() implies {
            let e = #[trigger] whole[i];
            e.valid(basis) && entry_in_table(e, tbl) && e.rank == entry_rank(
                bks,
                e.round as int,
                e.participant as int,
                e.bucket as int,
            )
        } by {
            if i < left.len() {
                assert(whole[i] == left[i]);
            } else {
                assert(whole[i] == right[i - left.len()]);
            }
        }
    }
}

// ---------------------------------------------------------------------------
// One attempt: the commit-or-reject rule for a single entry.
// ---------------------------------------------------------------------------

/// Whether the participant loses ancillary `a` of the entry's bucket:
/// either an earlier round gave it to someone else (sticky ownership), or
/// the current round's holder outranks the participant.
pub open spec fn spec_ancillary_lost(
    rounds_b: Seq<BucketStateModel>,
    round: int,
    p: usize,
    a: usize,
) -> bool {
    ||| !spec_ancillary_available(rounds_b, round, a as int, p)
    ||| match rounds_b[round].ancillary_designations[a as int] {
        Some(q) => rounds_b[round].rank_of(p as int) > rounds_b[round].rank_of(q as int),
        None => false,
    }
}

/// The failing ancillaries among the first `upto` requested ones, in
/// request order.
pub open spec fn spec_bad_ancillaries(
    rounds_b: Seq<BucketStateModel>,
    round: int,
    p: usize,
    ancs: Seq<usize>,
    upto: int,
) -> Seq<usize>
    decreases upto,
{
    if upto <= 0 {
        Seq::empty()
    } else {
        let rest = spec_bad_ancillaries(rounds_b, round, p, ancs, upto - 1);
        if spec_ancillary_lost(rounds_b, round, p, ancs[upto - 1]) {
            rest.push(ancs[upto - 1])
        } else {
            rest
        }
    }
}

/// Slots of this bucket consumed by the rounds strictly before `round`.
pub open spec fn spec_used_before(rounds_b: Seq<BucketStateModel>, round: int) -> int
    decreases round,
{
    if round <= 0 {
        0
    } else {
        spec_used_before(rounds_b, round - 1) + rounds_b[round - 1].designations.len()
    }
}

/// Capacity left for `round`: the bucket's capacity minus what earlier
/// rounds consumed, and never negative.
pub open spec fn spec_slots_available(cap: usize, rounds_b: Seq<BucketStateModel>, round: int) -> int {
    if cap - spec_used_before(rounds_b, round) >= 0 {
        cap - spec_used_before(rounds_b, round)
    } else {
        0
    }
}

/// Records the participant as holder of every requested ancillary.
pub open spec fn spec_assign_ancillaries(
    anc: Seq<Option<usize>>,
    ancs: Seq<usize>,
    p: usize,
) -> Seq<Option<usize>> {
    Seq::new(anc.len(), |a: int| if ancs.contains(a as usize) {
        Some(p)
    } else {
        anc[a]
    })
}

/// Result and new bucket-state table of attempting one entry.
#[verifier::ext_equal]
pub ghost struct AttemptOutcome {
    pub result: SelectionResultModel,
    pub buckets: Seq<Seq<BucketStateModel>>,
}

/// The commit-or-reject rule of the resolver, for one pick of participant
/// `p` in `round`: the ancillary check first, then the cumulative capacity
/// check, then winner selection among the current designees plus `p`.
pub open spec fn spec_attempt(
    basis: BasisModel,
    bks: Seq<Seq<BucketStateModel>>,
    round: int,
    p: usize,
    c: SelectionContent,
) -> AttemptOutcome {
    let b = c.bucket_index as int;
    let rounds_b = bks[b];
    let bad = spec_bad_ancillaries(rounds_b, round, p, c.ancillaries, c.ancillaries.len() as int);
    if bad.len() > 0 {
        AttemptOutcome {
            result: SelectionResultModel::RejectedAncillaryUnavailable(bad),
            buckets: bks,
        }
    } else {
        let slots = spec_slots_available(basis.capacity(b), rounds_b, round);
        if slots <= 0 {
            AttemptOutcome { result: SelectionResultModel::RejectedNoCapacity, buckets: bks }
        } else {
            let cands = insert_sorted(rounds_b[round].designations, p);
            let wins = spec_winners(rounds_b[round].ranks.unwrap(), cands, slots);
            if wins.contains(p) {
                let cell = BucketStateModel {
                    designations: wins,
                    ancillary_designations: spec_assign_ancillaries(
                        rounds_b[round].ancillary_designations,
                        c.ancillaries,
                        p,
                    ),
                    ranks: rounds_b[round].ranks,
                };
                AttemptOutcome {
                    result: SelectionResultModel::Confirmed,
                    buckets: bks.update(b, rounds_b.update(round, cell)),
                }
            } else {
                AttemptOutcome { result: SelectionResultModel::RejectedOutranked, buckets: bks }
            }
        }
    }
}

/// An attempt on a valid entry keeps the bucket-state table well formed,
/// never touches a rank table, and changes at most the entry's own
/// (bucket, round) cell.
pub proof fn lemma_attempt_wf(
    basis: BasisModel,
    bks: Seq<Seq<BucketStateModel>>,
    round: int,
    p: usize,
    c: SelectionContent,
)
    requires
        basis.wf(),
        buckets_wf(basis, bks),
        0 <= round < basis.round_count(),
        (p as int) < basis.participant_count(),
        (c.bucket_index as int) < basis.bucket_count(),
        crate::selections::strictly_sorted(c.ancillaries),
        forall|i: int|
            0 <= i < c.ancillaries.len() ==> (#[trigger] c.ancillaries[i]) < basis.ancillary_count(
                c.bucket_index as int,
            ),
        bks[c.bucket_index as int][round].ranks is Some,
    ensures
        buckets_wf(basis, spec_attempt(basis, bks, round, p, c).buckets),
        forall|b: int, r: int|
            0 <= b < bks.len() && 0 <= r < bks[b].len() ==> (#[trigger] spec_attempt(
                basis,
                bks,
                round,
                p,
                c,
            ).buckets[b][r]).ranks == bks[b][r].ranks,
        forall|b: int, r: int|
            0 <= b < bks.len() && 0 <= r < bks[b].len() && !(b == c.bucket_index as int && r
                == round) ==> (#[trigger] spec_attempt(basis, bks, round, p, c).buckets[b][r])
                == bks[b][r],
        spec_attempt(basis, bks, round, p, c).buckets.len() == bks.len(),
        forall|b: int|
            0 <= b < bks.len() ==> (#[trigger] spec_attempt(basis, bks, round, p, c).buckets[b]).len()
                == bks[b].len(),
{
    let o = spec_attempt(basis, bks, round, p, c);
    let b = c.bucket_index as int;
    let rounds_b = bks[b];
    let cell = rounds_b[round];
    let n = basis.participant_count();
    let bad = spec_bad_ancillaries(rounds_b, round, p, c.ancillaries, c.ancillaries.len() as int);
    if bad.len() > 0 {
    } else {
        let slots = spec_slots_available(basis.capacity(b), rounds_b, round);
        if slots <= 0 {
        } else {
            let cands = insert_sorted(cell.designations, p);
            let rk = cell.ranks.unwrap();
            crate::sequences::lemma_insert_sorted(cell.designations, p);
            assert(forall|i: int|
                0 <= i < cands.len() ==> (#[trigger] cands[i]) < n) by {
                assert forall|i: int| 0 <= i < cands.len() implies (#[trigger] cands[i]) < n by {
                    assert(cands.contains(cands[i]));
                    if cell.designations.contains(cands[i]) {
                        let w = choose|w: int|
                            0 <= w < cell.designations.len() && cell.designations[w] == cands[i];
                    }
                }
            }
            crate::bucket::lemma_winners(rk, cands, slots);
            let wins = spec_winners(rk, cands, slots);
            if wins.contains(p) {
                let newcell = o.buckets[b][round];
                assert(wins.len() <= slots);
                assert(spec_used_before(rounds_b, round) >= 0) by {
                    lemma_used_before_nonneg(rounds_b, round);
                }
                assert(newcell.designations.len() <= basis.capacity(b));
                assert forall|i: int|
                    0 <= i < newcell.designations.len() implies (#[trigger] newcell.designations[i])
                    < n by {
                    assert(cands.contains(wins[i]));
                }
                assert(newcell.wf(n, basis.ancillary_count(b), basis.capacity(b)));
                assert(buckets_wf(basis, o.buckets));
            }
        }
    }
}

/// An empty failing-ancillary list means no requested ancillary was lost.
pub proof fn lemma_bad_empty(
    rounds_b: Seq<BucketStateModel>,
    round: int,
    p: usize,
    ancs: Seq<usize>,
    upto: int,
)
    requires
        spec_bad_ancillaries(rounds_b, round, p, ancs, upto).len() == 0,
    ensures
        forall|k: int| 0 <= k < upto ==> !spec_ancillary_lost(rounds_b, round, p, ancs[k]),
    decreases upto,
{
    if upto > 0 {
        lemma_bad_empty(rounds_b, round, p, ancs, upto - 1);
    }
}

/// A confirmed attempt commits at most the slots still available, and only
/// happens while some slot is available.
pub proof fn lemma_attempt_capacity(
    basis: BasisModel,
    bks: Seq<Seq<BucketStateModel>>,
    round: int,
    p: usize,
    c: SelectionContent,
)
    requires
        basis.wf(),
        buckets_wf(basis, bks),
        0 <= round < basis.round_count(),
        (p as int) < basis.participant_count(),
        (c.bucket_index as int) < basis.bucket_count(),
        crate::selections::strictly_sorted(c.ancillaries),
        bks[c.bucket_index as int][round].ranks is Some,
        spec_attempt(basis, bks, round, p, c).result is Confirmed,
    ensures
        spec_slots_available(basis.capacity(c.bucket_index as int), bks[c.bucket_index as int], round) > 0,
        spec_attempt(basis, bks, round, p, c).buckets[c.bucket_index as int][round].designations.len()
            <= spec_slots_available(
            basis.capacity(c.bucket_index as int),
            bks[c.bucket_index as int],
            round,
        ),
{
    let b = c.bucket_index as int;
    let rounds_b = bks[b];
    let cell = rounds_b[round];
    let slots = spec_slots_available(basis.capacity(b), rounds_b, round);
    let cands = insert_sorted(cell.designations, p);
    let rk = cell.ranks.unwrap();
    crate::sequences::lemma_insert_sorted(cell.designations, p);
    assert forall|i: int| 0 <= i < cands.len() implies (#[trigger] cands[i]) < rk.len() by {
        assert(cands.contains(cands[i]));
        if cell.designations.contains(cands[i]) {
            let w = choose|w: int|
                0 <= w < cell.designations.len() && cell.designations[w] == cands[i];
        }
    }
    crate::bucket::lemma_winners(rk, cands, slots);
}

/// `spec_used_before` reads only the designations of the rounds before
/// `round`; tables agreeing there agree on it.
pub proof fn lemma_used_before_agree(
    s1: Seq<BucketStateModel>,
    s2: Seq<BucketStateModel>,
    round: int,
)
    requires
        forall|r: int| 0 <= r < round ==> (#[trigger] s1[r]).designations == s2[r].designations,
    ensures
        spec_used_before(s1, round) == spec_used_before(s2, round),
    decreases round,
{
    if round > 0 {
        lemma_used_before_agree(s1, s2, round - 1);
    }
}

/// Rounds with no designations consume nothing.
pub proof fn lemma_used_before_empty_range(s: Seq<BucketStateModel>, r1: int, r2: int)
    requires
        0 <= r1 <= r2,
        forall|r: int| r1 <= r < r2 ==> (#[trigger] s[r]).designations.len() == 0,
    ensures
        spec_used_before(s, r2) == spec_used_before(s, r1),
    decreases r2 - r1,
{
    if r1 < r2 {
        lemma_used_before_empty_range(s, r1, r2 - 1);
    }
}

/// The consumed-slot count is never negative.
pub proof fn lemma_used_before_nonneg(rounds_b: Seq<BucketStateModel>, round: int)
    ensures
        spec_used_before(rounds_b, round) >= 0,
    decreases round,
{
    if round > 0 {
        lemma_used_before_nonneg(rounds_b, round - 1);
    }
}

/// Later rounds only ever see more consumed slots.
pub proof fn lemma_used_before_mono(rounds_b: Seq<BucketStateModel>, r1: int, r2: int)
    requires
        r1 <= r2,
    ensures
        spec_used_before(rounds_b, r1) <= spec_used_before(rounds_b, r2),
    decreases r2 - r1,
{
    if r1 < r2 {
        lemma_used_before_mono(rounds_b, r1, r2 - 1);
        if r2 > 0 {
        }
    }
}

// ---------------------------------------------------------------------------
// The full pass: clear everything, then fold the sorted worklist.
// ---------------------------------------------------------------------------

/// The bucket-state table with every designation and ancillary assignment
/// cleared and every rank table kept.
pub open spec fn spec_cleared(bks: Seq<Seq<BucketStateModel>>) -> Seq<Seq<BucketStateModel>> {
    Seq::new(
        bks.len(),
        |b: int|
            Seq::new(
                bks[b].len(),
                |r: int|
                    BucketStateModel {
                        designations: Seq::empty(),
                        ancillary_designations: Seq::new(
                            bks[b][r].ancillary_designations.len(),
                            |a: int| None,
                        ),
                        ranks: bks[b][r].ranks,
                    },
            ),
    )
}

/// A result table with the dimensions of the selection-content table and no
/// outcome recorded yet.
pub open spec fn spec_no_results(tbl: Seq<Seq<Seq<Option<SelectionContent>>>>) -> Seq<
    Seq<Seq<Option<SelectionResultModel>>>,
> {
    Seq::new(
        tbl.len(),
        |r: int|
            Seq::new(tbl[r].len(), |p: int| Seq::new(tbl[r][p].len(), |k: int| None)),
    )
}

/// Bucket-state table and per-pick outcome table threaded through the fold.
#[verifier::ext_equal]
pub ghost struct ResolutionModel {
    pub buckets: Seq<Seq<BucketStateModel>>,
    pub results: Seq<Seq<Seq<Option<SelectionResultModel>>>>,
}

/// Records one outcome at `[round][participant][pick]`.
pub open spec fn record_result(
    results: Seq<Seq<Seq<Option<SelectionResultModel>>>>,
    round: int,
    p: int,
    k: int,
    res: SelectionResultModel,
) -> Seq<Seq<Seq<Option<SelectionResultModel>>>> {
    results.update(round, results[round].update(p, results[round][p].update(k, Some(res))))
}

/// Applies the first `upto` entries in order.
pub open spec fn spec_apply(
    basis: BasisModel,
    st: ResolutionModel,
    entries: Seq<EntryModel>,
    upto: int,
) -> ResolutionModel
    decreases upto,
{
    if upto <= 0 {
        st
    } else {
        let prev = spec_apply(basis, st, entries, upto - 1);
        let e = entries[upto - 1];
        let o = spec_attempt(
            basis,
            prev.buckets,
            e.round as int,
            e.participant,
            SelectionContent { bucket_index: e.bucket, ancillaries: e.ancillaries },
        );
        ResolutionModel {
            buckets: o.buckets,
            results: record_result(
                prev.results,
                e.round as int,
                e.participant as int,
                e.pick as int,
                o.result,
            ),
        }
    }
}

/// The resolver as a pure function: clear, gather, sort by rank, fold.
/// Everything a resolution pass leaves behind is this function of the
/// basis, the rank tables, and the stored selection contents alone.
pub open spec fn spec_resolve(
    basis: BasisModel,
    bks: Seq<Seq<BucketStateModel>>,
    tbl: Seq<Seq<Seq<Option<SelectionContent>>>>,
) -> ResolutionModel {
    let entries = spec_sort_by_rank(spec_gather(tbl, bks));
    spec_apply(
        basis,
        ResolutionModel { buckets: spec_cleared(bks), results: spec_no_results(tbl) },
        entries,
        entries.len() as int,
    )
}

} // verus!
