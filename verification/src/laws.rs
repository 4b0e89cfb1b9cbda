//! The engine's global guarantees, stated and proved over the resolution
//! model: rank tables cover the whole rank space, recomputation is a pure
//! function of ranks and stored selections, and resubmitting an unchanged
//! selection set changes nothing.

use vstd::prelude::*;

use crate::basis::BasisModel;
use crate::bucket::BucketStateModel;
use crate::resolve::buckets_wf;
use crate::resolve::entry_rank;
use crate::resolve::gather_participants;
use crate::resolve::gather_picks;
use crate::resolve::gather_rounds;
use crate::resolve::ranks_complete;
use crate::resolve::spec_cleared;
use crate::resolve::spec_gather;
use crate::resolve::spec_resolve;
use crate::selections::SelectionContent;
use crate::selections::SelectionModel;
use crate::state::normalized_content_row;
use crate::state::spec_submitted_content;
use crate::state::StateModel;

verus! {

/// The ranks assigned by one (round, bucket) cell, as a set of integers.
pub open spec fn rank_set(rk: Seq<usize>) -> Set<int> {
    rk.map_values(|x: usize| x as int).to_set()
}

/// Every rank table covers the rank space exactly: in every (round,
/// bucket) cell of a well-formed, uncensored state, the set of assigned
/// ranks equals `{0, ..., participant_count - 1}`, with no duplicates.
pub proof fn lemma_rank_table_full_range(m: StateModel, b: int, r: int)
    requires
        m.wf(),
        m.ranks_complete(),
        0 <= b < m.buckets.len(),
        0 <= r < m.buckets[b].len(),
    ensures
        rank_set(m.buckets[b][r].ranks.unwrap()) == vstd::set_lib::set_int_range(
            0,
            m.basis.participant_count() as int,
        ),
        m.buckets[b][r].ranks.unwrap().no_duplicates(),
{
    let rk = m.buckets[b][r].ranks.unwrap();
    let n = m.basis.participant_count() as int;
    let g = rk.map_values(|x: usize| x as int);
    assert(m.buckets[b][r].wf(m.basis.participant_count(), m.basis.ancillary_count(b), m.basis.capacity(b)));
    assert(crate::bucket::is_rank_permutation(rk, m.basis.participant_count()));
    assert(g.no_duplicates());
    assert(rk.no_duplicates());
    g.unique_seq_to_set();
    let range = vstd::set_lib::set_int_range(0, n);
    vstd::set_lib::lemma_int_range(0, n);
    assert(g.to_set().subset_of(range)) by {
        assert forall|x: int| g.to_set().contains(x) implies range.contains(x) by {
            let i = choose|i: int| 0 <= i < g.len() && g[i] == x;
        }
    }
    vstd::set_lib::lemma_subset_equality(g.to_set(), range);
}

/// Pointwise agreement of two bucket-state tables on everything the
/// resolver reads from its input table: dimensions and rank tables.
pub open spec fn same_ranks(a: Seq<Seq<BucketStateModel>>, b: Seq<Seq<BucketStateModel>>) -> bool {
    &&& a.len() == b.len()
    &&& forall|i: int| 0 <= i < a.len() ==> (#[trigger] a[i]).len() == b[i].len()
    &&& forall|i: int, j: int|
        0 <= i < a.len() && 0 <= j < a[i].len() ==> (#[trigger] a[i][j]).ranks == b[i][j].ranks
            && a[i][j].ancillary_designations.len() == b[i][j].ancillary_designations.len()
}

/// Every stored pick of the table targets an existing (bucket, round)
/// cell of the bucket-state table.
pub open spec fn table_in_bounds(
    tbl: Seq<Seq<Seq<Option<SelectionContent>>>>,
    bks: Seq<Seq<BucketStateModel>>,
) -> bool {
    forall|r: int, p: int, k: int|
        0 <= r < tbl.len() && 0 <= p < tbl[r].len() && 0 <= k < tbl[r][p].len() && (
        #[trigger] tbl[r][p][k]) is Some ==> (tbl[r][p][k].unwrap().bucket_index as int)
            < bks.len() && r < bks[tbl[r][p][k].unwrap().bucket_index as int].len()
}

/// Gathering reads only the rank tables of the bucket states.
proof fn lemma_gather_picks_ranks_only(
    row: Seq<Option<SelectionContent>>,
    a: Seq<Seq<BucketStateModel>>,
    b: Seq<Seq<BucketStateModel>>,
    r: int,
    p: int,
    upto: int,
)
    requires
        same_ranks(a, b),
        forall|k: int|
            0 <= k < row.len() && (#[trigger] row[k]) is Some ==> (
            row[k].unwrap().bucket_index as int) < a.len() && 0 <= r
                < a[row[k].unwrap().bucket_index as int].len(),
        upto <= row.len(),
    ensures
        gather_picks(row, a, r, p, upto) == gather_picks(row, b, r, p, upto),
    decreases upto,
{
    if upto > 0 {
        lemma_gather_picks_ranks_only(row, a, b, r, p, upto - 1);
        if row[upto - 1] is Some {
            let c = row[upto - 1].unwrap();
            assert(entry_rank(a, r, p, c.bucket_index as int) == entry_rank(
                b,
                r,
                p,
                c.bucket_index as int,
            ));
        }
        assert(gather_picks(row, a, r, p, upto) =~= gather_picks(row, b, r, p, upto));
    }
}

proof fn lemma_gather_participants_ranks_only(
    tbl_r: Seq<Seq<Option<SelectionContent>>>,
    a: Seq<Seq<BucketStateModel>>,
    b: Seq<Seq<BucketStateModel>>,
    r: int,
    upto: int,
)
    requires
        same_ranks(a, b),
        forall|p: int, k: int|
            0 <= p < tbl_r.len() && 0 <= k < tbl_r[p].len() && (#[trigger] tbl_r[p][k]) is Some
                ==> (tbl_r[p][k].unwrap().bucket_index as int) < a.len() && 0 <= r
                < a[tbl_r[p][k].unwrap().bucket_index as int].len(),
        upto <= tbl_r.len(),
    ensures
        gather_participants(tbl_r, a, r, upto) == gather_participants(tbl_r, b, r, upto),
    decreases upto,
{
    if upto > 0 {
        lemma_gather_participants_ranks_only(tbl_r, a, b, r, upto - 1);
        lemma_gather_picks_ranks_only(tbl_r[upto - 1], a, b, r, upto - 1, tbl_r[upto - 1].len() as int);
    }
}

proof fn lemma_gather_ranks_only(
    tbl: Seq<Seq<Seq<Option<SelectionContent>>>>,
    a: Seq<Seq<BucketStateModel>>,
    b: Seq<Seq<BucketStateModel>>,
    upto: int,
)
    requires
        same_ranks(a, b),
        table_in_bounds(tbl, a),
        upto <= tbl.len(),
    ensures
        gather_rounds(tbl, a, upto) == gather_rounds(tbl, b, upto),
    decreases upto,
{
    if upto > 0 {
        lemma_gather_ranks_only(tbl, a, b, upto - 1);
        lemma_gather_participants_ranks_only(tbl[upto - 1], a, b, upto - 1, tbl[upto - 1].len() as int);
    }
}

/// Recomputation is deterministic and order-independent: whatever already
/// stands in the designations and ancillary assignments, a resolution pass
/// depends only on the basis, the rank tables, and the stored selection
/// contents. Two states that agree on those — for instance, states reached
/// by submitting the same selections in different orders — resolve to
/// identical designations, ancillary assignments, and outcomes.
pub proof fn lemma_resolution_order_independent(
    basis: BasisModel,
    a: Seq<Seq<BucketStateModel>>,
    b: Seq<Seq<BucketStateModel>>,
    tbl: Seq<Seq<Seq<Option<SelectionContent>>>>,
)
    requires
        same_ranks(a, b),
        table_in_bounds(tbl, a),
    ensures
        spec_resolve(basis, a, tbl) == spec_resolve(basis, b, tbl),
{
    lemma_gather_ranks_only(tbl, a, b, tbl.len() as int);
    assert(spec_cleared(a) =~~= spec_cleared(b));
}

/// A resolution pass leaves every rank table, and every dimension, exactly
/// as it found them.
pub proof fn lemma_apply_same_ranks(
    basis: BasisModel,
    st: crate::resolve::ResolutionModel,
    entries: Seq<crate::resolve::EntryModel>,
    i: int,
)
    requires
        forall|j: int|
            0 <= j < entries.len() ==> (#[trigger] entries[j].bucket as int) < st.buckets.len()
                && (entries[j].round as int) < st.buckets[entries[j].bucket as int].len(),
        i <= entries.len(),
    ensures
        same_ranks(crate::resolve::spec_apply(basis, st, entries, i).buckets, st.buckets),
    decreases i,
{
    if i > 0 {
        lemma_apply_same_ranks(basis, st, entries, i - 1);
        let prev = crate::resolve::spec_apply(basis, st, entries, i - 1);
        let e = entries[i - 1];
        let o = crate::resolve::spec_attempt(
            basis,
            prev.buckets,
            e.round as int,
            e.participant,
            SelectionContent { bucket_index: e.bucket, ancillaries: e.ancillaries },
        );
        assert(same_ranks(o.buckets, prev.buckets));
    }
}

/// Bounds of gathered entries, from bounds of the stored picks alone.
proof fn lemma_gather_picks_bounds(
    row: Seq<Option<SelectionContent>>,
    bks: Seq<Seq<BucketStateModel>>,
    r: int,
    p: int,
    upto: int,
)
    requires
        forall|k: int|
            0 <= k < row.len() && (#[trigger] row[k]) is Some ==> (
            row[k].unwrap().bucket_index as int) < bks.len() && 0 <= r
                < bks[row[k].unwrap().bucket_index as int].len(),
        upto <= row.len(),
    ensures
        forall|i: int|
            0 <= i < gather_picks(row, bks, r, p, upto).len() ==> {
                let e = #[trigger] gather_picks(row, bks, r, p, upto)[i];
                (e.bucket as int) < bks.len() && (e.round as int) < bks[e.bucket as int].len()
            },
    decreases upto,
{
    if upto > 0 {
        lemma_gather_picks_bounds(row, bks, r, p, upto - 1);
        let left = gather_picks(row, bks, r, p, upto - 1);
        let whole = gather_picks(row, bks, r, p, upto);
        assert forall|i: int| 0 <= i < whole.len() implies {
            let e = #[trigger] whole[i];
            (e.bucket as int) < bks.len() && (e.round as int) < bks[e.bucket as int].len()
        } by {
            if i < left.len() {
                assert(whole[i] == left[i]);
            }
        }
    }
}

proof fn lemma_gather_participants_bounds(
    tbl_r: Seq<Seq<Option<SelectionContent>>>,
    bks: Seq<Seq<BucketStateModel>>,
    r: int,
    upto: int,
)
    requires
        forall|p: int, k: int|
            0 <= p < tbl_r.len() && 0 <= k < tbl_r[p].len() && (#[trigger] tbl_r[p][k]) is Some
                ==> (tbl_r[p][k].unwrap().bucket_index as int) < bks.len() && 0 <= r
                < bks[tbl_r[p][k].unwrap().bucket_index as int].len(),
        upto <= tbl_r.len(),
    ensures
        forall|i: int|
            0 <= i < gather_participants(tbl_r, bks, r, upto).len() ==> {
                let e = #[trigger] gather_participants(tbl_r, bks, r, upto)[i];
                (e.bucket as int) < bks.len() && (e.round as int) < bks[e.bucket as int].len()
            },
    decreases upto,
{
    if upto > 0 {
        lemma_gather_participants_bounds(tbl_r, bks, r, upto - 1);
        lemma_gather_picks_bounds(tbl_r[upto - 1], bks, r, upto - 1, tbl_r[upto - 1].len() as int);
        let left = gather_participants(tbl_r, bks, r, upto - 1);
        let right = gather_picks(tbl_r[upto - 1], bks, r, upto - 1, tbl_r[upto - 1].len() as int);
        let whole = gather_participants(tbl_r, bks, r, upto);
        assert forall|i: int| 0 <= i < whole.len() implies {
            let e = #[trigger] whole[i];
            (e.bucket as int) < bks.len() && (e.round as int) < bks[e.bucket as int].len()
        } by {
            if i < left.len() {
                assert(whole[i] == left[i]);
            } else {
                assert(whole[i] == right[i - left.len()]);
            }
        }
    }
}

proof fn lemma_gather_bounds(
    tbl: Seq<Seq<Seq<Option<SelectionContent>>>>,
    bks: Seq<Seq<BucketStateModel>>,
    upto: int,
)
    requires
        table_in_bounds(tbl, bks),
        upto <= tbl.len(),
    ensures
        forall|i: int|
            0 <= i < gather_rounds(tbl, bks, upto).len() ==> {
                let e = #[trigger] gather_rounds(tbl, bks, upto)[i];
                (e.bucket as int) < bks.len() && (e.round as int) < bks[e.bucket as int].len()
            },
    decreases upto,
{
    if upto > 0 {
        lemma_gather_bounds(tbl, bks, upto - 1);
        lemma_gather_participants_bounds(tbl[upto - 1], bks, upto - 1, tbl[upto - 1].len() as int);
        let left = gather_rounds(tbl, bks, upto - 1);
        let right = gather_participants(tbl[upto - 1], bks, upto - 1, tbl[upto - 1].len() as int);
        let whole = gather_rounds(tbl, bks, upto);
        assert forall|i: int| 0 <= i < whole.len() implies {
            let e = #[trigger] whole[i];
            (e.bucket as int) < bks.len() && (e.round as int) < bks[e.bucket as int].len()
        } by {
            if i < left.len() {
                assert(whole[i] == left[i]);
            } else {
                assert(whole[i] == right[i - left.len()]);
            }
        }
    }
}

/// The rank tables survive a resolution pass: resolving changes
/// designations and ancillary holders, never ranks or dimensions.
pub proof fn lemma_resolve_keeps_ranks(
    basis: BasisModel,
    bks: Seq<Seq<BucketStateModel>>,
    tbl: Seq<Seq<Seq<Option<SelectionContent>>>>,
)
    requires
        table_in_bounds(tbl, bks),
    ensures
        same_ranks(spec_resolve(basis, bks, tbl).buckets, bks),
{
    let entries = spec_sort_entries(tbl, bks);
    let g = spec_gather(tbl, bks);
    let init = crate::resolve::ResolutionModel {
        buckets: spec_cleared(bks),
        results: crate::resolve::spec_no_results(tbl),
    };
    lemma_gather_bounds(tbl, bks, tbl.len() as int);
    assert forall|j: int| 0 <= j < entries.len() implies {
        let e = #[trigger] entries[j];
        (e.bucket as int) < init.buckets.len() && (e.round as int)
            < init.buckets[e.bucket as int].len()
    } by {
        crate::resolve::lemma_sort_elements(g, j);
        let w = choose|w: int| 0 <= w < g.len() && g[w] == entries[j];
    }
    assert(same_ranks(spec_cleared(bks), bks));
    lemma_apply_same_ranks(basis, init, entries, entries.len() as int);
}

/// The sorted worklist of a resolution pass.
pub open spec fn spec_sort_entries(
    tbl: Seq<Seq<Seq<Option<SelectionContent>>>>,
    bks: Seq<Seq<BucketStateModel>>,
) -> Seq<crate::resolve::EntryModel> {
    crate::resolve::spec_sort_by_rank(spec_gather(tbl, bks))
}

/// Resubmitting an unchanged selection set is idempotent: storing the same
/// picks again leaves the stored contents as they were, and the resolution
/// pass that follows — run on the once-resolved bucket states — produces
/// the same designations, ancillary assignments, and per-pick outcomes as
/// the first.
pub proof fn lemma_resubmission_idempotent(
    m: StateModel,
    p: usize,
    rows: Seq<Option<SelectionModel>>,
)
    requires
        m.wf(),
        m.current_open_round is Some,
        (p as int) < m.basis.participant_count(),
        crate::state::spec_rows_check(m.basis, rows, rows.len() as int) is None,
    ensures
        ({
            let r = m.current_open_round.unwrap() as int;
            let c1 = spec_submitted_content(m, r, p as int, rows);
            let once = spec_resolve(m.basis, m.buckets, c1);
            &&& c1.update(r, c1[r].update(p as int, normalized_content_row(rows))) == c1
            &&& spec_resolve(m.basis, once.buckets, c1) == once
        }),
{
    let r = m.current_open_round.unwrap() as int;
    let c1 = spec_submitted_content(m, r, p as int, rows);
    let once = spec_resolve(m.basis, m.buckets, c1);
    assert(c1.update(r, c1[r].update(p as int, normalized_content_row(rows))) =~~= c1);
    assert(table_in_bounds(c1, m.buckets)) by {
        assert forall|r2: int, p2: int, k2: int|
            0 <= r2 < c1.len() && 0 <= p2 < c1[r2].len() && 0 <= k2 < c1[r2][p2].len() && (
        #[trigger] c1[r2][p2][k2]) is Some implies (c1[r2][p2][k2].unwrap().bucket_index as int)
            < m.buckets.len() && r2 < m.buckets[c1[r2][p2][k2].unwrap().bucket_index as int].len() by {
            if r2 == r && p2 == p as int {
                assert(c1[r2][p2] == normalized_content_row(rows));
                assert(rows[k2] is Some);
                crate::state::lemma_rows_check_clean(m.basis, rows, k2);
            } else {
                assert(c1[r2][p2][k2] == m.content()[r2][p2][k2]);
                assert(m.selections[r2][p2][k2] is Some);
                assert(m.selections[r2][p2][k2].unwrap().valid(m.basis));
            }
        }
    }
    lemma_resolve_keeps_ranks(m.basis, m.buckets, c1);
    lemma_resolution_order_independent(m.basis, once.buckets, m.buckets, c1);
}

/// Per bucket, the worklist visits rounds in nondecreasing order. This is
/// the regime in which cumulative capacity and sticky ancillary ownership
/// hold: a pick for a later round never carries a better rank than an
/// earlier-round pick for the same bucket.
pub open spec fn rounds_monotone(entries: Seq<crate::resolve::EntryModel>) -> bool {
    forall|i: int, j: int|
        0 <= i < j < entries.len() && (#[trigger] entries[i]).bucket == (
        #[trigger] entries[j]).bucket ==> entries[i].round <= entries[j].round
}

/// No entry among the first `i` targets bucket `b` in round `r` or later.
pub open spec fn untouched(
    entries: Seq<crate::resolve::EntryModel>,
    i: int,
    b: int,
    r: int,
) -> bool {
    forall|j: int|
        0 <= j < i ==> !((#[trigger] entries[j]).bucket as int == b && entries[j].round as int
            >= r)
}

/// A cell with nothing committed.
pub open spec fn cell_empty(cell: BucketStateModel) -> bool {
    &&& cell.designations.len() == 0
    &&& forall|a: int|
        0 <= a < cell.ancillary_designations.len() ==> (
        #[trigger] cell.ancillary_designations[a]) is None
}

/// Every round fits in the capacity left by the rounds before it.
pub open spec fn capacity_respecting(basis: BasisModel, bks: Seq<Seq<BucketStateModel>>) -> bool {
    forall|b: int, r: int|
        0 <= b < bks.len() && 0 <= r < bks[b].len() ==> (#[trigger] bks[b][r]).designations.len()
            + crate::resolve::spec_used_before(bks[b], r) <= basis.capacity(b)
}

/// Each ancillary of each bucket has at most one holder across the whole
/// round sequence.
pub open spec fn ancillary_exclusive(bks: Seq<Seq<BucketStateModel>>) -> bool {
    forall|b: int, a: int, r1: int, r2: int|
        0 <= b < bks.len() && 0 <= r1 < r2 < bks[b].len() && 0 <= a
            < bks[b][r1].ancillary_designations.len() && 0 <= a
            < bks[b][r2].ancillary_designations.len() && (
        #[trigger] bks[b][r1].ancillary_designations[a]) is Some && (
        #[trigger] bks[b][r2].ancillary_designations[a]) is Some
            ==> bks[b][r1].ancillary_designations[a] == bks[b][r2].ancillary_designations[a]
}

/// One confirmed or rejected attempt keeps every bucket within its
/// cumulative capacity, provided the rounds of the targeted bucket after
/// the attempted one are still empty.
proof fn lemma_step_capacity(
    basis: BasisModel,
    bks: Seq<Seq<BucketStateModel>>,
    e: crate::resolve::EntryModel,
)
    requires
        basis.wf(),
        buckets_wf(basis, bks),
        e.valid(basis),
        bks[e.bucket as int][e.round as int].ranks is Some,
        capacity_respecting(basis, bks),
        forall|r: int|
            (e.round as int) < r < bks[e.bucket as int].len() ==> cell_empty(
                #[trigger] bks[e.bucket as int][r],
            ),
    ensures
        capacity_respecting(
            basis,
            crate::resolve::spec_attempt(
                basis,
                bks,
                e.round as int,
                e.participant,
                SelectionContent { bucket_index: e.bucket, ancillaries: e.ancillaries },
            ).buckets,
        ),
{
    let c = SelectionContent { bucket_index: e.bucket, ancillaries: e.ancillaries };
    let bi = e.bucket as int;
    let ri = e.round as int;
    let o = crate::resolve::spec_attempt(basis, bks, ri, e.participant, c);
    crate::resolve::lemma_attempt_wf(basis, bks, ri, e.participant, c);
    if o.result is Confirmed {
        crate::resolve::lemma_attempt_capacity(basis, bks, ri, e.participant, c);
        let slots = crate::resolve::spec_slots_available(basis.capacity(bi), bks[bi], ri);
        assert forall|b: int, r: int|
            0 <= b < o.buckets.len() && 0 <= r < o.buckets[b].len() implies (
        #[trigger] o.buckets[b][r]).designations.len() + crate::resolve::spec_used_before(
            o.buckets[b],
            r,
        ) <= basis.capacity(b) by {
            if b != bi {
                assert(o.buckets[b] =~= bks[b]);
            } else {
                assert(forall|rr: int|
                    0 <= rr < ri ==> (#[trigger] o.buckets[bi][rr]).designations
                        == bks[bi][rr].designations);
                if r < ri {
                    assert(o.buckets[bi][r] == bks[bi][r]);
                    crate::resolve::lemma_used_before_agree(o.buckets[bi], bks[bi], r);
                } else if r == ri {
                    assert(o.buckets[bi][ri].designations.len() <= slots);
                    crate::resolve::lemma_used_before_agree(o.buckets[bi], bks[bi], ri);
                    crate::resolve::lemma_used_before_nonneg(bks[bi], ri);
                } else {
                    assert(o.buckets[bi][r] == bks[bi][r]);
                    assert(cell_empty(o.buckets[bi][r]));
                    assert forall|rr: int| ri + 1 <= rr < r implies (
                    #[trigger] o.buckets[bi][rr]).designations.len() == 0 by {
                        assert(o.buckets[bi][rr] == bks[bi][rr]);
                        assert(cell_empty(bks[bi][rr]));
                    }
                    crate::resolve::lemma_used_before_empty_range(o.buckets[bi], ri + 1, r);
                    assert(crate::resolve::spec_used_before(o.buckets[bi], ri + 1)
                        == crate::resolve::spec_used_before(o.buckets[bi], ri)
                        + o.buckets[bi][ri].designations.len());
                    crate::resolve::lemma_used_before_agree(o.buckets[bi], bks[bi], ri);
                    assert(o.buckets[bi][ri].designations.len() <= slots);
                    crate::resolve::lemma_used_before_nonneg(bks[bi], ri);
                }
            }
        }
    }
}

/// One attempt preserves single ownership of every ancillary, provided the
/// rounds of the targeted bucket after the attempted one are still empty.
proof fn lemma_step_exclusive(
    basis: BasisModel,
    bks: Seq<Seq<BucketStateModel>>,
    e: crate::resolve::EntryModel,
)
    requires
        basis.wf(),
        buckets_wf(basis, bks),
        e.valid(basis),
        bks[e.bucket as int][e.round as int].ranks is Some,
        basis.ancillary_count(e.bucket as int) <= usize::MAX,
        ancillary_exclusive(bks),
        forall|r: int|
            (e.round as int) < r < bks[e.bucket as int].len() ==> cell_empty(
                #[trigger] bks[e.bucket as int][r],
            ),
    ensures
        ancillary_exclusive(
            crate::resolve::spec_attempt(
                basis,
                bks,
                e.round as int,
                e.participant,
                SelectionContent { bucket_index: e.bucket, ancillaries: e.ancillaries },
            ).buckets,
        ),
{
    let c = SelectionContent { bucket_index: e.bucket, ancillaries: e.ancillaries };
    let bi = e.bucket as int;
    let ri = e.round as int;
    let o = crate::resolve::spec_attempt(basis, bks, ri, e.participant, c);
    crate::resolve::lemma_attempt_wf(basis, bks, ri, e.participant, c);
    if o.result is Confirmed {
        let bad = crate::resolve::spec_bad_ancillaries(
            bks[bi],
            ri,
            e.participant,
            e.ancillaries,
            e.ancillaries.len() as int,
        );
        assert(bad.len() == 0);
        crate::resolve::lemma_bad_empty(
            bks[bi],
            ri,
            e.participant,
            e.ancillaries,
            e.ancillaries.len() as int,
        );
        assert forall|b: int, a: int, r1: int, r2: int|
            0 <= b < o.buckets.len() && 0 <= r1 < r2 < o.buckets[b].len() && 0 <= a
                < o.buckets[b][r1].ancillary_designations.len() && 0 <= a
                < o.buckets[b][r2].ancillary_designations.len() && (
        #[trigger] o.buckets[b][r1].ancillary_designations[a]) is Some && (
        #[trigger] o.buckets[b][r2].ancillary_designations[a]) is Some implies o.buckets[b][r1].ancillary_designations[a]
            == o.buckets[b][r2].ancillary_designations[a] by {
            if b != bi {
                assert(o.buckets[b] =~= bks[b]);
            } else if r2 > ri {
                assert(o.buckets[bi][r2] == bks[bi][r2]);
                assert(cell_empty(bks[bi][r2]));
            } else if r2 == ri {
                assert(o.buckets[bi][r1] == bks[bi][r1]);
                assert(a < basis.ancillary_count(bi));
                assert((a as usize) as int == a);
                if e.ancillaries.contains(a as usize) {
                    let k = choose|k: int|
                        0 <= k < e.ancillaries.len() && e.ancillaries[k] == a as usize;
                    assert(!crate::resolve::spec_ancillary_lost(
                        bks[bi],
                        ri,
                        e.participant,
                        a as usize,
                    ));
                    assert(crate::bucket::spec_ancillary_available(
                        bks[bi],
                        ri,
                        a,
                        e.participant,
                    ));
                    assert(o.buckets[bi][ri].ancillary_designations[a] == Some(e.participant));
                } else {
                    assert(o.buckets[bi][ri].ancillary_designations[a]
                        == bks[bi][ri].ancillary_designations[a]);
                }
            } else {
                assert(o.buckets[bi][r1] == bks[bi][r1]);
                assert(o.buckets[bi][r2] == bks[bi][r2]);
            }
        }
    }
}

/// The inductive heart of the capacity and exclusivity laws: folding a
/// round-monotone worklist from a cleared table keeps every bucket within
/// its cumulative capacity and every ancillary with a single holder, and
/// leaves untouched cells empty.
proof fn lemma_apply_monotone(
    basis: BasisModel,
    init: crate::resolve::ResolutionModel,
    entries: Seq<crate::resolve::EntryModel>,
    i: int,
)
    requires
        basis.wf(),
        buckets_wf(basis, init.buckets),
        ranks_complete(init.buckets),
        forall|j: int| 0 <= j < entries.len() ==> (#[trigger] entries[j]).valid(basis),
        rounds_monotone(entries),
        forall|b: int|
            0 <= b < basis.bucket_count() ==> basis.ancillary_count(b) <= usize::MAX,
        forall|b: int, r: int|
            0 <= b < init.buckets.len() && 0 <= r < init.buckets[b].len() ==> cell_empty(
                #[trigger] init.buckets[b][r],
            ),
        0 <= i <= entries.len(),
    ensures
        buckets_wf(basis, crate::resolve::spec_apply(basis, init, entries, i).buckets),
        ranks_complete(crate::resolve::spec_apply(basis, init, entries, i).buckets),
        forall|b: int, r: int|
            0 <= b < init.buckets.len() && 0 <= r < init.buckets[b].len() && untouched(
                entries,
                i,
                b,
                r,
            ) ==> cell_empty(
                #[trigger] crate::resolve::spec_apply(basis, init, entries, i).buckets[b][r],
            ),
        capacity_respecting(basis, crate::resolve::spec_apply(basis, init, entries, i).buckets),
        ancillary_exclusive(crate::resolve::spec_apply(basis, init, entries, i).buckets),
    decreases i,
{
    if i == 0 {
        assert forall|b: int, r: int|
            0 <= b < init.buckets.len() && 0 <= r < init.buckets[b].len() implies (
        #[trigger] init.buckets[b][r]).designations.len() + crate::resolve::spec_used_before(
            init.buckets[b],
            r,
        ) <= basis.capacity(b) by {
            crate::resolve::lemma_used_before_empty_range(init.buckets[b], 0, r);
        }
    } else {
        lemma_apply_monotone(basis, init, entries, i - 1);
        let prev = crate::resolve::spec_apply(basis, init, entries, i - 1);
        let e = entries[i - 1];
        let c = SelectionContent { bucket_index: e.bucket, ancillaries: e.ancillaries };
        let o = crate::resolve::spec_attempt(basis, prev.buckets, e.round as int, e.participant, c);
        let cur = crate::resolve::spec_apply(basis, init, entries, i);
        let bi = e.bucket as int;
        let ri = e.round as int;
        assert(cur.buckets == o.buckets);
        crate::resolve::lemma_attempt_wf(basis, prev.buckets, ri, e.participant, c);
        // Rounds of this bucket after the attempted one are untouched, by
        // monotonicity, hence still empty.
        assert forall|r: int| ri < r < init.buckets[bi].len() implies cell_empty(
            #[trigger] prev.buckets[bi][r],
        ) by {
            assert forall|j: int| 0 <= j < i - 1 implies !((#[trigger] entries[j]).bucket as int
                == bi && entries[j].round as int >= r) by {
                if entries[j].bucket as int == bi {
                    assert(entries[j].round <= entries[i - 1].round);
                }
            }
            assert(untouched(entries, i - 1, bi, r));
        }
        lemma_step_capacity(basis, prev.buckets, e);
        lemma_step_exclusive(basis, prev.buckets, e);
        // Untouched cells stay empty: they are untouched by the shorter
        // prefix and are not the attempted cell.
        assert forall|b: int, r: int|
            0 <= b < init.buckets.len() && 0 <= r < init.buckets[b].len() && untouched(
                entries,
                i,
                b,
                r,
            ) implies cell_empty(#[trigger] cur.buckets[b][r]) by {
            assert(untouched(entries, i - 1, b, r));
            assert(!(bi == b && ri >= r));
            assert(cur.buckets[b][r] == prev.buckets[b][r]);
        }
    }
}

/// Requirements shared by the capacity and exclusivity laws: a well-formed
/// uncensored state and a worklist that visits each bucket's rounds in
/// nondecreasing order.
pub open spec fn monotone_resolution(
    basis: BasisModel,
    bks: Seq<Seq<BucketStateModel>>,
    tbl: Seq<Seq<Seq<Option<SelectionContent>>>>,
) -> bool {
    &&& basis.wf()
    &&& buckets_wf(basis, bks)
    &&& ranks_complete(bks)
    &&& crate::resolve::content_wf(tbl, basis)
    &&& forall|b: int|
        0 <= b < basis.bucket_count() ==> basis.ancillary_count(b) <= usize::MAX
    &&& rounds_monotone(spec_sort_entries(tbl, bks))
}

/// Facts shared by the two fold laws, lifted to `spec_resolve`.
proof fn lemma_resolve_monotone(
    basis: BasisModel,
    bks: Seq<Seq<BucketStateModel>>,
    tbl: Seq<Seq<Seq<Option<SelectionContent>>>>,
)
    requires
        monotone_resolution(basis, bks, tbl),
    ensures
        buckets_wf(basis, spec_resolve(basis, bks, tbl).buckets),
        capacity_respecting(basis, spec_resolve(basis, bks, tbl).buckets),
        ancillary_exclusive(spec_resolve(basis, bks, tbl).buckets),
{
    let entries = spec_sort_entries(tbl, bks);
    let g = spec_gather(tbl, bks);
    let init = crate::resolve::ResolutionModel {
        buckets: spec_cleared(bks),
        results: crate::resolve::spec_no_results(tbl),
    };
    crate::resolve::lemma_gather_valid(tbl, bks, basis, tbl.len() as int);
    assert forall|j: int| 0 <= j < entries.len() implies (#[trigger] entries[j]).valid(basis) by {
        crate::resolve::lemma_sort_elements(g, j);
        let w = choose|w: int| 0 <= w < g.len() && g[w] == entries[j];
    }
    assert(buckets_wf(basis, init.buckets)) by {
        assert forall|b: int, r: int|
            0 <= b < init.buckets.len() && 0 <= r < init.buckets[b].len() implies (
        #[trigger] init.buckets[b][r]).wf(
            basis.participant_count(),
            basis.ancillary_count(b),
            basis.capacity(b),
        ) by {
            assert(bks[b][r].wf(
                basis.participant_count(),
                basis.ancillary_count(b),
                basis.capacity(b),
            ));
        }
    }
    assert(ranks_complete(init.buckets)) by {
        assert forall|b: int, r: int|
            0 <= b < init.buckets.len() && 0 <= r < init.buckets[b].len() implies (
        #[trigger] init.buckets[b][r]).ranks is Some by {
            assert(bks[b][r].ranks is Some);
        }
    }
    lemma_apply_monotone(basis, init, entries, entries.len() as int);
}

/// The round-monotone proviso holds of every division with a single
/// round: with only round 0 to visit, no worklist can visit a bucket's
/// rounds out of order.
pub proof fn lemma_single_round_is_monotone(
    basis: BasisModel,
    bks: Seq<Seq<BucketStateModel>>,
    tbl: Seq<Seq<Seq<Option<SelectionContent>>>>,
)
    requires
        basis.round_count() == 1,
        crate::resolve::content_wf(tbl, basis),
    ensures
        rounds_monotone(spec_sort_entries(tbl, bks)),
{
    let g = spec_gather(tbl, bks);
    let entries = spec_sort_entries(tbl, bks);
    crate::resolve::lemma_gather_valid(tbl, bks, basis, tbl.len() as int);
    assert forall|i: int, j: int|
        0 <= i < j < entries.len() && (#[trigger] entries[i]).bucket == (
    #[trigger] entries[j]).bucket implies entries[i].round <= entries[j].round by {
        crate::resolve::lemma_sort_elements(g, i);
        crate::resolve::lemma_sort_elements(g, j);
        let wi = choose|w: int| 0 <= w < g.len() && g[w] == entries[i];
        let wj = choose|w: int| 0 <= w < g.len() && g[w] == entries[j];
        assert(entries[i].valid(basis));
        assert(entries[j].valid(basis));
    }
}

/// Cumulative capacity invariant: for every bucket and every round, the
/// designations committed in rounds `0..=r` together never exceed the
/// bucket's capacity — provided the sorted worklist visits each bucket's
/// rounds in nondecreasing order. (Without that proviso the rule can fail:
/// a later-round pick holding a better rank than an earlier-round pick for
/// the same bucket is committed first and does not see the earlier round's
/// later consumption.)
pub proof fn lemma_cumulative_capacity(
    basis: BasisModel,
    bks: Seq<Seq<BucketStateModel>>,
    tbl: Seq<Seq<Seq<Option<SelectionContent>>>>,
    b: int,
    r: int,
)
    requires
        monotone_resolution(basis, bks, tbl),
        0 <= b < basis.bucket_count(),
        0 <= r < basis.round_count(),
    ensures
        crate::resolve::spec_used_before(spec_resolve(basis, bks, tbl).buckets[b], r + 1)
            <= basis.capacity(b),
{
    lemma_resolve_monotone(basis, bks, tbl);
}

/// Ancillary exclusivity: across the full round sequence, each ancillary
/// of each bucket is ever held by at most one participant — under the same
/// round-monotone proviso as the capacity law.
pub proof fn lemma_ancillary_exclusivity(
    basis: BasisModel,
    bks: Seq<Seq<BucketStateModel>>,
    tbl: Seq<Seq<Seq<Option<SelectionContent>>>>,
)
    requires
        monotone_resolution(basis, bks, tbl),
    ensures
        ancillary_exclusive(spec_resolve(basis, bks, tbl).buckets),
{
    lemma_resolve_monotone(basis, bks, tbl);
}

/// Storing two different participants' submissions commutes: the stored
/// contents after `p1` then `p2` equal those after `p2` then `p1`. With
/// `lemma_resolution_order_independent` this gives the order-independence
/// of whole submissions.
pub proof fn lemma_store_commutes(
    tbl: Seq<Seq<Seq<Option<SelectionContent>>>>,
    r: int,
    p1: int,
    row1: Seq<Option<SelectionContent>>,
    p2: int,
    row2: Seq<Option<SelectionContent>>,
)
    requires
        p1 != p2,
        0 <= r < tbl.len(),
        0 <= p1 < tbl[r].len(),
        0 <= p2 < tbl[r].len(),
    ensures
        tbl.update(r, tbl[r].update(p1, row1)).update(
            r,
            tbl.update(r, tbl[r].update(p1, row1))[r].update(p2, row2),
        ) == tbl.update(r, tbl[r].update(p2, row2)).update(
            r,
            tbl.update(r, tbl[r].update(p2, row2))[r].update(p1, row1),
        ),
{
    assert(tbl.update(r, tbl[r].update(p1, row1)).update(
        r,
        tbl.update(r, tbl[r].update(p1, row1))[r].update(p2, row2),
    ) =~~= tbl.update(r, tbl[r].update(p2, row2)).update(
        r,
        tbl.update(r, tbl[r].update(p2, row2))[r].update(p1, row1),
    ));
}

} // verus!
