//! General lemmas about sequences: behaviour of `filter` under `push`,
//! membership of filtered elements, counting arguments, and strictly sorted
//! sequences. Shared by the rank generator and the selection resolver.

use vstd::prelude::*;

use crate::selections::strictly_sorted;

verus! {

/// Filtering a sequence extended by one element either appends that element
/// (when it passes the predicate) or leaves the filtered sequence unchanged.
pub proof fn lemma_filter_push<A>(s: Seq<A>, pred: spec_fn(A) -> bool, x: A)
    ensures
        s.push(x).filter(pred) == if pred(x) {
            s.filter(pred).push(x)
        } else {
            s.filter(pred)
        },
{
    reveal(Seq::filter);
    assert(s.push(x).drop_last() =~= s);
    assert(s.push(x).last() == x);
}

/// Every element of a filtered sequence comes from the original sequence and
/// passes the predicate.
pub proof fn lemma_filter_elements<A>(s: Seq<A>, pred: spec_fn(A) -> bool)
    ensures
        forall|i: int|
            0 <= i < s.filter(pred).len() ==> s.contains(#[trigger] s.filter(pred)[i]) && pred(
                s.filter(pred)[i],
            ),
    decreases s.len(),
{
    reveal(Seq::filter);
    if s.len() > 0 {
        lemma_filter_elements(s.drop_last(), pred);
        assert forall|i: int| 0 <= i < s.filter(pred).len() implies s.contains(
            #[trigger] s.filter(pred)[i],
        ) && pred(s.filter(pred)[i]) by {
            let f = s.filter(pred);
            let fd = s.drop_last().filter(pred);
            if i < fd.len() {
                assert(s.drop_last().contains(fd[i]));
                let j = choose|j: int| 0 <= j < s.drop_last().len() && s.drop_last()[j] == fd[i];
                assert(s[j] == fd[i]);
            } else {
                assert(f[i] == s.last());
                assert(s[s.len() - 1] == s.last());
            }
        }
    }
}

/// Splits a count by a weaker predicate: when everything passing `p` also
/// passes `q`, the `q`-count is the `p`-count plus the count of elements
/// passing `q` but not `p`.
pub proof fn lemma_filter_split<A>(s: Seq<A>, p: spec_fn(A) -> bool, q: spec_fn(A) -> bool)
    requires
        forall|x: A| #[trigger] p(x) ==> q(x),
    ensures
        s.filter(q).len() == s.filter(p).len() + s.filter(
            |x: A| q(x) && !p(x),
        ).len(),
    decreases s.len(),
{
    reveal(Seq::filter);
    if s.len() > 0 {
        lemma_filter_split(s.drop_last(), p, q);
    }
}

/// A sequence containing an element that passes the predicate filters to a
/// non-empty sequence.
pub proof fn lemma_filter_nonempty<A>(s: Seq<A>, pred: spec_fn(A) -> bool, x: A)
    requires
        s.contains(x),
        pred(x),
    ensures
        s.filter(pred).len() >= 1,
    decreases s.len(),
{
    reveal(Seq::filter);
    if s.len() > 0 {
        if s.last() == x && pred(s.last()) {
        } else {
            assert(s.drop_last().contains(x)) by {
                let j = choose|j: int| 0 <= j < s.len() && s[j] == x;
                assert(s.drop_last()[j] == x);
            }
            lemma_filter_nonempty(s.drop_last(), pred, x);
        }
    }
}

/// Filtering preserves a strictly sorted sequence of indices.
pub proof fn lemma_filter_sorted(s: Seq<usize>, pred: spec_fn(usize) -> bool)
    requires
        strictly_sorted(s),
    ensures
        strictly_sorted(s.filter(pred)),
    decreases s.len(),
{
    reveal(Seq::filter);
    if s.len() > 0 {
        assert(strictly_sorted(s.drop_last()));
        lemma_filter_sorted(s.drop_last(), pred);
        let f = s.filter(pred);
        let fd = s.drop_last().filter(pred);
        if pred(s.last()) {
            lemma_filter_elements(s.drop_last(), pred);
            assert forall|i: int, j: int| 0 <= i < j < f.len() implies f[i] < f[j] by {
                if j < fd.len() {
                } else {
                    assert(f[j] == s.last());
                    assert(s.drop_last().contains(fd[i]));
                    let w = choose|w: int|
                        0 <= w < s.drop_last().len() && s.drop_last()[w] == fd[i];
                    assert(s[w] < s.last());
                }
            }
        }
    }
}

/// A sequence of distinct integers all lying in `[0, n)` has at most `n`
/// elements.
pub proof fn lemma_distinct_bounded_len(s: Seq<int>, n: int)
    requires
        s.no_duplicates(),
        n >= 0,
        forall|i: int| 0 <= i < s.len() ==> 0 <= #[trigger] s[i] < n,
    ensures
        s.len() <= n,
{
    s.unique_seq_to_set();
    let range = vstd::set_lib::set_int_range(0, n);
    vstd::set_lib::lemma_int_range(0, n);
    assert(s.to_set().subset_of(range)) by {
        assert forall|x: int| s.to_set().contains(x) implies range.contains(x) by {
            let i = choose|i: int| 0 <= i < s.len() && s[i] == x;
        }
    }
    vstd::set_lib::lemma_len_subset(s.to_set(), range);
}

/// Membership in a strictly sorted sequence extended with one more element.
pub open spec fn insert_sorted(s: Seq<usize>, v: usize) -> Seq<usize>
    decreases s.len(),
{
    if s.len() == 0 {
        seq![v]
    } else if s.last() < v {
        s.push(v)
    } else if s.last() == v {
        s
    } else {
        insert_sorted(s.drop_last(), v).push(s.last())
    }
}

/// `insert_sorted` keeps the sequence strictly sorted and represents exactly
/// the set extended by the new value.
pub proof fn lemma_insert_sorted(s: Seq<usize>, v: usize)
    requires
        strictly_sorted(s),
    ensures
        strictly_sorted(insert_sorted(s, v)),
        forall|x: usize| #[trigger] insert_sorted(s, v).contains(x) ==> s.contains(x) || x == v,
        forall|x: usize| #[trigger] s.contains(x) ==> insert_sorted(s, v).contains(x),
        insert_sorted(s, v).contains(v),
        insert_sorted(s, v).len() <= s.len() + 1,
        insert_sorted(s, v).len() >= s.len(),
    decreases s.len(),
{
    let r = insert_sorted(s, v);
    if s.len() == 0 {
        assert forall|x: usize| r.contains(x) implies s.contains(x) || x == v by {
            let i = choose|i: int| 0 <= i < r.len() && r[i] == x;
        }
        assert(r[0] == v);
        assert(r.contains(v));
    } else if s.last() < v {
        assert forall|x: usize| r.contains(x) implies s.contains(x) || x == v by {
            let i = choose|i: int| 0 <= i < r.len() && r[i] == x;
            if i < s.len() {
                assert(s[i] == x);
            }
        }
        assert forall|x: usize| s.contains(x) || x == v implies r.contains(x) by {
            if s.contains(x) {
                let i = choose|i: int| 0 <= i < s.len() && s[i] == x;
                assert(r[i] == x);
            } else {
                assert(r[s.len() as int] == v);
            }
        }
        assert(r[s.len() as int] == v);
        assert(r.contains(v));
    } else if s.last() == v {
        assert(s.contains(v)) by {
            assert(s[s.len() - 1] == v);
        }
    } else {
        assert(strictly_sorted(s.drop_last()));
        lemma_insert_sorted(s.drop_last(), v);
        let rd = insert_sorted(s.drop_last(), v);
        assert forall|i: int, j: int| 0 <= i < j < r.len() implies r[i] < r[j] by {
            if j == r.len() - 1 {
                assert(r[j] == s.last());
                assert(rd.contains(rd[i]));
                assert(s.drop_last().contains(rd[i]) || rd[i] == v);
                if s.drop_last().contains(rd[i]) {
                    let w = choose|w: int|
                        0 <= w < s.drop_last().len() && s.drop_last()[w] == rd[i];
                    assert(s[w] < s.last());
                }
            }
        }
        assert forall|x: usize| r.contains(x) implies s.contains(x) || x == v by {
            let i = choose|i: int| 0 <= i < r.len() && r[i] == x;
            if i < rd.len() {
                assert(rd.contains(x));
                if s.drop_last().contains(x) {
                    let w = choose|w: int|
                        0 <= w < s.drop_last().len() && s.drop_last()[w] == x;
                    assert(s[w] == x);
                }
            } else {
                assert(x == s.last());
                assert(s[s.len() - 1] == x);
            }
        }
        assert forall|x: usize| s.contains(x) || x == v implies r.contains(x) by {
            if s.contains(x) {
                let i = choose|i: int| 0 <= i < s.len() && s[i] == x;
                if i < s.len() - 1 {
                    assert(s.drop_last()[i] == x);
                    assert(s.drop_last().contains(x));
                    assert(rd.contains(x));
                    let w = choose|w: int| 0 <= w < rd.len() && rd[w] == x;
                    assert(r[w] == x);
                } else {
                    assert(r[r.len() - 1] == s.last());
                }
            } else {
                let w = choose|w: int| 0 <= w < rd.len() && rd[w] == v;
                assert(r[w] == v);
            }
        }
    }
}

/// Inserting a value already present leaves the sequence unchanged.
pub proof fn lemma_insert_sorted_present(s: Seq<usize>, x: usize)
    requires
        strictly_sorted(s),
        s.contains(x),
    ensures
        insert_sorted(s, x) == s,
    decreases s.len(),
{
    if s.len() > 0 {
        if s.last() < x {
            let i = choose|i: int| 0 <= i < s.len() && s[i] == x;
            assert(s[s.len() - 1] >= s[i]);
        } else if s.last() == x {
        } else {
            assert(strictly_sorted(s.drop_last()));
            assert(s.drop_last().contains(x)) by {
                let i = choose|i: int| 0 <= i < s.len() && s[i] == x;
                assert(s.drop_last()[i] == x);
            }
            lemma_insert_sorted_present(s.drop_last(), x);
            assert(insert_sorted(s, x) =~= s);
        }
    }
}

/// Inserting an absent value splices it in at the index `idx` that splits
/// the sequence into the part below and the part above the value.
pub proof fn lemma_insert_sorted_splice(s: Seq<usize>, x: usize, idx: int)
    requires
        strictly_sorted(s),
        0 <= idx <= s.len(),
        forall|i: int| 0 <= i < idx ==> #[trigger] s[i] < x,
        forall|i: int| idx <= i < s.len() ==> #[trigger] s[i] > x,
    ensures
        insert_sorted(s, x) == s.subrange(0, idx).push(x) + s.subrange(idx, s.len() as int),
    decreases s.len(),
{
    if s.len() == 0 {
        assert(insert_sorted(s, x) =~= s.subrange(0, idx).push(x) + s.subrange(
            idx,
            s.len() as int,
        ));
    } else if s.last() < x {
        assert(idx == s.len());
        assert(s.subrange(0, idx) =~= s);
        assert(insert_sorted(s, x) =~= s.subrange(0, idx).push(x) + s.subrange(
            idx,
            s.len() as int,
        ));
    } else {
        assert(s.last() > x);
        assert(idx < s.len());
        assert(strictly_sorted(s.drop_last()));
        lemma_insert_sorted_splice(s.drop_last(), x, idx);
        assert(insert_sorted(s, x) =~= s.subrange(0, idx).push(x) + s.subrange(
            idx,
            s.len() as int,
        ));
    }
}

/// Inserts `x` into a strictly sorted vector, keeping it strictly sorted;
/// inserting a value already present returns the vector unchanged.
pub fn insert_sorted_vec(v: &Vec<usize>, x: usize) -> (r: Vec<usize>)
    requires
        strictly_sorted(v@),
    ensures
        r@ == insert_sorted(v@, x),
{
    let mut idx: usize = 0;
    while idx < v.len() && v[idx] < x
        invariant
            strictly_sorted(v@),
            idx <= v@.len(),
            forall|i: int| 0 <= i < idx ==> #[trigger] v@[i] < x,
        decreases v@.len() - idx,
    {
        idx = idx + 1;
    }
    if idx < v.len() && v[idx] == x {
        proof {
            assert(v@.contains(x)) by {
                assert(v@[idx as int] == x);
            }
            lemma_insert_sorted_present(v@, x);
        }
        let c = v.clone();
        proof {
            assert(c@ =~= v@);
        }
        return c;
    }
    proof {
        assert forall|i: int| idx <= i < v@.len() implies #[trigger] v@[i] > x by {
            assert(v@[idx as int] != x);
            assert(v@[idx as int] >= x);
            if i > idx {
                assert(v@[idx as int] < v@[i]);
            }
        }
    }
    let mut r: Vec<usize> = Vec::new();
    for i in 0..idx
        invariant
            idx <= v@.len(),
            r@ == v@.subrange(0, i as int),
    {
        r.push(v[i]);
        proof {
            assert(r@ =~= v@.subrange(0, i + 1));
        }
    }
    r.push(x);
    let ghost mid = v@.subrange(0, idx as int).push(x);
    let mut i = idx;
    while i < v.len()
        invariant
            idx <= i <= v@.len(),
            r@ == mid + v@.subrange(idx as int, i as int),
        decreases v@.len() - i,
    {
        r.push(v[i]);
        proof {
            assert(r@ =~= mid + v@.subrange(idx as int, i + 1));
        }
        i = i + 1;
    }
    proof {
        assert(r@ =~= mid + v@.subrange(idx as int, v@.len() as int));
        lemma_insert_sorted_splice(v@, x, idx as int);
    }
    r
}

/// The canonical sorted-set form of an arbitrary list of indices: sorted
/// ascending with duplicates dropped.
pub open spec fn sorted_set_of(s: Seq<usize>) -> Seq<usize>
    decreases s.len(),
{
    if s.len() == 0 {
        Seq::empty()
    } else {
        insert_sorted(sorted_set_of(s.drop_last()), s.last())
    }
}

/// The canonical form is strictly sorted and holds exactly the values of
/// the original list.
pub proof fn lemma_sorted_set_of(s: Seq<usize>)
    ensures
        strictly_sorted(sorted_set_of(s)),
        forall|x: usize| #[trigger] sorted_set_of(s).contains(x) ==> s.contains(x),
        forall|x: usize| #[trigger] s.contains(x) ==> sorted_set_of(s).contains(x),
    decreases s.len(),
{
    if s.len() > 0 {
        lemma_sorted_set_of(s.drop_last());
        lemma_insert_sorted(sorted_set_of(s.drop_last()), s.last());
        assert forall|x: usize| #[trigger] sorted_set_of(s).contains(x) implies s.contains(x) by {
            if sorted_set_of(s.drop_last()).contains(x) {
                assert(s.drop_last().contains(x));
                let w = choose|w: int| 0 <= w < s.drop_last().len() && s.drop_last()[w] == x;
                assert(s[w] == x);
            } else {
                assert(x == s.last());
                assert(s[s.len() - 1] == x);
            }
        }
        assert forall|x: usize| #[trigger] s.contains(x) implies sorted_set_of(s).contains(x) by {
            let w = choose|w: int| 0 <= w < s.len() && s[w] == x;
            if w < s.len() - 1 {
                assert(s.drop_last()[w] == x);
                assert(s.drop_last().contains(x));
            }
        }
    }
}

/// Sorts a list of indices and drops duplicates: the canonical set form.
pub fn normalize_indices(v: &Vec<usize>) -> (r: Vec<usize>)
    ensures
        r@ == sorted_set_of(v@),
{
    let mut r: Vec<usize> = Vec::new();
    for i in 0..v.len()
        invariant
            r@ == sorted_set_of(v@.subrange(0, i as int)),
    {
        proof {
            lemma_sorted_set_of(v@.subrange(0, i as int));
        }
        r = insert_sorted_vec(&r, v[i]);
        proof {
            assert(v@.subrange(0, i + 1).drop_last() =~= v@.subrange(0, i as int));
            assert(v@.subrange(0, i + 1).last() == v@[i as int]);
        }
    }
    proof {
        assert(v@.subrange(0, v@.len() as int) =~= v@);
    }
    r
}

/// Linear membership test.
pub fn vec_contains(v: &Vec<usize>, x: usize) -> (r: bool)
    ensures
        r == v@.contains(x),
{
    for i in 0..v.len()
        invariant
            forall|j: int| 0 <= j < i ==> v@[j] != x,
    {
        if v[i] == x {
            proof {
                assert(v@[i as int] == x);
            }
            return true;
        }
    }
    false
}

} // verus!
