//! A content hash over the engine's configuration data, usable as a stable
//! division identifier, together with the decimal rendering of a hash.

use vstd::prelude::*;
use vstd::string::StringExecFns;

use crate::basis::BasisModel;
use crate::basis::BlockDivisionBasis;
use crate::basis::BucketDefModel;
use crate::basis::ParticipantDefModel;

verus! {

pub const FNV_OFFSET_BASIS: u64 = 0xcbf29ce484222325;

pub const FNV_PRIME: u64 = 0x100000001b3;

/// One mixing step of the 64-bit FNV-1a hash.
pub open spec fn fnv_mix(h: u64, x: u64) -> u64 {
    (((h ^ x) as nat * FNV_PRIME as nat) % 0x10000000000000000) as u64
}

/// Folds a byte sequence into the hash, left to right.
pub open spec fn spec_hash_bytes(h: u64, s: Seq<u8>) -> u64
    decreases s.len(),
{
    if s.len() == 0 {
        h
    } else {
        fnv_mix(spec_hash_bytes(h, s.drop_last()), s.last() as u64)
    }
}

/// Folds a string into the hash: its UTF-8 length, then its UTF-8 bytes.
pub open spec fn spec_hash_str(h: u64, s: Seq<char>) -> u64 {
    spec_hash_bytes(
        fnv_mix(h, vstd::utf8::encode_utf8(s).len() as u64),
        vstd::utf8::encode_utf8(s),
    )
}

/// Folds each string of a list into the hash, left to right.
pub open spec fn spec_hash_str_seq(h: u64, l: Seq<Seq<char>>) -> u64
    decreases l.len(),
{
    if l.len() == 0 {
        h
    } else {
        spec_hash_str(spec_hash_str_seq(h, l.drop_last()), l.last())
    }
}

/// Folds a list of strings into the hash: its length, then each string.
pub open spec fn spec_hash_str_list(h: u64, l: Seq<Seq<char>>) -> u64 {
    spec_hash_str_seq(fnv_mix(h, l.len() as u64), l)
}

/// Folds each integer of a list into the hash, left to right.
pub open spec fn spec_hash_usize_seq(h: u64, l: Seq<usize>) -> u64
    decreases l.len(),
{
    if l.len() == 0 {
        h
    } else {
        fnv_mix(spec_hash_usize_seq(h, l.drop_last()), l.last() as u64)
    }
}

/// Folds a list of integers into the hash: its length, then each value.
pub open spec fn spec_hash_usize_list(h: u64, l: Seq<usize>) -> u64 {
    spec_hash_usize_seq(fnv_mix(h, l.len() as u64), l)
}

/// Folds one bucket definition into the hash.
pub open spec fn spec_hash_bucket(h: u64, b: BucketDefModel) -> u64 {
    spec_hash_str_list(
        fnv_mix(spec_hash_str(h, b.name), b.available_slots as u64),
        b.available_ancillaries,
    )
}

/// Folds one participant definition into the hash.
pub open spec fn spec_hash_participant(h: u64, p: ParticipantDefModel) -> u64 {
    spec_hash_usize_list(
        spec_hash_str(spec_hash_str(h, p.name), p.email),
        p.round_picks_allowed,
    )
}

pub open spec fn spec_hash_buckets(h: u64, l: Seq<BucketDefModel>) -> u64
    decreases l.len(),
{
    if l.len() == 0 {
        h
    } else {
        spec_hash_bucket(spec_hash_buckets(h, l.drop_last()), l.last())
    }
}

pub open spec fn spec_hash_participants(h: u64, l: Seq<ParticipantDefModel>) -> u64
    decreases l.len(),
{
    if l.len() == 0 {
        h
    } else {
        spec_hash_participant(spec_hash_participants(h, l.drop_last()), l.last())
    }
}

/// The content hash of a whole basis: order-sensitive over all three
/// lists, so positionally different bases hash differently.
pub open spec fn spec_basis_hash(m: BasisModel) -> u64 {
    spec_hash_str_list(
        spec_hash_participants(spec_hash_buckets(FNV_OFFSET_BASIS, m.buckets), m.participants),
        m.rounds,
    )
}

/// One executable FNV-1a mixing step.
pub(crate) fn mix(h: u64, x: u64) -> (r: u64)
    ensures
        r == fnv_mix(h, x),
{
    let r = (h ^ x).wrapping_mul(FNV_PRIME);
    proof {
        assert(r == fnv_mix(h, x));
    }
    r
}

/// Hashes a string slice: UTF-8 length, then UTF-8 bytes.
pub(crate) fn hash_str(h: u64, s: &str) -> (r: u64)
    ensures
        r == spec_hash_str(h, s@),
{
    let bytes = s.as_bytes();
    let mut r = mix(h, bytes.len() as u64);
    let n = bytes.len();
    for i in 0..n
        invariant
            n == bytes@.len(),
            bytes@ == vstd::utf8::encode_utf8(s@),
            r == spec_hash_bytes(
                fnv_mix(h, vstd::utf8::encode_utf8(s@).len() as u64),
                bytes@.subrange(0, i as int),
            ),
    {
        let b = bytes[i];
        r = mix(r, b as u64);
        proof {
            assert(bytes@.subrange(0, i + 1).drop_last() =~= bytes@.subrange(0, i as int));
            assert(bytes@.subrange(0, i + 1).last() == bytes@[i as int]);
        }
    }
    proof {
        assert(bytes@.subrange(0, n as int) =~= bytes@);
    }
    r
}

/// Hashes a list of strings: length, then each string.
fn hash_str_list(h: u64, l: &Vec<String>) -> (r: u64)
    ensures
        r == spec_hash_str_list(h, Seq::new(l@.len(), |i: int| l@[i]@)),
{
    let ghost lm = Seq::new(l@.len(), |i: int| l@[i]@);
    let ghost h0 = fnv_mix(h, lm.len() as u64);
    let mut r = mix(h, l.len() as u64);
    for i in 0..l.len()
        invariant
            lm == Seq::new(l@.len(), |i: int| l@[i]@),
            lm.len() == l@.len(),
            h0 == fnv_mix(h, lm.len() as u64),
            r == spec_hash_str_seq(h0, lm.subrange(0, i as int)),
    {
        r = hash_str(r, l[i].as_str());
        proof {
            assert(lm.subrange(0, i + 1).drop_last() =~= lm.subrange(0, i as int));
            assert(lm.subrange(0, i + 1).last() == lm[i as int]);
        }
    }
    proof {
        assert(lm.subrange(0, lm.len() as int) =~= lm);
    }
    r
}

/// Hashes a list of integers: length, then each value.
fn hash_usize_list(h: u64, l: &Vec<usize>) -> (r: u64)
    ensures
        r == spec_hash_usize_list(h, l@),
{
    let ghost h0 = fnv_mix(h, l@.len() as u64);
    let mut r = mix(h, l.len() as u64);
    for i in 0..l.len()
        invariant
            h0 == fnv_mix(h, l@.len() as u64),
            r == spec_hash_usize_seq(h0, l@.subrange(0, i as int)),
    {
        r = mix(r, l[i] as u64);
        proof {
            assert(l@.subrange(0, i + 1).drop_last() =~= l@.subrange(0, i as int));
            assert(l@.subrange(0, i + 1).last() == l@[i as int]);
        }
    }
    proof {
        assert(l@.subrange(0, l@.len() as int) =~= l@);
    }
    r
}

impl BlockDivisionBasis {
    /// The content hash of this basis: a stable identifier derived from
    /// every bucket, participant, and round name, usable as a default
    /// division key.
    pub fn get_hash(&self) -> (r: u64)
        ensures
            r == spec_basis_hash(self@),
    {
        let mut h = FNV_OFFSET_BASIS;
        let buckets = self.get_bucket_definitions();
        let ghost bm = self@.buckets;
        for i in 0..buckets.len()
            invariant
                buckets@.len() == bm.len(),
                forall|j: int| 0 <= j < buckets@.len() ==> (#[trigger] buckets@[j])@ == bm[j],
                h == spec_hash_buckets(FNV_OFFSET_BASIS, bm.subrange(0, i as int)),
        {
            let b = &buckets[i];
            let h1 = hash_str(h, b.name.as_str());
            let h2 = mix(h1, b.available_slots as u64);
            h = hash_str_list(h2, &b.available_ancillaries);
            proof {
                assert(Seq::new(
                    b.available_ancillaries@.len(),
                    |j: int| b.available_ancillaries@[j]@,
                ) =~= bm[i as int].available_ancillaries);
                assert(h == spec_hash_bucket(
                    spec_hash_buckets(FNV_OFFSET_BASIS, bm.subrange(0, i as int)),
                    bm[i as int],
                ));
                assert(bm.subrange(0, i + 1).drop_last() =~= bm.subrange(0, i as int));
                assert(bm.subrange(0, i + 1).last() == bm[i as int]);
            }
        }
        proof {
            assert(bm.subrange(0, bm.len() as int) =~= bm);
        }
        let participants = self.get_participant_definitions();
        let ghost pm = self@.participants;
        let ghost hb = spec_hash_buckets(FNV_OFFSET_BASIS, bm);
        for i in 0..participants.len()
            invariant
                participants@.len() == pm.len(),
                forall|j: int|
                    0 <= j < participants@.len() ==> (#[trigger] participants@[j])@ == pm[j],
                h == spec_hash_participants(hb, pm.subrange(0, i as int)),
        {
            let p = &participants[i];
            let h1 = hash_str(h, p.name.as_str());
            let h2 = hash_str(h1, p.email.as_str());
            h = hash_usize_list(h2, &p.round_picks_allowed);
            proof {
                assert(h == spec_hash_participant(
                    spec_hash_participants(hb, pm.subrange(0, i as int)),
                    pm[i as int],
                ));
                assert(pm.subrange(0, i + 1).drop_last() =~= pm.subrange(0, i as int));
                assert(pm.subrange(0, i + 1).last() == pm[i as int]);
            }
        }
        proof {
            assert(pm.subrange(0, pm.len() as int) =~= pm);
        }
        let round_names = self.get_selection_rounds();
        let h_final = hash_str_list(h, round_names);
        proof {
            assert(Seq::new(round_names@.len(), |j: int| round_names@[j]@) =~= self@.rounds);
        }
        h_final
    }
}

impl crate::state::BlockDivisionState {
    /// The content hash of this division's basis: the stable identifier
    /// under which the division is stored when no explicit id is given.
    pub fn get_hash(&self) -> (r: u64)
        ensures
            r == spec_basis_hash(self@.basis),
    {
        self.basis.get_hash()
    }
}

/// The character of one decimal digit.
pub open spec fn digit_char(d: nat) -> char {
    ((48 + d) as u8) as char
}

/// The decimal rendering of a natural number, most significant digit
/// first.
pub open spec fn spec_decimal(n: nat) -> Seq<char>
    decreases n,
{
    if n < 10 {
        seq![digit_char(n)]
    } else {
        spec_decimal(n / 10).push(digit_char(n % 10))
    }
}

/// One decimal digit as a string slice.
fn digit_str(d: u64) -> (r: &'static str)
    requires
        d < 10,
    ensures
        r@ == seq![digit_char(d as nat)],
{
    proof {
        reveal_strlit("0");
        reveal_strlit("1");
        reveal_strlit("2");
        reveal_strlit("3");
        reveal_strlit("4");
        reveal_strlit("5");
        reveal_strlit("6");
        reveal_strlit("7");
        reveal_strlit("8");
        reveal_strlit("9");
    }
    match d {
        0 => "0",
        1 => "1",
        2 => "2",
        3 => "3",
        4 => "4",
        5 => "5",
        6 => "6",
        7 => "7",
        8 => "8",
        _ => "9",
    }
}

/// Renders a hash in decimal, for use as a string key.
pub fn u64_to_decimal(n: u64) -> (r: String)
    ensures
        r@ == spec_decimal(n as nat),
    decreases n,
{
    if n < 10 {
        String::from_str(digit_str(n))
    } else {
        let mut s = u64_to_decimal(n / 10);
        s.append(digit_str(n % 10));
        proof {
            assert(s@ =~= spec_decimal(n as nat));
        }
        s
    }
}

} // verus!
