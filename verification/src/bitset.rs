//! The bit set of the `bit_set` crate and the bit vector of the `bit_vec`
//! crate, as far as the codec uses them.
//!
//! The declarations of the two types, the names of their contents and the
//! functions from `bitset_from_bytes` to `bitset_to_bytes` are not proved:
//! each states what the source of its crate shows. What follows them is
//! verified.

use crate::bits::{bytes_bits, padded, true_places, BitReader, BitWriter};
use bit_set::BitSet;
use bit_vec::BitVec;
use vstd::prelude::*;

verus! {

/// `bit_set::BitSet`, a set of `usize` numbers kept as a vector of bits.
#[verifier::external_type_specification]
#[verifier::external_body]
#[verifier::reject_recursive_types(B)]
pub struct ExBitSet<B>(bit_set::BitSet<B>);

/// The numbers that a bit set holds: those for which `BitSet::contains`
/// answers `true`.
pub uninterp spec fn bitset_members(set: BitSet) -> Set<int>;

/// `bit_vec::BitVec`, a vector of bits.
#[verifier::external_type_specification]
#[verifier::external_body]
#[verifier::reject_recursive_types(B)]
pub struct ExBitVec<B>(bit_vec::BitVec<B>);

/// The bits that a bit vector holds, from index 0 on.
pub uninterp spec fn bitvec_bits(bits: BitVec) -> Seq<bool>;

/// Whether each number of `positions` is below the one after it.
pub open spec fn ascending(positions: Seq<usize>) -> bool {
    forall|i: int, j: int| 0 <= i < j < positions.len() ==> positions[i] < positions[j]
}

/// Whether `place` occurs in `positions`.
pub open spec fn has_position(positions: Seq<usize>, place: int) -> bool {
    exists|i: int| 0 <= i < positions.len() && positions[i] == place
}

/// The set of the numbers that occur in `positions`.
pub open spec fn position_set(positions: Seq<usize>) -> Set<int> {
    Set::new(|place: int| has_position(positions, place))
}

/// `BitSet::from_bytes`: the set holds `k` exactly where bit `k` of `bytes`
/// is set, each byte giving eight bits with its most significant bit first.
/// The function panics where the number of bits does not fit in `usize`.
#[verifier::external_body]
pub(crate) fn bitset_from_bytes(bytes: &[u8]) -> (set: BitSet)
    requires
        8 * bytes@.len() <= usize::MAX,
    ensures
        bitset_members(set) == true_places(bytes_bits(bytes@)),
{
    BitSet::from_bytes(bytes)
}

/// `BitSet::iter`, collected: the iterator walks the blocks of the bit
/// vector from the first on and each block from its lowest bit on, so it
/// gives every number of the set once, in ascending order. The order is
/// what the source of the version in use does; the crate's examples leave
/// it open.
#[verifier::external_body]
pub(crate) fn bitset_positions(set: &BitSet) -> (positions: Vec<usize>)
    ensures
        ascending(positions@),
        position_set(positions@) == bitset_members(*set),
{
    set.iter().collect()
}

/// `BitVec::from_elem`: a bit vector of `len` bits, each of them `bit`.
#[verifier::external_body]
pub(crate) fn bitvec_from_elem(len: usize, bit: bool) -> (bits: BitVec)
    ensures
        bitvec_bits(bits) == Seq::new(len as nat, |i: int| bit),
{
    BitVec::from_elem(len, bit)
}

/// `BitVec::set`: the bit at index `i` becomes `bit`, the others stay. The
/// function panics where `i` is not an index of the vector.
#[verifier::external_body]
pub(crate) fn bitvec_set(bits: &mut BitVec, i: usize, bit: bool)
    requires
        i < bitvec_bits(*old(bits)).len(),
    ensures
        bitvec_bits(*final(bits)) == bitvec_bits(*old(bits)).update(i as int, bit),
{
    bits.set(i, bit)
}

/// `BitSet::from_bit_vec`: the set holds the indices at which the bit
/// vector holds a set bit.
#[verifier::external_body]
pub(crate) fn bitset_from_bit_vec(bits: BitVec) -> (set: BitSet)
    ensures
        bitset_members(set) == true_places(bitvec_bits(bits)),
{
    BitSet::from_bit_vec(bits)
}

/// `BitSet::difference_with`: the set loses the numbers that `other` holds
/// and keeps its others.
#[verifier::external_body]
pub(crate) fn bitset_difference_with(set: &mut BitSet, other: &BitSet)
    ensures
        bitset_members(*final(set)) == bitset_members(*old(set)).difference(
            bitset_members(*other),
        ),
{
    set.difference_with(other)
}

/// `BitSet::len`: the number of numbers in the set.
#[verifier::external_body]
pub(crate) fn bitset_len(set: &BitSet) -> (len: usize)
    ensures
        len == bitset_members(*set).len(),
{
    set.len()
}

/// `BitVec::to_bytes` on the bit vector of a set (`BitSet::get_ref`): the
/// bits in bytes, the first bit as the most significant bit of the first
/// byte, the last byte filled up with zero bits. So a bit of the bytes is
/// set exactly at the numbers of the set.
#[verifier::external_body]
pub(crate) fn bitset_to_bytes(set: &BitSet) -> (bytes: Vec<u8>)
    ensures
        true_places(bytes_bits(bytes@)) == bitset_members(*set),
{
    set.get_ref().to_bytes()
}

/// Whether every number of the set is a position below `limit`.
pub open spec fn within(set: Set<int>, limit: nat) -> bool {
    forall|place: int| set.contains(place) ==> 0 <= place < limit
}

/// The positions below `limit` that are not in the set.
pub open spec fn complement(set: Set<int>, limit: nat) -> Set<int> {
    Set::new(|place: int| 0 <= place < limit && !set.contains(place))
}

/// One bit for each position below `len`: whether the set holds it.
pub open spec fn set_bits(set: Set<int>, len: nat) -> Seq<bool> {
    Seq::new(len, |place: int| set.contains(place))
}

/// The numbers of a set in ascending order.
pub open spec fn ascending_members(set: Set<int>) -> Seq<usize> {
    choose|list: Seq<usize>| ascending(list) && position_set(list) == set
}

/// An ascending list holds each number once: its set is finite and has as
/// many numbers as the list.
pub proof fn lemma_ascending_count(positions: Seq<usize>)
    requires
        ascending(positions),
    ensures
        position_set(positions).finite(),
        position_set(positions).len() == positions.len(),
    decreases positions.len(),
{
    if positions.len() == 0 {
        assert(position_set(positions) =~= Set::<int>::empty());
    } else {
        let before = positions.drop_last();
        let last = positions.last() as int;
        lemma_ascending_count(before);
        assert(!position_set(before).contains(last)) by {
            if has_position(before, last) {
                let i = choose|i: int| 0 <= i < before.len() && before[i] == last;
                assert(positions[i] < positions[positions.len() - 1]);
            }
        }
        assert(position_set(positions) =~= position_set(before).insert(last)) by {
            assert forall|place: int| position_set(positions).contains(place) implies position_set(
                before,
            ).insert(last).contains(place) by {
                let i = choose|i: int| 0 <= i < positions.len() && positions[i] == place;
                if i < before.len() {
                    assert(before[i] == place);
                }
            }
            assert forall|place: int| position_set(before).insert(last).contains(
                place,
            ) implies position_set(positions).contains(place) by {
                if place == last {
                    assert(positions[positions.len() - 1] == place);
                } else {
                    let i = choose|i: int| 0 <= i < before.len() && before[i] == place;
                    assert(positions[i] == place);
                }
            }
        }
    }
}

/// Two ascending lists of the same numbers are the same list.
pub proof fn lemma_ascending_unique(left: Seq<usize>, right: Seq<usize>)
    requires
        ascending(left),
        ascending(right),
        position_set(left) == position_set(right),
    ensures
        left == right,
    decreases left.len(),
{
    lemma_ascending_count(left);
    lemma_ascending_count(right);
    if left.len() > 0 {
        let a = left.last() as int;
        let b = right.last() as int;
        assert(a == b) by {
            assert(has_position(left, a)) by {
                assert(left[left.len() - 1] == a);
            }
            assert(position_set(right).contains(a));
            let i = choose|i: int| 0 <= i < right.len() && right[i] == a;
            assert(has_position(right, b)) by {
                assert(right[right.len() - 1] == b);
            }
            assert(position_set(left).contains(b));
            let j = choose|j: int| 0 <= j < left.len() && left[j] == b;
            if i < right.len() - 1 {
                assert(right[i] < right[right.len() - 1]);
            }
            if j < left.len() - 1 {
                assert(left[j] < left[left.len() - 1]);
            }
        }
        let left_rest = left.drop_last();
        let right_rest = right.drop_last();
        assert(position_set(left_rest) =~= position_set(right_rest)) by {
            assert forall|place: int| has_position(left_rest, place) implies has_position(
                right_rest,
                place,
            ) by {
                let i = choose|i: int| 0 <= i < left_rest.len() && left_rest[i] == place;
                assert(left[i] < left[left.len() - 1]);
                assert(has_position(left, place)) by {
                    assert(left[i] == place);
                }
                assert(position_set(right).contains(place));
                let j = choose|j: int| 0 <= j < right.len() && right[j] == place;
                assert(right_rest[j] == place);
            }
            assert forall|place: int| has_position(right_rest, place) implies has_position(
                left_rest,
                place,
            ) by {
                let i = choose|i: int| 0 <= i < right_rest.len() && right_rest[i] == place;
                assert(right[i] < right[right.len() - 1]);
                assert(has_position(right, place)) by {
                    assert(right[i] == place);
                }
                assert(position_set(left).contains(place));
                let j = choose|j: int| 0 <= j < left.len() && left[j] == place;
                assert(left_rest[j] == place);
            }
        }
        lemma_ascending_unique(left_rest, right_rest);
        assert(left =~= left_rest.push(left.last()));
        assert(right =~= right_rest.push(right.last()));
    } else {
        assert(right =~= left);
    }
}

/// An ascending list is the list of the members of its set.
pub proof fn lemma_ascending_members(positions: Seq<usize>)
    requires
        ascending(positions),
    ensures
        ascending_members(position_set(positions)) == positions,
{
    let set = position_set(positions);
    let chosen = ascending_members(set);
    assert(ascending(chosen) && position_set(chosen) == set);
    lemma_ascending_unique(chosen, positions);
}

/// The `i`-th number of an ascending list is `i` at least.
pub proof fn lemma_ascending_floor(positions: Seq<usize>, i: int)
    requires
        ascending(positions),
        0 <= i < positions.len(),
    ensures
        positions[i] >= i,
    decreases i,
{
    if i > 0 {
        lemma_ascending_floor(positions, i - 1);
        assert(positions[i - 1] < positions[i]);
    }
}

/// The positions of the set below `limit`, in ascending order.
spec fn members_below(set: Set<int>, limit: nat) -> Seq<usize>
    decreases limit,
{
    if limit == 0 {
        Seq::empty()
    } else if set.contains(limit - 1) {
        members_below(set, (limit - 1) as nat).push((limit - 1) as usize)
    } else {
        members_below(set, (limit - 1) as nat)
    }
}

/// The list of the positions of a set below a limit is ascending, holds
/// positions below the limit only, and holds exactly those of the set.
proof fn lemma_members_below(set: Set<int>, limit: nat)
    requires
        limit <= usize::MAX,
    ensures
        ascending(members_below(set, limit)),
        forall|i: int|
            0 <= i < members_below(set, limit).len() ==> (#[trigger] members_below(
                set,
                limit,
            )[i]) < limit,
        forall|place: int|
            has_position(members_below(set, limit), place) <==> (0 <= place < limit
                && set.contains(place)),
    decreases limit,
{
    if limit > 0 {
        let before = members_below(set, (limit - 1) as nat);
        let list = members_below(set, limit);
        lemma_members_below(set, (limit - 1) as nat);
        assert forall|place: int| has_position(list, place) <==> (0 <= place < limit
            && set.contains(place)) by {
            if has_position(list, place) {
                let i = choose|i: int| 0 <= i < list.len() && list[i] == place;
                if i < before.len() {
                    assert(before[i] == place);
                    assert(has_position(before, place));
                }
            }
            if 0 <= place < limit && set.contains(place) {
                if place == limit - 1 {
                    assert(list[list.len() - 1] == place);
                } else {
                    assert(has_position(before, place));
                    let i = choose|i: int| 0 <= i < before.len() && before[i] == place;
                    assert(list[i] == place);
                }
            }
        }
    }
}

/// A set of positions below a limit has its members in an ascending list,
/// each of them below the limit.
pub proof fn lemma_members_list(set: Set<int>, limit: nat)
    requires
        within(set, limit),
        limit <= usize::MAX,
    ensures
        ascending(ascending_members(set)),
        position_set(ascending_members(set)) == set,
        ascending_members(set).len() <= limit,
        forall|i: int|
            0 <= i < ascending_members(set).len() ==> (#[trigger] ascending_members(set)[i])
                < limit,
{
    let witness = members_below(set, limit);
    lemma_members_below(set, limit);
    assert(position_set(witness) =~= set);
    let list = ascending_members(set);
    assert(ascending(list) && position_set(list) == set);
    assert forall|i: int| 0 <= i < list.len() implies (#[trigger] list[i]) < limit by {
        assert(has_position(list, list[i] as int));
        assert(position_set(list).contains(list[i] as int));
    }
    if list.len() > 0 {
        lemma_ascending_floor(list, list.len() - 1);
    }
}

/// Whether every number of an ascending list is below `limit`.
pub fn all_below(positions: &Vec<usize>, limit: usize) -> (below: bool)
    requires
        ascending(positions@),
    ensures
        below == within(position_set(positions@), limit as nat),
{
    let len = positions.len();
    if len == 0 {
        assert forall|place: int| position_set(positions@).contains(place) implies 0 <= place
            < limit by {
            let i = choose|i: int| 0 <= i < positions@.len() && positions@[i] == place;
        }
        true
    } else {
        let last = positions[len - 1];
        proof {
            assert(positions@[len - 1] == last);
            assert(has_position(positions@, last as int));
            assert(position_set(positions@).contains(last as int));
            if last < limit {
                assert forall|place: int| position_set(positions@).contains(place) implies 0
                    <= place < limit by {
                    let i = choose|i: int| 0 <= i < positions@.len() && positions@[i] == place;
                    if i < len - 1 {
                        assert(positions@[i] < positions@[len - 1]);
                    }
                }
            }
        }
        last < limit
    }
}

/// The bit set that holds the places at which `bits` is set.
pub fn bitset_from_bits(bits: &Vec<bool>) -> (set: BitSet)
    requires
        bits@.len() + 8 <= usize::MAX,
    ensures
        bitset_members(set) == true_places(bits@),
{
    let mut writer = BitWriter::new();
    writer.write_bits(bits.as_slice());
    assert(writer.bits() =~= bits@);
    let bytes = writer.into_bytes();
    assert(8 * bytes@.len() == padded(bits@).len());
    let set = bitset_from_bytes(bytes.as_slice());
    assert(true_places(padded(bits@)) =~= true_places(bits@));
    set
}

/// One flag for each position below `limit`: whether the set holds it.
pub fn set_flags(set: &BitSet, limit: usize) -> (flags: Vec<bool>)
    ensures
        flags@ == set_bits(bitset_members(*set), limit as nat),
{
    let bytes = bitset_to_bytes(set);
    let ghost bits = bytes_bits(bytes@);
    let mut reader = BitReader::new(bytes.as_slice());
    let held = reader.remaining_len();
    let taken: usize = if held >= limit as u128 {
        limit
    } else {
        held as usize
    };
    let mut flags = match reader.read_bits(taken) {
        Ok(flags) => flags,
        Err(_) => Vec::new(),
    };
    assert forall|place: int| 0 <= place < taken implies flags@[place] == bitset_members(
        *set,
    ).contains(place) by {
        assert(true_places(bits).contains(place) == bits[place]);
    }
    while flags.len() < limit
        invariant
            taken <= flags@.len() <= limit,
            taken == limit || taken == bits.len(),
            true_places(bits) == bitset_members(*set),
            forall|place: int|
                0 <= place < flags@.len() ==> flags@[place] == bitset_members(*set).contains(
                    place,
                ),
        decreases limit - flags@.len(),
    {
        assert(!true_places(bits).contains(flags@.len() as int));
        flags.push(false);
    }
    assert(flags@ =~= set_bits(bitset_members(*set), limit as nat));
    flags
}

} // verus!
