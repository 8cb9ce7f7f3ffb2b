//! What holds between encoding and decoding: a record that is written to
//! the wire and read back is the record that was written.

use crate::bits::{
    bytes_bits, field, lemma_bits_value_bound, lemma_bytes_bits_of_bits, lemma_value_bits_len,
    lemma_value_of_bits, padded, padding_len, true_places, value_bits, zero_bits,
};
use crate::bitset::{
    ascending, ascending_members, complement, has_position, lemma_members_list, position_set,
    set_bits, within,
};
use crate::armor::armor_bytes;
use crate::error::Error;
use crate::ranges::{covered, lemma_entries_bit_len, lemma_runs, range_bit_len, runs, Entry};
use crate::wire::{
    bitfield_payload, default_consent, encode_error, entries_bits, entry_bits, field_bits, fixed_bits, flipped,
    id_in_range, lemma_record_len, letter_offset, numbers_fit, offset_letter, on_wire,
    parsed_bitfield, parsed_entries, parsed_entry, parsed_range, parsed_record, parsed_v1,
    payload_bits, purpose_count, range_entries, range_fits, range_payload, record_bits,
    uses_bitfield,
    wire_bytes, ConsentRecord,
};
use crate::vendor_consent::parsed_text;
use vstd::arithmetic::power2::{lemma2_to64, pow2};
use vstd::prelude::*;

verus! {

/// In a bit string made of three parts, the middle part stands where the
/// first ends, and the last part is what follows the middle one.
pub proof fn lemma_middle(head: Seq<bool>, piece: Seq<bool>, rest: Seq<bool>)
    ensures
        (head + piece + rest).subrange(head.len() as int, (head.len() + piece.len()) as int)
            == piece,
        (head + piece + rest).skip((head.len() + piece.len()) as int) == rest,
{
    let whole = head + piece + rest;
    assert(whole.subrange(head.len() as int, (head.len() + piece.len()) as int) =~= piece);
    assert(whole.skip((head.len() + piece.len()) as int) =~= rest);
}

/// A number written in `width` bits between two bit strings is read back
/// from its place.
pub proof fn lemma_number_field(head: Seq<bool>, width: nat, value: nat, rest: Seq<bool>)
    requires
        value < pow2(width),
    ensures
        field(head + value_bits(width, value) + rest, head.len() as int, width as int) == value,
        (head + value_bits(width, value) + rest).len() == head.len() + width + rest.len(),
{
    lemma_value_bits_len(width, value);
    lemma_middle(head, value_bits(width, value), rest);
    lemma_value_of_bits(width, value);
}

/// Whether an entry can stand in a record with the given maximum vendor
/// ID: its IDs are vendor IDs of the record.
pub open spec fn entry_in_range(entry: Entry, max_vendor_id: nat) -> bool {
    &&& id_in_range(entry.first() as nat, max_vendor_id)
    &&& id_in_range(entry.last() as nat, max_vendor_id)
}

/// An entry whose IDs are vendor IDs of the record is read back from its
/// bits, whatever follows them.
pub proof fn lemma_parsed_entry(entry: Entry, rest: Seq<bool>, max_vendor_id: nat)
    requires
        entry_in_range(entry, max_vendor_id),
        max_vendor_id < pow2(16),
    ensures
        parsed_entry(entry_bits(entry) + rest, max_vendor_id) == Ok::<(Entry, nat), Error>(
            (entry, entry_bits(entry).len()),
        ),
{
    lemma2_to64();
    let bits = entry_bits(entry) + rest;
    match entry {
        Entry::Single(id) => {
            lemma_number_field(seq![false], 16, id as nat, rest);
            assert(bits =~= seq![false] + value_bits(16, id as nat) + rest);
            lemma_value_bits_len(16, id as nat);
        },
        Entry::Range(first, last) => {
            lemma_value_bits_len(16, first as nat);
            lemma_value_bits_len(16, last as nat);
            lemma_number_field(seq![true], 16, first as nat, value_bits(16, last as nat) + rest);
            lemma_number_field(seq![true] + value_bits(16, first as nat), 16, last as nat, rest);
            assert(bits =~= seq![true] + value_bits(16, first as nat) + (value_bits(
                16,
                last as nat,
            ) + rest));
            assert(bits =~= seq![true] + value_bits(16, first as nat) + value_bits(16, last as nat)
                + rest);
        },
    }
}

/// The bits of a list of entries are the bits of the first entry, then
/// those of the others.
pub proof fn lemma_entries_bits_front(entries: Seq<Entry>)
    requires
        entries.len() > 0,
    ensures
        entries_bits(entries) == entry_bits(entries[0]) + entries_bits(entries.skip(1)),
    decreases entries.len(),
{
    if entries.len() == 1 {
        assert(entries.drop_last() =~= Seq::<Entry>::empty());
        assert(entries.skip(1) =~= Seq::<Entry>::empty());
        assert(entries_bits(entries) =~= entry_bits(entries[0]) + entries_bits(entries.skip(1)));
    } else {
        let front = entries.drop_last();
        lemma_entries_bits_front(front);
        assert(front.skip(1) =~= entries.skip(1).drop_last());
        assert(entries.skip(1).last() == entries.last());
        assert(front[0] == entries[0]);
        assert(entries_bits(entries) =~= entry_bits(entries[0]) + entries_bits(entries.skip(1)));
    }
}

/// A list of entries whose IDs are vendor IDs of the record is read back
/// from its bits, whatever follows them.
pub proof fn lemma_parsed_entries(entries: Seq<Entry>, rest: Seq<bool>, max_vendor_id: nat)
    requires
        forall|k: int| 0 <= k < entries.len() ==> entry_in_range(#[trigger] entries[k], max_vendor_id),
        max_vendor_id < pow2(16),
    ensures
        parsed_entries(entries_bits(entries) + rest, entries.len(), max_vendor_id) == Ok::<
            Seq<Entry>,
            Error,
        >(entries),
    decreases entries.len(),
{
    if entries.len() == 0 {
        assert(entries =~= Seq::<Entry>::empty());
    } else {
        let first = entries[0];
        let others = entries.skip(1);
        let bits = entries_bits(entries) + rest;
        lemma_entries_bits_front(entries);
        let tail = entries_bits(others) + rest;
        assert(bits =~= entry_bits(first) + tail);
        lemma_parsed_entry(first, tail, max_vendor_id);
        assert(bits.skip(entry_bits(first).len() as int) =~= tail);
        assert forall|k: int| 0 <= k < others.len() implies entry_in_range(
            #[trigger] others[k],
            max_vendor_id,
        ) by {
            assert(others[k] == entries[k + 1]);
        }
        lemma_parsed_entries(others, rest, max_vendor_id);
        assert(seq![first] + others =~= entries);
        let used = entry_bits(first).len();
        assert(parsed_entry(bits, max_vendor_id) == Ok::<(Entry, nat), Error>((first, used)));
        assert((entries.len() - 1) as nat == others.len());
        assert(parsed_entries(bits.skip(used as int), others.len(), max_vendor_id) == Ok::<
            Seq<Entry>,
            Error,
        >(others));
    }
}

/// The runs of an ascending list of positions below a maximum vendor ID
/// fit the wire where they take fewer bits than the maximum vendor ID.
pub proof fn lemma_range_fits(positions: Seq<usize>, max_vendor_id: nat)
    requires
        ascending(positions),
        forall|i: int| 0 <= i < positions.len() ==> (#[trigger] positions[i]) < max_vendor_id,
        max_vendor_id <= u16::MAX,
        range_bit_len(runs(positions)) < max_vendor_id,
    ensures
        range_fits(runs(positions)),
{
    lemma2_to64();
    lemma_runs(positions);
    lemma_entries_bit_len(runs(positions));
    let entries = runs(positions);
    assert forall|k: int| 0 <= k < entries.len() implies 0 <= (#[trigger] entries[k]).first()
        < pow2(16) && 0 <= entries[k].last() < pow2(16) by {
        assert(entries[k].is_run());
        assert(entries[k].last() <= positions.last() + 1);
    }
}

/// The entries of the range encoding of a record name vendor IDs of the
/// record only, and stand for the vendors of the record. Where the record is
/// written with them, they fit the wire.
pub proof fn lemma_range_entries(record: ConsentRecord)
    requires
        within(record.vendor_consent, record.max_vendor_id),
        record.max_vendor_id < pow2(16),
    ensures
        forall|k: int|
            0 <= k < range_entries(record).len() ==> entry_in_range(
                #[trigger] range_entries(record)[k],
                record.max_vendor_id,
            ),
        flipped(range_entries(record), record.max_vendor_id, default_consent(record))
            == record.vendor_consent,
        !uses_bitfield(record) ==> range_fits(range_entries(record)),
{
    lemma2_to64();
    let max = record.max_vendor_id;
    let default = default_consent(record);
    let listed = if default {
        complement(record.vendor_consent, max)
    } else {
        record.vendor_consent
    };
    lemma_members_list(listed, max);
    let list = ascending_members(listed);
    let entries = range_entries(record);
    assert(entries == runs(list));
    lemma_runs(list);
    assert forall|k: int| 0 <= k < entries.len() implies entry_in_range(
        #[trigger] entries[k],
        max,
    ) by {
        assert(entries[k].is_run());
        assert(entries[k].last() <= list.last() + 1);
        assert(list.len() > 0);
        assert(list[list.len() - 1] < max);
    }
    assert forall|place: int| flipped(entries, max, default).contains(place)
        <==> record.vendor_consent.contains(place) by {
        if 0 <= place < max {
            assert(covered(entries, place + 1) <==> has_position(list, place));
            assert(has_position(list, place) <==> position_set(list).contains(place));
        }
    }
    assert(flipped(entries, max, default) =~= record.vendor_consent);
    if !uses_bitfield(record) {
        lemma_range_fits(list, max);
    }
}

/// The vendor payload of a record is read back as the vendors of the
/// record, whatever follows it.
pub proof fn lemma_parsed_payload(record: ConsentRecord, rest: Seq<bool>)
    requires
        within(record.vendor_consent, record.max_vendor_id),
        record.max_vendor_id < pow2(16),
    ensures
        ({
            let bits = payload_bits(record) + rest;
            (if bits[0] {
                parsed_range(bits.skip(1), record.max_vendor_id)
            } else {
                parsed_bitfield(bits.skip(1), record.max_vendor_id)
            }) == Ok::<Set<int>, Error>(record.vendor_consent)
        }),
{
    lemma2_to64();
    let max = record.max_vendor_id;
    let bits = payload_bits(record) + rest;
    if uses_bitfield(record) {
        let flags = set_bits(record.vendor_consent, max);
        assert(bits.skip(1) =~= flags + rest);
        assert(bits.skip(1).take(max as int) =~= flags);
        assert(true_places(flags) =~= record.vendor_consent);
    } else {
        let default = default_consent(record);
        let entries = range_entries(record);
        lemma_range_entries(record);
        let body = bits.skip(1);
        let tail = entries_bits(entries) + rest;
        lemma_value_bits_len(12, entries.len());
        assert(body =~= seq![default] + value_bits(12, entries.len()) + tail);
        lemma_number_field(seq![default], 12, entries.len(), tail);
        assert(body.skip(13) =~= tail);
        lemma_parsed_entries(entries, rest, max);
    }
}

/// Each number of the fixed fields is read back from its place, the
/// purpose flags stand at theirs, and what follows the fields follows them.
pub proof fn lemma_fixed_fields(
    created: nat,
    last_updated: nat,
    provider: nat,
    provider_version: nat,
    consent_screen: nat,
    first_letter: nat,
    second_letter: nat,
    vendor_list_version: nat,
    purposes: Seq<bool>,
    max_vendor_id: nat,
    rest: Seq<bool>,
)
    requires
        numbers_fit(
            created,
            last_updated,
            provider,
            provider_version,
            consent_screen,
            vendor_list_version,
            max_vendor_id,
        ),
        first_letter < pow2(6),
        second_letter < pow2(6),
        purposes.len() == 24,
    ensures
        ({
            let bits = fixed_bits(
                created,
                last_updated,
                provider,
                provider_version,
                consent_screen,
                first_letter,
                second_letter,
                vendor_list_version,
                purposes,
                max_vendor_id,
            ) + rest;
            &&& bits.len() == 166 + rest.len()
            &&& field(bits, 0, 36) == created
            &&& field(bits, 36, 36) == last_updated
            &&& field(bits, 72, 12) == provider
            &&& field(bits, 84, 12) == provider_version
            &&& field(bits, 96, 6) == consent_screen
            &&& field(bits, 102, 6) == first_letter
            &&& field(bits, 108, 6) == second_letter
            &&& field(bits, 114, 12) == vendor_list_version
            &&& bits.subrange(126, 150) == purposes
            &&& field(bits, 150, 16) == max_vendor_id
            &&& bits.skip(166) == rest
        }),
{
    let b0 = value_bits(36, created);
    let b1 = value_bits(36, last_updated);
    let b2 = value_bits(12, provider);
    let b3 = value_bits(12, provider_version);
    let b4 = value_bits(6, consent_screen);
    let b5 = value_bits(6, first_letter);
    let b6 = value_bits(6, second_letter);
    let b7 = value_bits(12, vendor_list_version);
    let b8 = purposes;
    let b9 = value_bits(16, max_vendor_id);
    lemma_value_bits_len(36, created);
    lemma_value_bits_len(36, last_updated);
    lemma_value_bits_len(12, provider);
    lemma_value_bits_len(12, provider_version);
    lemma_value_bits_len(6, consent_screen);
    lemma_value_bits_len(6, first_letter);
    lemma_value_bits_len(6, second_letter);
    lemma_value_bits_len(12, vendor_list_version);
    lemma_value_bits_len(16, max_vendor_id);
    let h0 = Seq::<bool>::empty();
    let h1 = h0 + b0;
    let h2 = h1 + b1;
    let h3 = h2 + b2;
    let h4 = h3 + b3;
    let h5 = h4 + b4;
    let h6 = h5 + b5;
    let h7 = h6 + b6;
    let h8 = h7 + b7;
    let h9 = h8 + b8;
    let r9 = rest;
    let r8 = b9 + r9;
    let r7 = b8 + r8;
    let r6 = b7 + r7;
    let r5 = b6 + r6;
    let r4 = b5 + r5;
    let r3 = b4 + r4;
    let r2 = b3 + r3;
    let r1 = b2 + r2;
    let r0 = b1 + r1;
    let bits = fixed_bits(
        created,
        last_updated,
        provider,
        provider_version,
        consent_screen,
        first_letter,
        second_letter,
        vendor_list_version,
        purposes,
        max_vendor_id,
    ) + rest;
    assert(bits =~= h9 + b9 + r9);
    assert(h9 + b9 + r9 =~= h8 + b8 + r8);
    assert(h8 + b8 + r8 =~= h7 + b7 + r7);
    assert(h7 + b7 + r7 =~= h6 + b6 + r6);
    assert(h6 + b6 + r6 =~= h5 + b5 + r5);
    assert(h5 + b5 + r5 =~= h4 + b4 + r4);
    assert(h4 + b4 + r4 =~= h3 + b3 + r3);
    assert(h3 + b3 + r3 =~= h2 + b2 + r2);
    assert(h2 + b2 + r2 =~= h1 + b1 + r1);
    assert(h1 + b1 + r1 =~= h0 + b0 + r0);
    lemma_number_field(h0, 36, created, r0);
    lemma_number_field(h1, 36, last_updated, r1);
    lemma_number_field(h2, 12, provider, r2);
    lemma_number_field(h3, 12, provider_version, r3);
    lemma_number_field(h4, 6, consent_screen, r4);
    lemma_number_field(h5, 6, first_letter, r5);
    lemma_number_field(h6, 6, second_letter, r6);
    lemma_number_field(h7, 12, vendor_list_version, r7);
    lemma_middle(h8, b8, r8);
    lemma_number_field(h9, 16, max_vendor_id, r9);
    lemma_middle(h9, b9, r9);
}

/// The fields and the payload of a record that can be encoded are read
/// back as the record that the wire keeps, whatever follows them.
pub proof fn lemma_parsed_v1(record: ConsentRecord, rest: Seq<bool>)
    requires
        encode_error(record) is None,
    ensures
        parsed_v1(field_bits(record) + (payload_bits(record) + rest)) == Ok::<
            ConsentRecord,
            Error,
        >(on_wire(record)),
{
    lemma2_to64();
    let payload = payload_bits(record) + rest;
    let body = field_bits(record) + payload;
    let first = letter_offset(record.consent_language[0]);
    let second = letter_offset(record.consent_language[1]);
    let purposes = set_bits(record.purposes_allowed, purpose_count());
    lemma_fixed_fields(
        record.created / 100,
        record.last_updated / 100,
        record.cmp_id,
        record.cmp_version,
        record.consent_screen,
        first,
        second,
        record.vendor_list_version,
        purposes,
        record.max_vendor_id,
        payload,
    );
    lemma_parsed_payload(record, rest);
    lemma_record_len(record);
    assert(payload.len() >= 1);
    assert(body.skip(167) =~= payload.skip(1));
    assert(body[166] == body.skip(166)[0]);
    assert(true_places(purposes) =~= record.purposes_allowed);
    let language = seq![offset_letter(first), offset_letter(second)];
    assert(language =~= record.consent_language);
    let vendors = if body[166] {
        parsed_range(body.skip(167), record.max_vendor_id)
    } else {
        parsed_bitfield(body.skip(167), record.max_vendor_id)
    };
    assert(vendors == Ok::<Set<int>, Error>(record.vendor_consent));
    assert(parsed_v1(body) matches Ok(read) && read =~= on_wire(record));
}

/// A record that can be encoded is read back from its bytes as the wire
/// keeps it: with its timestamps cut to tenths of a second, and everything
/// else as it was.
pub proof fn lemma_round_trip(record: ConsentRecord)
    requires
        encode_error(record) is None,
    ensures
        parsed_record(bytes_bits(wire_bytes(record))) == Ok::<ConsentRecord, Error>(
            on_wire(record),
        ),
{
    lemma2_to64();
    let tag = value_bits(6, 1);
    let zeros = zero_bits(padding_len(record_bits(record).len()));
    let bits = padded(record_bits(record));
    lemma_record_len(record);
    lemma_value_bits_len(6, 1);
    assert(bits.len() % 8 == 0);
    lemma_bytes_bits_of_bits(bits);
    let tail = field_bits(record) + (payload_bits(record) + zeros);
    assert(bits =~= Seq::<bool>::empty() + tag + tail);
    lemma_number_field(Seq::<bool>::empty(), 6, 1, tail);
    assert(bits.skip(6) =~= tail);
    lemma_parsed_v1(record, zeros);
}

/// A record that can be encoded and whose timestamps are whole tenths of a
/// second is read back from its bytes as it is.
pub proof fn lemma_round_trip_exact(record: ConsentRecord)
    requires
        encode_error(record) is None,
        record.created % 100 == 0,
        record.last_updated % 100 == 0,
    ensures
        parsed_record(bytes_bits(wire_bytes(record))) == Ok::<ConsentRecord, Error>(record),
{
    lemma_round_trip(record);
    assert(on_wire(record) =~= record);
}

/// A text whose armour holds the bytes of a record that can be encoded is
/// decoded as the record that the wire keeps.
pub proof fn lemma_text_round_trip(record: ConsentRecord, text: Seq<char>)
    requires
        encode_error(record) is None,
        armor_bytes(text) == Some(wire_bytes(record)),
    ensures
        parsed_text(text) == Ok::<ConsentRecord, Error>(on_wire(record)),
{
    lemma_round_trip(record);
}

/// The vendor payload of a record is not longer than either of its two
/// encodings, whatever the default of the range list is, and it is the bit
/// field where the two are equally long.
pub proof fn lemma_payload_is_shortest(record: ConsentRecord)
    ensures
        payload_bits(record).len() <= bitfield_payload(record).len(),
        payload_bits(record).len() <= range_payload(record).len(),
        bitfield_payload(record).len() == range_payload(record).len() ==> payload_bits(record)
            == bitfield_payload(record),
        bitfield_payload(record).len() == 1 + record.max_vendor_id,
        range_payload(record).len() == 1 + range_bit_len(range_entries(record)),
{
    lemma_record_len(record);
}

/// Cutting the timestamps of a record to tenths of a second a second time
/// changes nothing, and a record has the bytes of the record with cut
/// timestamps.
pub proof fn lemma_on_wire_is_idempotent(record: ConsentRecord)
    ensures
        on_wire(on_wire(record)) == on_wire(record),
        encode_error(on_wire(record)) == encode_error(record),
        wire_bytes(on_wire(record)) == wire_bytes(record),
{
    assert(record.created / 100 * 100 / 100 == record.created / 100);
    assert(record.last_updated / 100 * 100 / 100 == record.last_updated / 100);
    assert(on_wire(on_wire(record)) =~= on_wire(record));
    assert(range_entries(on_wire(record)) == range_entries(record));
    assert(payload_bits(on_wire(record)) == payload_bits(record));
    assert(field_bits(on_wire(record)) == field_bits(record));
}

/// A record that is read from a bit string can be encoded, and the wire
/// keeps it as it is.
pub proof fn lemma_parsed_can_be_encoded(bits: Seq<bool>, record: ConsentRecord)
    requires
        parsed_record(bits) == Ok::<ConsentRecord, Error>(record),
    ensures
        encode_error(record) is None,
        on_wire(record) == record,
{
    lemma2_to64();
    let body = bits.skip(6);
    assert(parsed_v1(body) == Ok::<ConsentRecord, Error>(record));
    lemma_bits_value_bound(body.subrange(0, 36));
    lemma_bits_value_bound(body.subrange(36, 72));
    lemma_bits_value_bound(body.subrange(72, 84));
    lemma_bits_value_bound(body.subrange(84, 96));
    lemma_bits_value_bound(body.subrange(96, 102));
    lemma_bits_value_bound(body.subrange(114, 126));
    lemma_bits_value_bound(body.subrange(150, 166));
    assert(record.created / 100 == field(body, 0, 36));
    assert(record.last_updated / 100 == field(body, 36, 36));
    assert(on_wire(record) =~= record);
}

} // verus!
