//! The vendor consent string: decoding a text into a record and encoding a
//! record into a text.

use crate::armor::{
    armor, armor_bytes, armored_len, base64_url_safe_text, dearmor, url_safe_text,
};
use crate::bits::{
    bits_value, bytes_bits, field, lemma_bits_value_bound, lemma_bytes_bits_of_bits, value_bits,
    BitReader, BitWriter,
};
use crate::bitset::{
    all_below, ascending_members, bitset_difference_with, bitset_from_bit_vec, bitset_from_bits,
    bitset_from_bytes, bitset_len, bitset_members, bitset_positions, bitvec_bits,
    bitvec_from_elem, bitvec_set, complement, has_position, lemma_ascending_floor,
    lemma_ascending_members, lemma_members_list, position_set, set_flags, within,
};
pub use crate::error::Error;
use crate::error::{LanguageFault, Malformation};
use crate::laws::{lemma_parsed_can_be_encoded, lemma_range_fits, lemma_round_trip};
use crate::ranges::{covered, detect_runs, range_bit_len, runs, Entry};
use crate::wire::{
    default_consent, encode_error, entries_bits, field_bits, fixed_bits, flipped, language_fault,
    lemma_record_len, letter_error, letter_offset, numbers_fit, offset_letter, on_wire,
    parsed_bitfield, parsed_entries, parsed_entry, parsed_range, parsed_record, parsed_v1,
    range_bits, range_entries, range_fits, record_bits, wire_bytes, ConsentRecord, PURPOSES,
};
use bit_set::BitSet;
use std::str::FromStr;
use vstd::arithmetic::power2::{lemma2_to64, lemma2_to64_rest, pow2};
use vstd::prelude::*;
use vstd::string::StrSliceExecFns;

verus! {

/// An 8-bit field as a natural number.
pub open spec fn nat_u8(value: u8) -> nat {
    value as nat
}

/// A 16-bit field as a natural number.
pub open spec fn nat_u16(value: u16) -> nat {
    value as nat
}

/// A 64-bit field as a natural number.
pub open spec fn nat_u64(value: u64) -> nat {
    value as nat
}

/// A field of the size of the machine as a natural number.
pub open spec fn nat_usize(value: usize) -> nat {
    value as nat
}

/// A version 1 consent record.
#[derive(Debug, PartialEq)]
pub struct V1 {
    /// Epoch milliseconds when the consent string was first created. The wire
    /// keeps tenths of a second.
    pub created: u64,
    /// Epoch milliseconds when the consent string was last updated. The wire
    /// keeps tenths of a second.
    pub last_updated: u64,
    /// Consent Manager Provider ID that last updated the consent string.
    pub cmp_id: u16,
    /// Consent Manager Provider version.
    pub cmp_version: u16,
    /// Screen number in the CMP where consent was given.
    pub consent_screen: u8,
    /// Two-letter ISO639-1 language code that the CMP asked for consent in.
    pub consent_language: String,
    /// Version of the vendor list used in the most recent update.
    pub vendor_list_version: u16,
    /// The purposes that are allowed; bit 0 stands for purpose 1.
    pub purposes_allowed: BitSet,
    /// The highest vendor ID that `vendor_consent` speaks of.
    pub max_vendor_id: usize,
    /// The vendors that have consent; bit 0 stands for vendor ID 1.
    pub vendor_consent: BitSet,
}

impl View for V1 {
    type V = ConsentRecord;

    open spec fn view(&self) -> ConsentRecord {
        ConsentRecord {
            created: nat_u64(self.created),
            last_updated: nat_u64(self.last_updated),
            cmp_id: nat_u16(self.cmp_id),
            cmp_version: nat_u16(self.cmp_version),
            consent_screen: nat_u8(self.consent_screen),
            consent_language: self.consent_language@,
            vendor_list_version: nat_u16(self.vendor_list_version),
            purposes_allowed: bitset_members(self.purposes_allowed),
            max_vendor_id: nat_usize(self.max_vendor_id),
            vendor_consent: bitset_members(self.vendor_consent),
        }
    }
}

/// A consent record of any version that the library knows.
pub enum VendorConsent {
    V1(V1),
}

impl View for VendorConsent {
    type V = ConsentRecord;

    open spec fn view(&self) -> ConsentRecord {
        match self {
            VendorConsent::V1(record) => record@,
        }
    }
}

/// `String::push`: the text grows by the character at its end.
pub assume_specification[ String::push ](text: &mut String, letter: char)
    ensures
        final(text)@ == old(text)@.push(letter),
;

/// A bit string of one bit denotes 1 where the bit is set, else 0.
proof fn lemma_flag_value(bits: Seq<bool>)
    requires
        bits.len() == 1,
    ensures
        bits_value(bits) == (if bits[0] {
            1nat
        } else {
            0nat
        }),
{
    assert(bits.drop_last().len() == 0);
    assert(bits_value(bits.drop_last()) == 0);
}

/// Reads the field of `width` bits that stands at `at` in the bit string
/// `all`, of which the reader holds what follows `at`.
fn take_field(
    reader: &mut BitReader<'_>,
    width: u32,
    Ghost(all): Ghost<Seq<bool>>,
    Ghost(at): Ghost<int>,
) -> (result: Result<u64, Error>)
    requires
        1 <= width <= 64,
        0 <= at <= all.len(),
        old(reader).remaining() == all.skip(at),
    ensures
        match result {
            Ok(value) => {
                &&& at + width <= all.len()
                &&& value == field(all, at, width as int)
                &&& value < pow2(width as nat)
                &&& final(reader).remaining() == all.skip(at + width)
            },
            Err(e) => e == Error::UnexpectedEndOfInput && all.len() < at + width,
        },
{
    let result = reader.read(width);
    proof {
        if result is Ok {
            assert(all.skip(at).take(width as int) =~= all.subrange(at, at + width));
            assert(all.skip(at).skip(width as int) =~= all.skip(at + width));
            lemma_bits_value_bound(all.subrange(at, at + width));
        }
    }
    result
}

/// Reads a bit field payload: one bit for each vendor ID up to the maximum,
/// and not a bit more.
pub fn parse_v1_bitfield(reader: BitReader<'_>, max_vendor_id: usize) -> (result: Result<
    BitSet,
    Error,
>)
    requires
        max_vendor_id <= u16::MAX,
    ensures
        match result {
            Ok(set) => parsed_bitfield(reader.remaining(), max_vendor_id as nat) == Ok::<
                Set<int>,
                Error,
            >(bitset_members(set)),
            Err(e) => parsed_bitfield(reader.remaining(), max_vendor_id as nat) == Err::<
                Set<int>,
                Error,
            >(e),
        },
{
    let mut reader = reader;
    let bits = reader.read_bits(max_vendor_id)?;
    Ok(bitset_from_bits(&bits))
}

/// What a list of entries stands for when `done` entries come before it.
spec fn after(done: Seq<Entry>, rest: Result<Seq<Entry>, Error>) -> Result<
    Seq<Entry>,
    Error,
> {
    match rest {
        Ok(more) => Ok(done + more),
        Err(e) => Err(e),
    }
}

/// An ID is covered by a list with one more entry where the list or the
/// entry covers it.
proof fn lemma_covered_push(entries: Seq<Entry>, entry: Entry, id: int)
    ensures
        covered(entries.push(entry), id) == (covered(entries, id) || entry.covers(id)),
{
    let grown = entries.push(entry);
    if covered(grown, id) {
        let k = choose|k: int| 0 <= k < grown.len() && grown[k].covers(id);
        if k < entries.len() {
            assert(entries[k].covers(id));
        }
    }
    if covered(entries, id) {
        let k = choose|k: int| 0 <= k < entries.len() && entries[k].covers(id);
        assert(grown[k].covers(id));
    }
    if entry.covers(id) {
        assert(grown[grown.len() - 1].covers(id));
    }
}

/// The error for a vendor ID that cannot stand in the record.
fn vendor_id_error(id: u64) -> (e: Error)
    requires
        id <= u16::MAX,
    ensures
        e == Error::MalformedRecord(Malformation::VendorId { id: id as u16 }),
{
    Error::MalformedRecord(Malformation::VendorId { id: id as u16 })
}

/// Reads a range payload: the default, the number of entries and the
/// entries. Every vendor starts with the default; each ID that an entry
/// covers is set to the opposite.
pub fn parse_v1_range(reader: BitReader<'_>, max_vendor_id: usize) -> (result: Result<
    BitSet,
    Error,
>)
    requires
        max_vendor_id <= u16::MAX,
    ensures
        match result {
            Ok(set) => parsed_range(reader.remaining(), max_vendor_id as nat) == Ok::<
                Set<int>,
                Error,
            >(bitset_members(set)),
            Err(e) => parsed_range(reader.remaining(), max_vendor_id as nat) == Err::<
                Set<int>,
                Error,
            >(e),
        },
{
    let mut cursor = reader;
    let ghost all = reader.remaining();
    let ghost max = max_vendor_id as nat;
    proof {
        assert(all.skip(0) =~= all);
        lemma2_to64();
    }
    let default_flag = take_field(&mut cursor, 1, Ghost(all), Ghost(0))?;
    let count = take_field(&mut cursor, 12, Ghost(all), Ghost(1))?;
    let num_entries = count as usize;
    let default_consent = default_flag == 1;
    proof {
        lemma_flag_value(all.subrange(0, 1));
    }
    let mut buf = bitvec_from_elem(max_vendor_id, default_consent);
    let ghost mut entries: Seq<Entry> = Seq::empty();
    let ghost whole = parsed_entries(all.skip(13), num_entries as nat, max);
    let mut done: usize = 0;
    proof {
        match whole {
            Ok(more) => {
                assert(entries + more =~= more);
            },
            Err(_) => {},
        }
    }
    while done < num_entries
        invariant
            done <= num_entries,
            max == max_vendor_id as nat,
            max_vendor_id <= u16::MAX,
            all == reader.remaining(),
            all.len() >= 13,
            default_consent == all[0],
            num_entries == field(all, 1, 12),
            whole == parsed_entries(all.skip(13), num_entries as nat, max),
            whole == after(
                entries,
                parsed_entries(cursor.remaining(), (num_entries - done) as nat, max),
            ),
            bitvec_bits(buf).len() == max,
            forall|place: int|
                0 <= place < max ==> bitvec_bits(buf)[place] == (default_consent != covered(
                    entries,
                    place + 1,
                )),
        decreases num_entries - done,
    {
        let ghost rest = cursor.remaining();
        let ghost left = (num_entries - done) as nat;
        let ghost next = parsed_entry(rest, max);
        let is_range = match cursor.read_bit() {
            Ok(bit) => bit,
            Err(e) => {
                return Err(e);
            },
        };
        let first = match cursor.read(16) {
            Ok(id) => id,
            Err(e) => {
                return Err(e);
            },
        };
        proof {
            assert(rest.skip(1).take(16) =~= rest.subrange(1, 17));
            lemma_bits_value_bound(rest.subrange(1, 17));
            lemma2_to64();
        }
        let last = if is_range {
            let last = match cursor.read(16) {
                Ok(id) => id,
                Err(e) => {
                    return Err(e);
                },
            };
            proof {
                assert(rest.skip(1).skip(16).take(16) =~= rest.subrange(17, 33));
                lemma_bits_value_bound(rest.subrange(17, 33));
                assert(cursor.remaining() =~= rest.skip(33));
            }
            last
        } else {
            proof {
                assert(cursor.remaining() =~= rest.skip(17));
            }
            first
        };
        if first < 1 || first > max_vendor_id as u64 {
            return Err(vendor_id_error(first));
        }
        if last < 1 || last > max_vendor_id as u64 {
            return Err(vendor_id_error(last));
        }
        let ghost entry = if is_range {
            Entry::Range(first as usize, last as usize)
        } else {
            Entry::Single(first as usize)
        };
        let ghost used: nat = if is_range {
            33
        } else {
            17
        };
        assert(next == Ok::<(Entry, nat), Error>((entry, used)));
        let ghost before = entries;
        let mut id: usize = first as usize;
        let stop: usize = last as usize;
        while id <= stop
            invariant
                first <= id,
                id <= stop + 1 || id == first,
                1 <= first,
                stop <= max_vendor_id <= u16::MAX,
                max == max_vendor_id as nat,
                bitvec_bits(buf).len() == max,
                forall|place: int|
                    0 <= place < max ==> bitvec_bits(buf)[place] == (default_consent != (covered(
                        before,
                        place + 1,
                    ) || first <= place + 1 < id)),
            decreases stop + 1 - id,
        {
            bitvec_set(&mut buf, id - 1, !default_consent);
            id = id + 1;
        }
        proof {
            entries = before.push(entry);
            assert forall|place: int| 0 <= place < max implies bitvec_bits(buf)[place] == (
            default_consent != covered(entries, place + 1)) by {
                lemma_covered_push(before, entry, place + 1);
            }
            let tail = parsed_entries(cursor.remaining(), (left - 1) as nat, max);
            assert(parsed_entries(rest, left, max) == after(seq![entry], tail));
            match tail {
                Ok(more) => {
                    assert(before + (seq![entry] + more) =~= entries + more);
                },
                Err(_) => {},
            }
        }
        done = done + 1;
    }
    let set = bitset_from_bit_vec(buf);
    proof {
        assert(whole == Ok::<Seq<Entry>, Error>(entries)) by {
            assert(entries + Seq::<Entry>::empty() =~= entries);
        }
        assert(bitset_members(set) =~= flipped(entries, max, default_consent));
    }
    Ok(set)
}

/// Puts the fields of a record together.
fn assemble(
    created: u64,
    last_updated: u64,
    provider: u16,
    provider_version: u16,
    consent_screen: u8,
    consent_language: String,
    vendor_list_version: u16,
    purposes_allowed: BitSet,
    max_vendor_id: usize,
    vendor_consent: BitSet,
) -> (record: V1)
    ensures
        record.created == created,
        record.last_updated == last_updated,
        record.cmp_id == provider,
        record.cmp_version == provider_version,
        record.consent_screen == consent_screen,
        record.consent_language == consent_language,
        record.vendor_list_version == vendor_list_version,
        record.purposes_allowed == purposes_allowed,
        record.max_vendor_id == max_vendor_id,
        record.vendor_consent == vendor_consent,
{
    V1 {
        created,
        last_updated,
        cmp_id: provider,
        cmp_version: provider_version,
        consent_screen,
        consent_language,
        vendor_list_version,
        purposes_allowed,
        max_vendor_id,
        vendor_consent,
    }
}

/// The lowercase letter at `offset` from `'a'`.
fn letter_at(offset: u64) -> (letter: char)
    requires
        offset < 26,
    ensures
        letter == offset_letter(offset as nat),
{
    ((offset as u8) + 97) as char
}

/// The error for a language letter that is stored as an offset past `'z'`.
fn bad_letter(position: u8, offset: u64) -> (e: Error)
    requires
        offset < 64,
    ensures
        e == letter_error(position, offset as nat),
{
    Error::MalformedRecord(Malformation::LanguageLetter { position, offset: offset as u8 })
}

/// Reads a version 1 record from behind its version tag.
pub fn parse_v1(reader: BitReader<'_>) -> (result: Result<V1, Error>)
    ensures
        match result {
            Ok(record) => parsed_v1(reader.remaining()) == Ok::<ConsentRecord, Error>(record@),
            Err(e) => parsed_v1(reader.remaining()) == Err::<ConsentRecord, Error>(e),
        },
{
    let mut reader = reader;
    let ghost all = reader.remaining();
    proof {
        lemma2_to64();
        lemma2_to64_rest();
        assert(all.skip(0) =~= all);
    }
    let created = take_field(&mut reader, 36, Ghost(all), Ghost(0))?;
    let last_updated = take_field(&mut reader, 36, Ghost(all), Ghost(36))?;
    let provider = take_field(&mut reader, 12, Ghost(all), Ghost(72))?;
    let provider_version = take_field(&mut reader, 12, Ghost(all), Ghost(84))?;
    let consent_screen = take_field(&mut reader, 6, Ghost(all), Ghost(96))?;
    let first = take_field(&mut reader, 6, Ghost(all), Ghost(102))?;
    let second = take_field(&mut reader, 6, Ghost(all), Ghost(108))?;
    let vendor_list_version = take_field(&mut reader, 12, Ghost(all), Ghost(114))?;
    let purpose_bytes = reader.read_bytes(3)?;
    proof {
        assert(all.skip(126).take(24) =~= all.subrange(126, 150));
        assert(all.skip(126).skip(24) =~= all.skip(150));
        lemma_bytes_bits_of_bits(all.subrange(126, 150));
    }
    let max_vendor_id = take_field(&mut reader, 16, Ghost(all), Ghost(150))? as usize;
    let selector = take_field(&mut reader, 1, Ghost(all), Ghost(166))?;
    proof {
        lemma_flag_value(all.subrange(166, 167));
    }
    if first >= 26 {
        return Err(bad_letter(0, first));
    }
    if second >= 26 {
        return Err(bad_letter(1, second));
    }
    let vendor_consent = if selector == 0 {
        parse_v1_bitfield(reader, max_vendor_id)?
    } else {
        parse_v1_range(reader, max_vendor_id)?
    };
    let purposes_allowed = bitset_from_bytes(purpose_bytes.as_slice());
    let mut consent_language = String::new();
    consent_language.push(letter_at(first));
    consent_language.push(letter_at(second));
    let record = assemble(
        created * 100,
        last_updated * 100,
        provider as u16,
        provider_version as u16,
        consent_screen as u8,
        consent_language,
        vendor_list_version as u16,
        purposes_allowed,
        max_vendor_id,
        vendor_consent,
    );
    proof {
        assert(record@.consent_language =~= seq![
            offset_letter(first as nat),
            offset_letter(second as nat),
        ]);
        assert(parsed_v1(all) matches Ok(expected) && expected =~= record@);
    }
    Ok(record)
}

/// The record that bytes stand for. A record that is read can be encoded
/// again, and its timestamps are whole tenths of a second.
pub fn decode_bytes(bytes: &[u8]) -> (result: Result<VendorConsent, Error>)
    ensures
        match result {
            Ok(consent) => {
                &&& parsed_record(bytes_bits(bytes@)) == Ok::<ConsentRecord, Error>(consent@)
                &&& encode_error(consent@) is None
                &&& on_wire(consent@) == consent@
            },
            Err(e) => parsed_record(bytes_bits(bytes@)) == Err::<ConsentRecord, Error>(e),
        },
{
    let mut reader = BitReader::new(bytes);
    let ghost all = reader.remaining();
    let version = reader.read(6)?;
    proof {
        assert(all.take(6) =~= all.subrange(0, 6));
        lemma_bits_value_bound(all.subrange(0, 6));
        lemma2_to64();
    }
    if version == 1 {
        match parse_v1(reader) {
            Ok(record) => {
                proof {
                    lemma_parsed_can_be_encoded(all, record@);
                }
                Ok(VendorConsent::V1(record))
            },
            Err(e) => Err(e),
        }
    } else {
        Err(Error::UnsupportedVersion(version as u8))
    }
}

/// The record that a consent string stands for.
pub open spec fn parsed_text(text: Seq<char>) -> Result<ConsentRecord, Error> {
    match armor_bytes(text) {
        Some(bytes) => parsed_record(bytes_bits(bytes)),
        None => Err(Error::InvalidBase64),
    }
}

/// Decodes a consent string: base64 in the URL-safe or the standard
/// alphabet, padded or not, over a record of version 1. A record that is
/// decoded can be encoded again.
pub fn from_str(raw: &str) -> (result: Result<VendorConsent, Error>)
    ensures
        match result {
            Ok(consent) => {
                &&& parsed_text(raw@) == Ok::<ConsentRecord, Error>(consent@)
                &&& encode_error(consent@) is None
                &&& on_wire(consent@) == consent@
            },
            Err(e) => parsed_text(raw@) == Err::<ConsentRecord, Error>(e),
        },
{
    let bytes = dearmor(raw)?;
    decode_bytes(bytes.as_slice())
}

/// Checks that a language code is two lowercase ASCII letters, and gives
/// the offset of each from `'a'`.
fn language_offsets(language: &String) -> (result: Result<(u8, u8), Error>)
    ensures
        match result {
            Ok(offsets) => {
                &&& language_fault(language@) is None
                &&& offsets.0 == letter_offset(language@[0])
                &&& offsets.1 == letter_offset(language@[1])
                &&& offsets.0 < 26
                &&& offsets.1 < 26
            },
            Err(e) => language_fault(language@) matches Some(fault) && e
                == Error::InvalidLanguageCode(fault),
        },
{
    let text = language.as_str();
    let len = text.unicode_len();
    if len != 2 {
        return Err(Error::InvalidLanguageCode(LanguageFault::Length(len)));
    }
    let first = text.get_char(0);
    let second = text.get_char(1);
    if first < 'a' || first > 'z' {
        return Err(Error::InvalidLanguageCode(LanguageFault::Letter { position: 0, found: first }));
    }
    if second < 'a' || second > 'z' {
        return Err(
            Error::InvalidLanguageCode(LanguageFault::Letter { position: 1, found: second }),
        );
    }
    Ok(((first as u8) - 97, (second as u8) - 97))
}

/// The entries that list the vendors with consent, and the number of bits
/// that the list takes as a range payload.
pub fn create_true_range(vendor_consent: &BitSet) -> (result: (Vec<Entry>, usize))
    requires
        within(bitset_members(*vendor_consent), u16::MAX as nat),
    ensures
        result.0@ == runs(ascending_members(bitset_members(*vendor_consent))),
        result.1 == range_bit_len(result.0@),
{
    let positions = bitset_positions(vendor_consent);
    proof {
        lemma_ascending_members(positions@);
        assert forall|i: int| 0 <= i < positions@.len() implies positions@[i] < u16::MAX by {
            assert(has_position(positions@, positions@[i] as int));
            assert(position_set(positions@).contains(positions@[i] as int));
        }
        if positions@.len() > 0 {
            lemma_ascending_floor(positions@, positions@.len() - 1);
        }
    }
    detect_runs(&positions)
}

/// The entries that list the vendors without consent among those up to the
/// maximum vendor ID, and the number of bits that the list takes as a range
/// payload.
pub fn create_false_range(vendor_consent: &BitSet, max_vendor_id: usize) -> (result: (
    Vec<Entry>,
    usize,
))
    requires
        max_vendor_id <= u16::MAX,
    ensures
        result.0@ == runs(
            ascending_members(complement(bitset_members(*vendor_consent), max_vendor_id as nat)),
        ),
        result.1 == range_bit_len(result.0@),
{
    let mut inverse = bitset_from_bit_vec(bitvec_from_elem(max_vendor_id, true));
    bitset_difference_with(&mut inverse, vendor_consent);
    assert(bitset_members(inverse) =~= complement(
        bitset_members(*vendor_consent),
        max_vendor_id as nat,
    ));
    create_true_range(&inverse)
}

/// Whether a range list fits the wire: fewer than 4096 entries, and every
/// ID below 65536.
fn fits_the_wire(range: &Vec<Entry>) -> (fits: bool)
    ensures
        fits == range_fits(range@),
{
    proof {
        lemma2_to64();
    }
    if range.len() >= 4096 {
        return false;
    }
    let mut done: usize = 0;
    while done < range.len()
        invariant
            done <= range@.len(),
            forall|k: int|
                0 <= k < done ==> 0 <= (#[trigger] range@[k]).first() < pow2(16) && 0
                    <= range@[k].last() < pow2(16),
        decreases range@.len() - done,
    {
        proof {
            lemma2_to64();
        }
        let fits = match range[done] {
            Entry::Single(id) => id <= 0xFFFF,
            Entry::Range(first, last) => first <= 0xFFFF && last <= 0xFFFF,
        };
        if !fits {
            return false;
        }
        done = done + 1;
    }
    true
}

/// Writes a range payload: the default, the number of entries in 12 bits,
/// and for each entry its type flag and its one or two 16-bit IDs. Nothing
/// is written where the list does not fit the wire.
pub fn encode_range(writer: &mut BitWriter, default_consent: bool, range: &Vec<Entry>) -> (result:
    Result<(), Error>)
    ensures
        match result {
            Ok(_) => {
                &&& range_fits(range@)
                &&& final(writer).bits() == old(writer).bits() + range_bits(
                    default_consent,
                    range@,
                )
            },
            Err(e) => {
                &&& e == Error::FieldOverflow
                &&& !range_fits(range@)
                &&& final(writer).bits() == old(writer).bits()
            },
        },
{
    if !fits_the_wire(range) {
        return Err(Error::FieldOverflow);
    }
    let ghost before = writer.bits();
    proof {
        lemma2_to64();
    }
    writer.write_bit(default_consent);
    match writer.write(12, range.len() as u64) {
        Ok(_) => {},
        Err(_) => {},
    }
    let ghost head = before + seq![default_consent] + value_bits(12, range@.len());
    let mut done: usize = 0;
    assert(writer.bits() =~= head + entries_bits(range@.take(0)));
    while done < range.len()
        invariant
            done <= range@.len(),
            range_fits(range@),
            writer.bits() == head + entries_bits(range@.take(done as int)),
        decreases range@.len() - done,
    {
        let ghost seen = range@.take(done as int);
        let ghost grown = range@.take(done + 1);
        proof {
            lemma2_to64();
            assert(grown.drop_last() =~= seen);
            assert(grown.last() == range@[done as int]);
        }
        match range[done] {
            Entry::Single(id) => {
                writer.write_bit(false);
                match writer.write(16, id as u64) {
                    Ok(_) => {},
                    Err(_) => {},
                }
                assert(writer.bits() =~= head + entries_bits(grown));
            },
            Entry::Range(first, last) => {
                writer.write_bit(true);
                match writer.write(16, first as u64) {
                    Ok(_) => {},
                    Err(_) => {},
                }
                match writer.write(16, last as u64) {
                    Ok(_) => {},
                    Err(_) => {},
                }
                assert(writer.bits() =~= head + entries_bits(grown));
            },
        }
        done = done + 1;
    }
    assert(range@.take(done as int) =~= range@);
    assert(head + entries_bits(range@) =~= before + range_bits(default_consent, range@));
    Ok(())
}

/// The numbers of a record.
fn plain_fields(record: &V1) -> (fields: (u64, u64, u16, u16, u8, u16, usize))
    ensures
        fields.0 == record.created,
        fields.1 == record.last_updated,
        fields.2 == record.cmp_id,
        fields.3 == record.cmp_version,
        fields.4 == record.consent_screen,
        fields.5 == record.vendor_list_version,
        fields.6 == record.max_vendor_id,
{
    (
        record.created,
        record.last_updated,
        record.cmp_id,
        record.cmp_version,
        record.consent_screen,
        record.vendor_list_version,
        record.max_vendor_id,
    )
}

/// Writes the fields between the version tag and the encoding selector.
fn write_fixed(
    writer: &mut BitWriter,
    created: u64,
    last_updated: u64,
    provider: u64,
    provider_version: u64,
    consent_screen: u64,
    first_letter: u64,
    second_letter: u64,
    vendor_list_version: u64,
    purposes: &Vec<bool>,
    max_vendor_id: u64,
) -> (result: Result<(), Error>)
    requires
        first_letter < 26,
        second_letter < 26,
    ensures
        match result {
            Ok(_) => {
                &&& numbers_fit(
                    created as nat,
                    last_updated as nat,
                    provider as nat,
                    provider_version as nat,
                    consent_screen as nat,
                    vendor_list_version as nat,
                    max_vendor_id as nat,
                )
                &&& final(writer).bits() == old(writer).bits() + fixed_bits(
                    created as nat,
                    last_updated as nat,
                    provider as nat,
                    provider_version as nat,
                    consent_screen as nat,
                    first_letter as nat,
                    second_letter as nat,
                    vendor_list_version as nat,
                    purposes@,
                    max_vendor_id as nat,
                )
            },
            Err(e) => e == Error::FieldOverflow && !numbers_fit(
                created as nat,
                last_updated as nat,
                provider as nat,
                provider_version as nat,
                consent_screen as nat,
                vendor_list_version as nat,
                max_vendor_id as nat,
            ),
        },
{
    let ghost before = writer.bits();
    proof {
        lemma2_to64();
    }
    writer.write(36, created)?;
    writer.write(36, last_updated)?;
    writer.write(12, provider)?;
    writer.write(12, provider_version)?;
    writer.write(6, consent_screen)?;
    writer.write(6, first_letter)?;
    writer.write(6, second_letter)?;
    writer.write(12, vendor_list_version)?;
    writer.write_bits(purposes.as_slice());
    writer.write(16, max_vendor_id)?;
    assert(writer.bits() =~= before + fixed_bits(
        created as nat,
        last_updated as nat,
        provider as nat,
        provider_version as nat,
        consent_screen as nat,
        first_letter as nat,
        second_letter as nat,
        vendor_list_version as nat,
        purposes@,
        max_vendor_id as nat,
    ));
    Ok(())
}

/// The bytes of a record: the version tag, the fields, the encoding
/// selector and the vendor payload in the shorter of its two encodings,
/// filled up with zero bits to a whole byte.
pub fn encode_v1(record: &V1) -> (result: Result<Vec<u8>, Error>)
    ensures
        match result {
            Ok(bytes) => {
                &&& encode_error(record@) is None
                &&& bytes@ == wire_bytes(record@)
                &&& bytes@.len() <= 8214
                &&& parsed_record(bytes_bits(bytes@)) == Ok::<ConsentRecord, Error>(
                    on_wire(record@),
                )
            },
            Err(e) => encode_error(record@) == Some(e),
        },
{
    proof {
        lemma2_to64();
        lemma2_to64_rest();
    }
    let offsets = language_offsets(&record.consent_language)?;
    let fields = plain_fields(record);
    let max_vendor_id = fields.6;
    if max_vendor_id > 0xFFFF {
        return Err(Error::FieldOverflow);
    }
    let vendors = bitset_positions(&record.vendor_consent);
    if !all_below(&vendors, max_vendor_id) {
        return Err(Error::FieldOverflow);
    }
    let purposes = bitset_positions(&record.purposes_allowed);
    if !all_below(&purposes, PURPOSES) {
        return Err(Error::FieldOverflow);
    }
    let purpose_flags = set_flags(&record.purposes_allowed, PURPOSES);
    let mut writer = BitWriter::new();
    match writer.write(6, 1) {
        Ok(_) => {},
        Err(_) => {},
    }
    write_fixed(
        &mut writer,
        fields.0 / 100,
        fields.1 / 100,
        fields.2 as u64,
        fields.3 as u64,
        fields.4 as u64,
        offsets.0 as u64,
        offsets.1 as u64,
        fields.5 as u64,
        &purpose_flags,
        max_vendor_id as u64,
    )?;
    let ghost head = writer.bits();
    assert(head =~= value_bits(6, 1) + field_bits(record@));
    let by_default = bitset_len(&record.vendor_consent) >= max_vendor_id / 2;
    proof {
        lemma_ascending_members(vendors@);
        assert(by_default == default_consent(record@));
    }
    let (range, range_len) = if by_default {
        create_false_range(&record.vendor_consent, max_vendor_id)
    } else {
        create_true_range(&record.vendor_consent)
    };
    assert(range@ == range_entries(record@));
    if max_vendor_id <= range_len {
        let flags = set_flags(&record.vendor_consent, max_vendor_id);
        writer.write_bit(false);
        writer.write_bits(flags.as_slice());
        assert(writer.bits() =~= record_bits(record@));
    } else {
        proof {
            if by_default {
                let absent = complement(record@.vendor_consent, max_vendor_id as nat);
                lemma_members_list(absent, max_vendor_id as nat);
                lemma_range_fits(ascending_members(absent), max_vendor_id as nat);
            } else {
                assert forall|i: int| 0 <= i < vendors@.len() implies (#[trigger] vendors@[i])
                    < max_vendor_id by {
                    assert(has_position(vendors@, vendors@[i] as int));
                    assert(position_set(vendors@).contains(vendors@[i] as int));
                }
                lemma_range_fits(vendors@, max_vendor_id as nat);
            }
        }
        writer.write_bit(true);
        encode_range(&mut writer, by_default, &range)?;
        assert(writer.bits() =~= record_bits(record@));
    }
    proof {
        lemma_record_len(record@);
        lemma_round_trip(record@);
    }
    Ok(writer.into_bytes())
}

/// The consent string of a version 1 record: its bytes in base64, URL-safe
/// alphabet, without padding.
pub fn serialize_v1(record: &V1) -> (result: Result<String, Error>)
    ensures
        match result {
            Ok(text) => {
                &&& encode_error(record@) is None
                &&& text@ == base64_url_safe_text(wire_bytes(record@))
                &&& text@.len() == armored_len(wire_bytes(record@).len())
                &&& url_safe_text(text@)
                &&& parsed_text(text@) == Ok::<ConsentRecord, Error>(on_wire(record@))
            },
            Err(e) => encode_error(record@) == Some(e),
        },
{
    let bytes = encode_v1(record)?;
    Ok(armor(bytes.as_slice()))
}

/// Encodes a consent record as a consent string.
pub fn to_str(consent: VendorConsent) -> (result: Result<String, Error>)
    ensures
        match result {
            Ok(text) => {
                &&& encode_error(consent@) is None
                &&& text@ == base64_url_safe_text(wire_bytes(consent@))
                &&& text@.len() == armored_len(wire_bytes(consent@).len())
                &&& url_safe_text(text@)
                &&& parsed_text(text@) == Ok::<ConsentRecord, Error>(on_wire(consent@))
            },
            Err(e) => encode_error(consent@) == Some(e),
        },
{
    match consent {
        VendorConsent::V1(record) => serialize_v1(&record),
    }
}

impl VendorConsent {
    /// Encodes the record as a consent string.
    pub fn to_string(&self) -> (result: Result<String, Error>)
        ensures
            match result {
                Ok(text) => {
                    &&& encode_error(self@) is None
                    &&& text@ == base64_url_safe_text(wire_bytes(self@))
                    &&& text@.len() == armored_len(wire_bytes(self@).len())
                    &&& url_safe_text(text@)
                    &&& parsed_text(text@) == Ok::<ConsentRecord, Error>(on_wire(self@))
                },
                Err(e) => encode_error(self@) == Some(e),
            },
    {
        match self {
            VendorConsent::V1(record) => serialize_v1(record),
        }
    }
}

impl FromStr for VendorConsent {
    type Err = Error;

    /// Decodes a consent string, as `from_str` of this module does.
    fn from_str(raw: &str) -> (result: Result<Self, Self::Err>)
        ensures
            match result {
                Ok(consent) => {
                    &&& parsed_text(raw@) == Ok::<ConsentRecord, Error>(consent@)
                    &&& encode_error(consent@) is None
                    &&& on_wire(consent@) == consent@
                },
                Err(e) => parsed_text(raw@) == Err::<ConsentRecord, Error>(e),
            },
    {
        from_str(raw)
    }
}

} // verus!
