//! The version 1 consent record as a mathematical value, the bits that
//! stand for it on the wire, and the record that a bit string stands for.
//!
//! After the 6-bit version tag the fields follow each other without gaps:
//! created (36 bits), last updated (36), CMP ID (12), CMP version (12),
//! consent screen (6), two language letters (6 each), vendor list version
//! (12), purposes (24), maximum vendor ID (16), encoding selector (1), then
//! the vendor payload.

use crate::bits::{bits_bytes, field, lemma_value_bits_len, padded, true_places, value_bits};
use crate::bitset::{ascending_members, complement, set_bits, within};
use crate::error::{Error, LanguageFault, Malformation};
use crate::ranges::{covered, entries_bit_len, range_bit_len, runs, Entry};
use vstd::arithmetic::power2::pow2;
use vstd::prelude::*;

verus! {

/// A version 1 consent record. Purposes and vendors are kept as sets of
/// positions: position `p` stands for the purpose or vendor with ID `p + 1`.
#[verifier::ext_equal]
pub struct ConsentRecord {
    /// When the consent string was first created, in milliseconds since the
    /// Unix epoch.
    pub created: nat,
    /// When the consent string was last updated, in milliseconds since the
    /// Unix epoch.
    pub last_updated: nat,
    pub cmp_id: nat,
    pub cmp_version: nat,
    pub consent_screen: nat,
    pub consent_language: Seq<char>,
    pub vendor_list_version: nat,
    pub purposes_allowed: Set<int>,
    pub max_vendor_id: nat,
    pub vendor_consent: Set<int>,
}

/// The number of purposes that a record has a bit for.
pub const PURPOSES: usize = 24;

/// The number of bits from the first timestamp up to and including the
/// encoding selector.
pub const HEADER_BITS: usize = 167;

/// `PURPOSES`, as a natural number.
pub open spec fn purpose_count() -> nat {
    PURPOSES as nat
}

/// `HEADER_BITS`, as a natural number.
pub open spec fn header_len() -> nat {
    HEADER_BITS as nat
}

/// The error for a language letter that is stored as an offset past `'z'`.
pub open spec fn letter_error(position: u8, offset: nat) -> Error {
    Error::MalformedRecord(Malformation::LanguageLetter { position, offset: offset as u8 })
}

/// The offset of a lowercase ASCII letter from `'a'`.
pub open spec fn letter_offset(letter: char) -> nat {
    (letter as int - 'a' as int) as nat
}

/// The lowercase ASCII letter at an offset from `'a'`.
pub open spec fn offset_letter(offset: nat) -> char {
    ('a' as int + offset) as char
}

/// Whether a character is a lowercase ASCII letter.
pub open spec fn is_lowercase(letter: char) -> bool {
    'a' <= letter <= 'z'
}

/// What is wrong with a language code, if anything.
pub open spec fn language_fault(language: Seq<char>) -> Option<LanguageFault> {
    if language.len() != 2 {
        Some(LanguageFault::Length(language.len() as usize))
    } else if !is_lowercase(language[0]) {
        Some(LanguageFault::Letter { position: 0, found: language[0] })
    } else if !is_lowercase(language[1]) {
        Some(LanguageFault::Letter { position: 1, found: language[1] })
    } else {
        None
    }
}

/// Whether each number fits the width that the wire gives it: the two
/// timestamps in tenths of a second, the CMP ID, the CMP version, the
/// consent screen, the vendor list version and the maximum vendor ID.
pub open spec fn numbers_fit(
    created: nat,
    last_updated: nat,
    provider: nat,
    provider_version: nat,
    consent_screen: nat,
    vendor_list_version: nat,
    max_vendor_id: nat,
) -> bool {
    &&& created < pow2(36)
    &&& last_updated < pow2(36)
    &&& provider < pow2(12)
    &&& provider_version < pow2(12)
    &&& consent_screen < pow2(6)
    &&& vendor_list_version < pow2(12)
    &&& max_vendor_id < pow2(16)
}

/// Whether every field fits the width that the wire gives it, and every
/// purpose and vendor has a bit.
pub open spec fn fields_fit(record: ConsentRecord) -> bool {
    &&& numbers_fit(
        record.created / 100,
        record.last_updated / 100,
        record.cmp_id,
        record.cmp_version,
        record.consent_screen,
        record.vendor_list_version,
        record.max_vendor_id,
    )
    &&& within(record.purposes_allowed, purpose_count())
    &&& within(record.vendor_consent, record.max_vendor_id)
}

/// The error that encoding a record ends in, if any: a language code that
/// is not two lowercase letters comes first, a field that does not fit
/// second.
pub open spec fn encode_error(record: ConsentRecord) -> Option<Error> {
    match language_fault(record.consent_language) {
        Some(fault) => Some(Error::InvalidLanguageCode(fault)),
        None => if fields_fit(record) {
            None
        } else {
            Some(Error::FieldOverflow)
        },
    }
}

/// Whether consent is the default of the range encoding: it is where at
/// least half of the vendors, rounded down, have consent.
pub open spec fn default_consent(record: ConsentRecord) -> bool {
    record.vendor_consent.len() >= record.max_vendor_id / 2
}

/// The entries of the range encoding: the runs of the vendors that differ
/// from the default.
pub open spec fn range_entries(record: ConsentRecord) -> Seq<Entry> {
    if default_consent(record) {
        runs(ascending_members(complement(record.vendor_consent, record.max_vendor_id)))
    } else {
        runs(ascending_members(record.vendor_consent))
    }
}

/// Whether the record is written with the bit field: it is where the bit
/// field is not longer than the range list.
pub open spec fn uses_bitfield(record: ConsentRecord) -> bool {
    record.max_vendor_id <= range_bit_len(range_entries(record))
}

/// The bits of a range entry: the type flag, then one or two 16-bit IDs.
pub open spec fn entry_bits(entry: Entry) -> Seq<bool> {
    match entry {
        Entry::Single(id) => seq![false] + value_bits(16, id as nat),
        Entry::Range(first, last) => seq![true] + value_bits(16, first as nat) + value_bits(
            16,
            last as nat,
        ),
    }
}

/// The bits of the entries of a range list, one after the other.
pub open spec fn entries_bits(entries: Seq<Entry>) -> Seq<bool>
    decreases entries.len(),
{
    if entries.len() == 0 {
        Seq::empty()
    } else {
        entries_bits(entries.drop_last()) + entry_bits(entries.last())
    }
}

/// The bits of a range payload: the default, the number of entries in 12
/// bits, and the entries.
pub open spec fn range_bits(default: bool, entries: Seq<Entry>) -> Seq<bool> {
    seq![default] + value_bits(12, entries.len()) + entries_bits(entries)
}

/// Whether a range list fits the wire: fewer than `2^12` entries, and
/// every ID below `2^16`.
pub open spec fn range_fits(entries: Seq<Entry>) -> bool {
    &&& entries.len() < pow2(12)
    &&& forall|k: int|
        0 <= k < entries.len() ==> 0 <= (#[trigger] entries[k]).first() < pow2(16) && 0
            <= entries[k].last() < pow2(16)
}

/// The encoding selector and the vendor payload as a bit field: one bit
/// for each vendor ID up to the maximum.
pub open spec fn bitfield_payload(record: ConsentRecord) -> Seq<bool> {
    seq![false] + set_bits(record.vendor_consent, record.max_vendor_id)
}

/// The encoding selector and the vendor payload as a range list.
pub open spec fn range_payload(record: ConsentRecord) -> Seq<bool> {
    seq![true] + range_bits(default_consent(record), range_entries(record))
}

/// The encoding selector and the vendor payload: the bit field where it is
/// not longer than the range list, else the range list.
pub open spec fn payload_bits(record: ConsentRecord) -> Seq<bool> {
    if uses_bitfield(record) {
        bitfield_payload(record)
    } else {
        range_payload(record)
    }
}

/// The bits between the version tag and the encoding selector, for the
/// numbers that they hold: the timestamps in tenths of a second, the CMP ID
/// and version, the consent screen, the offsets of the two language
/// letters, the vendor list version, the purpose flags and the maximum
/// vendor ID.
pub open spec fn fixed_bits(
    created: nat,
    last_updated: nat,
    provider: nat,
    provider_version: nat,
    consent_screen: nat,
    first_letter: nat,
    second_letter: nat,
    vendor_list_version: nat,
    purposes: Seq<bool>,
    max_vendor_id: nat,
) -> Seq<bool> {
    value_bits(36, created) + value_bits(36, last_updated) + value_bits(12, provider) + value_bits(
        12,
        provider_version,
    ) + value_bits(6, consent_screen) + value_bits(6, first_letter) + value_bits(
        6,
        second_letter,
    ) + value_bits(12, vendor_list_version) + purposes + value_bits(16, max_vendor_id)
}

/// The fields between the version tag and the encoding selector.
pub open spec fn field_bits(record: ConsentRecord) -> Seq<bool> {
    fixed_bits(
        record.created / 100,
        record.last_updated / 100,
        record.cmp_id,
        record.cmp_version,
        record.consent_screen,
        letter_offset(record.consent_language[0]),
        letter_offset(record.consent_language[1]),
        record.vendor_list_version,
        set_bits(record.purposes_allowed, purpose_count()),
        record.max_vendor_id,
    )
}

/// The bits of a record, from the version tag to the end of the payload.
pub open spec fn record_bits(record: ConsentRecord) -> Seq<bool> {
    value_bits(6, 1) + field_bits(record) + payload_bits(record)
}

/// The bytes of a record: its bits, filled up with zero bits to a byte
/// boundary.
pub open spec fn wire_bytes(record: ConsentRecord) -> Seq<u8> {
    bits_bytes(padded(record_bits(record)))
}

/// The record as the wire keeps it: with its timestamps cut to tenths of a
/// second.
pub open spec fn on_wire(record: ConsentRecord) -> ConsentRecord {
    ConsentRecord {
        created: record.created / 100 * 100,
        last_updated: record.last_updated / 100 * 100,
        ..record
    }
}

/// Whether a vendor ID read from a range entry can stand in a record with
/// the given maximum vendor ID.
pub open spec fn id_in_range(id: nat, max_vendor_id: nat) -> bool {
    1 <= id <= max_vendor_id
}

/// The range entry at the start of a bit string, and the number of bits it
/// takes.
pub open spec fn parsed_entry(bits: Seq<bool>, max_vendor_id: nat) -> Result<(Entry, nat), Error> {
    if bits.len() < 1 {
        Err(Error::UnexpectedEndOfInput)
    } else if !bits[0] {
        let id = field(bits, 1, 16);
        if bits.len() < 17 {
            Err(Error::UnexpectedEndOfInput)
        } else if !id_in_range(id, max_vendor_id) {
            Err(Error::MalformedRecord(Malformation::VendorId { id: id as u16 }))
        } else {
            Ok((Entry::Single(id as usize), 17))
        }
    } else {
        let first = field(bits, 1, 16);
        let last = field(bits, 17, 16);
        if bits.len() < 33 {
            Err(Error::UnexpectedEndOfInput)
        } else if !id_in_range(first, max_vendor_id) {
            Err(Error::MalformedRecord(Malformation::VendorId { id: first as u16 }))
        } else if !id_in_range(last, max_vendor_id) {
            Err(Error::MalformedRecord(Malformation::VendorId { id: last as u16 }))
        } else {
            Ok((Entry::Range(first as usize, last as usize), 33))
        }
    }
}

/// The `count` range entries at the start of a bit string.
pub open spec fn parsed_entries(bits: Seq<bool>, count: nat, max_vendor_id: nat) -> Result<
    Seq<Entry>,
    Error,
>
    decreases count,
{
    if count == 0 {
        Ok(Seq::empty())
    } else {
        match parsed_entry(bits, max_vendor_id) {
            Err(e) => Err(e),
            Ok((entry, used)) => match parsed_entries(
                bits.skip(used as int),
                (count - 1) as nat,
                max_vendor_id,
            ) {
                Err(e) => Err(e),
                Ok(rest) => Ok(seq![entry] + rest),
            },
        }
    }
}

/// The vendor positions that a range list stands for: with `default`
/// false those whose ID an entry covers, with `default` true the others
/// below the maximum vendor ID.
pub open spec fn flipped(entries: Seq<Entry>, max_vendor_id: nat, default: bool) -> Set<int> {
    Set::new(|place: int| 0 <= place < max_vendor_id && (default != covered(entries, place + 1)))
}

/// The vendor positions that a bit field payload stands for.
pub open spec fn parsed_bitfield(bits: Seq<bool>, max_vendor_id: nat) -> Result<Set<int>, Error> {
    if bits.len() < max_vendor_id {
        Err(Error::UnexpectedEndOfInput)
    } else {
        Ok(true_places(bits.take(max_vendor_id as int)))
    }
}

/// The vendor positions that a range payload stands for.
pub open spec fn parsed_range(bits: Seq<bool>, max_vendor_id: nat) -> Result<Set<int>, Error> {
    if bits.len() < 13 {
        Err(Error::UnexpectedEndOfInput)
    } else {
        match parsed_entries(bits.skip(13), field(bits, 1, 12), max_vendor_id) {
            Err(e) => Err(e),
            Ok(entries) => Ok(flipped(entries, max_vendor_id, bits[0])),
        }
    }
}

/// The record that a bit string stands for, read from behind the version
/// tag.
pub open spec fn parsed_v1(bits: Seq<bool>) -> Result<ConsentRecord, Error> {
    let first = field(bits, 102, 6);
    let second = field(bits, 108, 6);
    let max_vendor_id = field(bits, 150, 16);
    let payload = bits.skip(167);
    if bits.len() < header_len() {
        Err(Error::UnexpectedEndOfInput)
    } else if first >= 26 {
        Err(letter_error(0, first))
    } else if second >= 26 {
        Err(letter_error(1, second))
    } else {
        match (if bits[166] {
            parsed_range(payload, max_vendor_id)
        } else {
            parsed_bitfield(payload, max_vendor_id)
        }) {
            Err(e) => Err(e),
            Ok(vendor_consent) => Ok(
                ConsentRecord {
                    created: field(bits, 0, 36) * 100,
                    last_updated: field(bits, 36, 36) * 100,
                    cmp_id: field(bits, 72, 12),
                    cmp_version: field(bits, 84, 12),
                    consent_screen: field(bits, 96, 6),
                    consent_language: seq![offset_letter(first), offset_letter(second)],
                    vendor_list_version: field(bits, 114, 12),
                    purposes_allowed: true_places(bits.subrange(126, 150)),
                    max_vendor_id,
                    vendor_consent,
                },
            ),
        }
    }
}

/// The record that a bit string stands for: the version tag must be 1.
pub open spec fn parsed_record(bits: Seq<bool>) -> Result<ConsentRecord, Error> {
    if bits.len() < 6 {
        Err(Error::UnexpectedEndOfInput)
    } else if field(bits, 0, 6) != 1 {
        Err(Error::UnsupportedVersion(field(bits, 0, 6) as u8))
    } else {
        parsed_v1(bits.skip(6))
    }
}

/// The entries of a range list take as many bits as `entries_bit_len`
/// counts.
pub proof fn lemma_entries_bits_len(entries: Seq<Entry>)
    ensures
        entries_bits(entries).len() == entries_bit_len(entries),
    decreases entries.len(),
{
    if entries.len() > 0 {
        lemma_entries_bits_len(entries.drop_last());
        match entries.last() {
            Entry::Single(id) => {
                lemma_value_bits_len(16, id as nat);
            },
            Entry::Range(first, last) => {
                lemma_value_bits_len(16, first as nat);
                lemma_value_bits_len(16, last as nat);
            },
        }
    }
}

/// The length of each of the two encodings of the vendor payload, selector
/// included, and of a record: 172 bits stand before the encoding selector.
pub proof fn lemma_record_len(record: ConsentRecord)
    ensures
        bitfield_payload(record).len() == 1 + record.max_vendor_id,
        range_payload(record).len() == 1 + range_bit_len(range_entries(record)),
        record_bits(record).len() == 172 + payload_bits(record).len(),
{
    lemma_value_bits_len(6, 1);
    lemma_value_bits_len(36, record.created / 100);
    lemma_value_bits_len(36, record.last_updated / 100);
    lemma_value_bits_len(12, record.cmp_id);
    lemma_value_bits_len(12, record.cmp_version);
    lemma_value_bits_len(6, record.consent_screen);
    lemma_value_bits_len(6, letter_offset(record.consent_language[0]));
    lemma_value_bits_len(6, letter_offset(record.consent_language[1]));
    lemma_value_bits_len(12, record.vendor_list_version);
    lemma_value_bits_len(16, record.max_vendor_id);
    lemma_value_bits_len(12, range_entries(record).len());
    lemma_entries_bits_len(range_entries(record));
}

} // verus!
