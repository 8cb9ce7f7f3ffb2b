use bit_set::BitSet;
use bitstream_io::{BigEndian, BitWrite, BitWriter};
use gdpr_consent::armor::{armor, dearmor};
use gdpr_consent::error::{Error, LanguageFault, Malformation};
use gdpr_consent::vendor_consent::{
    decode_bytes, encode_v1, from_str, serialize_v1, to_str, VendorConsent, V1,
};

fn record(max_vendor_id: usize, vendors: &[usize]) -> V1 {
    let mut vendor_consent = BitSet::new();
    for id in vendors {
        vendor_consent.insert(id - 1);
    }
    V1 {
        created: 1510081144900,
        last_updated: 1510081144900,
        cmp_id: 7,
        cmp_version: 1,
        consent_screen: 3,
        consent_language: "en".to_string(),
        vendor_list_version: 8,
        purposes_allowed: BitSet::from_bytes(&[0b11100000, 0b00000000, 0b00000000]),
        max_vendor_id,
        vendor_consent,
    }
}

/// The bytes of a record up to and including the encoding selector, written
/// by the `bitstream_io` crate.
fn header(max_vendor_id: u16, range: bool) -> BitWriter<Vec<u8>, BigEndian> {
    let mut writer = BitWriter::endian(Vec::new(), BigEndian);
    writer.write_var(6, 1u8).unwrap();
    writer.write_var(36, 15100811449u64).unwrap();
    writer.write_var(36, 15100811449u64).unwrap();
    writer.write_var(12, 7u16).unwrap();
    writer.write_var(12, 1u16).unwrap();
    writer.write_var(6, 3u8).unwrap();
    writer.write_var(6, 4u8).unwrap();
    writer.write_var(6, 13u8).unwrap();
    writer.write_var(12, 8u16).unwrap();
    writer.write_bytes(&[0b11100000, 0, 0]).unwrap();
    writer.write_var(16, max_vendor_id).unwrap();
    writer.write_bit(range).unwrap();
    writer
}

fn finish(mut writer: BitWriter<Vec<u8>, BigEndian>) -> Vec<u8> {
    writer.byte_align().unwrap();
    writer.into_writer()
}

fn ids(set: &BitSet) -> Vec<usize> {
    set.iter().map(|position| position + 1).collect()
}

fn decoded(bytes: &[u8]) -> V1 {
    match decode_bytes(bytes).unwrap() {
        VendorConsent::V1(v1) => v1,
    }
}

fn error_of(bytes: &[u8]) -> Error {
    match decode_bytes(bytes) {
        Ok(_) => panic!("the bytes were decoded"),
        Err(e) => e,
    }
}

#[test]
fn known_string_holds_the_known_record() {
    let VendorConsent::V1(v1) = from_str("BOEFBi5OEFBi5AHABDENAI4AAAB9vABAASA").unwrap();
    assert_eq!(v1.cmp_id, 7);
    assert_eq!(v1.cmp_version, 1);
    assert_eq!(v1.consent_screen, 3);
    assert_eq!(v1.consent_language, "en");
    assert_eq!(v1.vendor_list_version, 8);
    assert_eq!(ids(&v1.purposes_allowed), vec![1, 2, 3]);
    assert_eq!(v1.max_vendor_id, 2011);
    let expected: Vec<usize> = (1..=2011).filter(|id| *id != 9).collect();
    assert_eq!(ids(&v1.vendor_consent), expected);
    assert_eq!(to_str(VendorConsent::V1(v1)).unwrap(), "BOEFBi5OEFBi5AHABDENAI4AAAB9vABAASA");
}

#[test]
fn removing_vendor_ten_from_the_known_record() {
    let VendorConsent::V1(mut v1) = from_str("BOEFBi5OEFBi5AHABDENAI4AAAB9vABAASA").unwrap();
    v1.vendor_consent.remove(9);
    v1.last_updated = 1526040000000;
    assert_eq!(
        to_str(VendorConsent::V1(v1)).unwrap(),
        "BOEFBi5ONlzmAAHABDENAI4AAAB9vABgASABQA"
    );
}

#[test]
fn range_entries_flip_the_vendors_they_cover() {
    let mut writer = header(20, true);
    writer.write_bit(false).unwrap();
    writer.write_var(12, 2u16).unwrap();
    writer.write_bit(false).unwrap();
    writer.write_var(16, 5u16).unwrap();
    writer.write_bit(true).unwrap();
    writer.write_var(16, 10u16).unwrap();
    writer.write_var(16, 12u16).unwrap();
    let v1 = decoded(&finish(writer));
    assert_eq!(v1.max_vendor_id, 20);
    assert_eq!(ids(&v1.vendor_consent), vec![5, 10, 11, 12]);
}

#[test]
fn range_entries_with_default_consent_withdraw_it() {
    let mut writer = header(20, true);
    writer.write_bit(true).unwrap();
    writer.write_var(12, 2u16).unwrap();
    writer.write_bit(true).unwrap();
    writer.write_var(16, 2u16).unwrap();
    writer.write_var(16, 19u16).unwrap();
    writer.write_bit(false).unwrap();
    writer.write_var(16, 3u16).unwrap();
    let v1 = decoded(&finish(writer));
    assert_eq!(ids(&v1.vendor_consent), vec![1, 20]);
}

#[test]
fn overlapping_and_empty_ranges() {
    let mut writer = header(8, true);
    writer.write_bit(false).unwrap();
    writer.write_var(12, 3u16).unwrap();
    writer.write_bit(true).unwrap();
    writer.write_var(16, 2u16).unwrap();
    writer.write_var(16, 5u16).unwrap();
    writer.write_bit(true).unwrap();
    writer.write_var(16, 4u16).unwrap();
    writer.write_var(16, 6u16).unwrap();
    writer.write_bit(true).unwrap();
    writer.write_var(16, 8u16).unwrap();
    writer.write_var(16, 7u16).unwrap();
    let v1 = decoded(&finish(writer));
    assert_eq!(ids(&v1.vendor_consent), vec![2, 3, 4, 5, 6]);
}

#[test]
fn bit_field_of_2011_vendors_ends_in_three_bits() {
    let vendors: Vec<usize> = (1..=2011).filter(|id| id % 2 == 1).collect();
    let v1 = record(2011, &vendors);
    let bytes = encode_v1(&v1).unwrap();
    // 173 bits up to the selector and 2011 bits of payload: 2184 bits.
    assert_eq!(bytes.len(), 273);
    assert_eq!(bytes[21] & 0b0000_1000, 0);
    // The last byte holds the IDs 2004 to 2011, of which the odd ones have
    // consent: no bit of padding follows ID 2011.
    assert_eq!(bytes[272], 0b0101_0101);
    let text = serialize_v1(&v1).unwrap();
    assert_eq!(text.len(), 364);
    let back = decoded(&bytes);
    assert_eq!(ids(&back.vendor_consent), vendors);
    assert_eq!(back, v1);
}

#[test]
fn bit_field_is_read_bit_for_bit() {
    let mut writer = header(2011, false);
    for id in 1..=2011u32 {
        writer.write_bit(id % 3 == 0 || id > 2008).unwrap();
    }
    let v1 = decoded(&finish(writer));
    let expected: Vec<usize> = (1..=2011).filter(|id| id % 3 == 0 || *id > 2008).collect();
    assert_eq!(ids(&v1.vendor_consent), expected);
}

#[test]
fn bit_field_one_bit_short_is_the_end_of_input() {
    let mut writer = header(16, false);
    for _ in 0..11 {
        writer.write_bit(true).unwrap();
    }
    // 173 + 11 = 184 bits: 23 bytes, 5 bits short of 16 vendors.
    let bytes = finish(writer);
    assert_eq!(bytes.len(), 23);
    assert_eq!(error_of(&bytes), Error::UnexpectedEndOfInput);
}

#[test]
fn uppercase_language_is_refused() {
    let mut v1 = record(10, &[1]);
    v1.consent_language = "EN".to_string();
    assert_eq!(
        serialize_v1(&v1),
        Err(Error::InvalidLanguageCode(LanguageFault::Letter { position: 0, found: 'E' }))
    );
}

#[test]
fn language_of_one_letter_is_refused() {
    let mut v1 = record(10, &[1]);
    v1.consent_language = "e".to_string();
    assert_eq!(serialize_v1(&v1), Err(Error::InvalidLanguageCode(LanguageFault::Length(1))));
}

#[test]
fn language_with_a_bad_second_letter_is_refused() {
    let mut v1 = record(10, &[1]);
    v1.consent_language = "e1".to_string();
    assert_eq!(
        to_str(VendorConsent::V1(v1)),
        Err(Error::InvalidLanguageCode(LanguageFault::Letter { position: 1, found: '1' }))
    );
    let mut v1 = record(10, &[1]);
    v1.consent_language = "deu".to_string();
    assert_eq!(serialize_v1(&v1), Err(Error::InvalidLanguageCode(LanguageFault::Length(3))));
    let mut v1 = record(10, &[1]);
    v1.consent_language = "\u{e9}".to_string();
    assert_eq!(serialize_v1(&v1), Err(Error::InvalidLanguageCode(LanguageFault::Length(1))));
}

#[test]
fn language_fault_comes_before_field_overflow() {
    let mut v1 = record(10, &[1]);
    v1.consent_language = "".to_string();
    v1.cmp_id = 4096;
    assert_eq!(serialize_v1(&v1), Err(Error::InvalidLanguageCode(LanguageFault::Length(0))));
}

#[test]
fn fields_that_do_not_fit_overflow() {
    let mut v1 = record(10, &[1]);
    v1.cmp_id = 4096;
    assert_eq!(serialize_v1(&v1), Err(Error::FieldOverflow));
    let mut v1 = record(10, &[1]);
    v1.cmp_version = 0xFFFF;
    assert_eq!(serialize_v1(&v1), Err(Error::FieldOverflow));
    let mut v1 = record(10, &[1]);
    v1.consent_screen = 64;
    assert_eq!(serialize_v1(&v1), Err(Error::FieldOverflow));
    let mut v1 = record(10, &[1]);
    v1.vendor_list_version = 4096;
    assert_eq!(serialize_v1(&v1), Err(Error::FieldOverflow));
    let mut v1 = record(10, &[1]);
    v1.created = (1u64 << 36) * 100;
    assert_eq!(serialize_v1(&v1), Err(Error::FieldOverflow));
    let mut v1 = record(10, &[1]);
    v1.last_updated = u64::MAX;
    assert_eq!(serialize_v1(&v1), Err(Error::FieldOverflow));
    let mut v1 = record(10, &[1]);
    v1.max_vendor_id = 65536;
    assert_eq!(serialize_v1(&v1), Err(Error::FieldOverflow));
}

#[test]
fn largest_values_fit() {
    let mut v1 = record(65535, &[1, 65535]);
    v1.cmp_id = 4095;
    v1.cmp_version = 4095;
    v1.consent_screen = 63;
    v1.vendor_list_version = 4095;
    v1.created = (1u64 << 36) * 100 - 1;
    v1.last_updated = (1u64 << 36) * 100 - 100;
    v1.consent_language = "zz".to_string();
    v1.purposes_allowed = BitSet::from_bytes(&[0xFF, 0xFF, 0xFF]);
    let text = serialize_v1(&v1).unwrap();
    let VendorConsent::V1(back) = from_str(&text).unwrap();
    assert_eq!(back.created, (1u64 << 36) * 100 - 100);
    assert_eq!(back.last_updated, (1u64 << 36) * 100 - 100);
    assert_eq!(back.cmp_id, 4095);
    assert_eq!(back.cmp_version, 4095);
    assert_eq!(back.consent_screen, 63);
    assert_eq!(back.consent_language, "zz");
    assert_eq!(back.vendor_list_version, 4095);
    assert_eq!(ids(&back.purposes_allowed), (1..=24).collect::<Vec<usize>>());
    assert_eq!(back.max_vendor_id, 65535);
    assert_eq!(ids(&back.vendor_consent), vec![1, 65535]);
}

#[test]
fn vendor_above_the_maximum_overflows() {
    let v1 = record(10, &[1, 11]);
    assert_eq!(serialize_v1(&v1), Err(Error::FieldOverflow));
    let v1 = record(0, &[1]);
    assert_eq!(serialize_v1(&v1), Err(Error::FieldOverflow));
    let v1 = record(10, &[10]);
    assert!(serialize_v1(&v1).is_ok());
}

#[test]
fn purpose_above_24_overflows() {
    let mut v1 = record(10, &[1]);
    v1.purposes_allowed.insert(24);
    assert_eq!(serialize_v1(&v1), Err(Error::FieldOverflow));
    let mut v1 = record(10, &[1]);
    v1.purposes_allowed.insert(23);
    let VendorConsent::V1(back) = from_str(&serialize_v1(&v1).unwrap()).unwrap();
    assert_eq!(ids(&back.purposes_allowed), vec![1, 2, 3, 24]);
}

#[test]
fn text_that_is_not_base64_is_refused() {
    assert!(matches!(from_str("BOEF*i5OEFBi5AHABDENAI4AAAB9vABAASA"), Err(Error::InvalidBase64)));
    assert!(matches!(from_str("B"), Err(Error::InvalidBase64)));
    assert!(matches!(from_str("BOEF Bi5"), Err(Error::InvalidBase64)));
    assert!(matches!("B\u{e9}".parse::<VendorConsent>(), Err(Error::InvalidBase64)));
}

#[test]
fn other_versions_are_not_supported() {
    // The first character holds the six bits of the version tag.
    assert!(matches!(
        from_str("COEFBi5OEFBi5AHABDENAI4AAAB9vABAASA"),
        Err(Error::UnsupportedVersion(2))
    ));
    assert!(matches!(from_str("AAAA"), Err(Error::UnsupportedVersion(0))));
    assert!(matches!(from_str("____"), Err(Error::UnsupportedVersion(63))));
    assert_eq!(error_of(&[0b1111_1100]), Error::UnsupportedVersion(63));
}

#[test]
fn short_input_is_the_end_of_input() {
    assert!(matches!(from_str(""), Err(Error::UnexpectedEndOfInput)));
    assert!(matches!(from_str("BOEFBi5OEFBi5AHABDENAI4"), Err(Error::UnexpectedEndOfInput)));
    assert!(matches!(
        from_str("BOEFBi5OEFBi5AHABDENAI4AAAB9vABA"),
        Err(Error::UnexpectedEndOfInput)
    ));
    assert_eq!(error_of(&[0b0000_0100]), Error::UnexpectedEndOfInput);
    // The record needs 173 bits up to the selector: 21 bytes are too few.
    let bytes = finish(header(0, false));
    assert_eq!(bytes.len(), 22);
    assert!(decode_bytes(&bytes).is_ok());
    assert_eq!(error_of(&bytes[..21]), Error::UnexpectedEndOfInput);
}

#[test]
fn range_list_cut_short_is_the_end_of_input() {
    let mut writer = header(20, true);
    writer.write_bit(false).unwrap();
    writer.write_var(12, 2u16).unwrap();
    writer.write_bit(false).unwrap();
    writer.write_var(16, 5u16).unwrap();
    assert_eq!(error_of(&finish(writer)), Error::UnexpectedEndOfInput);
    let mut writer = header(20, true);
    writer.write_bit(false).unwrap();
    assert_eq!(error_of(&finish(writer)), Error::UnexpectedEndOfInput);
}

#[test]
fn letters_past_z_are_malformed() {
    let mut writer = BitWriter::endian(Vec::new(), BigEndian);
    writer.write_var(6, 1u8).unwrap();
    writer.write_var(36, 0u64).unwrap();
    writer.write_var(36, 0u64).unwrap();
    writer.write_var(12, 0u16).unwrap();
    writer.write_var(12, 0u16).unwrap();
    writer.write_var(6, 0u8).unwrap();
    writer.write_var(6, 25u8).unwrap();
    writer.write_var(6, 26u8).unwrap();
    writer.write_var(12, 0u16).unwrap();
    writer.write_bytes(&[0, 0, 0]).unwrap();
    writer.write_var(16, 0u16).unwrap();
    writer.write_bit(false).unwrap();
    let bytes = finish(writer);
    assert_eq!(
        error_of(&bytes),
        Error::MalformedRecord(Malformation::LanguageLetter { position: 1, offset: 26 })
    );
    // With the header cut short the end of input comes first.
    assert_eq!(error_of(&bytes[..20]), Error::UnexpectedEndOfInput);
}

#[test]
fn vendor_ids_out_of_range_are_malformed() {
    let mut writer = header(20, true);
    writer.write_bit(false).unwrap();
    writer.write_var(12, 1u16).unwrap();
    writer.write_bit(false).unwrap();
    writer.write_var(16, 0u16).unwrap();
    assert_eq!(
        error_of(&finish(writer)),
        Error::MalformedRecord(Malformation::VendorId { id: 0 })
    );
    let mut writer = header(20, true);
    writer.write_bit(false).unwrap();
    writer.write_var(12, 1u16).unwrap();
    writer.write_bit(false).unwrap();
    writer.write_var(16, 21u16).unwrap();
    assert_eq!(
        error_of(&finish(writer)),
        Error::MalformedRecord(Malformation::VendorId { id: 21 })
    );
    let mut writer = header(20, true);
    writer.write_bit(true).unwrap();
    writer.write_var(12, 1u16).unwrap();
    writer.write_bit(true).unwrap();
    writer.write_var(16, 20u16).unwrap();
    writer.write_var(16, 65535u16).unwrap();
    assert_eq!(
        error_of(&finish(writer)),
        Error::MalformedRecord(Malformation::VendorId { id: 65535 })
    );
}

#[test]
fn both_alphabets_are_read_with_or_without_padding() {
    // A record whose text holds both of the characters in which the two
    // alphabets differ.
    let mut v1 = record(48, &[1, 2, 3, 4, 5, 6, 11, 12, 13, 14, 15, 16, 17, 18, 19, 20]);
    v1.cmp_id = 0xFBF;
    v1.cmp_version = 0xFFE;
    let text = serialize_v1(&v1).unwrap();
    assert!(text.contains('-') && text.contains('_'));
    assert!(!text.contains('='));
    let standard = text.replace('-', "+").replace('_', "/");
    assert_ne!(standard, text);
    let padding = "=".repeat((4 - text.len() % 4) % 4);
    assert!(!padding.is_empty());
    for form in [
        text.clone(),
        standard.clone(),
        format!("{}{}", text, padding),
        format!("{}{}", standard, padding),
    ] {
        let VendorConsent::V1(back) = from_str(&form).unwrap();
        assert_eq!(back, v1);
    }
    let mixed = text.replacen('-', "+", 1);
    assert!(mixed.contains('+') && mixed.contains('_'));
    assert!(matches!(from_str(&mixed), Err(Error::InvalidBase64)));
}

#[test]
fn armor_is_url_safe_base64_without_padding() {
    assert_eq!(armor(&[]), "");
    assert_eq!(armor(&[0xFB]), "-w");
    assert_eq!(armor(&[0xFF, 0xFF]), "__8");
    assert_eq!(armor(b"hello world~"), "aGVsbG8gd29ybGR-");
    assert_eq!(dearmor("aGVsbG8gd29ybGR-"), Ok(b"hello world~".to_vec()));
    assert_eq!(dearmor("aGVsbG8gd29ybGR+"), Ok(b"hello world~".to_vec()));
    assert_eq!(dearmor("-w=="), Ok(vec![0xFB]));
    assert_eq!(dearmor("+w"), Ok(vec![0xFB]));
    assert_eq!(dearmor("+-"), Err(Error::InvalidBase64));
    assert_eq!(dearmor(""), Ok(vec![]));
    // Four characters for every three bytes, two or three for what is left,
    // all of them letters, digits, `-` or `_`.
    for len in 0..50usize {
        let bytes: Vec<u8> = (0..len).map(|i| (i * 83 + 251) as u8).collect();
        let text = armor(&bytes);
        assert_eq!(text.len(), 4 * (len / 3) + [0, 2, 3][len % 3]);
        assert!(text.chars().all(|c| c.is_ascii_alphanumeric() || c == '-' || c == '_'));
        assert_eq!(dearmor(&text), Ok(bytes));
    }
}

#[test]
fn the_shorter_payload_is_chosen() {
    // One vendor of 100: a single entry of 17 bits after the 13 bits of the
    // range header beats 100 bits of bit field.
    let bytes = encode_v1(&record(100, &[50])).unwrap();
    assert_eq!(bytes[21] & 0b0000_1000, 0b0000_1000);
    assert_eq!(bytes.len(), (173 + 13 + 17 + 7) / 8);
    // Every other vendor of 100: 50 single entries are longer than 100 bits.
    let vendors: Vec<usize> = (1..=100).filter(|id| id % 2 == 0).collect();
    let bytes = encode_v1(&record(100, &vendors)).unwrap();
    assert_eq!(bytes[21] & 0b0000_1000, 0);
    assert_eq!(bytes.len(), (173 + 100 + 7) / 8);
    // All of 100 vendors but a range: consent is the default, one range entry.
    let vendors: Vec<usize> = (1..=100).filter(|id| !(20..=30).contains(id)).collect();
    let bytes = encode_v1(&record(100, &vendors)).unwrap();
    assert_eq!(bytes[21] & 0b0000_1100, 0b0000_1100);
    assert_eq!(bytes.len(), (173 + 13 + 33 + 7) / 8);
}

#[test]
fn equal_lengths_go_to_the_bit_field() {
    // No vendor of 13: the empty range list takes 13 bits, as the bit field.
    let bytes = encode_v1(&record(13, &[])).unwrap();
    assert_eq!(bytes[21] & 0b0000_1000, 0);
    assert_eq!(bytes.len(), (173 + 13 + 7) / 8);
    // No vendor of 14: the range list is one bit shorter.
    let bytes = encode_v1(&record(14, &[])).unwrap();
    assert_eq!(bytes[21] & 0b0000_1000, 0b0000_1000);
    assert_eq!(bytes.len(), (173 + 13 + 7) / 8);
    // One vendor of 30: 13 + 17 bits of range list, 30 bits of bit field.
    let bytes = encode_v1(&record(30, &[7])).unwrap();
    assert_eq!(bytes[21] & 0b0000_1000, 0);
    let bytes = encode_v1(&record(31, &[7])).unwrap();
    assert_eq!(bytes[21] & 0b0000_1000, 0b0000_1000);
}

#[test]
fn consent_is_the_default_from_half_of_the_vendors_rounded_down() {
    // 101 vendors, 50 with consent: 50 >= 101 / 2, so consent is the default
    // and the list names the 51 others in one range.
    let vendors: Vec<usize> = (1..=50).collect();
    let bytes = encode_v1(&record(101, &vendors)).unwrap();
    assert_eq!(bytes[21] & 0b0000_1100, 0b0000_1100);
    let mut expected = header(101, true);
    expected.write_bit(true).unwrap();
    expected.write_var(12, 1u16).unwrap();
    expected.write_bit(true).unwrap();
    expected.write_var(16, 51u16).unwrap();
    expected.write_var(16, 101u16).unwrap();
    assert_eq!(bytes, finish(expected));
    // 49 with consent: the list names them.
    let vendors: Vec<usize> = (1..=49).collect();
    let bytes = encode_v1(&record(101, &vendors)).unwrap();
    let mut expected = header(101, true);
    expected.write_bit(false).unwrap();
    expected.write_var(12, 1u16).unwrap();
    expected.write_bit(true).unwrap();
    expected.write_var(16, 1u16).unwrap();
    expected.write_var(16, 49u16).unwrap();
    assert_eq!(bytes, finish(expected));
}

#[test]
fn record_without_vendors() {
    let v1 = record(0, &[]);
    let bytes = encode_v1(&v1).unwrap();
    assert_eq!(bytes, finish(header(0, false)));
    assert_eq!(decoded(&bytes), v1);
}

#[test]
fn bytes_after_the_record_are_ignored() {
    let v1 = record(100, &[50]);
    let mut bytes = encode_v1(&v1).unwrap();
    bytes.extend_from_slice(&[0xAB, 0xCD]);
    assert_eq!(decoded(&bytes), v1);
}

#[test]
fn decoding_gives_back_what_was_encoded() {
    let mut seed: u64 = 0x2545_F491_4F6C_DD1D;
    let mut next = move |below: u64| {
        seed ^= seed << 13;
        seed ^= seed >> 7;
        seed ^= seed << 17;
        seed % below
    };
    for round in 0..60 {
        let max_vendor_id = match round % 6 {
            0 => next(40) as usize,
            1 => 65535,
            _ => next(3000) as usize,
        };
        let density = 1 + next(100);
        let mut vendor_consent = BitSet::new();
        let mut id = 0;
        while id < max_vendor_id {
            if next(100) < density {
                let run = 1 + next(50) as usize;
                for position in id..(id + run).min(max_vendor_id) {
                    vendor_consent.insert(position);
                }
                id += run;
            }
            id += 1 + next(20) as usize;
        }
        let v1 = V1 {
            created: next(1 << 36) * 100,
            last_updated: next(1 << 36) * 100,
            cmp_id: next(4096) as u16,
            cmp_version: next(4096) as u16,
            consent_screen: next(64) as u8,
            consent_language: format!(
                "{}{}",
                (b'a' + next(26) as u8) as char,
                (b'a' + next(26) as u8) as char
            ),
            vendor_list_version: next(4096) as u16,
            purposes_allowed: BitSet::from_bytes(&[next(256) as u8, next(256) as u8, next(256) as u8]),
            max_vendor_id,
            vendor_consent,
        };
        let bytes = encode_v1(&v1).unwrap();
        let range_bits = {
            let same = v1.vendor_consent.len() >= max_vendor_id / 2;
            let listed: Vec<usize> =
                (0..max_vendor_id).filter(|p| v1.vendor_consent.contains(*p) != same).collect();
            let mut bits = 13;
            let mut at = 0;
            while at < listed.len() {
                let mut end = at;
                while end + 1 < listed.len() && listed[end + 1] == listed[end] + 1 {
                    end += 1;
                }
                bits += if end == at { 17 } else { 33 };
                at = end + 1;
            }
            bits
        };
        assert_eq!(bytes.len(), (173 + max_vendor_id.min(range_bits) + 7) / 8);
        let text = serialize_v1(&v1).unwrap();
        assert_eq!(text, armor(&bytes));
        let VendorConsent::V1(back) = from_str(&text).unwrap();
        assert_eq!(back, v1);
        assert_eq!(serialize_v1(&back).unwrap(), text);
    }
}

#[test]
fn errors_describe_themselves() {
    assert_eq!(Error::InvalidBase64.description(), "Invalid base64");
    assert_eq!(Error::UnsupportedVersion(9).description(), "Unsupported version");
    assert_eq!(Error::UnexpectedEndOfInput.description(), "Unexpected end of input");
    assert_eq!(
        Error::MalformedRecord(Malformation::VendorId { id: 0 }).description(),
        "Malformed record"
    );
    assert_eq!(
        Error::InvalidLanguageCode(LanguageFault::Length(0)).description(),
        "Invalid consent language"
    );
    assert_eq!(Error::FieldOverflow.description(), "Field overflow");
}
