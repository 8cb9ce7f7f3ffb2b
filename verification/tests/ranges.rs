use bit_set::BitSet;
use gdpr_consent::bits::{BitReader, BitWriter};
use gdpr_consent::bitset::{all_below, bitset_from_bits, set_flags};
use gdpr_consent::error::{Error, Malformation};
use gdpr_consent::ranges::{detect_runs, Entry};
use gdpr_consent::vendor_consent::{
    create_false_range, create_true_range, encode_range, parse_v1_bitfield, parse_v1_range,
};

fn set_of(positions: &[usize]) -> BitSet {
    let mut set = BitSet::new();
    for position in positions {
        set.insert(*position);
    }
    set
}

fn positions_of(set: &BitSet) -> Vec<usize> {
    set.iter().collect()
}

#[test]
fn runs_of_no_positions() {
    assert_eq!(detect_runs(&vec![]), (vec![], 13));
}

#[test]
fn runs_are_ranges_and_lone_positions_are_singles() {
    let (entries, bits) = detect_runs(&vec![0, 1, 2, 5, 7, 8, 10]);
    assert_eq!(
        entries,
        vec![Entry::Range(1, 3), Entry::Single(6), Entry::Range(8, 9), Entry::Single(11)]
    );
    assert_eq!(bits, 13 + 33 + 17 + 33 + 17);
}

#[test]
fn run_after_a_closed_run_is_kept() {
    // A position right after a gap opens a run that the next one extends.
    let (entries, bits) = detect_runs(&vec![3, 9, 10, 11, 20, 21]);
    assert_eq!(entries, vec![Entry::Single(4), Entry::Range(10, 12), Entry::Range(21, 22)]);
    assert_eq!(bits, 13 + 17 + 33 + 33);
}

#[test]
fn one_position_is_one_single() {
    assert_eq!(detect_runs(&vec![41]), (vec![Entry::Single(42)], 30));
}

#[test]
fn one_long_run_is_one_range() {
    let positions: Vec<usize> = (0..65535).collect();
    assert_eq!(detect_runs(&positions), (vec![Entry::Range(1, 65535)], 46));
}

#[test]
fn true_range_lists_the_vendors_with_consent() {
    let (entries, bits) = create_true_range(&set_of(&[4, 9, 10, 11]));
    assert_eq!(entries, vec![Entry::Single(5), Entry::Range(10, 12)]);
    assert_eq!(bits, 13 + 17 + 33);
    assert_eq!(create_true_range(&BitSet::new()), (vec![], 13));
}

#[test]
fn false_range_lists_the_vendors_without_consent() {
    let (entries, bits) = create_false_range(&set_of(&[4, 9, 10, 11]), 20);
    assert_eq!(
        entries,
        vec![Entry::Range(1, 4), Entry::Range(6, 9), Entry::Range(13, 20)]
    );
    assert_eq!(bits, 13 + 3 * 33);
    let all: Vec<usize> = (0..20).collect();
    assert_eq!(create_false_range(&set_of(&all), 20), (vec![], 13));
    assert_eq!(create_false_range(&BitSet::new(), 1), (vec![Entry::Single(1)], 30));
    assert_eq!(create_false_range(&BitSet::new(), 0), (vec![], 13));
}

#[test]
fn range_payload_is_written_entry_by_entry() {
    let mut writer = BitWriter::new();
    let range = vec![Entry::Single(5), Entry::Range(10, 12)];
    assert_eq!(encode_range(&mut writer, false, &range), Ok(()));
    assert_eq!(
        writer.into_bytes(),
        vec![
            // default 0, count 0000 0000 0010, single 0, then the ID 5 ...
            0b0000_0000,
            0b0001_0000,
            0b0000_0000,
            // ... range 1 before the last bit of this byte, then the IDs 10
            // and 12, and one bit of padding
            0b0001_0110,
            0b0000_0000,
            0b0001_0100,
            0b0000_0000,
            0b0001_1000,
        ]
    );
}

#[test]
fn range_payload_that_does_not_fit_overflows() {
    let mut writer = BitWriter::new();
    assert_eq!(
        encode_range(&mut writer, true, &vec![Entry::Single(65536)]),
        Err(Error::FieldOverflow)
    );
    let mut writer = BitWriter::new();
    assert_eq!(
        encode_range(&mut writer, true, &vec![Entry::Range(1, 70000)]),
        Err(Error::FieldOverflow)
    );
    let mut writer = BitWriter::new();
    let long: Vec<Entry> = (0..4096).map(|k| Entry::Single(2 * k + 1)).collect();
    assert_eq!(encode_range(&mut writer, false, &long), Err(Error::FieldOverflow));
    let mut writer = BitWriter::new();
    assert_eq!(encode_range(&mut writer, false, &long[..4095].to_vec()), Ok(()));
    assert_eq!(writer.into_bytes().len(), (13 + 4095 * 17 + 7) / 8);
}

#[test]
fn range_payload_is_read_back() {
    let mut writer = BitWriter::new();
    let range = vec![Entry::Single(5), Entry::Range(10, 12)];
    encode_range(&mut writer, false, &range).unwrap();
    let bytes = writer.into_bytes();
    let set = parse_v1_range(BitReader::new(&bytes), 20).unwrap();
    assert_eq!(positions_of(&set), vec![4, 9, 10, 11]);
    assert_eq!(
        parse_v1_range(BitReader::new(&bytes), 11),
        Err(Error::MalformedRecord(Malformation::VendorId { id: 12 }))
    );
    assert_eq!(
        parse_v1_range(BitReader::new(&bytes[..7]), 20),
        Err(Error::UnexpectedEndOfInput)
    );
    assert_eq!(parse_v1_range(BitReader::new(&bytes[..1]), 20), Err(Error::UnexpectedEndOfInput));
}

#[test]
fn bit_field_payload_is_read_up_to_the_maximum() {
    let bytes = [0b1010_0000, 0b0111_1111];
    let set = parse_v1_bitfield(BitReader::new(&bytes), 11).unwrap();
    assert_eq!(positions_of(&set), vec![0, 2, 9, 10]);
    let set = parse_v1_bitfield(BitReader::new(&bytes), 16).unwrap();
    assert_eq!(positions_of(&set), vec![0, 2, 9, 10, 11, 12, 13, 14, 15]);
    let set = parse_v1_bitfield(BitReader::new(&bytes), 0).unwrap();
    assert!(set.is_empty());
    assert_eq!(parse_v1_bitfield(BitReader::new(&bytes), 17), Err(Error::UnexpectedEndOfInput));
}

#[test]
fn flags_and_sets() {
    let set = bitset_from_bits(&vec![false, true, true, false, false, false, false, false, true]);
    assert_eq!(positions_of(&set), vec![1, 2, 8]);
    assert!(bitset_from_bits(&vec![]).is_empty());
    assert_eq!(set_flags(&set_of(&[1, 3]), 5), vec![false, true, false, true, false]);
    // A number at or above the limit has no flag.
    assert_eq!(set_flags(&set_of(&[1, 3, 7]), 3), vec![false, true, false]);
    // Positions past the bits that the set keeps are not in it.
    assert_eq!(set_flags(&BitSet::from_bytes(&[0b0100_0000]), 11)[..3], [false, true, false]);
    assert_eq!(set_flags(&BitSet::from_bytes(&[0b0100_0001]), 11)[7..], [true, false, false, false]);
    assert_eq!(set_flags(&BitSet::new(), 3), vec![false, false, false]);
    assert_eq!(set_flags(&set_of(&[0]), 0), Vec::<bool>::new());
    let full = BitSet::from_bit_vec(bit_vec::BitVec::from_elem(2011, true));
    assert_eq!(set_flags(&full, 2011), vec![true; 2011]);
    assert_eq!(set_flags(&full, 2013)[2009..], [true, true, false, false]);
    assert!(all_below(&vec![], 0));
    assert!(all_below(&vec![0, 4], 5));
    assert!(!all_below(&vec![0, 5], 5));
}
