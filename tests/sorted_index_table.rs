use marmotte::index_value::{
    default_string_fixed_size_reader, default_string_writer, default_u32_reader, default_u32_writer,
    default_u64_reader, default_u64_writer, pad_or_truncate_string, IndexError,
};
use marmotte::sorted_index_table::{
    FenseIndex, FileNumberAssignment, SortedIndexFiles, SortedIndexTableFragment,
    SortedIndexTableFragmentHeader,
};

fn padded(s: &str) -> String {
    pad_or_truncate_string(String::from(s), ' ', 200)
}

#[test]
fn should_create_new_file_when_is_more_records_than_max_records_count_per_fragment() {
    let default_value = pad_or_truncate_string(String::from(""), 0 as char, 200);
    let mut files = SortedIndexFiles::<String>::new(String::from("index"), default_value, 200, 3, 5, 20);
    files.open_fragment(0).unwrap();

    for i in 0..22 {
        let value = padded(&format!("string value {i}"));
        let item: FenseIndex<String> = FenseIndex { active: true, target: i, value };
        files.store(item).unwrap();
    }

    assert!(files.fragment_count >= 2);
    let mut all = Vec::new();
    for num in 0..files.fragment_count {
        all.extend(files.read_all_indexes(num, 0).unwrap().into_iter().filter(|ix| ix.active));
    }
    assert_eq!(22, all.len());

    let mut values: Vec<String> = all.iter().map(|ix| ix.value.trim().to_string()).collect();
    values.sort();
    let mut expected: Vec<String> = (0..22).map(|i| format!("string value {i}")).collect();
    expected.sort();
    assert_eq!(values, expected);
    for ix in &all {
        assert_eq!(ix.value.trim(), format!("string value {}", ix.target));
    }
}

#[test]
fn should_find_index_file_num_for_index_value() {
    let default_value = padded("");
    let mut files = SortedIndexFiles::<String>::new(String::from("index"), default_value, 200, 3, 10, 1000);

    for num in 0..10 {
        files.open_fragment(num).unwrap();
        let letter = (b'a' + num as u8) as char;
        for i in num..(num + 20) {
            let v = i * 10;
            let value = padded(&format!("string value {letter} - {v}"));
            let item: FenseIndex<String> = FenseIndex { active: true, target: 100 * i as u64, value };
            files.write_offset(num, item, i as u32).unwrap();
        }
    }

    let table_fragment = SortedIndexTableFragment::<String>::new(&files);

    let ix1 = FenseIndex { active: true, target: 100, value: String::from("string value d - 15") };
    let index_file_num_1 = table_fragment.get_index_file_num_for_store(&ix1).unwrap();

    let ix2 = FenseIndex { active: true, target: 100, value: String::from("string value g - 20") };
    let index_file_num_2 = table_fragment.get_index_file_num_for_store(&ix2).unwrap();

    assert_eq!(index_file_num_1, FileNumberAssignment::Specific(0));
    assert_eq!(index_file_num_2, FileNumberAssignment::Specific(0));
}

#[test]
fn should_read_offset_by_offset() {
    let mut files = SortedIndexFiles::<String>::new(String::from("index"), padded(""), 200, 3, 10, 500);
    files.open_fragment(0).unwrap();

    for i in 0..500 {
        let value = padded(&format!("string value {i}"));
        let item: FenseIndex<String> = FenseIndex { active: true, target: 100 * i as u64, value };
        files.write_offset(0, item, i).unwrap();
    }

    for i in 0..500 {
        let ix = files.read_offset(0, i).unwrap();
        assert_eq!(ix.value.trim(), format!("string value {i}"));
        assert_eq!(ix.target, 100 * i as u64);
    }
}

#[test]
fn should_read_only_written_index_records() {
    let mut files = SortedIndexFiles::<String>::new(String::from("index"), padded(""), 200, 3, 10, 500);
    files.open_fragment(0).unwrap();

    for i in 20u32..30u32 {
        let value = padded(&format!("string value {i}"));
        let item: FenseIndex<String> = FenseIndex { active: true, target: 100 * i as u64, value };
        files.write_offset(0, item, i).unwrap();
    }

    let fetched_records = files.read_all_indexes(0, 20).unwrap();
    let stored_values = fetched_records.iter().filter(|r| r.active).map(|r| r.value.clone()).collect::<Vec<String>>();

    assert_eq!(10, stored_values.len());
    assert_eq!("string value 20", stored_values[0].trim());
    assert_eq!("string value 21", stored_values[1].trim());
    assert_eq!("string value 22", stored_values[2].trim());
    assert_eq!("string value 29", stored_values[9].trim());
}

#[test]
fn should_read_only_written_u32_index_records() {
    let mut files = SortedIndexFiles::<u32>::new(String::from("index"), 0, 0, 3, 10, 500);
    files.open_fragment(0).unwrap();

    for i in 20u32..30u32 {
        let item: FenseIndex<u32> = FenseIndex { active: true, target: 100 * i as u64, value: i };
        files.write_offset(0, item, i).unwrap();
    }

    let fetched_records = files.read_all_indexes(0, 20).unwrap();
    let stored_values = fetched_records.iter().filter(|r| r.active).map(|r| r.value).collect::<Vec<u32>>();

    assert_eq!(10, stored_values.len());
    assert_eq!(20, stored_values[0]);
    assert_eq!(21, stored_values[1]);
    assert_eq!(22, stored_values[2]);
    assert_eq!(29, stored_values[9]);
}

#[test]
fn should_write_and_read_index_file_header() {
    let mut files = SortedIndexFiles::<String>::new(String::from("index"), String::from(""), 200, 3, 10, 50);
    files.open_fragment(0).unwrap();
    let bytes = files.fragment_bytes(0).unwrap();
    assert_eq!(bytes.len(), 12 + 2 * 208 + 50 * (9 + 208));

    let mut reopened = SortedIndexFiles::<String>::new(String::from("index"), String::from(""), 200, 3, 10, 50);
    reopened.load_fragment(&bytes).unwrap();
    let header: SortedIndexTableFragmentHeader<String> = reopened.read_header(0).unwrap();

    assert_eq!(50, header.max_records_count, "Max records count should be 50");
    assert_eq!(10, header.shift_threshold, "Shift thresold should be 10");
    assert_eq!("", header.min_value.as_str().trim(), "Min value should be empty");
    assert_eq!("", header.max_value.as_str().trim(), "Max value should be empty");
}

#[test]
fn string_index_should_be_greater() {
    let ix1: FenseIndex<String> = FenseIndex { active: false, target: 1, value: "aaaa".to_string() };
    let ix2: FenseIndex<String> = FenseIndex { active: false, target: 2, value: "bbbb".to_string() };
    let r = ix2.value.cmp(&ix1.value);
    assert_eq!(std::cmp::Ordering::Greater, r);
}

#[test]
fn string_index_should_be_less() {
    let ix1: FenseIndex<String> = FenseIndex { active: false, target: 1, value: "zzzz".to_string() };
    let ix2: FenseIndex<String> = FenseIndex { active: false, target: 2, value: "bbbb".to_string() };
    let r = ix2.value.cmp(&ix1.value);
    assert_eq!(std::cmp::Ordering::Less, r);
}

#[test]
fn string_index_should_be_equal() {
    let ix1: FenseIndex<String> = FenseIndex { active: false, target: 1, value: "ddd".to_string() };
    let ix2: FenseIndex<String> = FenseIndex { active: false, target: 2, value: "ddd".to_string() };
    let r = ix2.value.cmp(&ix1.value);
    assert_eq!(std::cmp::Ordering::Equal, r);
}

#[test]
fn u64_index_should_be_greater() {
    let ix1: FenseIndex<u64> = FenseIndex { active: false, target: 1, value: 45 };
    let ix2: FenseIndex<u64> = FenseIndex { active: false, target: 2, value: 60 };
    let r = ix2.value.cmp(&ix1.value);
    assert_eq!(std::cmp::Ordering::Greater, r);
}

#[test]
fn reorder_packs_active_slots_in_value_then_target_order() {
    let mut files = SortedIndexFiles::<u64>::new(String::from("index"), 0, 0, 3, 10, 8);
    files.open_fragment(0).unwrap();
    let entries = [(6u32, 30u64, 1u64), (1, 10, 9), (4, 30, 0), (2, 20, 5)];
    for (offset, value, target) in entries {
        files.write_offset(0, FenseIndex { active: true, target, value }, offset).unwrap();
    }
    files.reorder_indexes(0).unwrap();
    let got: Vec<(bool, u64, u64)> = (0..8).map(|i| {
        let s = files.read_offset(0, i).unwrap();
        (s.active, s.value, s.target)
    }).collect();
    assert_eq!(&got[..4], &[(true, 10, 9), (true, 20, 5), (true, 30, 0), (true, 30, 1)]);
    for s in &got[4..] {
        assert_eq!(*s, (false, 0, 0));
    }
    assert_eq!(files.read_header(0).unwrap().records_count, 4);
}

#[test]
fn write_offset_widens_range_and_clear_offset_counts_down() {
    let mut files = SortedIndexFiles::<u32>::new(String::from("index"), 0, 0, 3, 10, 4);
    files.open_fragment(0).unwrap();
    files.write_offset(0, FenseIndex::new(1, 50), 0).unwrap();
    files.write_offset(0, FenseIndex::new(2, 20), 1).unwrap();
    files.write_offset(0, FenseIndex::new(3, 70), 2).unwrap();
    let h = files.read_header(0).unwrap();
    assert_eq!((h.records_count, h.min_value, h.max_value), (3, 20, 70));
    assert!(files.read_offset(0, 0).unwrap().active);
    files.clear_offset(0, 1).unwrap();
    let s = files.read_offset(0, 1).unwrap();
    assert_eq!((s.active, s.target, s.value), (false, 0, 0));
    assert_eq!(files.read_header(0).unwrap().records_count, 2);
    assert_eq!(files.write_offset(0, FenseIndex::new(1, 1), 4), Err(IndexError::NoSuchSlot));
    assert_eq!(files.write_offset(1, FenseIndex::new(1, 1), 0), Err(IndexError::NoSuchSlot));
}

#[test]
fn full_fragment_with_value_inside_its_range_is_split() {
    let mut files = SortedIndexFiles::<u32>::new(String::from("index"), 0, 0, 3, 10, 4);
    for v in [10u32, 40, 20, 30] {
        files.store(FenseIndex::new(v as u64, v)).unwrap();
    }
    assert_eq!(files.fragment_count, 1);
    let ix = FenseIndex::new(25, 25u32);
    assert_eq!(files.get_index_file_num_for_store(&ix).unwrap(), FileNumberAssignment::Split(0));
    files.store(ix).unwrap();
    assert_eq!(files.fragment_count, 2);
    let low: Vec<u32> = files.read_all_indexes(0, 0).unwrap().iter().map(|s| s.value).collect();
    let high: Vec<u32> = files.read_all_indexes(1, 0).unwrap().iter().map(|s| s.value).collect();
    assert_eq!(low, vec![10, 20, 25]);
    assert_eq!(high, vec![40, 30]);
    let h0 = files.read_header(0).unwrap();
    assert_eq!((h0.min_value, h0.max_value), (10, 25));
    let h1 = files.read_header(1).unwrap();
    assert_eq!((h1.records_count, h1.min_value, h1.max_value), (2, 30, 40));
}

#[test]
fn full_fragment_with_value_outside_its_range_goes_to_a_new_fragment() {
    let mut files = SortedIndexFiles::<u32>::new(String::from("index"), 0, 0, 3, 10, 2);
    files.store(FenseIndex::new(1, 10)).unwrap();
    files.store(FenseIndex::new(2, 20)).unwrap();
    let ix = FenseIndex::new(3, 99u32);
    assert_eq!(files.get_index_file_num_for_store(&ix).unwrap(), FileNumberAssignment::NextAvailable);
    files.store(ix).unwrap();
    assert_eq!(files.fragment_count, 2);
    assert_eq!(files.read_offset(1, 0).unwrap().value, 99);
}

#[test]
fn string_slots_have_a_fixed_width() {
    let w = default_string_writer(8, &String::from("abc")).unwrap();
    assert_eq!(w.len(), 16);
    assert_eq!(w[..8].to_vec(), 8u64.to_be_bytes().to_vec());
    assert_eq!(&w[8..], b"abc     ");
    assert_eq!(default_string_fixed_size_reader(8, &w).unwrap(), String::from("abc     "));
    assert_eq!(default_string_writer(2, &String::from("été")), Err(IndexError::Corrupted));
    let mut zero = vec![0u8; 16];
    assert_eq!(default_string_fixed_size_reader(8, &zero).unwrap(), String::new());
    zero[7] = 3;
    assert_eq!(default_string_fixed_size_reader(8, &zero), Err(IndexError::Corrupted));
    assert_eq!(default_string_fixed_size_reader(8, &w[..10]), Err(IndexError::Truncated));
    assert_eq!(pad_or_truncate_string(String::from("abcdef"), '-', 3), "abc");
    assert_eq!(pad_or_truncate_string(String::from("ab"), '-', 4), "ab--");
}

#[test]
fn u32_fragment_bytes_round_trip() {
    let mut files = SortedIndexFiles::<u32>::new(String::from("index"), 0, 0, 3, 7, 3);
    files.open_fragment(0).unwrap();
    files.write_offset(0, FenseIndex::new(0x0102, 5), 1).unwrap();
    let bytes = files.fragment_bytes(0).unwrap();
    assert_eq!(bytes[..12].to_vec(), vec![3, 0, 0, 0, 1, 0, 0, 0, 7, 0, 0, 0]);
    assert_eq!(bytes.len(), 12 + 8 + 3 * 13);
    let mut other = SortedIndexFiles::<u32>::new(String::from("index"), 0, 0, 3, 7, 3);
    other.load_fragment(&bytes).unwrap();
    let s = other.read_offset(0, 1).unwrap();
    assert_eq!((s.active, s.target, s.value), (true, 0x0102, 5));
    assert_eq!(other.load_fragment(&bytes[..20]), Err(IndexError::Truncated));
}

#[test]
fn integer_slot_codecs_are_big_endian() {
    assert_eq!(default_u32_writer(0x01020304), vec![1, 2, 3, 4]);
    assert_eq!(default_u32_reader(&[1, 2, 3, 4]), Ok(0x01020304));
    assert_eq!(default_u32_reader(&[1, 2, 3]), Err(IndexError::Truncated));
    assert_eq!(default_u64_writer(5), vec![0, 0, 0, 0, 0, 0, 0, 5]);
    assert_eq!(default_u64_reader(&[0, 0, 0, 0, 0, 0, 1, 0]), Ok(256));
    assert_eq!(default_u64_reader(&[0; 7]), Err(IndexError::Truncated));
}

#[test]
fn binary_sizes_of_slots_and_headers() {
    let files = SortedIndexFiles::<String>::new(String::from("index"), String::new(), 200, 3, 10, 50);
    let info = files.slot_size_info();
    assert_eq!((info.prefix_size, info.total_size), (9, 217));
    assert_eq!(FenseIndex::<u32>::get_prefix_binary_size(), 9);
    let ix = FenseIndex::new(1, String::from("abc"));
    assert_eq!(ix.get_binary_size(), 9 + 8 + 3);
    assert_eq!(SortedIndexTableFragmentHeader::<u64>::get_binary_size(8), 28);
    let files = SortedIndexFiles::<u64>::new_with_defaults(String::from("index"), 0, 0);
    assert_eq!(files.max_records_count_per_fragments, 100_000);
    assert_eq!(files.fragment_count, 0);
}

#[test]
fn every_store_succeeds_and_values_stay_within_fragment_ranges() {
    let mut files = SortedIndexFiles::<u32>::new(String::from("index"), 0, 0, 3, 10, 4);
    files.open_fragment(0).unwrap();
    for (i, v) in [50u32, 10, 90, 30, 70, 20, 60, 40, 80, 35, 55, 65].iter().enumerate() {
        files.store(FenseIndex { active: true, target: i as u64, value: *v }).unwrap();
    }
    let mut all = Vec::new();
    for num in 0..files.fragment_count {
        let h = files.read_header(num).unwrap();
        let items = files.read_all_indexes(num, 0).unwrap();
        assert_eq!(items.len() as u32, h.records_count);
        for ix in &items {
            assert!(h.min_value <= ix.value && ix.value <= h.max_value);
        }
        all.extend(items.iter().map(|ix| ix.value));
    }
    all.sort();
    assert_eq!(all, vec![10, 20, 30, 35, 40, 50, 55, 60, 65, 70, 80, 90]);
}

#[test]
fn load_fragment_rejects_mismatched_headers() {
    let mut files = SortedIndexFiles::<u32>::new(String::from("index"), 0, 0, 3, 7, 3);
    files.open_fragment(0).unwrap();
    let bytes = files.fragment_bytes(0).unwrap();
    let mut other = SortedIndexFiles::<u32>::new(String::from("index"), 0, 0, 3, 8, 3);
    assert_eq!(other.load_fragment(&bytes), Err(IndexError::Corrupted));
    assert_eq!(other.fragment_count, 0);
}
