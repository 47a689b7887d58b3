use gm_save_core::slots::{collect_slots, parse_u32, slot_file_name, slot_from_file_name, slot_list_text};
use gm_save_core::text::strip_nul_bytes;

#[test]
fn slot_file_names_are_zero_padded() {
    assert_eq!(slot_file_name(1), "slot_0001.gmsv");
    assert_eq!(slot_file_name(0), "slot_0000.gmsv");
    assert_eq!(slot_file_name(9999), "slot_9999.gmsv");
    assert_eq!(slot_file_name(12345), "slot_12345.gmsv");
    assert_eq!(slot_file_name(u32::MAX), "slot_4294967295.gmsv");
}

#[test]
fn slot_file_names_read_back() {
    for n in [0u32, 1, 42, 9999, 10000, u32::MAX] {
        assert_eq!(slot_from_file_name(&slot_file_name(n)), Some(n));
    }
}

#[test]
fn other_file_names_are_not_slots() {
    assert_eq!(slot_from_file_name("slot_0001.tmp"), None);
    assert_eq!(slot_from_file_name("save_0001.gmsv"), None);
    assert_eq!(slot_from_file_name("slot_.gmsv"), None);
    assert_eq!(slot_from_file_name("slot_x1.gmsv"), None);
    assert_eq!(slot_from_file_name("slot_4294967296.gmsv"), None);
    assert_eq!(slot_from_file_name("slot_-1.gmsv"), None);
    assert_eq!(slot_from_file_name(".gmsv"), None);
}

#[test]
fn slot_numbers_parse_like_std() {
    for s in ["0", "7", "+7", "0007", "4294967295", "4294967296", "", "+", "-", "-1", "1 ", "++1", "99999999999"] {
        assert_eq!(parse_u32(s.as_bytes()), s.parse::<u32>().ok(), "input {:?}", s);
    }
    assert_eq!(slot_from_file_name("slot_+5.gmsv"), Some(5));
    assert_eq!(slot_from_file_name("slot_1.gmsv"), Some(1));
}

#[test]
fn collect_slots_sorts_and_skips_others() {
    let names: Vec<String> = ["slot_0003.gmsv", "notes.txt", "slot_0001.gmsv", "slot_0002.tmp", "slot_0002.gmsv"]
        .iter()
        .map(|s| s.to_string())
        .collect();
    assert_eq!(collect_slots(&names), vec![1, 2, 3]);
}

#[test]
fn collect_slots_keeps_duplicates() {
    let names: Vec<String> = ["slot_1.gmsv", "slot_0001.gmsv", "slot_0000.gmsv"].iter().map(|s| s.to_string()).collect();
    assert_eq!(collect_slots(&names), vec![0, 1, 1]);
}

#[test]
fn list_slots_returns_sorted_csv() {
    let names: Vec<String> = [3u32, 1, 2].iter().map(|n| slot_file_name(*n)).collect();
    let slots = collect_slots(&names);
    assert_eq!(slot_list_text(&slots), "1,2,3");
}

#[test]
fn list_slots_empty_returns_empty_string() {
    assert_eq!(slot_list_text(&[]), "");
}

#[test]
fn slot_list_text_formats_decimals() {
    assert_eq!(slot_list_text(&[0, 10, 4294967295]), "0,10,4294967295");
    assert_eq!(slot_list_text(&[7]), "7");
}

#[test]
fn strip_nul_bytes_drops_only_zeros() {
    assert_eq!(strip_nul_bytes(b"a\0b\0\0c"), b"abc".to_vec());
    assert_eq!(strip_nul_bytes(b"plain"), b"plain".to_vec());
    assert_eq!(strip_nul_bytes(b"\0"), Vec::<u8>::new());
}
