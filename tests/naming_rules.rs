use stream_salvage::editor::{
    blank_carriage_returns, latest_page_index, line_status, next_ambiguous_char, page_index_for,
    page_number, LineStatus,
};
use stream_salvage::naming::{fragment_name_matches, parse_sequence_number};

#[test]
fn sequence_numbers_from_identifiers() {
    assert_eq!(parse_sequence_number("page001.txt"), 1);
    assert_eq!(parse_sequence_number("page120.txt"), 120);
    assert_eq!(parse_sequence_number("page12_v3.txt"), 12);
    assert_eq!(parse_sequence_number("page.txt"), u32::MAX);
    assert_eq!(parse_sequence_number(""), u32::MAX);
    assert_eq!(parse_sequence_number("page4294967295.txt"), u32::MAX);
    assert_eq!(parse_sequence_number("page4294967294.txt"), 4294967294);
    assert_eq!(parse_sequence_number("page99999999999.txt"), u32::MAX);
}

#[test]
fn naming_convention() {
    assert!(fragment_name_matches("page001.txt"));
    assert!(fragment_name_matches("page.txt"));
    assert!(!fragment_name_matches("page001.md"));
    assert!(!fragment_name_matches("Page001.txt"));
    assert!(!fragment_name_matches("pagetxt"));
}

#[test]
fn page_numbers_of_file_names() {
    assert_eq!(page_number("page003.txt"), Some(3));
    assert_eq!(page_number("page+3.txt"), Some(3));
    assert_eq!(page_number("page.txt"), None);
    assert_eq!(page_number("page3a.txt"), None);
    assert_eq!(page_number("page65535.txt"), Some(65535));
    assert_eq!(page_number("page65536.txt"), None);
}

#[test]
fn latest_page_is_before_the_highest_file() {
    let names: Vec<String> = ["page002.txt", "notes.txt", "page010.txt", "page003.txt"].iter().map(|s| s.to_string()).collect();
    assert_eq!(latest_page_index(&names), 9);
    assert_eq!(latest_page_index(&vec![]), 0);
    assert_eq!(latest_page_index(&vec!["page000.txt".to_string()]), 0);
    assert_eq!(latest_page_index(&vec!["page001.txt".to_string()]), 0);
}

#[test]
fn next_ambiguous_character() {
    assert_eq!(next_ambiguous_char("abIcl1", 0), Some(2));
    assert_eq!(next_ambiguous_char("abIcl1", 2), Some(4));
    assert_eq!(next_ambiguous_char("abIcl1", 5), None);
    assert_eq!(next_ambiguous_char("Iabc", 0), None);
    assert_eq!(next_ambiguous_char("", 0), None);
}

#[test]
fn carriage_returns_become_spaces() {
    let out: String = blank_carriage_returns("ab\r\ncd\r").into_iter().collect();
    assert_eq!(out, "ab \ncd ");
}

#[test]
fn line_statuses() {
    let full = "A".repeat(76);
    assert_eq!(line_status(&full), LineStatus::Complete);
    assert_eq!(line_status(&format!("  {}\t", full)), LineStatus::Complete);
    assert_eq!(line_status("SGVsbG8="), LineStatus::Partial);
    assert_eq!(line_status("SGV sbG8"), LineStatus::Partial);
    assert_eq!(line_status("SGVs-bG8"), LineStatus::HasInvalid);
    assert_eq!(line_status(&"A".repeat(77)), LineStatus::Partial);
    assert_eq!(line_status(""), LineStatus::Partial);
}

#[test]
fn page_index_of_sequence_number() {
    assert_eq!(page_index_for(1), Some(0));
    assert_eq!(page_index_for(0), Some(0));
    assert_eq!(page_index_for(42), Some(41));
    assert_eq!(page_index_for(65535), Some(65534));
    assert_eq!(page_index_for(65536), None);
}
