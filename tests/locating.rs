use stream_salvage::corpus::{FragmentCorpus, FragmentSource};
use stream_salvage::hex::parse_hex_offset;
use stream_salvage::locate::{group_index_of, LocateError, Location};
use stream_salvage::sanitize::sanitize;

fn source(name: &str, text: &str) -> FragmentSource {
    FragmentSource { name: name.to_string(), text: Some(text.to_string()) }
}

fn sample() -> FragmentCorpus {
    FragmentCorpus::load(&vec![
        source("page002.txt", "EEEE FFFF\nGG=="),
        source("page001.txt", "\n AAAA\nBBBB\nCCCC\nDDDD\n"),
    ])
}

#[test]
fn zero_offset_is_the_first_data_symbol() {
    let loc = sample().locate_offset("0x0").unwrap();
    assert_eq!(loc, Location { position: 0, sequence_number: 1, char_index: 2 });
}

#[test]
fn offset_in_second_fragment() {
    // byte 12 is group 4, stream index 16: the first symbol of page 2
    let loc = sample().locate_offset("0xC").unwrap();
    assert_eq!(loc, Location { position: 1, sequence_number: 2, char_index: 0 });
    // byte 15 is stream index 20: the first F
    let loc = sample().locate_offset("f").unwrap();
    assert_eq!(loc, Location { position: 1, sequence_number: 2, char_index: 5 });
}

#[test]
fn offset_inside_a_group_maps_to_its_start() {
    let corpus = sample();
    assert_eq!(corpus.locate_offset("0x4"), corpus.locate_offset("0x3"));
    assert_eq!(corpus.locate_offset("0x5"), corpus.locate_offset("0x3"));
    let loc = corpus.locate_offset("0x3").unwrap();
    assert_eq!(loc, Location { position: 0, sequence_number: 1, char_index: 7 });
}

#[test]
fn far_offset_is_out_of_bounds_with_the_true_count() {
    let corpus = sample();
    assert_eq!(corpus.locate_offset("0xFFFF"), Err(LocateError::OutOfBounds { available: 26 }));
    assert_eq!(corpus.locate_index(26), Err(LocateError::OutOfBounds { available: 26 }));
    assert!(corpus.locate_index(25).is_ok());
    assert_eq!(corpus.locate_offset("0xffffffffffffffff"), Err(LocateError::OutOfBounds { available: 26 }));
}

#[test]
fn empty_corpus_is_always_out_of_bounds() {
    let corpus = FragmentCorpus::load(&vec![]);
    assert_eq!(corpus.locate_offset("0x0"), Err(LocateError::OutOfBounds { available: 0 }));
}

#[test]
fn malformed_hex_is_its_own_error() {
    let corpus = sample();
    assert_eq!(corpus.locate_offset("0xZZ"), Err(LocateError::InvalidHex));
    assert_eq!(corpus.locate_offset(""), Err(LocateError::InvalidHex));
    assert_eq!(corpus.locate_offset("0x"), Err(LocateError::InvalidHex));
}

#[test]
fn locating_then_recounting_gives_the_group_index() {
    let corpus = sample();
    let frags = corpus.fragments();
    for offset in [0u64, 3, 6, 9, 12, 15, 18] {
        let target = group_index_of(offset);
        let loc = corpus.locate_index(target).unwrap();
        let mut count = 0u128;
        for f in frags.iter().take(loc.position) {
            count += sanitize(&f.raw_text).len() as u128;
        }
        let text: String = frags[loc.position].raw_text.chars().take(loc.char_index).collect();
        count += sanitize(&text).len() as u128;
        assert_eq!(count, (offset / 3 * 4) as u128);
        let all: String = frags.iter().map(|f| f.raw_text.as_str()).collect();
        let clean = sanitize(&all);
        assert_eq!(clean[target as usize], frags[loc.position].raw_text.chars().nth(loc.char_index).unwrap());
    }
}

#[test]
fn group_index_formula() {
    assert_eq!(group_index_of(0), 0);
    assert_eq!(group_index_of(2), 0);
    assert_eq!(group_index_of(3), 4);
    assert_eq!(group_index_of(0x2E1B), 15736);
    assert_eq!(group_index_of(u64::MAX), (u64::MAX / 3) as u128 * 4);
}

#[test]
fn hex_offsets() {
    assert_eq!(parse_hex_offset("0x2E1B"), Some(0x2E1B));
    assert_eq!(parse_hex_offset("  0x1f \n"), Some(31));
    assert_eq!(parse_hex_offset("0x0x10"), Some(16));
    assert_eq!(parse_hex_offset("+ff"), Some(255));
    assert_eq!(parse_hex_offset("0x+a"), Some(10));
    assert_eq!(parse_hex_offset("00x5"), None);
    assert_eq!(parse_hex_offset("0X5"), None);
    assert_eq!(parse_hex_offset("+"), None);
    assert_eq!(parse_hex_offset("-1"), None);
    assert_eq!(parse_hex_offset("1 2"), None);
    assert_eq!(parse_hex_offset("ffffffffffffffff"), Some(u64::MAX));
    assert_eq!(parse_hex_offset("10000000000000000"), None);
    assert_eq!(parse_hex_offset("0"), Some(0));
}

#[test]
fn zero_offset_on_a_plain_corpus_is_index_zero_of_the_lowest_fragment() {
    let corpus = FragmentCorpus::load(&vec![source("page005.txt", "QkJC"), source("page003.txt", "QUFB\nQUFB")]);
    let loc = corpus.locate_offset("0x0").unwrap();
    assert_eq!(loc, Location { position: 0, sequence_number: 3, char_index: 0 });
    let loc = corpus.locate_offset("0x6").unwrap();
    assert_eq!(loc, Location { position: 1, sequence_number: 5, char_index: 0 });
}
