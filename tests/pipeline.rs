use base64::Engine;
use stream_salvage::corpus::{FragmentCorpus, FragmentSource};
use stream_salvage::decode::{permissive_decode, DecodeFailure};
use stream_salvage::recover::{recover, run_recovery, LogEntry};
use stream_salvage::sanitize::sanitize;
use stream_salvage::scan::scan_payload;

fn source(name: &str, text: &str) -> FragmentSource {
    FragmentSource { name: name.to_string(), text: Some(text.to_string()) }
}

fn chars(s: &str) -> Vec<char> {
    s.chars().collect()
}

fn small_jpeg() -> Vec<u8> {
    let img = image::RgbImage::from_fn(4, 3, |x, y| image::Rgb([(x * 60) as u8, (y * 80) as u8, 128]));
    let mut out = Vec::new();
    let enc = image::codecs::jpeg::JpegEncoder::new_with_quality(&mut out, 90);
    img.write_with_encoder(enc).unwrap();
    out
}

fn wrap_lines(s: &str, width: usize) -> String {
    let cs: Vec<char> = s.chars().collect();
    cs.chunks(width).map(|c| c.iter().collect::<String>()).collect::<Vec<_>>().join("\n")
}

#[test]
fn hello_world_without_padding_decodes() {
    let clean = sanitize("SGVsbG8sIFdvcmxkIQ==");
    assert_eq!(clean, chars("SGVsbG8sIFdvcmxkIQ"));
    let bytes = permissive_decode(&clean).unwrap();
    assert_eq!(bytes, b"Hello, World!".to_vec());
}

#[test]
fn hello_world_through_the_pipeline() {
    let report = run_recovery(&vec![source("page001.txt", "SGVsbG8sIFdvcmxkIQ==\n")]);
    assert!(matches!(report.log[0], LogEntry::Loaded { ref name } if name == "page001.txt"));
    assert!(matches!(report.log[1], LogEntry::RawLength { chars: 21 }));
    assert!(matches!(report.log[2], LogEntry::CleanLength { chars: 18 }));
    assert!(matches!(report.log[3], LogEntry::Decoded { bytes: 13 }));
    assert!(matches!(report.log[4], LogEntry::PayloadFailed { .. }));
    assert_eq!(report.log.len(), 5);
    assert!(report.payloads.is_empty());
}

#[test]
fn discovery_order_does_not_decide_stream_order() {
    let corpus = FragmentCorpus::load(&vec![source("page002.txt", "BBBB"), source("page001.txt", "AAAA")]);
    assert_eq!(corpus.encoded_stream(), "AAAABBBB");
    assert_eq!(corpus.fragments()[0].sequence_number, 1);
    assert_eq!(corpus.fragments()[1].sequence_number, 2);
}

#[test]
fn every_permutation_gives_the_same_stream() {
    let all = [("page003.txt", "CC"), ("page010.txt", "DD"), ("page001.txt", "AA"), ("page002.txt", "BB")];
    let orders = [[0, 1, 2, 3], [3, 2, 1, 0], [2, 0, 3, 1], [1, 3, 0, 2]];
    for order in orders.iter() {
        let srcs: Vec<FragmentSource> = order.iter().map(|&i| source(all[i].0, all[i].1)).collect();
        assert_eq!(FragmentCorpus::load(&srcs).encoded_stream(), "AABBCCDD");
    }
}

#[test]
fn unnumbered_and_unreadable_fragments() {
    let srcs = vec![
        source("page.txt", "ZZ"),
        FragmentSource { name: "page004.txt".to_string(), text: None },
        source("notes.md", "XX"),
        source("page7.txt", "GG"),
    ];
    let corpus = FragmentCorpus::load(&srcs);
    assert_eq!(corpus.encoded_stream(), "GGZZ");
    assert_eq!(corpus.fragments()[1].sequence_number, u32::MAX);
    let report = run_recovery(&srcs);
    assert!(matches!(report.log[0], LogEntry::Unreadable { ref name } if name == "page004.txt"));
    assert!(matches!(report.log[1], LogEntry::Loaded { ref name } if name == "page7.txt"));
    assert!(matches!(report.log[2], LogEntry::Loaded { ref name } if name == "page.txt"));
}

#[test]
fn embedded_jpeg_is_recovered() {
    let jpeg = small_jpeg();
    let encoded = base64::engine::general_purpose::STANDARD.encode(&jpeg);
    let text = wrap_lines(&encoded, 76);
    let half = text.len() / 2;
    let split = text.char_indices().map(|(i, _)| i).find(|&i| i >= half).unwrap();
    let srcs = vec![source("page002.txt", &text[split..]), source("page001.txt", &text[..split])];
    let report = run_recovery(&srcs);
    assert_eq!(report.payloads.len(), 1);
    assert_eq!(report.payloads[0].width, 4);
    assert_eq!(report.payloads[0].height, 3);
    assert_eq!(report.payloads[0].pixels.len(), 4 * 3 * 3);
    let last = report.log.last().unwrap();
    assert!(matches!(last, LogEntry::PayloadRecovered { width: 4, height: 3 }));
    let decoded = report.log.iter().find_map(|e| match e {
        LogEntry::Decoded { bytes } => Some(*bytes),
        _ => None,
    });
    assert_eq!(decoded, Some(jpeg.len()));
}

#[test]
fn garbage_gives_no_payload_and_one_failure_line() {
    let corpus = FragmentCorpus::load(&vec![source("page001.txt", "AAAAAAAAAAAAAAAA\nQUJDREVGR0g=")]);
    let report = recover(&corpus);
    assert!(report.payloads.is_empty());
    let failures: Vec<&String> = report
        .log
        .iter()
        .filter_map(|e| match e {
            LogEntry::PayloadFailed { reason } => Some(reason),
            _ => None,
        })
        .collect();
    assert_eq!(failures.len(), 1);
    let expected = image::load_from_memory_with_format(&[0u8; 12], image::ImageFormat::Jpeg).unwrap_err().to_string();
    assert_eq!(failures[0], &expected);
}

#[test]
fn scan_of_garbage_reports_the_decoder_error() {
    let bytes = vec![1u8, 2, 3, 4, 5];
    let outcome = scan_payload(&bytes);
    assert!(outcome.payloads.is_empty());
    let expected = image::load_from_memory_with_format(&bytes, image::ImageFormat::Jpeg).unwrap_err().to_string();
    assert_eq!(outcome.failure, Some(expected));
}

#[test]
fn decode_failure_stops_before_the_scan() {
    let corpus = FragmentCorpus::load(&vec![source("page001.txt", "QUJDR")]);
    let report = recover(&corpus);
    assert!(report.payloads.is_empty());
    assert_eq!(report.log.len(), 4);
    assert!(matches!(report.log[3], LogEntry::DecodeFailed { failure: DecodeFailure::InvalidLength { length: 5 } }));
}

#[test]
fn empty_corpus_decodes_to_nothing() {
    let corpus = FragmentCorpus::load(&vec![]);
    let report = recover(&corpus);
    assert!(matches!(report.log[0], LogEntry::RawLength { chars: 0 }));
    assert!(matches!(report.log[2], LogEntry::Decoded { bytes: 0 }));
    assert!(report.payloads.is_empty());
}
