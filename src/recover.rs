//! The forward pipeline: corpus, sanitized stream, permissive decode, payload
//! scan, with a log entry for the outcome of each stage.

use vstd::prelude::*;
use crate::corpus::{
    corpus_of, source_views, stream_of, unreadable_names, FragmentCorpus, FragmentSource,
    FragmentView,
};
use crate::decode::{decode_outcome, permissive_decode, DecodeFailure};
use crate::sanitize::{clean, sanitize};
use crate::scan::{jpeg_decoding, scan_payload, Payload};

verus! {

/// One line of the recovery log.
pub enum LogEntry {
    /// A fragment that follows the naming convention could not be read and was skipped.
    Unreadable { name: String },
    /// A fragment was taken into the stream.
    Loaded { name: String },
    /// The number of characters of the encoded stream.
    RawLength { chars: usize },
    /// The number of characters left after sanitizing.
    CleanLength { chars: usize },
    /// The number of bytes decoded.
    Decoded { bytes: usize },
    /// Decoding failed; no payload scan was attempted.
    DecodeFailed { failure: DecodeFailure },
    /// An image was recovered.
    PayloadRecovered { width: u32, height: u32 },
    /// No image could be read from the decoded bytes; the decoder's error text.
    PayloadFailed { reason: String },
}

/// The value of a [`LogEntry`].
pub enum LogLine {
    Unreadable { name: Seq<char> },
    Loaded { name: Seq<char> },
    RawLength { chars: nat },
    CleanLength { chars: nat },
    Decoded { bytes: nat },
    DecodeFailed { failure: DecodeFailure },
    PayloadRecovered { width: u32, height: u32 },
    PayloadFailed { reason: Seq<char> },
}

impl View for LogEntry {
    type V = LogLine;

    open spec fn view(&self) -> LogLine {
        match self {
            LogEntry::Unreadable { name } => LogLine::Unreadable { name: name@ },
            LogEntry::Loaded { name } => LogLine::Loaded { name: name@ },
            LogEntry::RawLength { chars } => LogLine::RawLength { chars: *chars as nat },
            LogEntry::CleanLength { chars } => LogLine::CleanLength { chars: *chars as nat },
            LogEntry::Decoded { bytes } => LogLine::Decoded { bytes: *bytes as nat },
            LogEntry::DecodeFailed { failure } => LogLine::DecodeFailed { failure: *failure },
            LogEntry::PayloadRecovered { width, height } => LogLine::PayloadRecovered {
                width: *width,
                height: *height,
            },
            LogEntry::PayloadFailed { reason } => LogLine::PayloadFailed { reason: reason@ },
        }
    }
}

/// What one run of the pipeline produced: its log, and the recovered images.
pub struct RecoveryReport {
    pub log: Vec<LogEntry>,
    pub payloads: Vec<Payload>,
}

/// The values of a sequence of log entries.
pub open spec fn lines(v: Seq<LogEntry>) -> Seq<LogLine> {
    v.map_values(|e: LogEntry| e@)
}

/// Width, height and pixels of each payload.
pub open spec fn payload_views(v: Seq<Payload>) -> Seq<(u32, u32, Seq<u8>)> {
    v.map_values(|p: Payload| (p.width, p.height, p.pixels@))
}

/// One entry for each skipped fragment name.
pub open spec fn unreadable_lines(names: Seq<Seq<char>>) -> Seq<LogLine> {
    names.map_values(|n: Seq<char>| LogLine::Unreadable { name: n })
}

/// One entry for each fragment of the corpus, in corpus order.
pub open spec fn loaded_lines(c: Seq<FragmentView>) -> Seq<LogLine> {
    c.map_values(|f: FragmentView| LogLine::Loaded { name: f.name })
}

/// The entries of the stages after loading: stream lengths before and after
/// sanitizing, then the outcome of decoding, then, when decoding succeeded,
/// the outcome of the payload scan.
pub open spec fn stage_lines(c: Seq<FragmentView>) -> Seq<LogLine> {
    let stream = stream_of(c);
    let cl = clean(stream);
    seq![LogLine::RawLength { chars: stream.len() }, LogLine::CleanLength { chars: cl.len() }]
        + match decode_outcome(cl) {
        Err(e) => seq![LogLine::DecodeFailed { failure: e }],
        Ok(b) => seq![LogLine::Decoded { bytes: b.len() }] + match jpeg_decoding(b) {
            Ok((w, h, _)) => seq![LogLine::PayloadRecovered { width: w, height: h }],
            Err(m) => seq![LogLine::PayloadFailed { reason: m }],
        },
    }
}

/// The images that the stream of `c` yields: the one image that its decoded
/// bytes hold, or none when decoding or reading the image fails.
pub open spec fn recovered_payloads(c: Seq<FragmentView>) -> Seq<(u32, u32, Seq<u8>)> {
    match decode_outcome(clean(stream_of(c))) {
        Err(_) => Seq::empty(),
        Ok(b) => match jpeg_decoding(b) {
            Ok(img) => seq![img],
            Err(_) => Seq::empty(),
        },
    }
}

/// Runs the pipeline on the corpus: joins, sanitizes and decodes its stream,
/// and scans the bytes for an image. Every run starts from nothing.
pub fn recover(corpus: &FragmentCorpus) -> (r: RecoveryReport)
    ensures
        lines(r.log@) == loaded_lines(corpus@) + stage_lines(corpus@),
        payload_views(r.payloads@) == recovered_payloads(corpus@),
{
    let ghost c = corpus@;
    let frags = corpus.fragments();
    let mut log: Vec<LogEntry> = Vec::new();
    let mut i: usize = 0;
    while i < frags.len()
        invariant
            c == corpus@,
            frags@.len() == c.len(),
            forall|j: int| 0 <= j < c.len() ==> #[trigger] frags@[j]@ == c[j],
            i <= frags.len(),
            lines(log@) == loaded_lines(c.take(i as int)),
        decreases frags.len() - i,
    {
        assert(frags@[i as int]@ == c[i as int]);
        let ghost before = log@;
        let name = frags[i].name.clone();
        assert(name@ == c[i as int].name);
        log.push(LogEntry::Loaded { name });
        assert(log@ == before.push(LogEntry::Loaded { name }));
        assert(lines(log@) =~= lines(before).push(LogLine::Loaded { name: c[i as int].name }));
        assert(loaded_lines(c.take(i + 1)) =~= loaded_lines(c.take(i as int)).push(LogLine::Loaded { name: c[i as int].name }));
        i = i + 1;
    }
    assert(c.take(c.len() as int) =~= c);
    let ghost loaded = lines(log@);
    let stream = corpus.encoded_stream();
    let raw_len = stream.as_str().unicode_len();
    log.push(LogEntry::RawLength { chars: raw_len });
    let cleaned = sanitize(stream.as_str());
    log.push(LogEntry::CleanLength { chars: cleaned.len() });
    let ghost head = seq![
        LogLine::RawLength { chars: stream@.len() },
        LogLine::CleanLength { chars: cleaned@.len() },
    ];
    assert(lines(log@) =~= loaded + head);
    let mut payloads: Vec<Payload> = Vec::new();
    match permissive_decode(cleaned.as_slice()) {
        Err(e) => {
            log.push(LogEntry::DecodeFailed { failure: e });
            assert(lines(log@) =~= loaded + head + seq![LogLine::DecodeFailed { failure: e }]);
            assert(payload_views(payloads@) =~= recovered_payloads(c));
        },
        Ok(bytes) => {
            log.push(LogEntry::Decoded { bytes: bytes.len() });
            let ghost mid = seq![LogLine::Decoded { bytes: bytes@.len() }];
            let outcome = scan_payload(bytes.as_slice());
            match outcome.failure {
                None => {
                    let ghost p = outcome.payloads@[0];
                    log.push(LogEntry::PayloadRecovered {
                        width: outcome.payloads[0].width,
                        height: outcome.payloads[0].height,
                    });
                    assert(lines(log@) =~= loaded + head + mid + seq![LogLine::PayloadRecovered { width: p.width, height: p.height }]);
                    payloads = outcome.payloads;
                    assert(payload_views(payloads@) =~= seq![(p.width, p.height, p.pixels@)]);
                },
                Some(reason) => {
                    let ghost m = reason@;
                    log.push(LogEntry::PayloadFailed { reason });
                    assert(lines(log@) =~= loaded + head + mid + seq![LogLine::PayloadFailed { reason: m }]);
                    assert(payload_views(payloads@) =~= recovered_payloads(c));
                },
            }
        },
    }
    RecoveryReport { log, payloads }
}

/// Loads the corpus from the sources as discovered and runs the pipeline on
/// it. The log starts with the fragments that could not be read.
pub fn run_recovery(sources: &Vec<FragmentSource>) -> (r: RecoveryReport)
    ensures
        ({
            let srcs = source_views(sources@);
            let c = corpus_of(srcs);
            &&& lines(r.log@) == unreadable_lines(unreadable_names(srcs)) + loaded_lines(c)
                + stage_lines(c)
            &&& payload_views(r.payloads@) == recovered_payloads(c)
        }),
{
    let skipped = FragmentCorpus::skipped_names(sources);
    let corpus = FragmentCorpus::load(sources);
    let ghost srcs = source_views(sources@);
    let mut log: Vec<LogEntry> = Vec::new();
    let mut i: usize = 0;
    while i < skipped.len()
        invariant
            i <= skipped.len(),
            skipped@.map_values(|n: String| n@) == unreadable_names(srcs),
            lines(log@) == unreadable_lines(unreadable_names(srcs).take(i as int)),
        decreases skipped.len() - i,
    {
        let ghost before = log@;
        let name = skipped[i].clone();
        assert(skipped@.map_values(|n: String| n@)[i as int] == skipped@[i as int]@);
        let ghost nm = unreadable_names(srcs)[i as int];
        assert(name@ == nm);
        log.push(LogEntry::Unreadable { name });
        assert(lines(log@) =~= lines(before).push(LogLine::Unreadable { name: nm }));
        assert(unreadable_lines(unreadable_names(srcs).take(i + 1)) =~= unreadable_lines(unreadable_names(srcs).take(i as int)).push(LogLine::Unreadable { name: nm }));
        i = i + 1;
    }
    assert(unreadable_names(srcs).take(skipped@.len() as int) =~= unreadable_names(srcs));
    let mut report = recover(&corpus);
    let ghost first = log@;
    let ghost second = report.log@;
    log.append(&mut report.log);
    assert(lines(log@) =~= lines(first) + lines(second));
    assert(lines(log@) =~= unreadable_lines(unreadable_names(srcs)) + loaded_lines(corpus@) + stage_lines(corpus@));
    RecoveryReport { log, payloads: report.payloads }
}

} // verus!
