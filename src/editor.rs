//! Helpers of the fragment editor: which page to open first, where the next
//! easily misread character is, and how each transcribed line looks.

use vstd::prelude::*;
use crate::alphabet::{is_b64, is_base64_char};
use crate::hex::{chars_of, trim_bounds, trim_end, trim_start};
use crate::naming::{decimal_value, fragment_name_matches, is_digit, is_fragment_name};

verus! {

/// The length of a complete line of transcribed Base64.
pub const FULL_LINE_CHARS: usize = 76;

/// `s` without one leading `+`.
pub open spec fn after_plus(s: Seq<char>) -> Seq<char> {
    if s.len() > 0 && s[0] == '+' {
        s.drop_first()
    } else {
        s
    }
}

/// The page number that `s` spells for a `u16`: an optional `+`, then one or
/// more decimal digits whose value fits.
pub open spec fn page_number_text(s: Seq<char>) -> Option<u16> {
    let ds = after_plus(s);
    if ds.len() > 0 && (forall|i: int| 0 <= i < ds.len() ==> is_digit(#[trigger] ds[i]))
        && decimal_value(ds) <= u16::MAX {
        Some(decimal_value(ds) as u16)
    } else {
        None
    }
}

/// The page number of a fragment file name `page<number>.txt`.
pub open spec fn page_number_of(name: Seq<char>) -> Option<u16> {
    if is_fragment_name(name) {
        page_number_text(name.subrange(4, name.len() - 4))
    } else {
        None
    }
}

/// The largest page number among `names`, or zero.
pub open spec fn highest_page(names: Seq<Seq<char>>) -> nat
    decreases names.len(),
{
    if names.len() == 0 {
        0
    } else {
        let rest = highest_page(names.drop_last());
        match page_number_of(names.last()) {
            Some(p) => if p > rest {
                p as nat
            } else {
                rest
            },
            None => rest,
        }
    }
}

proof fn lemma_decimal_prefix(ds: Seq<char>, k: int)
    requires
        0 <= k <= ds.len(),
    ensures
        decimal_value(ds.take(k)) <= decimal_value(ds),
    decreases ds.len(),
{
    if k < ds.len() {
        lemma_decimal_prefix(ds.drop_last(), k);
        assert(ds.drop_last().take(k) =~= ds.take(k));
    } else {
        assert(ds.take(k) =~= ds);
    }
}

/// Reads the page number of a fragment file name `page<number>.txt`.
pub fn page_number(name: &str) -> (r: Option<u16>)
    ensures
        r == page_number_of(name@),
{
    if !fragment_name_matches(name) {
        return None;
    }
    let cs = chars_of(name);
    let n = cs.len();
    let end = n - 4;
    let mut i: usize = 4;
    if cs[i] == '+' && i < end {
        i = i + 1;
    }
    let ghost s = cs@.subrange(4, end as int);
    assert(page_number_of(name@) == page_number_text(s));
    let ghost ds = cs@.subrange(i as int, end as int);
    assert(ds =~= after_plus(s));
    if i == end {
        return None;
    }
    let mut acc: u32 = 0;
    let mut k: usize = i;
    assert(ds.take(0) =~= Seq::<char>::empty());
    while k < end
        invariant
            i <= k <= end,
            end == n - 4,
            n == cs@.len(),
            ds == cs@.subrange(i as int, end as int),
            ds == after_plus(s),
            page_number_of(name@) == page_number_text(s),
            forall|j: int| 0 <= j < k - i ==> is_digit(#[trigger] ds[j]),
            acc == decimal_value(ds.take(k - i)),
            acc <= u16::MAX,
        decreases end - k,
    {
        let c = cs[k];
        assert(c == ds[k - i]);
        if !('0' <= c && c <= '9') {
            assert(!is_digit(after_plus(s)[k - i]));
            assert(page_number_text(s) is None);
            return None;
        }
        let d = c as u32 - '0' as u32;
        assert(ds.take(k - i + 1).drop_last() =~= ds.take(k - i));
        assert(decimal_value(ds.take(k - i + 1)) == acc * 10 + d);
        if acc * 10 + d > u16::MAX as u32 {
            proof {
                lemma_decimal_prefix(ds, k - i + 1);
            }
            assert(page_number_text(s) is None);
            return None;
        }
        acc = acc * 10 + d;
        k = k + 1;
    }
    assert(ds.take(k - i) =~= ds);
    assert(page_number_text(s) == Some(acc as u16));
    Some(acc as u16)
}

/// The index of the page to open first: the page before the highest
/// numbered fragment file, or the first page when there is none.
pub open spec fn latest_page(names: Seq<Seq<char>>) -> u16 {
    if highest_page(names) >= 1 {
        (highest_page(names) - 1) as u16
    } else {
        0
    }
}

/// Finds the page to open first among the file names `names`.
pub fn latest_page_index(names: &Vec<String>) -> (r: u16)
    ensures
        r == latest_page(names@.map_values(|n: String| n@)),
{
    let ghost ns = names@.map_values(|n: String| n@);
    let mut best: u16 = 0;
    let mut i: usize = 0;
    while i < names.len()
        invariant
            i <= names.len(),
            ns == names@.map_values(|n: String| n@),
            best as nat == highest_page(ns.take(i as int)),
        decreases names.len() - i,
    {
        assert(ns.take(i + 1).drop_last() =~= ns.take(i as int));
        assert(ns.take(i + 1).last() == names@[i as int]@);
        match page_number(names[i].as_str()) {
            Some(p) => {
                if p > best {
                    best = p;
                }
            },
            None => {},
        }
        i = i + 1;
    }
    assert(ns.take(names.len() as int) =~= ns);
    if best >= 1 {
        best - 1
    } else {
        0
    }
}

/// Whether `c` is easily misread for another in transcription: `I`, `l`, `1`.
pub open spec fn is_ambiguous(c: char) -> bool {
    c == 'I' || c == 'l' || c == '1'
}

/// Finds the first of `I`, `l`, `1` after character index `cursor` of `text`.
pub fn next_ambiguous_char(text: &str, cursor: usize) -> (r: Option<usize>)
    ensures
        match r {
            Some(j) => cursor < j < text@.len() && is_ambiguous(text@[j as int]) && forall|k: int|
                cursor < k < j ==> !is_ambiguous(#[trigger] text@[k]),
            None => forall|k: int| cursor < k < text@.len() ==> !is_ambiguous(#[trigger] text@[k]),
        },
{
    let len = text.unicode_len();
    let mut idx: usize = 0;
    for c in it: text.chars()
        invariant
            it.seq() == text@,
            len == text@.len(),
            idx == it.index(),
            forall|k: int| cursor < k < it.index() ==> !is_ambiguous(#[trigger] text@[k]),
    {
        assert(c == text@[idx as int]);
        if idx > cursor && (c == 'I' || c == 'l' || c == '1') {
            return Some(idx);
        }
        idx = idx + 1;
    }
    None
}

/// `s` with each carriage return replaced by a space.
pub open spec fn blank_returns(s: Seq<char>) -> Seq<char> {
    s.map_values(|c: char| if c == '\r' { ' ' } else { c })
}

/// Replaces each carriage return of `text` by a space, keeping every other
/// character.
pub fn blank_carriage_returns(text: &str) -> (r: Vec<char>)
    ensures
        r@ == blank_returns(text@),
{
    let mut out: Vec<char> = Vec::new();
    for c in it: text.chars()
        invariant
            it.seq() == text@,
            out@ == blank_returns(text@.take(it.index())),
    {
        out.push(if c == '\r' { ' ' } else { c });
        assert(out@ =~= blank_returns(text@.take(it.index() + 1)));
    }
    assert(text@.take(text@.len() as int) =~= text@);
    out
}

/// How a transcribed line looks, once trimmed.
#[derive(PartialEq, Eq, Structural, Clone, Copy, Debug)]
pub enum LineStatus {
    /// It holds a character that has no place in Base64 text.
    HasInvalid,
    /// It is a complete line of [`FULL_LINE_CHARS`] characters.
    Complete,
    /// Anything else.
    Partial,
}

/// Whether `c` may stand in transcribed Base64 text: a data symbol, the
/// padding `=` or a space.
pub open spec fn is_listed(c: char) -> bool {
    is_b64(c) || c == '=' || c == ' '
}

/// The status of `line`: trimmed of white space, it holds a character that is
/// not listed, or it is exactly a complete line, or neither.
pub open spec fn line_status_of(line: Seq<char>) -> LineStatus {
    let t = trim_end(trim_start(line));
    if exists|k: int| 0 <= k < t.len() && !is_listed(#[trigger] t[k]) {
        LineStatus::HasInvalid
    } else if t.len() == FULL_LINE_CHARS {
        LineStatus::Complete
    } else {
        LineStatus::Partial
    }
}

/// Classifies one transcribed line.
pub fn line_status(line: &str) -> (r: LineStatus)
    ensures
        r == line_status_of(line@),
{
    let cs = chars_of(line);
    let (a, b) = trim_bounds(&cs);
    let ghost t = cs@.subrange(a as int, b as int);
    let mut k: usize = a;
    while k < b
        invariant
            a <= k <= b <= cs@.len(),
            t == cs@.subrange(a as int, b as int),
            trim_end(trim_start(line@)) == t,
            forall|j: int| 0 <= j < k - a ==> is_listed(#[trigger] t[j]),
        decreases b - k,
    {
        let c = cs[k];
        assert(c == t[k - a]);
        if !(is_base64_char(c) || c == '=' || c == ' ') {
            assert(!is_listed(t[k - a]));
            assert(trim_end(trim_start(line@)) == t);
            assert(exists|j: int| 0 <= j < t.len() && !is_listed(#[trigger] t[j]));
            return LineStatus::HasInvalid;
        }
        k = k + 1;
    }
    if b - a == FULL_LINE_CHARS {
        LineStatus::Complete
    } else {
        LineStatus::Partial
    }
}

/// The index of the page whose fragment has sequence number `number`: pages
/// count from zero and fragment numbers from one; `None` when the number is
/// beyond the pages a document can have.
pub fn page_index_for(number: u32) -> (r: Option<u16>)
    ensures
        number > u16::MAX ==> r is None,
        number <= u16::MAX ==> r == Some(if number > 0 { (number - 1) as u16 } else { 0u16 }),
{
    if number > u16::MAX as u32 {
        None
    } else if number > 0 {
        Some((number - 1) as u16)
    } else {
        Some(0)
    }
}

} // verus!
