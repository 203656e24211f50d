//! The offset locator: maps a byte offset of the encoded binary back to the
//! fragment and character where its Base64 group starts.

use vstd::prelude::*;
use crate::alphabet::{is_b64, is_base64_char};
use crate::corpus::{stream_of, FragmentCorpus, FragmentView};
use crate::hex::{hex_offset, parse_hex_offset};
use crate::sanitize::{clean, lemma_clean_append};

verus! {

/// A place in the corpus: the fragment at `position` in corpus order, whose
/// sequence number is `sequence_number`, and the index of a character of its
/// text, counting every character.
#[derive(PartialEq, Eq, Structural, Clone, Copy, Debug)]
pub struct Location {
    pub position: usize,
    pub sequence_number: u32,
    pub char_index: usize,
}

/// Why no location was found.
#[derive(PartialEq, Eq, Structural, Clone, Copy, Debug)]
pub enum LocateError {
    /// The requested offset is not hexadecimal.
    InvalidHex,
    /// The corpus holds fewer data symbols than the requested index needs;
    /// `available` is how many it holds.
    OutOfBounds { available: u128 },
}

/// The index in the encoded stream of the group that holds byte `offset` of
/// the decoded binary: three bytes are four symbols.
pub open spec fn group_index(offset: u64) -> int {
    (offset / 3) * 4
}

/// The number of data symbols in the first `i` fragments of `c`.
pub open spec fn symbols_before(c: Seq<FragmentView>, i: int) -> int {
    clean(stream_of(c.take(i))).len() as int
}

/// The number of data symbols in the whole corpus.
pub open spec fn total_symbols(c: Seq<FragmentView>) -> int {
    clean(stream_of(c)).len() as int
}

/// The number of data symbols that come before `loc` in the corpus.
pub open spec fn symbols_up_to(c: Seq<FragmentView>, loc: Location) -> int {
    symbols_before(c, loc.position as int) + clean(
        c[loc.position as int].text.take(loc.char_index as int),
    ).len()
}

/// Whether `loc` names a data symbol of `c` that has exactly `target` data
/// symbols before it.
pub open spec fn locates(c: Seq<FragmentView>, target: int, loc: Location) -> bool {
    &&& loc.position < c.len()
    &&& loc.sequence_number == c[loc.position as int].sequence_number
    &&& loc.char_index < c[loc.position as int].text.len()
    &&& is_b64(c[loc.position as int].text[loc.char_index as int])
    &&& symbols_up_to(c, loc) == target
}

/// What the locator answers for `target` on `c`: a location of the symbol
/// at that index of the clean stream, or, when the corpus holds no more than
/// `target` data symbols, how many it holds.
pub open spec fn locate_answer(c: Seq<FragmentView>, target: int, r: Result<Location, LocateError>) -> bool {
    match r {
        Ok(loc) => locates(c, target, loc),
        Err(e) => total_symbols(c) <= target && e == (LocateError::OutOfBounds {
            available: total_symbols(c) as u128,
        }),
    }
}

/// Computes the stream index of the group that holds byte `offset`.
pub fn group_index_of(offset: u64) -> (r: u128)
    ensures
        r == group_index(offset),
{
    (offset / 3) as u128 * 4
}

proof fn lemma_stream_take_step(c: Seq<FragmentView>, i: int)
    requires
        0 <= i < c.len(),
    ensures
        clean(stream_of(c.take(i + 1))) == clean(stream_of(c.take(i))) + clean(c[i].text),
{
    assert(c.take(i + 1).drop_last() =~= c.take(i));
    lemma_clean_append(stream_of(c.take(i)), c[i].text);
}

impl FragmentCorpus {
    /// Finds the data symbol at index `target` of the clean encoded stream:
    /// walks the fragments in order, counting data symbols only, and reports
    /// where the count first reaches `target`. When the corpus holds no more
    /// than `target` data symbols, reports how many it holds.
    pub fn locate_index(&self, target: u128) -> (r: Result<Location, LocateError>)
        ensures
            locate_answer(self@, target as int, r),
    {
        let frags = self.fragments();
        let ghost c = self@;
        let mut count: u128 = 0;
        let mut i: usize = 0;
        assert(c.take(0) =~= Seq::<FragmentView>::empty());
        assert(clean(stream_of(Seq::<FragmentView>::empty())) =~= Seq::<char>::empty());
        while i < frags.len()
            invariant
                c == self@,
                frags@.len() == c.len(),
                forall|j: int| 0 <= j < c.len() ==> #[trigger] frags@[j]@ == c[j],
                i <= frags.len(),
                count <= target,
                count == symbols_before(c, i as int),
            decreases frags.len() - i,
        {
            let frag = &frags[i];
            let text = frag.raw_text.as_str();
            let len = text.unicode_len();
            let ghost t = c[i as int].text;
            assert(frags@[i as int]@ == c[i as int]);
            assert(text@ == t);
            let mut idx: usize = 0;
            for ch in it: text.chars()
                invariant
                    it.seq() == t,
                    len == t.len(),
                    idx == it.index(),
                    c == self@,
                    0 <= i < c.len(),
                    t == c[i as int].text,
                    frags@.len() == c.len(),
                    frags@[i as int]@ == c[i as int],
                    frag == &frags@[i as int],
                    count <= target,
                    count == symbols_before(c, i as int) + clean(t.take(it.index())).len(),
            {
                assert(t.take(it.index() + 1).drop_last() =~= t.take(it.index()));
                assert(idx < t.len());
                assert(ch == t[idx as int]);
                if is_base64_char(ch) {
                    if count == target {
                        let loc = Location {
                            position: i,
                            sequence_number: frag.sequence_number,
                            char_index: idx,
                        };
                        return Ok(loc);
                    }
                    count = count + 1;
                }
                idx = idx + 1;
            }
            proof {
                assert(t.take(t.len() as int) =~= t);
                lemma_stream_take_step(c, i as int);
            }
            i = i + 1;
        }
        assert(c.take(c.len() as int) =~= c);
        Err(LocateError::OutOfBounds { available: count })
    }

    /// Locates the byte offset written in hexadecimal in `input` (see
    /// [`hex_offset`]): the data symbol that starts the Base64 group of that
    /// byte, at stream index `(offset / 3) * 4`.
    pub fn locate_offset(&self, input: &str) -> (r: Result<Location, LocateError>)
        ensures
            match hex_offset(input@) {
                None => r == Err::<Location, LocateError>(LocateError::InvalidHex),
                Some(offset) => locate_answer(self@, group_index(offset), r),
            },
    {
        match parse_hex_offset(input) {
            None => Err(LocateError::InvalidHex),
            Some(offset) => self.locate_index(group_index_of(offset)),
        }
    }
}

proof fn lemma_stream_append(a: Seq<FragmentView>, b: Seq<FragmentView>)
    ensures
        stream_of(a + b) == stream_of(a) + stream_of(b),
    decreases b.len(),
{
    if b.len() == 0 {
        assert(a + b =~= a);
        assert(stream_of(a) + stream_of(b) =~= stream_of(a));
    } else {
        lemma_stream_append(a, b.drop_last());
        assert((a + b).drop_last() =~= a + b.drop_last());
        assert(stream_of(a) + stream_of(b.drop_last()) + b.last().text =~= stream_of(a) + (stream_of(b.drop_last()) + b.last().text));
    }
}

/// A data symbol of the corpus stands in the clean stream at the index given
/// by the number of data symbols before it.
proof fn lemma_symbol_in_stream(c: Seq<FragmentView>, loc: Location)
    requires
        loc.position < c.len(),
        loc.char_index < c[loc.position as int].text.len(),
        is_b64(c[loc.position as int].text[loc.char_index as int]),
    ensures
        symbols_up_to(c, loc) < total_symbols(c),
        clean(stream_of(c))[symbols_up_to(c, loc)] == c[loc.position as int].text[loc.char_index as int],
{
    let p = loc.position as int;
    let k = loc.char_index as int;
    let t = c[p].text;
    let ch = t[k];
    let head = c.take(p);
    let tail = c.skip(p + 1);
    assert(c =~= head + seq![c[p]] + tail);
    lemma_stream_append(head + seq![c[p]], tail);
    lemma_stream_append(head, seq![c[p]]);
    assert(seq![c[p]].drop_last() =~= Seq::<FragmentView>::empty());
    assert(stream_of(Seq::<FragmentView>::empty()) == Seq::<char>::empty());
    assert(stream_of(seq![c[p]]) == stream_of(Seq::<FragmentView>::empty()) + t);
    assert(stream_of(seq![c[p]]) =~= t);
    assert(t =~= t.take(k) + seq![ch] + t.skip(k + 1));
    lemma_clean_append(t.take(k) + seq![ch], t.skip(k + 1));
    lemma_clean_append(t.take(k), seq![ch]);
    assert(seq![ch].drop_last() =~= Seq::<char>::empty());
    assert(clean(Seq::<char>::empty()) == Seq::<char>::empty());
    assert(clean(seq![ch]) == clean(Seq::<char>::empty()).push(ch));
    assert(clean(seq![ch]) =~= seq![ch]);
    lemma_clean_append(stream_of(head) + t, stream_of(tail));
    lemma_clean_append(stream_of(head), t);
    let pre = clean(stream_of(head)) + clean(t.take(k));
    assert(clean(stream_of(c)) =~= pre + seq![ch] + clean(t.skip(k + 1)) + clean(stream_of(tail)));
}

/// Locating then recounting gives back the group index: for a byte offset
/// that is a multiple of three, whose group index lies within the corpus, the
/// reported location has exactly `(offset / 3) * 4` data symbols before it,
/// and it is the symbol at that index of the clean encoded stream.
pub proof fn lemma_locate_round_trip(c: Seq<FragmentView>, offset: u64, r: Result<Location, LocateError>)
    requires
        offset % 3 == 0,
        group_index(offset) < total_symbols(c),
        locate_answer(c, group_index(offset), r),
    ensures
        r is Ok,
        symbols_up_to(c, r->Ok_0) == (offset / 3) * 4,
        clean(stream_of(c))[(offset / 3) * 4] == c[r->Ok_0.position as int].text[r->Ok_0.char_index as int],
{
    lemma_symbol_in_stream(c, r->Ok_0);
}

/// An index at or past the number of data symbols of the corpus is reported
/// out of bounds, together with that number.
pub proof fn lemma_out_of_bounds_reports_total(c: Seq<FragmentView>, target: int, r: Result<Location, LocateError>)
    requires
        total_symbols(c) <= target,
        locate_answer(c, target, r),
    ensures
        r == Err::<Location, LocateError>(LocateError::OutOfBounds { available: total_symbols(c) as u128 }),
{
    if let Ok(loc) = r {
        lemma_symbol_in_stream(c, loc);
    }
}

proof fn lemma_clean_counts_symbol(s: Seq<char>, i: int)
    requires
        0 <= i < s.len(),
        is_b64(s[i]),
    ensures
        clean(s.take(i)).len() < clean(s).len(),
{
    let rest = s.skip(i + 1);
    assert(s =~= s.take(i) + seq![s[i]] + rest);
    lemma_clean_append(s.take(i) + seq![s[i]], rest);
    lemma_clean_append(s.take(i), seq![s[i]]);
    assert(seq![s[i]].drop_last() =~= Seq::<char>::empty());
    assert(clean(Seq::<char>::empty()) == Seq::<char>::empty());
    assert(clean(seq![s[i]]) == clean(Seq::<char>::empty()).push(s[i]));
}

proof fn lemma_symbols_before_monotone(c: Seq<FragmentView>, i: int, j: int)
    requires
        0 <= i <= j <= c.len(),
    ensures
        symbols_before(c, i) <= symbols_before(c, j),
    decreases j - i,
{
    if i < j {
        lemma_symbols_before_monotone(c, i, j - 1);
        lemma_stream_take_step(c, j - 1);
    }
}

/// The located symbol is the only one with `target` data symbols before it,
/// so the locator's answer is determined.
pub proof fn lemma_location_unique(c: Seq<FragmentView>, target: int, l1: Location, l2: Location)
    requires
        locates(c, target, l1),
        locates(c, target, l2),
    ensures
        l1 == l2,
{
    if l1 != l2 {
        assert(l1.position != l2.position || l1.char_index != l2.char_index);
        let (a, b) = if l1.position < l2.position || (l1.position == l2.position && l1.char_index
            < l2.char_index) {
            (l1, l2)
        } else {
            (l2, l1)
        };
        let pa = a.position as int;
        let pb = b.position as int;
        if pa == pb {
            let t = c[pa].text;
            let kb = b.char_index as int;
            let tb = t.take(kb);
            assert(tb.take(a.char_index as int) =~= t.take(a.char_index as int));
            lemma_clean_counts_symbol(tb, a.char_index as int);
        } else {
            let t = c[pa].text;
            assert(t.take(t.len() as int) =~= t);
            lemma_clean_counts_symbol(t, a.char_index as int);
            lemma_stream_take_step(c, pa);
            lemma_symbols_before_monotone(c, pa + 1, pb);
        }
    }
}

} // verus!
