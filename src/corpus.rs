//! The fragment corpus: named text fragments ordered by sequence number.

use vstd::prelude::*;
use crate::naming::{
    fragment_name_matches, is_fragment_name, parse_sequence_number, sequence_number_of,
};

verus! {

/// A fragment as discovered: its identifier and its text, or `None` when it
/// could not be read.
pub struct FragmentSource {
    pub name: String,
    pub text: Option<String>,
}

/// The value of a [`FragmentSource`].
pub struct SourceView {
    pub name: Seq<char>,
    pub text: Option<Seq<char>>,
}

impl View for FragmentSource {
    type V = SourceView;

    open spec fn view(&self) -> SourceView {
        SourceView {
            name: self.name@,
            text: match self.text {
                Some(t) => Some(t@),
                None => None,
            },
        }
    }
}

/// One transcribed fragment of the encoded stream.
pub struct Fragment {
    pub sequence_number: u32,
    pub name: String,
    pub raw_text: String,
}

/// The value of a [`Fragment`].
pub struct FragmentView {
    pub sequence_number: u32,
    pub name: Seq<char>,
    pub text: Seq<char>,
}

impl View for Fragment {
    type V = FragmentView;

    open spec fn view(&self) -> FragmentView {
        FragmentView { sequence_number: self.sequence_number, name: self.name@, text: self.raw_text@ }
    }
}

/// The values of a sequence of fragments.
pub open spec fn views(fs: Seq<Fragment>) -> Seq<FragmentView> {
    fs.map_values(|f: Fragment| f@)
}

/// The values of a sequence of sources.
pub open spec fn source_views(ss: Seq<FragmentSource>) -> Seq<SourceView> {
    ss.map_values(|s: FragmentSource| s@)
}

/// Whether a source becomes a fragment: it follows the naming convention and
/// was read.
pub open spec fn accepted(src: SourceView) -> bool {
    is_fragment_name(src.name) && src.text is Some
}

/// Whether a source follows the naming convention but could not be read.
pub open spec fn unreadable(src: SourceView) -> bool {
    is_fragment_name(src.name) && src.text is None
}

/// The fragment that an accepted source becomes.
pub open spec fn fragment_of(src: SourceView) -> FragmentView {
    FragmentView {
        sequence_number: sequence_number_of(src.name),
        name: src.name,
        text: src.text->0,
    }
}

/// The fragments of the accepted sources, in discovery order.
pub open spec fn selected(srcs: Seq<SourceView>) -> Seq<FragmentView>
    decreases srcs.len(),
{
    if srcs.len() == 0 {
        Seq::empty()
    } else if accepted(srcs.last()) {
        selected(srcs.drop_last()).push(fragment_of(srcs.last()))
    } else {
        selected(srcs.drop_last())
    }
}

/// The names of the sources that follow the convention but were not read,
/// in discovery order.
pub open spec fn unreadable_names(srcs: Seq<SourceView>) -> Seq<Seq<char>>
    decreases srcs.len(),
{
    if srcs.len() == 0 {
        Seq::empty()
    } else if unreadable(srcs.last()) {
        unreadable_names(srcs.drop_last()).push(srcs.last().name)
    } else {
        unreadable_names(srcs.drop_last())
    }
}

/// The fragments of `fs` whose sequence number is `k`, in their order in `fs`.
pub open spec fn numbered(fs: Seq<FragmentView>, k: u32) -> Seq<FragmentView>
    decreases fs.len(),
{
    if fs.len() == 0 {
        Seq::empty()
    } else if fs.last().sequence_number == k {
        numbered(fs.drop_last(), k).push(fs.last())
    } else {
        numbered(fs.drop_last(), k)
    }
}

/// Whether `fs` is in ascending order of sequence number.
pub open spec fn ascending(fs: Seq<FragmentView>) -> bool {
    forall|i: int, j: int|
        0 <= i < j < fs.len() ==> #[trigger] fs[i].sequence_number <= #[trigger] fs[j].sequence_number
}

/// Whether no two fragments of `fs` share a sequence number.
pub open spec fn distinct_numbers(fs: Seq<FragmentView>) -> bool {
    forall|i: int, j: int|
        0 <= i < j < fs.len() ==> #[trigger] fs[i].sequence_number != #[trigger] fs[j].sequence_number
}

/// Whether `fs` is the corpus that `srcs` give: the fragments of the accepted
/// sources, sorted by sequence number, fragments with equal numbers kept in
/// discovery order.
pub open spec fn ordered_from(fs: Seq<FragmentView>, srcs: Seq<SourceView>) -> bool {
    &&& ascending(fs)
    &&& forall|k: u32| #[trigger] numbered(fs, k) == numbered(selected(srcs), k)
}

/// The corpus that `srcs` give; [`ordered_from`] holds of exactly one
/// sequence.
pub open spec fn corpus_of(srcs: Seq<SourceView>) -> Seq<FragmentView> {
    choose|c: Seq<FragmentView>| ordered_from(c, srcs)
}

/// The encoded stream: the texts of `fs` joined in order, with nothing between.
pub open spec fn stream_of(fs: Seq<FragmentView>) -> Seq<char>
    decreases fs.len(),
{
    if fs.len() == 0 {
        Seq::empty()
    } else {
        stream_of(fs.drop_last()) + fs.last().text
    }
}

proof fn lemma_numbered_append(a: Seq<FragmentView>, b: Seq<FragmentView>, k: u32)
    ensures
        numbered(a + b, k) == numbered(a, k) + numbered(b, k),
    decreases b.len(),
{
    if b.len() == 0 {
        assert(a + b =~= a);
        assert(numbered(a, k) + numbered(b, k) =~= numbered(a, k));
    } else {
        lemma_numbered_append(a, b.drop_last(), k);
        assert((a + b).drop_last() =~= a + b.drop_last());
        assert((numbered(a, k) + numbered(b.drop_last(), k)).push(b.last()) =~= numbered(a, k) + numbered(b.drop_last(), k).push(b.last()));
    }
}

proof fn lemma_numbered_none(b: Seq<FragmentView>, k: u32)
    requires
        forall|i: int| 0 <= i < b.len() ==> #[trigger] b[i].sequence_number != k,
    ensures
        numbered(b, k) == Seq::<FragmentView>::empty(),
    decreases b.len(),
{
    if b.len() > 0 {
        lemma_numbered_none(b.drop_last(), k);
    }
}

proof fn lemma_numbered_single(f: FragmentView, k: u32)
    ensures
        numbered(seq![f], k) == if f.sequence_number == k {
            seq![f]
        } else {
            Seq::<FragmentView>::empty()
        },
{
    assert(seq![f].drop_last() =~= Seq::<FragmentView>::empty());
    assert(numbered(Seq::<FragmentView>::empty(), k) == Seq::<FragmentView>::empty());
    assert(Seq::<FragmentView>::empty().push(f) =~= seq![f]);
}

/// An ordered fragment corpus: fragments sorted by sequence number, those
/// with equal numbers in discovery order.
pub struct FragmentCorpus {
    fragments: Vec<Fragment>,
}

impl View for FragmentCorpus {
    type V = Seq<FragmentView>;

    closed spec fn view(&self) -> Seq<FragmentView> {
        views(self.fragments@)
    }
}

impl FragmentCorpus {
    /// The corpus is kept in ascending order of sequence number.
    pub open spec fn wf(&self) -> bool {
        ascending(self@)
    }

    /// The fragments, in corpus order.
    pub fn fragments(&self) -> (r: &Vec<Fragment>)
        ensures
            views(r@) == self@,
    {
        &self.fragments
    }

    /// Builds the corpus from the sources as discovered: keeps those that
    /// follow the naming convention and were read, gives each the sequence
    /// number of its name, and sorts them by that number. Fragments with equal
    /// numbers keep their discovery order.
    pub fn load(sources: &Vec<FragmentSource>) -> (r: FragmentCorpus)
        ensures
            r.wf(),
            ordered_from(r@, source_views(sources@)),
            r@ == corpus_of(source_views(sources@)),
    {
        let ghost srcs = source_views(sources@);
        let mut out: Vec<Fragment> = Vec::new();
        let mut i: usize = 0;
        while i < sources.len()
            invariant
                i <= sources.len(),
                srcs == source_views(sources@),
                ascending(views(out@)),
                forall|k: u32|
                    #[trigger] numbered(views(out@), k) == numbered(
                        selected(srcs.take(i as int)),
                        k,
                    ),
            decreases sources.len() - i,
        {
            let ghost before = views(out@);
            assert(srcs.take(i + 1).drop_last() =~= srcs.take(i as int));
            let src = &sources[i];
            if fragment_name_matches(src.name.as_str()) {
                match &src.text {
                    Some(text) => {
                        let number = parse_sequence_number(src.name.as_str());
                        let frag = Fragment {
                            sequence_number: number,
                            name: src.name.clone(),
                            raw_text: text.clone(),
                        };
                        let ghost fv = frag@;
                        assert(fv == fragment_of(srcs[i as int]));
                        let mut p: usize = out.len();
                        while p > 0 && out[p - 1].sequence_number > number
                            invariant
                                p <= out.len(),
                                before == views(out@),
                                forall|j: int| p <= j < out.len() ==> #[trigger] out@[j].sequence_number > number,
                            decreases p,
                        {
                            p = p - 1;
                        }
                        out.insert(p, frag);
                        proof {
                            let after = views(out@);
                            let lo = before.take(p as int);
                            let hi = before.skip(p as int);
                            assert(after =~= lo + seq![fv] + hi);
                            assert(before =~= lo + hi);
                            assert forall|j: int| 0 <= j < p implies #[trigger] before[j].sequence_number <= number by {
                                if p > 0 && j < p - 1 {
                                    assert(before[j].sequence_number <= before[p - 1].sequence_number);
                                }
                            }
                            assert(ascending(after)) by {
                                assert forall|a: int, b: int| 0 <= a < b < after.len() implies #[trigger] after[a].sequence_number <= #[trigger] after[b].sequence_number by {
                                    if b < p {
                                        assert(after[a] == before[a] && after[b] == before[b]);
                                    } else if b == p {
                                        assert(after[a] == before[a]);
                                    } else if a < p {
                                        assert(after[a] == before[a] && after[b] == before[b - 1]);
                                    } else if a == p {
                                        assert(after[b] == before[b - 1]);
                                    } else {
                                        assert(after[a] == before[a - 1] && after[b] == before[b - 1]);
                                    }
                                }
                            }
                            assert forall|k: u32| #[trigger] numbered(after, k) == numbered(selected(srcs.take(i + 1)), k) by {
                                lemma_numbered_append(lo + seq![fv], hi, k);
                                lemma_numbered_append(lo, seq![fv], k);
                                lemma_numbered_append(lo, hi, k);
                                lemma_numbered_single(fv, k);
                                lemma_numbered_append(selected(srcs.take(i as int)), seq![fv], k);
                                assert(selected(srcs.take(i as int)).push(fv) =~= selected(srcs.take(i as int)) + seq![fv]);
                                if k == number {
                                    assert forall|j: int| 0 <= j < hi.len() implies #[trigger] hi[j].sequence_number != k by {
                                        assert(hi[j] == before[p + j]);
                                    }
                                    lemma_numbered_none(hi, k);
                                    assert(numbered(lo, k) + Seq::<FragmentView>::empty() =~= numbered(lo, k));
                                } else {
                                    assert(numbered(lo, k) + Seq::<FragmentView>::empty() =~= numbered(lo, k));
                                    assert(numbered(lo + seq![fv], k) =~= numbered(lo, k));
                                    assert(numbered(selected(srcs.take(i as int)), k) + Seq::<FragmentView>::empty() =~= numbered(selected(srcs.take(i as int)), k));
                                }
                            }
                        }
                    },
                    None => {},
                }
            }
            i = i + 1;
        }
        assert(srcs.take(sources.len() as int) =~= srcs);
        proof {
            let c = corpus_of(srcs);
            assert(ordered_from(views(out@), srcs));
            assert(ordered_from(c, srcs));
            assert forall|k: u32| #[trigger] numbered(c, k) == numbered(views(out@), k) by {
                assert(numbered(c, k) == numbered(selected(srcs), k));
                assert(numbered(views(out@), k) == numbered(selected(srcs), k));
            }
            lemma_numbered_equal_sorted(c, views(out@));
        }
        FragmentCorpus { fragments: out }
    }
}


impl FragmentCorpus {
    /// The corpus that `srcs` give; [`ordered_from`] holds of exactly one
/// sequence.
pub open spec fn corpus_of(srcs: Seq<SourceView>) -> Seq<FragmentView> {
    choose|c: Seq<FragmentView>| ordered_from(c, srcs)
}

/// The encoded stream: the texts of the fragments joined in corpus order.
    pub fn encoded_stream(&self) -> (r: String)
        ensures
            r@ == stream_of(self@),
    {
        let mut out = String::new();
        let mut i: usize = 0;
        while i < self.fragments.len()
            invariant
                i <= self.fragments.len(),
                out@ == stream_of(self@.take(i as int)),
            decreases self.fragments.len() - i,
        {
            assert(self@.take(i + 1).drop_last() =~= self@.take(i as int));
            out.append(self.fragments[i].raw_text.as_str());
            i = i + 1;
        }
        assert(self@.take(self.fragments.len() as int) =~= self@);
        out
    }

    /// The names of the sources that follow the naming convention but could
    /// not be read, in discovery order.
    pub fn skipped_names(sources: &Vec<FragmentSource>) -> (r: Vec<String>)
        ensures
            r@.map_values(|n: String| n@) == unreadable_names(source_views(sources@)),
    {
        let ghost srcs = source_views(sources@);
        let mut out: Vec<String> = Vec::new();
        let mut i: usize = 0;
        while i < sources.len()
            invariant
                i <= sources.len(),
                srcs == source_views(sources@),
                out@.map_values(|n: String| n@) == unreadable_names(srcs.take(i as int)),
            decreases sources.len() - i,
        {
            assert(srcs.take(i + 1).drop_last() =~= srcs.take(i as int));
            let src = &sources[i];
            if fragment_name_matches(src.name.as_str()) && src.text.is_none() {
                out.push(src.name.clone());
                assert(out@.map_values(|n: String| n@) =~= unreadable_names(srcs.take(i as int)).push(src.name@));
            }
            i = i + 1;
        }
        assert(srcs.take(sources.len() as int) =~= srcs);
        out
    }
}

proof fn lemma_numbered_contains(fs: Seq<FragmentView>, k: u32, f: FragmentView)
    ensures
        numbered(fs, k).contains(f) <==> (fs.contains(f) && f.sequence_number == k),
    decreases fs.len(),
{
    if fs.len() > 0 {
        lemma_numbered_contains(fs.drop_last(), k, f);
        assert(fs =~= fs.drop_last().push(fs.last()));
        if fs.contains(f) && f.sequence_number == k && f != fs.last() {
            let j = choose|j: int| 0 <= j < fs.len() && fs[j] == f;
            assert(fs.drop_last()[j] == f);
        }
        if fs.drop_last().contains(f) {
            let j = choose|j: int| 0 <= j < fs.drop_last().len() && fs.drop_last()[j] == f;
            assert(fs[j] == f);
        }
        if numbered(fs.drop_last(), k).contains(f) {
            let j = choose|j: int| 0 <= j < numbered(fs.drop_last(), k).len() && numbered(fs.drop_last(), k)[j] == f;
            if fs.last().sequence_number == k {
                assert(numbered(fs, k)[j] == f);
            }
        }
        if fs.last().sequence_number == k {
            assert(numbered(fs, k)[numbered(fs, k).len() - 1] == fs.last());
            if numbered(fs, k).contains(f) && f != fs.last() {
                let j = choose|j: int| 0 <= j < numbered(fs, k).len() && numbered(fs, k)[j] == f;
                assert(numbered(fs.drop_last(), k)[j] == f);
            }
        }
    }
}

proof fn lemma_numbered_at_most_one(fs: Seq<FragmentView>, k: u32)
    requires
        distinct_numbers(fs),
    ensures
        numbered(fs, k).len() <= 1,
    decreases fs.len(),
{
    if fs.len() > 0 {
        let init = fs.drop_last();
        assert(distinct_numbers(init)) by {
            assert forall|i: int, j: int| 0 <= i < j < init.len() implies #[trigger] init[i].sequence_number != #[trigger] init[j].sequence_number by {
                assert(init[i] == fs[i] && init[j] == fs[j]);
            }
        }
        lemma_numbered_at_most_one(init, k);
        if fs.last().sequence_number == k {
            assert forall|i: int| 0 <= i < init.len() implies #[trigger] init[i].sequence_number != k by {
                assert(init[i] == fs[i]);
                assert(fs[i].sequence_number != fs[fs.len() - 1].sequence_number);
            }
            lemma_numbered_none(init, k);
        }
    }
}

proof fn lemma_selected_contains(srcs: Seq<SourceView>, f: FragmentView)
    ensures
        selected(srcs).contains(f) <==> exists|i: int|
            0 <= i < srcs.len() && accepted(srcs[i]) && fragment_of(#[trigger] srcs[i]) == f,
    decreases srcs.len(),
{
    if srcs.len() > 0 {
        let init = srcs.drop_last();
        lemma_selected_contains(init, f);
        if exists|i: int| 0 <= i < init.len() && accepted(init[i]) && fragment_of(#[trigger] init[i]) == f {
            let i = choose|i: int| 0 <= i < init.len() && accepted(init[i]) && fragment_of(#[trigger] init[i]) == f;
            assert(srcs[i] == init[i]);
            let j = choose|j: int| 0 <= j < selected(init).len() && selected(init)[j] == f;
            if accepted(srcs.last()) {
                assert(selected(srcs)[j] == f);
            }
        }
        if exists|i: int| 0 <= i < srcs.len() && accepted(srcs[i]) && fragment_of(#[trigger] srcs[i]) == f {
            let i = choose|i: int| 0 <= i < srcs.len() && accepted(srcs[i]) && fragment_of(#[trigger] srcs[i]) == f;
            if i < srcs.len() - 1 {
                assert(init[i] == srcs[i]);
            } else {
                assert(selected(srcs)[selected(srcs).len() - 1] == f);
            }
        }
        if selected(srcs).contains(f) {
            let j = choose|j: int| 0 <= j < selected(srcs).len() && selected(srcs)[j] == f;
            if accepted(srcs.last()) && j == selected(srcs).len() - 1 {
                assert(fragment_of(srcs[srcs.len() - 1]) == f);
            } else {
                assert(selected(init)[j] == f);
            }
        }
    }
}

proof fn lemma_numbered_equal_sorted(x: Seq<FragmentView>, y: Seq<FragmentView>)
    requires
        ascending(x),
        ascending(y),
        forall|k: u32| #[trigger] numbered(x, k) == numbered(y, k),
    ensures
        x == y,
    decreases x.len() + y.len(),
{
    if x.len() == 0 && y.len() == 0 {
        assert(x =~= y);
    } else if x.len() == 0 {
        let ky = y.last().sequence_number;
        lemma_numbered_contains(y, ky, y.last());
        assert(y.contains(y.last())) by { assert(y[y.len() - 1] == y.last()); }
        assert(numbered(x, ky).len() == 0);
    } else if y.len() == 0 {
        let kx = x.last().sequence_number;
        lemma_numbered_contains(x, kx, x.last());
        assert(x.contains(x.last())) by { assert(x[x.len() - 1] == x.last()); }
        assert(numbered(y, kx).len() == 0);
    } else {
        let kx = x.last().sequence_number;
        let ky = y.last().sequence_number;
        assert(x.contains(x.last())) by { assert(x[x.len() - 1] == x.last()); }
        assert(y.contains(y.last())) by { assert(y[y.len() - 1] == y.last()); }
        lemma_numbered_contains(x, kx, x.last());
        lemma_numbered_contains(y, ky, y.last());
        // the largest numbers agree
        let fy = numbered(x, ky)[0];
        assert(numbered(x, ky).contains(fy));
        lemma_numbered_contains(x, ky, fy);
        let iy = choose|i: int| 0 <= i < x.len() && x[i] == fy;
        assert(ky <= kx) by {
            if iy < x.len() - 1 {
                assert(x[iy].sequence_number <= x[x.len() - 1].sequence_number);
            }
        }
        let fx = numbered(y, kx)[0];
        assert(numbered(y, kx).contains(fx));
        lemma_numbered_contains(y, kx, fx);
        let ix = choose|i: int| 0 <= i < y.len() && y[i] == fx;
        assert(kx <= ky) by {
            if ix < y.len() - 1 {
                assert(y[ix].sequence_number <= y[y.len() - 1].sequence_number);
            }
        }
        assert(x.last() == y.last()) by {
            assert(numbered(x, kx).last() == x.last());
            assert(numbered(y, ky).last() == y.last());
        }
        let xi = x.drop_last();
        let yi = y.drop_last();
        assert(ascending(xi)) by {
            assert forall|a: int, b: int| 0 <= a < b < xi.len() implies #[trigger] xi[a].sequence_number <= #[trigger] xi[b].sequence_number by {
                assert(xi[a] == x[a] && xi[b] == x[b]);
            }
        }
        assert(ascending(yi)) by {
            assert forall|a: int, b: int| 0 <= a < b < yi.len() implies #[trigger] yi[a].sequence_number <= #[trigger] yi[b].sequence_number by {
                assert(yi[a] == y[a] && yi[b] == y[b]);
            }
        }
        assert forall|k: u32| #[trigger] numbered(xi, k) == numbered(yi, k) by {
            assert(numbered(x, k) == numbered(y, k));
            if k == kx {
                assert(numbered(xi, k) =~= numbered(x, k).drop_last());
                assert(numbered(yi, k) =~= numbered(y, k).drop_last());
            }
        }
        lemma_numbered_equal_sorted(xi, yi);
        assert(x =~= xi.push(x.last()));
        assert(y =~= yi.push(y.last()));
    }
}

/// The corpus, and so the encoded stream, does not depend on the order in
/// which the sources were discovered: two discovery orders of the same
/// sources, whose fragments carry distinct sequence numbers, give the same
/// corpus and the same stream.
pub proof fn lemma_discovery_order_irrelevant(
    a: Seq<SourceView>,
    b: Seq<SourceView>,
    x: Seq<FragmentView>,
    y: Seq<FragmentView>,
)
    requires
        a.to_multiset() == b.to_multiset(),
        distinct_numbers(selected(a)),
        distinct_numbers(selected(b)),
        ordered_from(x, a),
        ordered_from(y, b),
    ensures
        x == y,
        stream_of(x) == stream_of(y),
{
    a.to_multiset_ensures();
    b.to_multiset_ensures();
    assert forall|f: FragmentView| selected(a).contains(f) <==> selected(b).contains(f) by {
        lemma_selected_contains(a, f);
        lemma_selected_contains(b, f);
        if exists|i: int| 0 <= i < a.len() && accepted(a[i]) && fragment_of(#[trigger] a[i]) == f {
            let i = choose|i: int| 0 <= i < a.len() && accepted(a[i]) && fragment_of(#[trigger] a[i]) == f;
            assert(a.contains(a[i]));
            assert(a.to_multiset().count(a[i]) > 0);
            assert(b.contains(a[i]));
            let j = choose|j: int| 0 <= j < b.len() && b[j] == a[i];
            assert(accepted(b[j]) && fragment_of(b[j]) == f);
        }
        if exists|i: int| 0 <= i < b.len() && accepted(b[i]) && fragment_of(#[trigger] b[i]) == f {
            let i = choose|i: int| 0 <= i < b.len() && accepted(b[i]) && fragment_of(#[trigger] b[i]) == f;
            assert(b.contains(b[i]));
            assert(b.to_multiset().count(b[i]) > 0);
            assert(a.contains(b[i]));
            let j = choose|j: int| 0 <= j < a.len() && a[j] == b[i];
            assert(accepted(a[j]) && fragment_of(a[j]) == f);
        }
    }
    assert forall|k: u32| #[trigger] numbered(x, k) == numbered(y, k) by {
        let na = numbered(selected(a), k);
        let nb = numbered(selected(b), k);
        lemma_numbered_at_most_one(selected(a), k);
        lemma_numbered_at_most_one(selected(b), k);
        if na.len() == 1 {
            lemma_numbered_contains(selected(a), k, na[0]);
            lemma_numbered_contains(selected(b), k, na[0]);
            assert(na.contains(na[0]));
            assert(nb.len() > 0);
            assert(nb.contains(nb[0]));
            lemma_numbered_contains(selected(b), k, nb[0]);
            lemma_numbered_contains(selected(a), k, nb[0]);
            let j = choose|j: int| 0 <= j < na.len() && na[j] == nb[0];
            assert(na =~= nb);
        } else if nb.len() == 1 {
            lemma_numbered_contains(selected(b), k, nb[0]);
            lemma_numbered_contains(selected(a), k, nb[0]);
            assert(nb.contains(nb[0]));
            assert(na.len() > 0);
        } else {
            assert(na =~= nb);
        }
    }
    lemma_numbered_equal_sorted(x, y);
}
} // verus!
