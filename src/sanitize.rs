//! The stream sanitizer: keeps the Base64 data symbols of a text, in order.

use vstd::prelude::*;
use crate::alphabet::{is_b64, is_base64_char};

verus! {

/// The data symbols of `s`, in their order in `s`.
pub open spec fn clean(s: Seq<char>) -> Seq<char>
    decreases s.len(),
{
    if s.len() == 0 {
        Seq::empty()
    } else if is_b64(s.last()) {
        clean(s.drop_last()).push(s.last())
    } else {
        clean(s.drop_last())
    }
}

/// Drops every character of `text` that is not a Base64 data symbol
/// (whitespace, line breaks, padding and any other character).
pub fn sanitize(text: &str) -> (r: Vec<char>)
    ensures
        r@ == clean(text@),
{
    let mut out: Vec<char> = Vec::new();
    for c in it: text.chars()
        invariant
            it.seq() == text@,
            out@ == clean(text@.take(it.index())),
    {
        assert(text@.take(it.index() + 1).drop_last() =~= text@.take(it.index()));
        if is_base64_char(c) {
            out.push(c);
        }
    }
    assert(text@.take(text@.len() as int) =~= text@);
    out
}

/// Whether every character of `s` is a Base64 data symbol.
pub open spec fn all_b64(s: Seq<char>) -> bool {
    forall|i: int| 0 <= i < s.len() ==> is_b64(#[trigger] s[i])
}

/// The sanitizer keeps only data symbols.
pub proof fn lemma_clean_is_b64(s: Seq<char>)
    ensures
        all_b64(clean(s)),
    decreases s.len(),
{
    if s.len() > 0 {
        lemma_clean_is_b64(s.drop_last());
    }
}

/// A text made of data symbols only is left as it is.
pub proof fn lemma_clean_keeps_b64(s: Seq<char>)
    requires
        all_b64(s),
    ensures
        clean(s) == s,
    decreases s.len(),
{
    if s.len() > 0 {
        assert(all_b64(s.drop_last())) by {
            assert forall|i: int| 0 <= i < s.drop_last().len() implies is_b64(#[trigger] s.drop_last()[i]) by {
                assert(s.drop_last()[i] == s[i]);
            }
        }
        lemma_clean_keeps_b64(s.drop_last());
        assert(is_b64(s[s.len() - 1]));
        assert(s.drop_last().push(s.last()) =~= s);
    }
}

/// Sanitizing twice gives what sanitizing once gives.
pub proof fn lemma_sanitize_idempotent(s: Seq<char>)
    ensures
        clean(clean(s)) == clean(s),
{
    lemma_clean_is_b64(s);
    lemma_clean_keeps_b64(clean(s));
}

/// Sanitizing a joined text is joining the sanitized parts.
pub proof fn lemma_clean_append(a: Seq<char>, b: Seq<char>)
    ensures
        clean(a + b) == clean(a) + clean(b),
    decreases b.len(),
{
    if b.len() == 0 {
        assert(a + b =~= a);
        assert(clean(a) + clean(b) =~= clean(a));
    } else {
        lemma_clean_append(a, b.drop_last());
        assert((a + b).drop_last() =~= a + b.drop_last());
        assert((clean(a) + clean(b.drop_last())).push(b.last()) =~= clean(a) + clean(b.drop_last()).push(b.last()));
    }
}

} // verus!
