//! The permissive decoder: standard Base64 that synthesizes missing padding
//! and discards the unused low bits of a final partial group.

use vstd::prelude::*;
use base64::alphabet::STANDARD;
use base64::engine::{DecodePaddingMode, GeneralPurpose, GeneralPurposeConfig};
use base64::{DecodeError, Engine};
use crate::alphabet::{is_b64, is_base64_char, sextet};
use crate::sanitize::all_b64;

verus! {

/// Why decoding failed.
#[derive(PartialEq, Eq, Structural, Clone, Copy, Debug)]
pub enum DecodeFailure {
    /// The text is not data symbols followed by at most the padding that its
    /// last group can take; the decoder was not run.
    NotBase64,
    /// A symbol outside the alphabet at this offset.
    InvalidByte { offset: usize, byte: u8 },
    /// The number of data symbols leaves a final group of a single symbol.
    InvalidLength { length: usize },
    /// The last symbol carries bits that would be lost.
    InvalidLastSymbol { offset: usize, byte: u8 },
    /// The padding is not as the decoder's configuration asks.
    InvalidPadding,
}

/// The first byte that a group starting with `a`, `b` encodes.
pub open spec fn first_byte(a: char, b: char) -> u8 {
    (sextet(a) * 4 + sextet(b) / 16) as u8
}

/// The second byte that a group whose second and third symbols are `b`, `c` encodes.
pub open spec fn second_byte(b: char, c: char) -> u8 {
    ((sextet(b) % 16) * 16 + sextet(c) / 4) as u8
}

/// The third byte that a group whose third and fourth symbols are `c`, `d` encodes.
pub open spec fn third_byte(c: char, d: char) -> u8 {
    ((sextet(c) % 4) * 64 + sextet(d)) as u8
}

/// The bytes that the data symbols `s` encode, four symbols to three bytes.
/// A final group of two or three symbols gives one or two bytes; its unused
/// low bits are dropped.
pub open spec fn decode_groups(s: Seq<char>) -> Seq<u8>
    decreases s.len(),
{
    if s.len() < 2 {
        Seq::empty()
    } else if s.len() == 2 {
        seq![first_byte(s[0], s[1])]
    } else if s.len() == 3 {
        seq![first_byte(s[0], s[1]), second_byte(s[1], s[2])]
    } else {
        seq![first_byte(s[0], s[1]), second_byte(s[1], s[2]), third_byte(s[2], s[3])]
            + decode_groups(s.skip(4))
    }
}

/// `s` without its trailing padding symbols.
pub open spec fn data_part(s: Seq<char>) -> Seq<char>
    decreases s.len(),
{
    if s.len() > 0 && s.last() == '=' {
        data_part(s.drop_last())
    } else {
        s
    }
}

/// Whether `s` is data symbols followed by padding that does not run past
/// the end of the last group; padding is optional and may be partial.
pub open spec fn well_padded(s: Seq<char>) -> bool {
    let d = data_part(s);
    let p = s.len() - d.len();
    &&& all_b64(d)
    &&& p == 0 || (d.len() % 4 >= 2 && d.len() % 4 + p <= 4)
}

/// How strictly padding is checked.
#[derive(PartialEq, Eq, Structural, Clone, Copy, Debug)]
pub enum PaddingPolicy {
    /// Padding may be there, in part, or not at all.
    Indifferent,
    /// The padding that completes the last group must be there, all of it.
    Canonical,
    /// No padding may be there.
    Absent,
}

/// How much corruption the decoder tolerates.
#[derive(PartialEq, Eq, Structural, Clone, Copy, Debug)]
pub struct DecodePolicy {
    /// Whether a last symbol whose unused low bits are not zero is accepted,
    /// those bits being dropped.
    pub allow_trailing_bits: bool,
    pub padding: PaddingPolicy,
}

impl DecodePolicy {
    /// The tolerant policy of the recovery pipeline: any amount of padding
    /// that fits, and trailing bits dropped.
    pub fn permissive() -> (r: DecodePolicy)
        ensures
            r == permissive_policy(),
    {
        DecodePolicy { allow_trailing_bits: true, padding: PaddingPolicy::Indifferent }
    }
}

/// The tolerant policy of the recovery pipeline.
pub open spec fn permissive_policy() -> DecodePolicy {
    DecodePolicy { allow_trailing_bits: true, padding: PaddingPolicy::Indifferent }
}

/// Whether the last symbol of the data symbols `d` carries bits that no byte
/// takes: in a last group of two symbols its low four bits, of three symbols
/// its low two bits.
pub open spec fn has_trailing_bits(d: Seq<char>) -> bool {
    (d.len() % 4 == 2 && sextet(d.last()) % 16 != 0) || (d.len() % 4 == 3 && sextet(d.last()) % 4
        != 0)
}

/// What the decoder gives for well-padded `s` under `policy`: a last group
/// of one symbol is an invalid length; then the padding is checked against
/// the policy; then the trailing bits.
pub open spec fn engine_outcome(policy: DecodePolicy, s: Seq<char>) -> Result<Seq<u8>, DecodeFailure> {
    let d = data_part(s);
    let p = s.len() - d.len();
    if d.len() % 4 == 1 {
        Err(DecodeFailure::InvalidLength { length: s.len() as usize })
    } else if policy.padding == PaddingPolicy::Canonical && p != (4 - d.len() % 4) % 4 {
        Err(DecodeFailure::InvalidPadding)
    } else if policy.padding == PaddingPolicy::Absent && p > 0 {
        Err(DecodeFailure::InvalidPadding)
    } else if !policy.allow_trailing_bits && has_trailing_bits(d) {
        Err(DecodeFailure::InvalidLastSymbol {
            offset: (d.len() - 1) as usize,
            byte: (d.last() as u32) as u8,
        })
    } else {
        Ok(decode_groups(d))
    }
}

/// What decoding `s` under `policy` gives: text that is not data symbols
/// followed by fitting padding is refused before the decoder runs.
pub open spec fn decode_outcome_with(policy: DecodePolicy, s: Seq<char>) -> Result<Seq<u8>, DecodeFailure> {
    if !well_padded(s) {
        Err(DecodeFailure::NotBase64)
    } else {
        engine_outcome(policy, s)
    }
}

/// What decoding `s` under the permissive policy gives.
pub open spec fn decode_outcome(s: Seq<char>) -> Result<Seq<u8>, DecodeFailure> {
    decode_outcome_with(permissive_policy(), s)
}

/// Relies on `base64::engine::GeneralPurpose::decode` with the standard
/// alphabet, `decode_allow_trailing_bits` and the `DecodePaddingMode` that
/// `policy` names: on well-padded input it reports a lone last symbol as
/// `InvalidLength`, then padding that the mode refuses as `InvalidPadding`,
/// then unused bits set in the last symbol, when not allowed, as
/// `InvalidLastSymbol`; otherwise it returns the standard decoding.
#[verifier::external_body]
fn base64_decode(text: &[char], policy: DecodePolicy) -> (r: Result<Vec<u8>, DecodeFailure>)
    requires
        well_padded(text@),
    ensures
        match r {
            Ok(bytes) => engine_outcome(policy, text@) == Ok::<Seq<u8>, DecodeFailure>(bytes@),
            Err(e) => engine_outcome(policy, text@) == Err::<Seq<u8>, DecodeFailure>(e),
        },
{
    let mode = match policy.padding {
        PaddingPolicy::Indifferent => DecodePaddingMode::Indifferent,
        PaddingPolicy::Canonical => DecodePaddingMode::RequireCanonical,
        PaddingPolicy::Absent => DecodePaddingMode::RequireNone,
    };
    let config = GeneralPurposeConfig::new()
        .with_decode_allow_trailing_bits(policy.allow_trailing_bits).with_decode_padding_mode(mode);
    let input: String = text.iter().collect();
    GeneralPurpose::new(&STANDARD, config).decode(input).map_err(|e| match e {
        DecodeError::InvalidByte(offset, byte) => DecodeFailure::InvalidByte { offset, byte },
        DecodeError::InvalidLength(length) => DecodeFailure::InvalidLength { length },
        DecodeError::InvalidLastSymbol(offset, byte) => DecodeFailure::InvalidLastSymbol { offset, byte },
        DecodeError::InvalidPadding => DecodeFailure::InvalidPadding,
    })
}

/// Tells whether `text` is data symbols followed by padding that fits its
/// last group.
pub fn is_well_padded(text: &[char]) -> (r: bool)
    ensures
        r == well_padded(text@),
{
    let n = text.len();
    let mut j: usize = n;
    assert(text@.take(n as int) =~= text@);
    while j > 0 && text[j - 1] == '='
        invariant
            j <= n,
            n == text@.len(),
            data_part(text@) == data_part(text@.take(j as int)),
        decreases j,
    {
        assert(text@.take(j as int).drop_last() =~= text@.take(j - 1));
        j = j - 1;
    }
    let ghost d = text@.take(j as int);
    assert(data_part(d) == d);
    assert(data_part(text@) == d);
    let mut i: usize = 0;
    while i < j
        invariant
            i <= j <= n,
            n == text@.len(),
            d == text@.take(j as int),
            data_part(text@) == d,
            forall|k: int| 0 <= k < i ==> is_b64(#[trigger] text@[k]),
        decreases j - i,
    {
        if !is_base64_char(text[i]) {
            assert(!is_b64(d[i as int]));
            return false;
        }
        i = i + 1;
    }
    assert(all_b64(d)) by {
        assert forall|k: int| 0 <= k < d.len() implies is_b64(#[trigger] d[k]) by {
            assert(d[k] == text@[k]);
        }
    }
    let p = n - j;
    p == 0 || (j % 4 >= 2 && j % 4 + p <= 4)
}

/// Decodes `text` under the permissive policy: missing padding is made up, the unused bits
/// of a partial last group are dropped. Fails when `text` is not data symbols
/// followed by padding that fits its last group, or when the last group holds
/// a single symbol.
pub fn permissive_decode(text: &[char]) -> (r: Result<Vec<u8>, DecodeFailure>)
    ensures
        match r {
            Ok(bytes) => decode_outcome(text@) == Ok::<Seq<u8>, DecodeFailure>(bytes@),
            Err(e) => decode_outcome(text@) == Err::<Seq<u8>, DecodeFailure>(e),
        },
{
    decode_with(text, DecodePolicy::permissive())
}

/// Decodes `text` under `policy`. Fails with `NotBase64` when `text` is not
/// data symbols followed by padding that fits its last group, and otherwise
/// as [`engine_outcome`] says.
pub fn decode_with(text: &[char], policy: DecodePolicy) -> (r: Result<Vec<u8>, DecodeFailure>)
    ensures
        match r {
            Ok(bytes) => decode_outcome_with(policy, text@) == Ok::<Seq<u8>, DecodeFailure>(bytes@),
            Err(e) => decode_outcome_with(policy, text@) == Err::<Seq<u8>, DecodeFailure>(e),
        },
{
    if !is_well_padded(text) {
        return Err(DecodeFailure::NotBase64);
    }
    base64_decode(text, policy)
}

/// `p` padding symbols.
pub open spec fn padding(p: nat) -> Seq<char> {
    Seq::new(p, |i: int| '=')
}

/// Padding is optional: data symbols whose last group is not a lone symbol
/// decode to the same bytes whether the correct padding is there, only one of
/// two padding symbols is, or none is.
pub proof fn lemma_padding_optional(d: Seq<char>, p: nat)
    requires
        all_b64(d),
        d.len() % 4 != 1,
        p <= (4 - d.len() % 4) % 4,
    ensures
        decode_outcome(d + padding(p)) == decode_outcome(d),
        decode_outcome(d) == Ok::<Seq<u8>, DecodeFailure>(decode_groups(d)),
    decreases p,
{
    assert(d.len() == 0 || !is_b64('=') && d.last() != '=') by {
        if d.len() > 0 {
            assert(is_b64(d[d.len() - 1]));
        }
    }
    assert(data_part(d) == d);
    if p == 0 {
        assert(d + padding(p) =~= d);
    } else {
        lemma_padding_optional(d, (p - 1) as nat);
        let s = d + padding(p);
        assert(s.drop_last() =~= d + padding((p - 1) as nat));
        lemma_data_part_padding(d, p);
    }
}

proof fn lemma_data_part_padding(d: Seq<char>, p: nat)
    requires
        data_part(d) == d,
    ensures
        data_part(d + padding(p)) == d,
    decreases p,
{
    if p == 0 {
        assert(d + padding(p) =~= d);
    } else {
        let s = d + padding(p);
        assert(s.drop_last() =~= d + padding((p - 1) as nat));
        assert(s.last() == '=');
        lemma_data_part_padding(d, (p - 1) as nat);
    }
}

} // verus!
