//! Reading the hexadecimal byte offset that the locator is asked for.

use vstd::prelude::*;

verus! {

/// Whether `c` is white space in the Unicode sense (`char::is_whitespace`).
pub open spec fn is_space(c: char) -> bool {
    ('\u{9}' <= c && c <= '\u{d}') || c == ' ' || c == '\u{85}' || c == '\u{a0}' || c == '\u{1680}'
        || ('\u{2000}' <= c && c <= '\u{200a}') || c == '\u{2028}' || c == '\u{2029}' || c
        == '\u{202f}' || c == '\u{205f}' || c == '\u{3000}'
}

pub(crate) fn is_space_char(c: char) -> (r: bool)
    ensures
        r == is_space(c),
{
    ('\u{9}' <= c && c <= '\u{d}') || c == ' ' || c == '\u{85}' || c == '\u{a0}' || c == '\u{1680}'
        || ('\u{2000}' <= c && c <= '\u{200a}') || c == '\u{2028}' || c == '\u{2029}' || c
        == '\u{202f}' || c == '\u{205f}' || c == '\u{3000}'
}

/// `s` without its leading white space.
pub open spec fn trim_start(s: Seq<char>) -> Seq<char>
    decreases s.len(),
{
    if s.len() > 0 && is_space(s[0]) {
        trim_start(s.drop_first())
    } else {
        s
    }
}

/// `s` without its trailing white space.
pub open spec fn trim_end(s: Seq<char>) -> Seq<char>
    decreases s.len(),
{
    if s.len() > 0 && is_space(s.last()) {
        trim_end(s.drop_last())
    } else {
        s
    }
}

/// `s` without every leading `0x`, so `0x0x1f` gives `1f`.
pub open spec fn strip_radix(s: Seq<char>) -> Seq<char>
    decreases s.len(),
{
    if s.len() >= 2 && s[0] == '0' && s[1] == 'x' {
        strip_radix(s.skip(2))
    } else {
        s
    }
}

/// `s` without one leading `+`.
pub open spec fn unsigned_digits(s: Seq<char>) -> Seq<char> {
    if s.len() > 0 && s[0] == '+' {
        s.drop_first()
    } else {
        s
    }
}

/// Whether `c` is a hexadecimal digit, in either case.
pub open spec fn is_hex_digit(c: char) -> bool {
    ('0' <= c && c <= '9') || ('a' <= c && c <= 'f') || ('A' <= c && c <= 'F')
}

/// The value of the hexadecimal digit `c`.
pub open spec fn hex_digit_value(c: char) -> nat {
    if '0' <= c && c <= '9' {
        ((c as u32) - ('0' as u32)) as nat
    } else if 'a' <= c && c <= 'f' {
        ((c as u32) - ('a' as u32) + 10) as nat
    } else {
        ((c as u32) - ('A' as u32) + 10) as nat
    }
}

/// The number that the hexadecimal digits `ds` spell, most significant first.
pub open spec fn hex_value(ds: Seq<char>) -> nat
    decreases ds.len(),
{
    if ds.len() == 0 {
        0
    } else {
        hex_value(ds.drop_last()) * 16 + hex_digit_value(ds.last())
    }
}

/// The value of the digits `ds`, when there is at least one, all are
/// hexadecimal and the value fits in a `u64`.
pub open spec fn hex_digits_value(ds: Seq<char>) -> Option<u64> {
    if ds.len() > 0 && (forall|i: int| 0 <= i < ds.len() ==> is_hex_digit(#[trigger] ds[i]))
        && hex_value(ds) <= u64::MAX {
        Some(hex_value(ds) as u64)
    } else {
        None
    }
}

/// The byte offset that `s` gives: after white space is trimmed, every
/// leading `0x` is dropped, then one `+` may stand before one or more
/// hexadecimal digits whose value fits in a `u64`. `None` for any other text.
pub open spec fn hex_offset(s: Seq<char>) -> Option<u64> {
    hex_digits_value(unsigned_digits(strip_radix(trim_end(trim_start(s)))))
}

proof fn lemma_hex_value_prefix(ds: Seq<char>, k: int)
    requires
        0 <= k <= ds.len(),
    ensures
        hex_value(ds.take(k)) <= hex_value(ds),
    decreases ds.len(),
{
    if k < ds.len() {
        lemma_hex_value_prefix(ds.drop_last(), k);
        assert(ds.drop_last().take(k) =~= ds.take(k));
    } else {
        assert(ds.take(k) =~= ds);
    }
}

pub(crate) fn chars_of(input: &str) -> (cs: Vec<char>)
    ensures
        cs@ == input@,
{
    let mut cs: Vec<char> = Vec::new();
    for c in it: input.chars()
        invariant
            it.seq() == input@,
            cs@ == input@.take(it.index()),
    {
        cs.push(c);
        assert(cs@ =~= input@.take(it.index() + 1));
    }
    assert(input@.take(input@.len() as int) =~= input@);
    cs
}

pub(crate) fn trim_bounds(cs: &Vec<char>) -> (r: (usize, usize))
    ensures
        r.0 <= r.1 <= cs@.len(),
        trim_end(trim_start(cs@)) == cs@.subrange(r.0 as int, r.1 as int),
{
    let ghost s = cs@;
    let n = cs.len();
    let mut a: usize = 0;
    assert(s.skip(0) =~= s);
    while a < n && is_space_char(cs[a])
        invariant
            a <= n,
            n == s.len(),
            s == cs@,
            trim_start(s) == trim_start(s.skip(a as int)),
        decreases n - a,
    {
        assert(s.skip(a as int).drop_first() =~= s.skip(a + 1));
        a = a + 1;
    }
    let ghost t = s.skip(a as int);
    assert(trim_start(s) == t);
    let mut b: usize = n;
    assert(t.take(t.len() as int) =~= t);
    while b > a && is_space_char(cs[b - 1])
        invariant
            a <= b <= n,
            n == s.len(),
            s == cs@,
            t == s.skip(a as int),
            trim_end(t) == trim_end(t.take(b - a)),
        decreases b,
    {
        assert(t.take(b - a).drop_last() =~= t.take(b - a - 1));
        b = b - 1;
    }
    assert(trim_end(t) == t.take(b - a));
    assert(t.take(b - a) =~= s.subrange(a as int, b as int));
    (a, b)
}

fn digits_start(cs: &Vec<char>, a: usize, b: usize) -> (r: usize)
    requires
        a <= b <= cs@.len(),
    ensures
        a <= r <= b,
        unsigned_digits(strip_radix(cs@.subrange(a as int, b as int))) == cs@.subrange(r as int, b as int),
{
    let ghost s = cs@;
    let mut i: usize = a;
    while b - i >= 2 && cs[i] == '0' && cs[i + 1] == 'x'
        invariant
            a <= i <= b <= s.len(),
            s == cs@,
            strip_radix(s.subrange(a as int, b as int)) == strip_radix(s.subrange(i as int, b as int)),
        decreases b - i,
    {
        assert(s.subrange(i as int, b as int).skip(2) =~= s.subrange(i + 2, b as int));
        i = i + 2;
    }
    assert(strip_radix(s.subrange(a as int, b as int)) == s.subrange(i as int, b as int));
    if i < b && cs[i] == '+' {
        assert(s.subrange(i as int, b as int).drop_first() =~= s.subrange(i + 1, b as int));
        i = i + 1;
    }
    i
}

fn digits_value(cs: &Vec<char>, i: usize, b: usize) -> (r: Option<u64>)
    requires
        i <= b <= cs@.len(),
    ensures
        r == hex_digits_value(cs@.subrange(i as int, b as int)),
{
    let ghost ds = cs@.subrange(i as int, b as int);
    if i == b {
        return None;
    }
    let mut acc: u64 = 0;
    let mut k: usize = i;
    assert(ds.take(0) =~= Seq::<char>::empty());
    while k < b
        invariant
            i <= k <= b <= cs@.len(),
            ds == cs@.subrange(i as int, b as int),
            forall|j: int| 0 <= j < k - i ==> is_hex_digit(#[trigger] ds[j]),
            acc == hex_value(ds.take(k - i)),
        decreases b - k,
    {
        let c = cs[k];
        assert(c == ds[k - i]);
        let d: u64 = if '0' <= c && c <= '9' {
            (c as u32 - '0' as u32) as u64
        } else if 'a' <= c && c <= 'f' {
            (c as u32 - 'a' as u32 + 10) as u64
        } else if 'A' <= c && c <= 'F' {
            (c as u32 - 'A' as u32 + 10) as u64
        } else {
            assert(!is_hex_digit(ds[k - i]));
            return None;
        };
        assert(ds.take(k - i + 1).drop_last() =~= ds.take(k - i));
        assert(hex_value(ds.take(k - i + 1)) == acc * 16 + d);
        if acc > (u64::MAX - d) / 16 {
            proof {
                lemma_hex_value_prefix(ds, k - i + 1);
            }
            return None;
        }
        acc = acc * 16 + d;
        k = k + 1;
    }
    assert(ds.take(k - i) =~= ds);
    Some(acc)
}

/// Reads the hexadecimal byte offset in `input` (see [`hex_offset`]).
pub fn parse_hex_offset(input: &str) -> (r: Option<u64>)
    ensures
        r == hex_offset(input@),
{
    let cs = chars_of(input);
    let (a, b) = trim_bounds(&cs);
    let i = digits_start(&cs, a, b);
    digits_value(&cs, i, b)
}

} // verus!
