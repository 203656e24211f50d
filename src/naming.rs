//! Fragment identifiers: the naming convention and the sequence number that
//! an identifier carries.

use vstd::prelude::*;

verus! {

/// Whether `c` is an ASCII decimal digit.
pub open spec fn is_digit(c: char) -> bool {
    '0' <= c && c <= '9'
}

/// The value of the ASCII digit `c`.
pub open spec fn digit_value(c: char) -> nat {
    ((c as u32) - ('0' as u32)) as nat
}

/// The number that the decimal digits `ds` spell, most significant first.
pub open spec fn decimal_value(ds: Seq<char>) -> nat
    decreases ds.len(),
{
    if ds.len() == 0 {
        0
    } else {
        decimal_value(ds.drop_last()) * 10 + digit_value(ds.last())
    }
}

/// Where a left-to-right reading of an identifier stands with respect to
/// its first run of digits.
pub enum DigitRun {
    /// No digit has been read yet.
    NotStarted,
    /// Inside the first run; the run so far spells the value.
    Inside(nat),
    /// The first run has ended; it spelled the value.
    Ended(nat),
}

/// The state reached after reading all of `s`.
pub open spec fn digit_run(s: Seq<char>) -> DigitRun
    decreases s.len(),
{
    if s.len() == 0 {
        DigitRun::NotStarted
    } else {
        let c = s.last();
        match digit_run(s.drop_last()) {
            DigitRun::NotStarted => if is_digit(c) {
                DigitRun::Inside(digit_value(c))
            } else {
                DigitRun::NotStarted
            },
            DigitRun::Inside(v) => if is_digit(c) {
                DigitRun::Inside(v * 10 + digit_value(c))
            } else {
                DigitRun::Ended(v)
            },
            DigitRun::Ended(v) => DigitRun::Ended(v),
        }
    }
}

/// The sequence number of an identifier: the value of its first contiguous
/// run of decimal digits, or `u32::MAX` (so that it sorts last) when it has
/// no digit or the run does not fit in a `u32`.
pub open spec fn sequence_number_of(s: Seq<char>) -> u32 {
    match digit_run(s) {
        DigitRun::NotStarted => u32::MAX,
        DigitRun::Inside(v) => if v <= u32::MAX {
            v as u32
        } else {
            u32::MAX
        },
        DigitRun::Ended(v) => if v <= u32::MAX {
            v as u32
        } else {
            u32::MAX
        },
    }
}

/// The value `v` held in a `u64`, capped just above `u32::MAX`.
pub open spec fn capped(v: nat) -> u64 {
    if v > u32::MAX {
        (u32::MAX + 1) as u64
    } else {
        v as u64
    }
}

proof fn lemma_capped_step(v: nat, d: nat)
    requires
        d < 10,
    ensures
        capped(v * 10 + d) == if capped(v) * 10 + d > u32::MAX {
            (u32::MAX + 1) as u64
        } else {
            (capped(v) * 10 + d) as u64
        },
{
    assert(v * 10 + d >= v) by (nonlinear_arith);
    if v > u32::MAX {
        assert(v * 10 + d > u32::MAX) by (nonlinear_arith)
            requires
                v > u32::MAX,
        ;
    }
}

/// Parses the sequence number of a fragment identifier: the first contiguous
/// run of decimal digits, or `u32::MAX` when there is none or it overflows.
pub fn parse_sequence_number(identifier: &str) -> (r: u32)
    ensures
        r == sequence_number_of(identifier@),
{
    // 0: before the run, 1: inside it, 2: after it
    let mut phase: u8 = 0;
    let mut acc: u64 = 0;
    for c in it: identifier.chars()
        invariant
            it.seq() == identifier@,
            phase <= 2,
            acc <= u32::MAX + 1,
            ({
                let st = digit_run(identifier@.take(it.index()));
                match st {
                    DigitRun::NotStarted => phase == 0 && acc == 0,
                    DigitRun::Inside(v) => phase == 1 && acc == capped(v),
                    DigitRun::Ended(v) => phase == 2 && acc == capped(v),
                }
            }),
    {
        assert(identifier@.take(it.index() + 1).drop_last() =~= identifier@.take(it.index()));
        let digit = '0' <= c && c <= '9';
        if phase == 0 {
            if digit {
                phase = 1;
                acc = (c as u32 - '0' as u32) as u64;
            }
        } else if phase == 1 {
            if digit {
                proof {
                    let st = digit_run(identifier@.take(it.index()));
                    if let DigitRun::Inside(v) = st {
                        lemma_capped_step(v, digit_value(c));
                    }
                }
                let next = acc * 10 + (c as u32 - '0' as u32) as u64;
                acc = if next > u32::MAX as u64 {
                    u32::MAX as u64 + 1
                } else {
                    next
                };
            } else {
                phase = 2;
            }
        }
    }
    assert(identifier@.take(identifier@.len() as int) =~= identifier@);
    if phase == 0 || acc > u32::MAX as u64 {
        u32::MAX
    } else {
        acc as u32
    }
}

/// Whether `name` follows the fragment naming convention: it starts with
/// `page` and ends with `.txt`.
pub open spec fn is_fragment_name(name: Seq<char>) -> bool {
    let n = name.len();
    &&& n >= 8
    &&& name[0] == 'p' && name[1] == 'a' && name[2] == 'g' && name[3] == 'e'
    &&& name[n - 4] == '.' && name[n - 3] == 't' && name[n - 2] == 'x' && name[n - 1] == 't'
}

/// Tells whether `name` follows the fragment naming convention.
pub fn fragment_name_matches(name: &str) -> (r: bool)
    ensures
        r == is_fragment_name(name@),
{
    let n = name.unicode_len();
    if n < 8 {
        return false;
    }
    name.get_char(0) == 'p' && name.get_char(1) == 'a' && name.get_char(2) == 'g'
        && name.get_char(3) == 'e' && name.get_char(n - 4) == '.' && name.get_char(n - 3) == 't'
        && name.get_char(n - 2) == 'x' && name.get_char(n - 1) == 't'
}

} // verus!
