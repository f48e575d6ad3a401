//! Canonical string parsing and rendering for unsigned 32-bit integer
//! fields.
//!
//! The canonical parse rule accepts exactly the nonempty strings of
//! decimal digits whose value fits in `u32` (leading zeros are allowed);
//! everything else is rejected explicitly, never by panic. The canonical
//! rendering emits plain decimal digits without a sign or leading zeros,
//! and round-trips through the parse rule.

use vstd::prelude::*;

verus! {

/// The numeric value of a decimal digit character; 10 marks a
/// non-digit.
pub open spec fn digit_val(c: char) -> nat {
    match c {
        '0' => 0,
        '1' => 1,
        '2' => 2,
        '3' => 3,
        '4' => 4,
        '5' => 5,
        '6' => 6,
        '7' => 7,
        '8' => 8,
        '9' => 9,
        _ => 10,
    }
}

/// Whether `c` is a decimal digit.
pub open spec fn is_digit(c: char) -> bool {
    digit_val(c) < 10
}

/// The decimal digit character for a value below ten.
pub open spec fn digit_char(d: nat) -> char {
    if d == 0 {
        '0'
    } else if d == 1 {
        '1'
    } else if d == 2 {
        '2'
    } else if d == 3 {
        '3'
    } else if d == 4 {
        '4'
    } else if d == 5 {
        '5'
    } else if d == 6 {
        '6'
    } else if d == 7 {
        '7'
    } else if d == 8 {
        '8'
    } else {
        '9'
    }
}

/// Whether every character of `s` is a decimal digit.
pub open spec fn all_digits(s: Seq<char>) -> bool {
    forall|i: int| 0 <= i < s.len() ==> is_digit(#[trigger] s[i])
}

/// The numeric value of a digit string, read in base ten. Non-digit
/// characters are meaningful only under [`all_digits`].
pub open spec fn digits_val(s: Seq<char>) -> nat
    decreases s.len(),
{
    if s.len() == 0 {
        0
    } else {
        digits_val(s.drop_last()) * 10 + digit_val(s.last())
    }
}

/// The canonical parse rule for `u32` fields: nonempty, all decimal
/// digits, and the value fits in `u32`.
pub open spec fn u32_str_wf(s: Seq<char>) -> bool {
    &&& s.len() > 0
    &&& all_digits(s)
    &&& digits_val(s) <= u32::MAX
}

/// The canonical decimal rendering of an unsigned value: plain digits,
/// no sign, no leading zeros.
pub open spec fn u32_to_str(n: nat) -> Seq<char>
    decreases n,
{
    if n < 10 {
        seq![digit_char(n)]
    } else {
        u32_to_str(n / 10).push(digit_char(n % 10))
    }
}

/// What the canonical parse of `s` returns: the value for well-formed
/// digit strings, rejection for everything else.
pub open spec fn spec_parse_u32(s: Seq<char>) -> Option<u32> {
    if u32_str_wf(s) {
        Some(digits_val(s) as u32)
    } else {
        None
    }
}

/// A digit character round-trips through its value.
proof fn lemma_digit_char_val(d: nat)
    requires
        d < 10,
    ensures
        digit_val(digit_char(d)) == d,
        is_digit(digit_char(d)),
{
}

/// The canonical rendering consists of decimal digits only.
pub proof fn lemma_u32_to_str_digits(n: nat)
    ensures
        u32_to_str(n).len() > 0,
        all_digits(u32_to_str(n)),
    decreases n,
{
    if n < 10 {
        lemma_digit_char_val(n);
        assert(u32_to_str(n) == seq![digit_char(n)]);
    } else {
        lemma_u32_to_str_digits(n / 10);
        lemma_digit_char_val(n % 10);
        let prefix = u32_to_str(n / 10);
        let whole = prefix.push(digit_char(n % 10));
        assert forall|i: int| 0 <= i < whole.len() implies is_digit(#[trigger] whole[i]) by {
            if i < prefix.len() {
                assert(whole[i] == prefix[i]);
            } else {
                assert(whole[i] == digit_char(n % 10));
            }
        }
    }
}

/// Parsing inverts the canonical rendering.
pub proof fn lemma_u32_round_trip(n: nat)
    ensures
        digits_val(u32_to_str(n)) == n,
    decreases n,
{
    if n < 10 {
        lemma_digit_char_val(n);
        let s = seq![digit_char(n)];
        assert(s.drop_last() =~= Seq::<char>::empty());
        assert(digits_val(s) == digits_val(s.drop_last()) * 10 + digit_val(s.last()));
    } else {
        lemma_u32_round_trip(n / 10);
        lemma_digit_char_val(n % 10);
        let prefix = u32_to_str(n / 10);
        let whole = prefix.push(digit_char(n % 10));
        assert(whole.drop_last() =~= prefix);
        assert(whole.last() == digit_char(n % 10));
        assert(digits_val(whole) == digits_val(prefix) * 10 + (n % 10));
        assert(n / 10 * 10 + n % 10 == n);
    }
}

/// The value of a digit string grows (weakly) with its length: any
/// prefix values at most the whole.
proof fn lemma_digits_val_prefix(s: Seq<char>, i: int)
    requires
        0 <= i <= s.len(),
    ensures
        digits_val(s.subrange(0, i)) <= digits_val(s),
    decreases s.len() - i,
{
    if i == s.len() {
        assert(s.subrange(0, i) =~= s);
    } else {
        let next = s.subrange(0, i + 1);
        assert(next.drop_last() =~= s.subrange(0, i));
        assert(digits_val(next) == digits_val(s.subrange(0, i)) * 10 + digit_val(next.last()));
        lemma_digits_val_prefix(s, i + 1);
    }
}

/// The exec digit test: the digit's value, or `None` for a non-digit.
fn digit_of_char(c: char) -> (r: Option<u8>)
    ensures
        match r {
            Some(d) => is_digit(c) && d == digit_val(c),
            None => !is_digit(c),
        },
{
    match c {
        '0' => Some(0),
        '1' => Some(1),
        '2' => Some(2),
        '3' => Some(3),
        '4' => Some(4),
        '5' => Some(5),
        '6' => Some(6),
        '7' => Some(7),
        '8' => Some(8),
        '9' => Some(9),
        _ => None,
    }
}

/// Parse a `u32` from its canonical decimal notation. Returns the value
/// exactly for well-formed digit strings and rejects everything else —
/// empty input, any non-digit character, or a value over `u32::MAX`.
pub fn parse_u32(s: &str) -> (r: Option<u32>)
    ensures
        r == spec_parse_u32(s@),
{
    let len = s.unicode_len();
    if len == 0 {
        return None;
    }
    let mut i: usize = 0;
    let mut acc: u32 = 0;
    while i < len
        invariant
            0 < len == s@.len(),
            0 <= i <= len,
            acc == digits_val(s@.subrange(0, i as int)),
            forall|k: int| 0 <= k < i ==> is_digit(#[trigger] s@[k]),
        decreases len - i,
    {
        let c = s.get_char(i);
        match digit_of_char(c) {
            None => {
                assert(!all_digits(s@));
                return None;
            },
            Some(d) => {
                let wide: u64 = (acc as u64) * 10 + (d as u64);
                if wide > u32::MAX as u64 {
                    proof {
                        let head = s@.subrange(0, i as int + 1);
                        assert(head.drop_last() =~= s@.subrange(0, i as int));
                        assert(digits_val(head) == wide);
                        lemma_digits_val_prefix(s@, i as int + 1);
                    }
                    return None;
                }
                proof {
                    let head = s@.subrange(0, i as int + 1);
                    assert(head.drop_last() =~= s@.subrange(0, i as int));
                    assert(head.last() == s@[i as int]);
                }
                acc = wide as u32;
            },
        }
        i = i + 1;
    }
    assert(s@.subrange(0, len as int) =~= s@);
    Some(acc)
}

/// The decimal digit characters, used to build canonical renderings.
fn digit_str(d: u32) -> (r: &'static str)
    requires
        d < 10,
    ensures
        r@ == seq![digit_char(d as nat)],
{
    proof {
        reveal_strlit("0");
        reveal_strlit("1");
        reveal_strlit("2");
        reveal_strlit("3");
        reveal_strlit("4");
        reveal_strlit("5");
        reveal_strlit("6");
        reveal_strlit("7");
        reveal_strlit("8");
        reveal_strlit("9");
    }
    let r = match d {
        0 => "0",
        1 => "1",
        2 => "2",
        3 => "3",
        4 => "4",
        5 => "5",
        6 => "6",
        7 => "7",
        8 => "8",
        _ => "9",
    };
    assert(r@ =~= seq![digit_char(d as nat)]);
    r
}

/// Render a `u32` in its canonical decimal notation.
pub fn u32_to_string(n: u32) -> (r: String)
    ensures
        r@ == u32_to_str(n as nat),
    decreases n,
{
    if n < 10 {
        digit_str(n).to_owned()
    } else {
        let mut s = u32_to_string(n / 10);
        s.append(digit_str(n % 10));
        s
    }
}

} // verus!
