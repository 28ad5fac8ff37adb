//! Where the seed of a generation comes from: a setting that fixes it, or
//! else the clock.
use vstd::prelude::*;
use vstd::string::StringSliceAdditionalSpecFns;

verus! {

/// Whether the byte is a decimal digit.
pub open spec fn is_digit(b: u8) -> bool {
    0x30 <= b <= 0x39
}

/// Whether the bytes are decimal digits, one at least.
pub open spec fn is_number(bytes: Seq<u8>) -> bool {
    &&& bytes.len() > 0
    &&& forall|k: int| 0 <= k < bytes.len() ==> is_digit(#[trigger] bytes[k])
}

/// The number that the decimal digits write.
pub open spec fn decimal_value(digits: Seq<u8>) -> int
    decreases digits.len(),
{
    if digits.len() == 0 {
        0
    } else {
        decimal_value(digits.drop_last()) * 10 + (digits.last() - 0x30)
    }
}

/// The bytes without a plus sign in front.
pub open spec fn unsigned_part(bytes: Seq<u8>) -> Seq<u8> {
    if bytes.len() > 0 && bytes[0] == 0x2b {
        bytes.skip(1)
    } else {
        bytes
    }
}

/// The seed that a setting fixes: the number that it writes in decimal
/// digits, with or without a plus sign in front, where it fits in 64 bits.
pub open spec fn parsed_seed(bytes: Seq<u8>) -> Option<u64> {
    let digits = unsigned_part(bytes);
    if is_number(digits) && decimal_value(digits) <= u64::MAX {
        Some(decimal_value(digits) as u64)
    } else {
        None
    }
}

/// The seed of a generation: what the setting fixes, where there is a
/// setting that writes a number, and else the seconds of the clock.
pub open spec fn chosen_seed(setting: Option<Seq<u8>>, clock_seconds: u64) -> u64 {
    match setting {
        Some(bytes) => match parsed_seed(bytes) {
            Some(seed) => seed,
            None => clock_seconds,
        },
        None => clock_seconds,
    }
}

/// The digits written so far never count for less than a part of them.
proof fn lemma_decimal_grows(digits: Seq<u8>, k: int)
    requires
        0 <= k <= digits.len(),
        forall|j: int| 0 <= j < digits.len() ==> is_digit(#[trigger] digits[j]),
    ensures
        0 <= decimal_value(digits.take(k)) <= decimal_value(digits),
    decreases digits.len() - k,
{
    if k == digits.len() {
        assert(digits.take(k) =~= digits);
        lemma_decimal_nonnegative(digits);
    } else {
        lemma_decimal_grows(digits, k + 1);
        let longer = digits.take(k + 1);
        assert(longer.drop_last() =~= digits.take(k));
        assert(is_digit(digits[k]));
        assert(longer.last() == digits[k]);
        lemma_decimal_nonnegative_take(digits, k);
    }
}

/// Decimal digits write no negative number.
proof fn lemma_decimal_nonnegative(digits: Seq<u8>)
    requires
        forall|j: int| 0 <= j < digits.len() ==> is_digit(#[trigger] digits[j]),
    ensures
        0 <= decimal_value(digits),
    decreases digits.len(),
{
    if digits.len() > 0 {
        let front = digits.drop_last();
        assert forall|j: int| 0 <= j < front.len() implies is_digit(#[trigger] front[j]) by {
            assert(front[j] == digits[j]);
        }
        lemma_decimal_nonnegative(front);
        assert(is_digit(digits[digits.len() - 1]));
    }
}

/// A part of decimal digits writes no negative number.
proof fn lemma_decimal_nonnegative_take(digits: Seq<u8>, k: int)
    requires
        0 <= k <= digits.len(),
        forall|j: int| 0 <= j < digits.len() ==> is_digit(#[trigger] digits[j]),
    ensures
        0 <= decimal_value(digits.take(k)),
{
    let part = digits.take(k);
    assert forall|j: int| 0 <= j < part.len() implies is_digit(#[trigger] part[j]) by {
        assert(part[j] == digits[j]);
    }
    lemma_decimal_nonnegative(part);
}

/// Reads the seed that a setting fixes.
pub fn parse_seed(text: &str) -> (r: Option<u64>)
    ensures
        r == parsed_seed(text.spec_bytes()),
{
    let bytes = text.as_bytes();
    let start: usize = if bytes.len() > 0 && bytes[0] == 0x2b {
        1
    } else {
        0
    };
    let ghost digits = unsigned_part(bytes@);
    if start == bytes.len() {
        return None;
    }
    let mut value: u64 = 0;
    let mut i: usize = start;
    while i < bytes.len()
        invariant
            start <= i <= bytes.len(),
            start <= 1,
            bytes@ == text.spec_bytes(),
            digits == unsigned_part(bytes@),
            digits.len() == bytes.len() - start,
            forall|k: int| 0 <= k < digits.len() ==> #[trigger] digits[k] == bytes[k + start],
            forall|k: int| 0 <= k < i - start ==> is_digit(#[trigger] digits[k]),
            value == decimal_value(digits.take(i - start)),
        decreases bytes.len() - i,
    {
        let b: u8 = bytes[i];
        let ghost at = i - start;
        proof {
            assert(digits[at] == b);
            assert(digits.take(at + 1).drop_last() =~= digits.take(at));
            assert(digits.take(at + 1).last() == b);
        }
        if b < 0x30 || b > 0x39 {
            assert(!is_digit(digits[at]));
            return None;
        }
        let digit: u64 = (b - 0x30) as u64;
        let next = match value.checked_mul(10) {
            Some(tens) => tens.checked_add(digit),
            None => None,
        };
        match next {
            Some(v) => {
                value = v;
            },
            None => {
                proof {
                    if is_number(digits) {
                        lemma_decimal_grows(digits, at + 1);
                    }
                }
                return None;
            },
        }
        i = i + 1;
    }
    proof {
        assert(digits.take(i - start) =~= digits);
    }
    Some(value)
}

/// The seed of a generation: the one that the setting fixes, if there is
/// a setting and it writes a number, and else the seconds of the clock.
pub fn choose_seed(setting: Option<&str>, clock_seconds: u64) -> (seed: u64)
    ensures
        seed == chosen_seed(
            match setting {
                Some(text) => Some(text.spec_bytes()),
                None => None,
            },
            clock_seconds,
        ),
{
    match setting {
        Some(text) => match parse_seed(text) {
            Some(seed) => seed,
            None => clock_seconds,
        },
        None => clock_seconds,
    }
}


/// The character that writes the digit `d`.
pub open spec fn digit_char(d: int) -> char {
    if d == 0 {
        '0'
    } else if d == 1 {
        '1'
    } else if d == 2 {
        '2'
    } else if d == 3 {
        '3'
    } else if d == 4 {
        '4'
    } else if d == 5 {
        '5'
    } else if d == 6 {
        '6'
    } else if d == 7 {
        '7'
    } else if d == 8 {
        '8'
    } else {
        '9'
    }
}

/// The characters that write `n` in decimal digits, without a zero in
/// front.
pub open spec fn decimal_chars(n: nat) -> Seq<char>
    decreases n,
{
    if n < 10 {
        seq![digit_char(n as int)]
    } else {
        decimal_chars(n / 10).push(digit_char((n % 10) as int))
    }
}

/// The digits of a number from the last to the first, written from the
/// first to the last.
spec fn written(digits: Seq<u8>) -> Seq<char> {
    Seq::new(digits.len(), |i: int| digit_char(digits[digits.len() - 1 - i] as int))
}

/// The text of one digit.
fn digit_text(d: u8) -> (text: &'static str)
    requires
        d < 10,
    ensures
        text@ == seq![digit_char(d as int)],
{
    proof {
        reveal_strlit("0");
        reveal_strlit("1");
        reveal_strlit("2");
        reveal_strlit("3");
        reveal_strlit("4");
        reveal_strlit("5");
        reveal_strlit("6");
        reveal_strlit("7");
        reveal_strlit("8");
        reveal_strlit("9");
    }
    let text = if d == 0 {
        "0"
    } else if d == 1 {
        "1"
    } else if d == 2 {
        "2"
    } else if d == 3 {
        "3"
    } else if d == 4 {
        "4"
    } else if d == 5 {
        "5"
    } else if d == 6 {
        "6"
    } else if d == 7 {
        "7"
    } else if d == 8 {
        "8"
    } else {
        "9"
    };
    assert(text@ =~= seq![digit_char(d as int)]);
    text
}

/// Writes a seed in decimal digits.
pub fn seed_text(seed: u64) -> (text: String)
    ensures
        text@ == decimal_chars(seed as nat),
{
    let mut digits: Vec<u8> = Vec::new();
    let mut rest: u64 = seed;
    assert(written(digits@) =~= Seq::<char>::empty());
    assert(decimal_chars(rest as nat) + Seq::<char>::empty() =~= decimal_chars(rest as nat));
    while rest >= 10
        invariant
            decimal_chars(seed as nat) == decimal_chars(rest as nat) + written(digits@),
            forall|k: int| 0 <= k < digits.len() ==> #[trigger] digits[k] < 10,
        decreases rest,
    {
        let ghost before = digits@;
        let d: u8 = (rest % 10) as u8;
        digits.push(d);
        proof {
            let front = decimal_chars((rest / 10) as nat);
            assert(written(digits@) =~= seq![digit_char(d as int)] + written(before));
            assert(front.push(digit_char(d as int)) + written(before) =~= front + written(
                digits@,
            ));
        }
        rest = rest / 10;
    }
    let mut text = String::from_str(digit_text(rest as u8));
    let mut k: usize = digits.len();
    assert(written(digits@).take(0) =~= Seq::<char>::empty());
    assert(text@ + Seq::<char>::empty() =~= text@);
    while k > 0
        invariant
            k <= digits.len(),
            forall|j: int| 0 <= j < digits.len() ==> #[trigger] digits[j] < 10,
            text@ == decimal_chars(rest as nat) + written(digits@).take(digits.len() - k),
        decreases k,
    {
        k = k - 1;
        let ghost so_far = text@;
        text.append(digit_text(digits[k]));
        proof {
            let all = written(digits@);
            let at = digits.len() - 1 - k;
            assert(all[at] == digit_char(digits[k as int] as int));
            assert(all.take(at + 1) =~= all.take(at).push(all[at]));
            assert(so_far + seq![all[at]] =~= decimal_chars(rest as nat) + all.take(at + 1));
        }
    }
    assert(written(digits@).take(digits.len() as int) =~= written(digits@));
    text
}

} // verus!
