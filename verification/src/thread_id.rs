//! The identity of a thread.

use crate::text::{lemma_string_less_is_strict, parts_below, string_less};
use vstd::arithmetic::power::{lemma_pow0, lemma_pow_positive, pow};
use vstd::prelude::*;
use vstd::string::*;

verus! {

/// A thread is known by a number of 128 bits.
#[derive(Clone, Copy, Debug, PartialEq, Eq, Structural, Hash)]
pub struct ThreadId {
    pub value: u128,
}

/// `16` to the power `n`.
pub open spec fn power_of_16(n: nat) -> nat
    decreases n,
{
    if n == 0 {
        1
    } else {
        16 * power_of_16((n - 1) as nat)
    }
}

/// The lowest `n` hexadecimal digits of `value`, the most significant first.
pub open spec fn digits(value: nat, n: nat) -> Seq<nat>
    decreases n,
{
    if n == 0 {
        Seq::empty()
    } else {
        digits(value / 16, (n - 1) as nat).push(value % 16)
    }
}

/// The number that has these hexadecimal digits.
pub open spec fn digits_value(s: Seq<nat>) -> nat
    decreases s.len(),
{
    if s.len() == 0 {
        0
    } else {
        16 * digits_value(s.drop_last()) + s.last()
    }
}

/// The character that stands for a hexadecimal digit.
pub open spec fn digit_char(digit: nat) -> char {
    if digit < 10 {
        (0x30 + digit) as char
    } else {
        (0x57 + digit) as char
    }
}

/// The digit that a character stands for, in either letter case.
pub open spec fn char_digit(c: char) -> Option<nat> {
    if '0' <= c <= '9' {
        Some((c as u32 - 0x30) as nat)
    } else if 'a' <= c <= 'f' {
        Some((c as u32 - 0x57) as nat)
    } else if 'A' <= c <= 'F' {
        Some((c as u32 - 0x37) as nat)
    } else {
        None
    }
}

/// Where the written form of a thread id has a hyphen.
pub open spec fn is_hyphen_place(place: int) -> bool {
    place == 8 || place == 13 || place == 18 || place == 23
}

/// How many digits stand before `place`: the index of the digit that stands there, if one does.
pub open spec fn digit_index(place: int) -> int {
    if place <= 8 {
        place
    } else if place <= 13 {
        place - 1
    } else if place <= 18 {
        place - 2
    } else if place <= 23 {
        place - 3
    } else {
        place - 4
    }
}

/// Where the digit with this index stands.
pub open spec fn digit_place(index: int) -> int {
    if index < 8 {
        index
    } else if index < 12 {
        index + 1
    } else if index < 16 {
        index + 2
    } else if index < 20 {
        index + 3
    } else {
        index + 4
    }
}

/// The shape of a written thread id: groups of 8, 4, 4, 4 and 12 hexadecimal digits, with hyphens
/// between them.
pub open spec fn is_hyphenated(text: Seq<char>) -> bool {
    &&& text.len() == 36
    &&& forall|place: int|
        0 <= place < 36 ==> if is_hyphen_place(place) {
            #[trigger] text[place] == '-'
        } else {
            char_digit(text[place]) is Some
        }
}

/// The digits that a written thread id holds.
pub open spec fn hyphenated_digits(text: Seq<char>) -> Seq<nat> {
    Seq::new(32, |index: int| char_digit(text[digit_place(index)])->0)
}

impl ThreadId {
    /// The written form: the 32 hexadecimal digits of the value in lower case, hyphenated.
    pub open spec fn text(self) -> Seq<char> {
        Seq::new(
            36,
            |place: int|
                if is_hyphen_place(place) {
                    '-'
                } else {
                    digit_char(digits(self.value as nat, 32)[digit_index(place)])
                },
        )
    }

    /// Writes the id down.
    pub fn to_string(&self) -> (written: String)
        ensures
            written@ == self.text(),
    {
        let mut reversed: Vec<u8> = Vec::new();
        let mut rest: u128 = self.value;
        let mut count: usize = 0;
        while count < 32
            invariant
                count <= 32,
                reversed@.len() == count,
                digits(self.value as nat, 32) =~= digits(rest as nat, (32 - count) as nat)
                    + Seq::new(count as nat, |i: int| reversed@[count - 1 - i] as nat),
                forall|i: int| 0 <= i < count ==> #[trigger] reversed@[i] < 16,
            decreases 32 - count,
        {
            let ghost before = reversed@;
            reversed.push((rest % 16) as u8);
            rest = rest / 16;
            count = count + 1;
            proof {
                assert(forall|i: int| 0 <= i < count - 1 ==> reversed@[i] == before[i]);
            }
        }
        let mut written = String::new();
        let mut place: usize = 0;
        let mut index: usize = 0;
        while place < 36
            invariant
                place <= 36,
                index == digit_index(place as int),
                reversed@.len() == 32,
                forall|i: int| 0 <= i < 32 ==> #[trigger] reversed@[i] < 16,
                digits(self.value as nat, 32) =~= Seq::new(
                    32,
                    |i: int| reversed@[31 - i] as nat,
                ),
                written@ =~= self.text().take(place as int),
            decreases 36 - place,
        {
            if place == 8 || place == 13 || place == 18 || place == 23 {
                written.push('-');
            } else {
                let digit: u8 = reversed[31 - index];
                let c: char = if digit < 10 {
                    (0x30 + digit) as char
                } else {
                    (0x57 + digit) as char
                };
                written.push(c);
                index = index + 1;
            }
            place = place + 1;
        }
        written
    }

    /// Reads a written id; the digits may be of either letter case.
    pub fn from_string(text: &str) -> (id: Option<ThreadId>)
        ensures
            id is Some <==> is_hyphenated(text@),
            id matches Some(id) ==> id.value == digits_value(hyphenated_digits(text@)),
    {
        if text.unicode_len() != 36 {
            return None;
        }
        let mut value: u128 = 0;
        let mut place: usize = 0;
        let ghost mut index: int = 0;
        while place < 36
            invariant
                text@.len() == 36,
                place <= 36,
                index == digit_index(place as int),
                value == digits_value(hyphenated_digits(text@).take(index)),
                value < power_of_16(index as nat),
                forall|p: int|
                    0 <= p < place ==> if is_hyphen_place(p) {
                        #[trigger] text@[p] == '-'
                    } else {
                        char_digit(text@[p]) is Some
                    },
            decreases 36 - place,
        {
            let c: char = text.get_char(place);
            if place == 8 || place == 13 || place == 18 || place == 23 {
                if c != '-' {
                    return None;
                }
            } else {
                let digit: u128 = match read_digit(c) {
                    Some(digit) => digit as u128,
                    None => {
                        return None;
                    },
                };
                proof {
                    let all = hyphenated_digits(text@);
                    assert(digit_place(index) == place);
                    assert(all.take(index + 1).drop_last() =~= all.take(index));
                    assert(all.take(index + 1).last() == digit);
                    lemma_power_of_16_monotone(index as nat, 31);
                    lemma_power_31();
                    index = index + 1;
                }
                value = value * 16 + digit;
            }
            place = place + 1;
        }
        proof {
            assert(hyphenated_digits(text@).take(32) =~= hyphenated_digits(text@));
        }
        Some(ThreadId { value })
    }
}

/// The digit that `c` stands for.
fn read_digit(c: char) -> (digit: Option<u8>)
    ensures
        digit is Some <==> char_digit(c) is Some,
        digit matches Some(d) ==> d == char_digit(c)->0 && d < 16,
{
    if '0' <= c && c <= '9' {
        Some((c as u32 - 0x30) as u8)
    } else if 'a' <= c && c <= 'f' {
        Some((c as u32 - 0x57) as u8)
    } else if 'A' <= c && c <= 'F' {
        Some((c as u32 - 0x37) as u8)
    } else {
        None
    }
}

proof fn lemma_power_of_16_monotone(m: nat, n: nat)
    requires
        m <= n,
    ensures
        power_of_16(m) <= power_of_16(n),
    decreases n,
{
    if m < n {
        lemma_power_of_16_monotone(m, (n - 1) as nat);
    }
}

proof fn lemma_power_31()
    ensures
        power_of_16(31) == 0x1000_0000_0000_0000_0000_0000_0000_0000,
        power_of_16(32) == u128::MAX + 1,
{
    reveal_with_fuel(power_of_16, 33);
}

proof fn lemma_digits(value: nat, n: nat)
    ensures
        digits(value, n).len() == n,
        forall|i: int| 0 <= i < n ==> #[trigger] digits(value, n)[i] < 16,
        value < power_of_16(n) ==> digits_value(digits(value, n)) == value,
    decreases n,
{
    if n > 0 {
        lemma_digits(value / 16, (n - 1) as nat);
        assert(digits(value, n).drop_last() =~= digits(value / 16, (n - 1) as nat));
    }
}

proof fn lemma_char_of_digit(digit: nat)
    requires
        digit < 16,
    ensures
        char_digit(digit_char(digit)) == Some(digit),
{
}

/// Reading a written id gives the id back.
pub proof fn law_reading_undoes_writing(id: ThreadId)
    ensures
        is_hyphenated(id.text()),
        digits_value(hyphenated_digits(id.text())) == id.value,
{
    lemma_digits(id.value as nat, 32);
    lemma_power_31();
    assert forall|place: int| 0 <= place < 36 implies if is_hyphen_place(place) {
        #[trigger] id.text()[place] == '-'
    } else {
        char_digit(id.text()[place]) is Some
    } by {
        if !is_hyphen_place(place) {
            lemma_char_of_digit(digits(id.value as nat, 32)[digit_index(place)]);
        }
    }
    assert forall|index: int| 0 <= index < 32 implies #[trigger] hyphenated_digits(id.text())[index]
        == digits(id.value as nat, 32)[index] by {
        assert(digit_index(digit_place(index)) == index);
        assert(!is_hyphen_place(digit_place(index)));
        lemma_char_of_digit(digits(id.value as nat, 32)[index]);
    }
    assert(hyphenated_digits(id.text()) =~= digits(id.value as nat, 32));
}

/// A digit is what is left of the number when those behind it and those before it are taken away.
proof fn lemma_digit_at(value: nat, n: nat, i: int)
    requires
        0 <= i < n,
    ensures
        digits(value, n).len() == n,
        pow(16, (n - 1 - i) as nat) > 0,
        digits(value, n)[i] == (value as int / pow(16, (n - 1 - i) as nat)) % 16,
    decreases n,
{
    lemma_digits(value, n);
    let k = (n - 1 - i) as nat;
    lemma_pow_positive(16, k);
    if k == 0 {
        lemma_pow0(16);
    } else {
        lemma_digit_at(value / 16, (n - 1) as nat, i);
        let m = (k - 1) as nat;
        lemma_pow_positive(16, m);
        assert(pow(16, k) == 16 * pow(16, m)) by {
            reveal(pow);
        }
        vstd::arithmetic::div_mod::lemma_div_denominator(value as int, 16, pow(16, m));
        assert(digits(value, n)[i] == digits(value / 16, (n - 1) as nat)[i]);
    }
}

/// An id is written with 32 digits in groups of 8, 4, 4, 4 and 12 with hyphens between them: each
/// digit stands for four bits of the number, the highest first, and is one of `0` to `9` and `a` to
/// `f`.
pub proof fn law_an_id_is_written_in_hexadecimal_groups(id: ThreadId, place: int)
    requires
        0 <= place < 36,
    ensures
        id.text().len() == 36,
        place == 8 || place == 13 || place == 18 || place == 23 ==> id.text()[place] == '-',
        !(place == 8 || place == 13 || place == 18 || place == 23) ==> {
            let behind = if place < 8 {
                31 - place
            } else if place < 13 {
                32 - place
            } else if place < 18 {
                33 - place
            } else if place < 23 {
                34 - place
            } else {
                35 - place
            };
            let digit = (id.value as int / pow(16, behind as nat)) % 16;
            id.text()[place] == "0123456789abcdef"@[digit]
        },
{
    reveal_strlit("0123456789abcdef");
    if !is_hyphen_place(place) {
        lemma_digit_at(id.value as nat, 32, digit_index(place));
    }
}

proof fn lemma_digits_of_value(s: Seq<nat>)
    requires
        forall|i: int| 0 <= i < s.len() ==> #[trigger] s[i] < 16,
    ensures
        digits_value(s) < power_of_16(s.len()),
        digits(digits_value(s), s.len()) == s,
    decreases s.len(),
{
    if s.len() == 0 {
        assert(digits(digits_value(s), 0) =~= s);
    } else {
        let front = s.drop_last();
        lemma_digits_of_value(front);
        assert(digits_value(s) / 16 == digits_value(front));
        assert(digits_value(s) % 16 == s.last());
        assert(digits(digits_value(s), s.len()) =~= front.push(s.last()));
        assert(front.push(s.last()) =~= s);
    }
}

/// What can be read is what is written with hyphens at their places and digits everywhere else, in
/// either letter case; and writing what was read gives the same text back, in lower case.
pub proof fn law_writing_undoes_reading(text: Seq<char>)
    ensures
        is_hyphenated(text) <==> text.len() == 36 && forall|place: int|
            0 <= place < 36 ==> if place == 8 || place == 13 || place == 18 || place == 23 {
                #[trigger] text[place] == '-'
            } else {
                '0' <= text[place] <= '9' || 'a' <= text[place] <= 'f' || 'A' <= text[place] <= 'F'
            },
        is_hyphenated(text) ==> {
            let value = digits_value(hyphenated_digits(text));
            let written = ThreadId { value: value as u128 }.text();
            &&& value <= u128::MAX
            &&& forall|place: int|
                0 <= place < 36 ==> if 'A' <= text[place] <= 'F' {
                    #[trigger] written[place] as u32 == text[place] as u32 + 32
                } else {
                    written[place] == text[place]
                }
        },
{
    if is_hyphenated(text) {
        let all = hyphenated_digits(text);
        assert forall|index: int| 0 <= index < 32 implies #[trigger] all[index] < 16 by {
            assert(!is_hyphen_place(digit_place(index)));
            assert(char_digit(text[digit_place(index)]) is Some);
        }
        lemma_digits_of_value(all);
        lemma_power_31();
        let written = ThreadId { value: digits_value(all) as u128 }.text();
        assert forall|place: int| 0 <= place < 36 implies if 'A' <= text[place] <= 'F' {
            #[trigger] written[place] as u32 == text[place] as u32 + 32
        } else {
            written[place] == text[place]
        } by {
            if !is_hyphen_place(place) {
                assert(digit_place(digit_index(place)) == place);
                assert(all[digit_index(place)] == char_digit(text[place])->0);
                assert(char_digit(text[place]) is Some);
            }
        }
    }
}

/// Two ids that are written alike are the same.
pub proof fn law_written_form_is_unique(a: ThreadId, b: ThreadId)
    ensures
        a.text() == b.text() <==> a == b,
{
    law_reading_undoes_writing(a);
    law_reading_undoes_writing(b);
}

/// The first digit in which two numbers differ, the smaller number having the smaller digit.
proof fn lemma_first_differing_digit(a: nat, b: nat, n: nat) -> (i: int)
    requires
        a < b < power_of_16(n),
    ensures
        0 <= i < n,
        digits(a, n).take(i) == digits(b, n).take(i),
        digits(a, n)[i] < digits(b, n)[i],
    decreases n,
{
    lemma_digits(a, n);
    lemma_digits(b, n);
    let m = (n - 1) as nat;
    lemma_digits(a / 16, m);
    lemma_digits(b / 16, m);
    if a / 16 < b / 16 {
        let i = lemma_first_differing_digit(a / 16, b / 16, m);
        assert(digits(a, n).take(i) =~= digits(a / 16, m).take(i));
        assert(digits(b, n).take(i) =~= digits(b / 16, m).take(i));
        i
    } else {
        assert(digits(a, n).take(m as int) =~= digits(a / 16, m));
        assert(digits(b, n).take(m as int) =~= digits(b / 16, m));
        m as int
    }
}

proof fn lemma_smaller_number_is_written_smaller(a: ThreadId, b: ThreadId)
    requires
        a.value < b.value,
    ensures
        string_less(a.text(), b.text()),
{
    lemma_power_31();
    lemma_digits(a.value as nat, 32);
    lemma_digits(b.value as nat, 32);
    let index = lemma_first_differing_digit(a.value as nat, b.value as nat, 32);
    let place = digit_place(index);
    assert(!is_hyphen_place(place) && digit_index(place) == index);
    assert forall|p: int| 0 <= p < place implies a.text()[p] == b.text()[p] by {
        if !is_hyphen_place(p) {
            let i = digit_index(p);
            assert(digits(a.value as nat, 32).take(index)[i] == digits(b.value as nat, 32).take(
                index,
            )[i]);
        }
    }
    assert(a.text().take(place) =~= b.text().take(place));
    assert(parts_below(a.text(), b.text(), place));
}

/// The order of the written forms is the order of the numbers.
pub proof fn law_written_order_is_number_order(a: ThreadId, b: ThreadId)
    ensures
        string_less(a.text(), b.text()) <==> a.value < b.value,
{
    if a.value < b.value {
        lemma_smaller_number_is_written_smaller(a, b);
    } else if string_less(a.text(), b.text()) {
        if b.value < a.value {
            lemma_smaller_number_is_written_smaller(b, a);
        }
        lemma_string_less_is_strict(a.text(), b.text());
    }
}

} // verus!
