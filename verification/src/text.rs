//! Character sequences: white space, trimming, and the order of strings.

use vstd::prelude::*;

verus! {

/// The characters with the Unicode property `White_Space`.
pub open spec fn is_white_space(c: char) -> bool {
    let code = c as u32;
    ||| 0x9 <= code <= 0xD
    ||| code == 0x20
    ||| code == 0x85
    ||| code == 0xA0
    ||| code == 0x1680
    ||| 0x2000 <= code <= 0x200A
    ||| code == 0x2028
    ||| code == 0x2029
    ||| code == 0x202F
    ||| code == 0x205F
    ||| code == 0x3000
}

/// `text` without the white space at its two ends.
pub open spec fn trimmed(text: Seq<char>) -> Seq<char>
    decreases text.len(),
{
    if text.len() == 0 {
        text
    } else if is_white_space(text.first()) {
        trimmed(text.drop_first())
    } else if is_white_space(text.last()) {
        trimmed(text.drop_last())
    } else {
        text
    }
}

/// Nothing but white space.
pub open spec fn is_blank(text: Seq<char>) -> bool {
    forall|i: int| 0 <= i < text.len() ==> is_white_space(#[trigger] text[i])
}

/// At `i` the two strings part for the first time, and `a` is the smaller there: it has ended, or
/// its character has the smaller code.
pub open spec fn parts_below(a: Seq<char>, b: Seq<char>, i: int) -> bool {
    &&& 0 <= i <= a.len()
    &&& i < b.len()
    &&& a.take(i) == b.take(i)
    &&& i == a.len() || (a[i] as u32) < (b[i] as u32)
}

/// The lexicographic order of strings.
pub open spec fn string_less(a: Seq<char>, b: Seq<char>) -> bool {
    exists|i: int| parts_below(a, b, i)
}

/// `str::trim` gives the string without its leading and trailing white space, where white space is
/// what has the Unicode property `White_Space`.
pub assume_specification[ str::trim ](text: &str) -> (inner: &str)
    ensures
        inner@ == trimmed(text@),
;

/// `String::push` appends one character.
pub assume_specification[ String::push ](text: &mut String, c: char)
    ensures
        final(text)@ == old(text)@.push(c),
;

/// `String::push_str` appends a string.
pub assume_specification[ String::push_str ](text: &mut String, other: &str)
    ensures
        final(text)@ == old(text)@ + other@,
;

/// `String::pop` removes the last character and returns it, or returns `None` from an empty string.
pub assume_specification[ String::pop ](text: &mut String) -> (last: Option<char>)
    ensures
        old(text)@.len() == 0 ==> last is None && final(text)@ == old(text)@,
        old(text)@.len() > 0 ==> last == Some(old(text)@.last()) && final(text)@
            == old(text)@.drop_last(),
;

/// Whether a line holds nothing but white space.
pub fn is_blank_line(line: &str) -> (blank: bool)
    ensures
        blank == is_blank(line@),
{
    proof {
        lemma_blank_iff_nothing_left(line@);
    }
    line.trim().is_empty()
}

/// What trimming leaves neither starts nor ends with white space.
pub proof fn lemma_trimmed_ends(text: Seq<char>)
    ensures
        trimmed(text).len() > 0 ==> !is_white_space(trimmed(text).first()),
        trimmed(text).len() > 0 ==> !is_white_space(trimmed(text).last()),
    decreases text.len(),
{
    if text.len() > 0 {
        if is_white_space(text.first()) {
            lemma_trimmed_ends(text.drop_first());
        } else if is_white_space(text.last()) {
            lemma_trimmed_ends(text.drop_last());
        }
    }
}

/// A blank text is one of which trimming leaves nothing.
pub proof fn lemma_blank_iff_nothing_left(text: Seq<char>)
    ensures
        is_blank(text) <==> trimmed(text).len() == 0,
    decreases text.len(),
{
    if text.len() > 0 {
        if is_white_space(text.first()) {
            let rest = text.drop_first();
            lemma_blank_iff_nothing_left(rest);
            assert forall|i: int| 0 <= i < rest.len() && is_blank(text) implies is_white_space(
                #[trigger] rest[i],
            ) by {
                assert(rest[i] == text[i + 1]);
            }
            assert forall|i: int| 0 <= i < text.len() && is_blank(rest) implies is_white_space(
                #[trigger] text[i],
            ) by {
                if i > 0 {
                    assert(text[i] == rest[i - 1]);
                }
            }
        } else {
            assert(!is_white_space(text[0]));
            assert(!is_blank(text));
            if is_white_space(text.last()) {
                let rest = text.drop_last();
                lemma_blank_iff_nothing_left(rest);
                assert(rest[0] == text[0]);
            }
        }
    }
}

/// No string is below itself, and of two strings at most one is below the other.
pub proof fn lemma_string_less_is_strict(a: Seq<char>, b: Seq<char>)
    ensures
        !(string_less(a, b) && string_less(b, a)),
        !string_less(a, a),
{
    if string_less(a, b) && string_less(b, a) {
        let i = choose|i: int| parts_below(a, b, i);
        let j = choose|j: int| parts_below(b, a, j);
        if i < j {
            assert(b.take(j)[i] == a.take(j)[i]);
        } else if j < i {
            assert(b.take(i)[j] == a.take(i)[j]);
        }
    }
}

/// Trimming leaves one stretch of the text: everything before it and behind it is white space, and
/// neither its first nor its last character is.
pub proof fn law_trimming_takes_white_space_off_the_ends(text: Seq<char>) -> (ends: (int, int))
    ensures
        0 <= ends.0 <= ends.1 <= text.len(),
        trimmed(text) == text.subrange(ends.0, ends.1),
        forall|i: int|
            0 <= i < ends.0 || ends.1 <= i < text.len() ==> is_white_space(#[trigger] text[i]),
        ends.0 < ends.1 ==> !is_white_space(text[ends.0]) && !is_white_space(text[ends.1 - 1]),
    decreases text.len(),
{
    if text.len() == 0 {
        (0, 0)
    } else if is_white_space(text.first()) {
        let rest = text.drop_first();
        let (start, end) = law_trimming_takes_white_space_off_the_ends(rest);
        assert(text.subrange(start + 1, end + 1) =~= rest.subrange(start, end));
        assert forall|i: int|
            0 <= i < start + 1 || end + 1 <= i < text.len() implies is_white_space(
            #[trigger] text[i],
        ) by {
            if i > 0 {
                assert(rest[i - 1] == text[i]);
            }
        }
        (start + 1, end + 1)
    } else if is_white_space(text.last()) {
        let rest = text.drop_last();
        let (start, end) = law_trimming_takes_white_space_off_the_ends(rest);
        assert(text.subrange(start, end) =~= rest.subrange(start, end));
        assert forall|i: int| 0 <= i < start || end <= i < text.len() implies is_white_space(
            #[trigger] text[i],
        ) by {
            if i < rest.len() {
                assert(rest[i] == text[i]);
            }
        }
        (start, end)
    } else {
        assert(text.subrange(0, text.len() as int) =~= text);
        (0, text.len() as int)
    }
}

/// White space around a text that neither starts nor ends with it is what trimming takes off,
/// whatever the text holds.
pub proof fn law_trimming_keeps_what_is_inside(
    before: Seq<char>,
    inner: Seq<char>,
    after: Seq<char>,
)
    requires
        forall|i: int| 0 <= i < before.len() ==> is_white_space(#[trigger] before[i]),
        forall|i: int| 0 <= i < after.len() ==> is_white_space(#[trigger] after[i]),
        inner.len() > 0,
        !is_white_space(inner.first()),
        !is_white_space(inner.last()),
    ensures
        trimmed(before + inner + after) == inner,
{
    let text = before + inner + after;
    let (start, end) = law_trimming_takes_white_space_off_the_ends(text);
    let first = before.len() as int;
    let last = before.len() + inner.len() - 1;
    assert(text[first] == inner.first());
    assert(text[last] == inner.last());
    assert(start <= first && last < end);
    if start < first {
        assert(text[start] == before[start]);
    }
    if end - 1 > last {
        assert(text[end - 1] == after[end - 1 - before.len() - inner.len()]);
    }
    assert(text.subrange(start, end) =~= inner);
}

/// A text is blank if nothing in it is anything but white space; one character that is not makes the
/// difference.
pub proof fn law_one_character_makes_a_text_not_blank(text: Seq<char>)
    ensures
        is_blank(text) <==> !exists|i: int|
            0 <= i < text.len() && !is_white_space(#[trigger] text[i]),
        is_blank(text) <==> trimmed(text).len() == 0,
{
    lemma_blank_iff_nothing_left(text);
}

/// White space is what Unicode lists as such: no other character is taken for it.
pub proof fn law_white_space_is_what_unicode_lists(c: char)
    ensures
        is_white_space(c) <==> {
            ||| '\t' <= c <= '\r'
            ||| '\u{2000}' <= c <= '\u{200A}'
            ||| seq![
                ' ',
                '\u{85}',
                '\u{A0}',
                '\u{1680}',
                '\u{2028}',
                '\u{2029}',
                '\u{202F}',
                '\u{205F}',
                '\u{3000}',
            ].contains(c)
        },
{
    let others = seq![
        ' ',
        '\u{85}',
        '\u{A0}',
        '\u{1680}',
        '\u{2028}',
        '\u{2029}',
        '\u{202F}',
        '\u{205F}',
        '\u{3000}',
    ];
    assert(others[0] == ' ' && others[1] == '\u{85}' && others[2] == '\u{A0}' && others[3]
        == '\u{1680}' && others[4] == '\u{2028}' && others[5] == '\u{2029}' && others[6]
        == '\u{202F}' && others[7] == '\u{205F}' && others[8] == '\u{3000}');
}

/// Trimming twice is trimming once.
pub proof fn law_trimming_twice_is_trimming_once(text: Seq<char>)
    ensures
        trimmed(trimmed(text)) == trimmed(text),
{
    lemma_trimmed_ends(text);
}

} // verus!
