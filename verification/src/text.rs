//! Text as the server compares and rewrites it.

use vstd::prelude::*;
use vstd::string::*;
use vstd::utf8::{decode_utf8, is_ascii_chars, valid_utf8};

verus! {

/// The text of an optional string.
pub open spec fn text_of(text: Option<String>) -> Option<Seq<char>> {
    match text {
        Some(text) => Some(text@),
        None => None,
    }
}

/// The texts of some strings.
pub open spec fn texts(strings: Seq<String>) -> Seq<Seq<char>> {
    strings.map_values(|string: String| string@)
}

/// `c` with the ASCII letters `A` to `Z` made small.
pub open spec fn ascii_lower(c: char) -> char {
    if 'A' <= c <= 'Z' {
        (c as u32 + 32) as char
    } else {
        c
    }
}

/// `c` with the ASCII letters `a` to `z` made capital.
pub open spec fn ascii_upper(c: char) -> char {
    if 'a' <= c <= 'z' {
        (c as u32 - 32) as char
    } else {
        c
    }
}

/// `text` with its ASCII letters made small.
pub open spec fn ascii_lowered(text: Seq<char>) -> Seq<char> {
    text.map_values(|c: char| ascii_lower(c))
}

/// `text` with its ASCII letters made capital.
pub open spec fn ascii_uppered(text: Seq<char>) -> Seq<char> {
    text.map_values(|c: char| ascii_upper(c))
}

/// `a` and `b` differ at most in the case of ASCII letters.
pub open spec fn same_but_for_ascii_case(a: Seq<char>, b: Seq<char>) -> bool {
    ascii_lowered(a) == ascii_lowered(b)
}

/// How the lowercase equivalent of a text starts, as Unicode has it: what comes
/// of all that stands before its last characters that are ASCII.
pub uninterp spec fn unicode_lowercase_front(text: Seq<char>) -> Seq<char>;

/// The uppercase equivalent of a text, as Unicode has it.
pub uninterp spec fn unicode_uppercase(text: Seq<char>) -> Seq<char>;

/// The uppercase mapping of one character, as Unicode has it.
pub uninterp spec fn unicode_char_uppercase(c: char) -> Seq<char>;

/// Unicode gives `c` the property `Lowercase`.
pub uninterp spec fn unicode_is_lowercase(c: char) -> bool;

/// Unicode gives `c` the property `Uppercase`.
pub uninterp spec fn unicode_is_uppercase(c: char) -> bool;

/// The last characters of `text`, as far as they are ASCII.
pub open spec fn ascii_end(text: Seq<char>) -> Seq<char>
    decreases text.len(),
{
    if text.len() == 0 || text.last() > '\u{7f}' {
        Seq::empty()
    } else {
        ascii_end(text.drop_last()).push(text.last())
    }
}

/// `text` in lowercase. Its last characters that are ASCII are made small in
/// their places.
pub open spec fn lowered(text: Seq<char>) -> Seq<char> {
    if is_ascii_chars(text) {
        ascii_lowered(text)
    } else {
        unicode_lowercase_front(text) + ascii_lowered(ascii_end(text))
    }
}

/// `text` in uppercase.
pub open spec fn uppered(text: Seq<char>) -> Seq<char> {
    if is_ascii_chars(text) {
        ascii_uppered(text)
    } else {
        unicode_uppercase(text)
    }
}

/// `c` in uppercase, which may take more than one character.
pub open spec fn char_uppered(c: char) -> Seq<char> {
    if c <= '\u{7f}' {
        seq![ascii_upper(c)]
    } else {
        unicode_char_uppercase(c)
    }
}

/// `c` is a small letter.
pub open spec fn char_is_lower(c: char) -> bool {
    if c <= '\u{7f}' {
        'a' <= c <= 'z'
    } else {
        unicode_is_lowercase(c)
    }
}

/// `c` is a capital letter.
pub open spec fn char_is_upper(c: char) -> bool {
    if c <= '\u{7f}' {
        'A' <= c <= 'Z'
    } else {
        unicode_is_uppercase(c)
    }
}

/// Calls `str::to_lowercase`: the lowercase equivalent of `text`, which for
/// ASCII text is the text with its letters made small. So are the ASCII letters
/// at the end of any text; what comes of the text before them is only named.
#[verifier::external_body]
pub(crate) fn to_lowercase(text: &str) -> (lower: String)
    ensures
        is_ascii_chars(text@) ==> lower@ == ascii_lowered(text@),
        !is_ascii_chars(text@) ==> lower@ == unicode_lowercase_front(text@) + ascii_lowered(
            ascii_end(text@),
        ),
{
    text.to_lowercase()
}

/// Calls `str::to_uppercase`: the uppercase equivalent of `text`, which for
/// ASCII text is the text with its letters made capital.
#[verifier::external_body]
pub(crate) fn to_uppercase(text: &str) -> (upper: String)
    ensures
        is_ascii_chars(text@) ==> upper@ == ascii_uppered(text@),
        !is_ascii_chars(text@) ==> upper@ == unicode_uppercase(text@),
{
    text.to_uppercase()
}

/// Calls `char::to_uppercase`: the uppercase mapping of `c`, which for an ASCII
/// character is that character with a small letter made capital.
#[verifier::external_body]
pub(crate) fn char_to_uppercase(c: char) -> (upper: String)
    ensures
        c <= '\u{7f}' ==> upper@ == seq![ascii_upper(c)],
        c > '\u{7f}' ==> upper@ == unicode_char_uppercase(c),
{
    c.to_uppercase().to_string()
}

/// `char::is_lowercase` tells whether Unicode gives `c` the property
/// `Lowercase`; among ASCII characters the letters `a` to `z` have it.
pub assume_specification[ char::is_lowercase ](c: char) -> (lower: bool)
    ensures
        c <= '\u{7f}' ==> lower == ('a' <= c <= 'z'),
        c > '\u{7f}' ==> lower == unicode_is_lowercase(c),
;

/// `char::is_uppercase` tells whether Unicode gives `c` the property
/// `Uppercase`; among ASCII characters the letters `A` to `Z` have it.
pub assume_specification[ char::is_uppercase ](c: char) -> (upper: bool)
    ensures
        c <= '\u{7f}' ==> upper == ('A' <= c <= 'Z'),
        c > '\u{7f}' ==> upper == unicode_is_uppercase(c),
;

/// `String::push` appends `c` to the end of `text`.
pub assume_specification[ String::push ](text: &mut String, c: char)
    ensures
        final(text)@ == old(text)@.push(c),
;

/// Calls `String::from_utf8`: the text that `bytes` encode, or nothing where
/// they are not valid UTF-8.
#[verifier::external_body]
pub(crate) fn text_from_utf8(bytes: Vec<u8>) -> (text: Option<String>)
    ensures
        match text {
            Some(text) => valid_utf8(bytes@) && text@ == decode_utf8(bytes@),
            None => !valid_utf8(bytes@),
        },
{
    String::from_utf8(bytes).ok()
}

/// The characters of `text`.
pub(crate) fn chars_of(text: &str) -> (chars: Vec<char>)
    ensures
        chars@ == text@,
{
    let mut chars: Vec<char> = Vec::new();
    for c in iter: text.chars()
        invariant
            chars@.len() == iter.index(),
            forall|i: int| 0 <= i < chars@.len() ==> chars@[i] == iter.seq()[i],
            iter.seq() == text@,
    {
        chars.push(c);
    }
    assert(chars@ =~= text@);
    chars
}

/// `a` and `b` are the same text.
pub(crate) fn same_text(a: &str, b: &str) -> (same: bool)
    ensures
        same == (a@ == b@),
{
    a.to_owned() == b.to_owned()
}

/// The two texts have the same characters from `from_a` and `from_b` on, `n` of
/// them.
fn same_run(a: &Vec<char>, from_a: usize, b: &Vec<char>, from_b: usize, n: usize) -> (same: bool)
    requires
        from_a + n <= a@.len(),
        from_b + n <= b@.len(),
    ensures
        same == (a@.subrange(from_a as int, from_a + n) == b@.subrange(
            from_b as int,
            from_b + n,
        )),
{
    let mut i: usize = 0;
    while i < n
        invariant
            i <= n,
            from_a + n <= a.len(),
            from_b + n <= b.len(),
            a@.subrange(from_a as int, from_a + i) == b@.subrange(from_b as int, from_b + i),
        decreases n - i,
    {
        if a[from_a + i] != b[from_b + i] {
            assert(a@.subrange(from_a as int, from_a + n)[i as int] != b@.subrange(
                from_b as int,
                from_b + n,
            )[i as int]);
            return false;
        }
        assert(a@.subrange(from_a as int, from_a + i + 1) =~= a@.subrange(
            from_a as int,
            from_a + i,
        ).push(a@[from_a + i]));
        assert(b@.subrange(from_b as int, from_b + i + 1) =~= b@.subrange(
            from_b as int,
            from_b + i,
        ).push(b@[from_b + i]));
        i += 1;
    }
    true
}

/// `text` ends with `suffix`.
pub(crate) fn ends_with(text: &str, suffix: &str) -> (ends: bool)
    ensures
        ends == suffix@.is_suffix_of(text@),
{
    let chars: Vec<char> = chars_of(text);
    let tail: Vec<char> = chars_of(suffix);
    if tail.len() > chars.len() {
        return false;
    }
    assert(tail@.subrange(0, tail@.len() as int) =~= tail@);
    same_run(&chars, chars.len() - tail.len(), &tail, 0, tail.len())
}

/// The code of `c` with the ASCII letters `A` to `Z` made small.
fn ascii_lower_code(c: char) -> (code: u32)
    ensures
        code == ascii_lower(c) as u32,
{
    let code: u32 = c as u32;
    if 'A' <= c && c <= 'Z' {
        code + 32
    } else {
        code
    }
}

/// `a` and `b` differ at most in the case of ASCII letters.
pub(crate) fn eq_ignore_ascii_case(a: &str, b: &str) -> (same: bool)
    ensures
        same == same_but_for_ascii_case(a@, b@),
{
    let left: Vec<char> = chars_of(a);
    let right: Vec<char> = chars_of(b);
    if left.len() != right.len() {
        assert(ascii_lowered(a@).len() != ascii_lowered(b@).len());
        return false;
    }
    let mut i: usize = 0;
    while i < left.len()
        invariant
            i <= left@.len(),
            left@ == a@,
            right@ == b@,
            left@.len() == right@.len(),
            forall|k: int| 0 <= k < i ==> ascii_lower(left@[k]) == ascii_lower(right@[k]),
        decreases left@.len() - i,
    {
        if ascii_lower_code(left[i]) != ascii_lower_code(right[i]) {
            assert(ascii_lowered(a@)[i as int] != ascii_lowered(b@)[i as int]);
            return false;
        }
        i += 1;
    }
    assert(ascii_lowered(a@) =~= ascii_lowered(b@));
    true
}

/// `text` without the occurrences of `pattern`, which are looked for from left
/// to right and do not overlap.
pub open spec fn removed(text: Seq<char>, pattern: Seq<char>) -> Seq<char>
    decreases text.len(),
{
    if pattern.len() == 0 || text.len() < pattern.len() {
        text
    } else if pattern.is_prefix_of(text) {
        removed(text.skip(pattern.len() as int), pattern)
    } else {
        seq![text[0]] + removed(text.skip(1), pattern)
    }
}

/// `text` without the occurrences of `pattern`.
pub(crate) fn remove_all(text: &str, pattern: &str) -> (rest: String)
    requires
        pattern@.len() > 0,
    ensures
        rest@ == removed(text@, pattern@),
{
    let chars: Vec<char> = chars_of(text);
    let wanted: Vec<char> = chars_of(pattern);
    let mut rest: String = String::new();
    let mut i: usize = 0;
    assert(chars@.skip(0) =~= chars@);
    while wanted.len() <= chars.len() - i
        invariant
            i <= chars@.len(),
            wanted@.len() > 0,
            rest@ + removed(chars@.skip(i as int), wanted@) == removed(chars@, wanted@),
        decreases chars@.len() - i,
    {
        let ghost tail = chars@.skip(i as int);
        let ghost before = rest@;
        assert(wanted@.is_prefix_of(tail) == (chars@.subrange(i as int, i + wanted@.len())
            == wanted@)) by {
            assert(chars@.subrange(i as int, i + wanted@.len()) =~= tail.subrange(
                0,
                wanted@.len() as int,
            ));
        }
        assert(wanted@.subrange(0, wanted@.len() as int) =~= wanted@);
        if same_run(&chars, i, &wanted, 0, wanted.len()) {
            assert(tail.skip(wanted@.len() as int) =~= chars@.skip(i + wanted@.len()));
            i += wanted.len();
        } else {
            rest.push(chars[i]);
            assert(tail.skip(1) =~= chars@.skip(i + 1));
            assert(before + (seq![tail[0]] + removed(tail.skip(1), wanted@)) =~= rest@ + removed(
                tail.skip(1),
                wanted@,
            ));
            i += 1;
        }
    }
    while i < chars.len()
        invariant
            i <= chars@.len(),
            chars@.len() - i < wanted@.len(),
            rest@ + chars@.skip(i as int) == removed(chars@, wanted@),
        decreases chars@.len() - i,
    {
        let ghost before = rest@;
        rest.push(chars[i]);
        assert(before + chars@.skip(i as int) =~= rest@ + chars@.skip(i + 1));
        i += 1;
    }
    assert(rest@ + chars@.skip(i as int) =~= rest@);
    rest
}

/// The decimal digits of `n`.
pub open spec fn decimal(n: nat) -> Seq<char>
    decreases n,
{
    if n < 10 {
        seq![digit(n)]
    } else {
        decimal(n / 10).push(digit(n % 10))
    }
}

/// The digit for `n`.
pub open spec fn digit(n: nat) -> char
    recommends
        n < 10,
{
    (n + 48) as char
}

/// The decimal digits of `n`.
pub(crate) fn decimal_text(n: u64) -> (text: String)
    ensures
        text@ == decimal(n as nat),
    decreases n,
{
    let last: char = (48 + (n % 10) as u8) as char;
    assert(last == digit((n % 10) as nat));
    let mut text: String = if n < 10 {
        String::new()
    } else {
        decimal_text(n / 10)
    };
    text.push(last);
    assert(n < 10 ==> text@ =~= decimal(n as nat));
    text
}

/// The characters at the end of a text that are ASCII come out small at the end
/// of its lowercase equivalent.
pub(crate) proof fn lemma_lowered_end(text: Seq<char>, end: Seq<char>)
    requires
        end.is_suffix_of(text),
        is_ascii_chars(end),
    ensures
        ascii_lowered(end).is_suffix_of(lowered(text)),
{
    let whole = if is_ascii_chars(text) {
        text
    } else {
        ascii_end(text)
    };
    if !is_ascii_chars(text) {
        lemma_ascii_end(text, end.len());
    }
    assert(end.is_suffix_of(whole));
    let lower = ascii_lowered(whole);
    assert(lower.subrange(lower.len() - end.len(), lower.len() as int) =~= ascii_lowered(end)) by {
        assert forall|i: int| 0 <= i < end.len() implies whole[whole.len() - end.len() + i]
            == #[trigger] end[i] by {
            assert(whole.subrange(whole.len() - end.len(), whole.len() as int)[i] == end[i]);
        }
    }
    let all = lowered(text);
    assert(all.subrange(all.len() - end.len(), all.len() as int) =~= ascii_lowered(end));
}

/// The last characters that are ASCII are at least those that are known to be.
proof fn lemma_ascii_end(text: Seq<char>, n: nat)
    requires
        n <= text.len(),
        is_ascii_chars(text.skip(text.len() - n)),
    ensures
        n <= ascii_end(text).len() <= text.len(),
        text.skip(text.len() - n).is_suffix_of(ascii_end(text)),
    decreases text.len(),
{
    let end = text.skip(text.len() - n);
    if text.len() > 0 && text.last() <= '\u{7f}' {
        let before = text.drop_last();
        let fewer = if n > 0 {
            (n - 1) as nat
        } else {
            0
        };
        assert forall|i: int| 0 <= i < before.skip(before.len() - fewer).len() implies '\0'
            <= #[trigger] before.skip(before.len() - fewer)[i] <= '\u{7f}' by {
            assert(before.skip(before.len() - fewer)[i] == end[i]);
        }
        lemma_ascii_end(before, fewer);
        let tail = ascii_end(text);
        let inner = ascii_end(before);
        assert(tail.subrange(tail.len() - n, tail.len() as int) =~= end) by {
            let known = inner.subrange(inner.len() - fewer, inner.len() as int);
            assert(known =~= before.skip(before.len() - fewer));
            assert forall|i: int| 0 <= i < n implies tail[tail.len() - n + i]
                == #[trigger] end[i] by {
                if i < n - 1 {
                    assert(known[i] == before.skip(before.len() - fewer)[i]);
                }
            }
        }
    } else {
        if n > 0 {
            assert(end[n - 1] == text.last());
        }
        assert(ascii_end(text).subrange(0, 0) =~= end);
    }
}

/// What is left after a removal was there before.
pub(crate) proof fn lemma_removed_is_part(text: Seq<char>, pattern: Seq<char>, c: char)
    ensures
        removed(text, pattern).contains(c) ==> text.contains(c),
    decreases text.len(),
{
    let rest = removed(text, pattern);
    if pattern.len() > 0 && text.len() >= pattern.len() && rest.contains(c) {
        let i = choose|i: int| 0 <= i < rest.len() && rest[i] == c;
        if pattern.is_prefix_of(text) {
            let tail = text.skip(pattern.len() as int);
            lemma_removed_is_part(tail, pattern, c);
            let k = choose|k: int| 0 <= k < tail.len() && tail[k] == c;
            assert(text[k + pattern.len()] == c);
        } else {
            let tail = text.skip(1);
            lemma_removed_is_part(tail, pattern, c);
            if i == 0 {
                assert(text[0] == c);
            } else {
                assert(removed(tail, pattern)[i - 1] == c);
                let k = choose|k: int| 0 <= k < tail.len() && tail[k] == c;
                assert(text[k + 1] == c);
            }
        }
    }
}

/// A single character that is removed is gone.
pub(crate) proof fn lemma_removed_is_gone(text: Seq<char>, c: char)
    ensures
        !removed(text, seq![c]).contains(c),
    decreases text.len(),
{
    let pattern = seq![c];
    let rest = removed(text, pattern);
    if text.len() > 0 {
        let tail = text.skip(1);
        lemma_removed_is_gone(tail, c);
        if text[0] == c {
            assert(text.subrange(0, 1) =~= pattern);
        } else {
            assert(text.subrange(0, 1)[0] != pattern[0]);
            if rest.contains(c) {
                let i = choose|i: int| 0 <= i < rest.len() && rest[i] == c;
                assert(removed(tail, pattern)[i - 1] == c);
            }
        }
    }
}

/// Removing what does not occur changes nothing.
pub(crate) proof fn lemma_removed_of_nothing(text: Seq<char>, pattern: Seq<char>)
    requires
        pattern.len() > 0,
        !text.contains(pattern[0]),
    ensures
        removed(text, pattern) == text,
    decreases text.len(),
{
    if text.len() >= pattern.len() {
        let tail = text.skip(1);
        if tail.contains(pattern[0]) {
            let k = choose|k: int| 0 <= k < tail.len() && tail[k] == pattern[0];
            assert(text[k + 1] == pattern[0]);
        }
        if pattern.is_prefix_of(text) {
            assert(text.subrange(0, pattern.len() as int)[0] == pattern[0]);
            assert(text[0] == pattern[0]);
        }
        lemma_removed_of_nothing(tail, pattern);
        assert(seq![text[0]] + tail =~= text);
    }
}

/// Removing a character from a text that only ends in it leaves the text before.
pub(crate) proof fn lemma_removed_tail(text: Seq<char>, c: char, n: nat)
    requires
        !text.contains(c),
    ensures
        removed(text + Seq::new(n, |i: int| c), seq![c]) == text,
    decreases text.len() + n,
{
    let pattern = seq![c];
    let all = text + Seq::new(n, |i: int| c);
    if text.len() > 0 {
        let tail = text.skip(1);
        if tail.contains(c) {
            let k = choose|k: int| 0 <= k < tail.len() && tail[k] == c;
            assert(text[k + 1] == c);
        }
        assert(text.contains(text[0]));
        assert(all.subrange(0, 1)[0] != pattern[0]);
        assert(all.skip(1) =~= tail + Seq::new(n, |i: int| c));
        lemma_removed_tail(tail, c, n);
        assert(seq![text[0]] + tail =~= text);
    } else if n > 0 {
        let fewer = (n - 1) as nat;
        assert(all.subrange(0, 1) =~= pattern);
        assert(all.skip(1) =~= text + Seq::new(fewer, |i: int| c));
        lemma_removed_tail(text, c, fewer);
    } else {
        assert(all =~= text);
    }
}

/// Removing a character goes on character by character.
proof fn lemma_removed_step(first: char, rest: Seq<char>, c: char)
    ensures
        removed(seq![first] + rest, seq![c]) == (if first == c {
            removed(rest, seq![c])
        } else {
            seq![first] + removed(rest, seq![c])
        }),
{
    let all = seq![first] + rest;
    assert(all.skip(1) =~= rest);
    if first == c {
        assert(all.subrange(0, 1) =~= seq![c]);
    } else {
        assert(all.subrange(0, 1)[0] != seq![c][0]);
    }
}

/// Of two texts put together a character is removed from each.
pub(crate) proof fn lemma_removed_of_sum(a: Seq<char>, b: Seq<char>, c: char)
    ensures
        removed(a + b, seq![c]) == removed(a, seq![c]) + removed(b, seq![c]),
    decreases a.len(),
{
    if a.len() == 0 {
        assert(a + b =~= b);
        assert(removed(a, seq![c]) + removed(b, seq![c]) =~= removed(b, seq![c]));
    } else {
        let tail = a.skip(1);
        lemma_removed_of_sum(tail, b, c);
        lemma_removed_step(a[0], tail, c);
        lemma_removed_step(a[0], tail + b, c);
        assert(seq![a[0]] + tail =~= a);
        assert(seq![a[0]] + (tail + b) =~= a + b);
        assert(removed(a + b, seq![c]) =~= removed(a, seq![c]) + removed(b, seq![c]));
    }
}

/// Removing two characters one after the other leaves all others.
pub(crate) proof fn lemma_two_removed(text: Seq<char>, c: char, d: char)
    ensures
        removed(removed(text, seq![c]), seq![d]) == text.filter(|x: char| x != c && x != d),
    decreases text.len(),
{
    let other = |x: char| x != c && x != d;
    reveal_with_fuel(Seq::filter, 2);
    if text.len() > 0 {
        let first = text[0];
        let tail = text.skip(1);
        lemma_two_removed(tail, c, d);
        lemma_removed_step(first, tail, c);
        lemma_removed_step(first, removed(tail, seq![c]), d);
        assert(seq![first] + tail =~= text);
        Seq::filter_distributes_over_add(seq![first], tail, other);
        assert(seq![first].drop_last() =~= Seq::<char>::empty());
        assert(Seq::<char>::empty().filter(other) =~= Seq::<char>::empty());
        assert(seq![first].filter(other) =~= if other(first) {
            seq![first]
        } else {
            seq![]
        });
        assert(removed(removed(text, seq![c]), seq![d]) =~= text.filter(other));
    } else {
        assert(removed(removed(text, seq![c]), seq![d]) =~= text.filter(other));
    }
}

/// Removing what stands nowhere in a text changes nothing.
pub(crate) proof fn lemma_removed_of_absent(text: Seq<char>, pattern: Seq<char>)
    requires
        forall|i: int|
            0 <= i <= text.len() - pattern.len() ==> #[trigger] text.subrange(
                i,
                i + pattern.len(),
            ) != pattern,
    ensures
        removed(text, pattern) == text,
    decreases text.len(),
{
    if pattern.len() > 0 && text.len() >= pattern.len() {
        let tail = text.skip(1);
        assert(text.subrange(0, 0int + pattern.len()) != pattern);
        assert forall|i: int| 0 <= i <= tail.len() - pattern.len() implies #[trigger] tail.subrange(
            i,
            i + pattern.len(),
        ) != pattern by {
            assert(tail.subrange(i, i + pattern.len()) =~= text.subrange(
                i + 1,
                i + 1 + pattern.len(),
            ));
        }
        lemma_removed_of_absent(tail, pattern);
        assert(seq![text[0]] + tail =~= text);
    }
}

/// Around a pattern whose first character does not come again in it, what stands
/// before it and what stands behind it are looked through on their own.
pub(crate) proof fn lemma_removed_around(front: Seq<char>, pattern: Seq<char>, back: Seq<char>)
    requires
        pattern.len() > 0,
        forall|i: int| 0 < i < pattern.len() ==> #[trigger] pattern[i] != pattern[0],
    ensures
        removed(front + pattern + back, pattern) == removed(front, pattern) + removed(
            back,
            pattern,
        ),
    decreases front.len(),
{
    let all = front + pattern + back;
    let n = pattern.len() as int;
    if front.len() == 0 {
        assert(all.subrange(0, n) =~= pattern);
        assert(all.skip(n) =~= back);
        assert(removed(front, pattern) + removed(back, pattern) =~= removed(back, pattern));
    } else if pattern.is_prefix_of(all) {
        if front.len() < n {
            assert(all.subrange(0, n)[front.len() as int] == pattern[front.len() as int]);
            assert(all[front.len() as int] == pattern[0]);
        }
        assert(front.subrange(0, n) =~= all.subrange(0, n));
        assert(all.skip(n) =~= front.skip(n) + pattern + back);
        lemma_removed_around(front.skip(n), pattern, back);
    } else {
        let tail = front.skip(1);
        if front.len() >= n {
            assert(front.subrange(0, n) =~= all.subrange(0, n));
        } else {
            assert(seq![front[0]] + tail =~= front);
        }
        assert(all.skip(1) =~= tail + pattern + back);
        lemma_removed_around(tail, pattern, back);
        assert(removed(all, pattern) =~= removed(front, pattern) + removed(back, pattern));
    }
}

/// Of ASCII characters the letters `A` to `Z` are made small and `a` to `z`
/// capital, and each of these undoes the other; no other character changes.
pub proof fn law_letters_are_made_small_and_capital(c: char)
    ensures
        'A' <= c <= 'Z' ==> ascii_lower(c) as int == c as int + 32 && ascii_upper(c) == c
            && ascii_upper(ascii_lower(c)) == c,
        'a' <= c <= 'z' ==> ascii_upper(c) as int == c as int - 32 && ascii_lower(c) == c
            && ascii_lower(ascii_upper(c)) == c,
        !('A' <= c <= 'Z') && !('a' <= c <= 'z') ==> ascii_lower(c) == c && ascii_upper(c) == c,
{
}

/// One ASCII text ends with another but for letter case exactly if its last
/// characters are those of the other but for letter case.
pub proof fn law_an_end_is_told_by_its_letters(text: Seq<char>, end: Seq<char>)
    requires
        is_ascii_chars(text),
        is_ascii_chars(end),
    ensures
        lowered(end).is_suffix_of(lowered(text)) <==> end.len() <= text.len() && forall|i: int|
            0 <= i < end.len() ==> ascii_lower(#[trigger] end[i]) == ascii_lower(
                text[text.len() - end.len() + i],
            ),
        lowered(text).len() == text.len(),
        forall|i: int| 0 <= i < text.len() ==> #[trigger] lowered(text)[i] == ascii_lower(text[i]),
        uppered(text).len() == text.len(),
        forall|i: int| 0 <= i < text.len() ==> #[trigger] uppered(text)[i] == ascii_upper(text[i]),
{
    let low = lowered(text);
    let tail = lowered(end);
    if tail.is_suffix_of(low) {
        assert forall|i: int| 0 <= i < end.len() implies ascii_lower(#[trigger] end[i])
            == ascii_lower(text[text.len() - end.len() + i]) by {
            assert(low.subrange(low.len() - tail.len(), low.len() as int)[i] == tail[i]);
        }
    } else if end.len() <= text.len() && forall|i: int|
        0 <= i < end.len() ==> ascii_lower(#[trigger] end[i]) == ascii_lower(
            text[text.len() - end.len() + i],
        ) {
        assert forall|i: int| 0 <= i < tail.len() implies low.subrange(
            low.len() - tail.len(),
            low.len() as int,
        )[i] == #[trigger] tail[i] by {
            assert(ascii_lower(end[i]) == tail[i]);
        }
        assert(low.subrange(low.len() - tail.len(), low.len() as int) =~= tail);
    }
}

/// A number is written by its decimal digits, the last counting the ones, and without
/// zeros in front: so two numbers are written alike only if they are the same.
pub proof fn law_decimal_digits_tell_the_number(n: nat, other: nat)
    ensures
        decimal(n).len() > 0,
        forall|i: int| 0 <= i < decimal(n).len() ==> '0' <= #[trigger] decimal(n)[i] <= '9',
        decimal(n).last() as int == '0' as int + n % 10,
        decimal(n).len() == 1 <==> n < 10,
        n >= 10 ==> decimal(n).drop_last() == decimal(n / 10),
        n > 0 ==> decimal(n)[0] != '0',
        decimal(n) == decimal(other) ==> n == other,
    decreases n + other,
{
    if n >= 10 {
        law_decimal_digits_tell_the_number(n / 10, other / 10);
        assert(decimal(n).drop_last() =~= decimal(n / 10));
        assert(decimal(n)[0] == decimal(n / 10)[0]);
        if other >= 10 {
            assert(decimal(other).drop_last() =~= decimal(other / 10));
        }
    } else if other >= 10 {
        law_decimal_digits_tell_the_number(other / 10, 0);
    }
    if decimal(n) == decimal(other) {
        assert(decimal(n).last() as int == '0' as int + n % 10);
        assert(decimal(other).last() as int == '0' as int + other % 10);
    }
}

/// A text that is not ASCII is put into lowercase and into uppercase as Unicode has it;
/// its last characters that are ASCII are made small in their places.
pub proof fn law_other_texts_are_rewritten_as_unicode_has_it(text: Seq<char>, c: char)
    requires
        !is_ascii_chars(text),
        c > '\u{7f}',
    ensures
        lowered(text) == unicode_lowercase_front(text) + ascii_lowered(ascii_end(text)),
        uppered(text) == unicode_uppercase(text),
        char_uppered(c) == unicode_char_uppercase(c),
        char_is_lower(c) == unicode_is_lowercase(c),
        char_is_upper(c) == unicode_is_uppercase(c),
        ascii_end(text.push('o')) == ascii_end(text).push('o'),
        ascii_end(text.push(c)) == Seq::<char>::empty(),
{
    assert(text.push('o').drop_last() =~= text);
}

} // verus!
