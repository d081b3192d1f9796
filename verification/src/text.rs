//! White space, words and trimming, as the standard library's string methods
//! have them, for the few places the window reads what somebody typed.

use vstd::prelude::*;

verus! {

/// Whether `c` is white space, as Unicode and `char::is_whitespace` have it.
pub open spec fn white(c: char) -> bool {
    let n = c as u32;
    ||| 0x9 <= n <= 0xd
    ||| n == 0x20
    ||| n == 0x85
    ||| n == 0xa0
    ||| n == 0x1680
    ||| 0x2000 <= n <= 0x200a
    ||| n == 0x2028
    ||| n == 0x2029
    ||| n == 0x202f
    ||| n == 0x205f
    ||| n == 0x3000
}

/// Whether `c` is white space.
pub fn is_white(c: char) -> (is: bool)
    ensures
        is == white(c),
{
    let n = c as u32;
    (0x9 <= n && n <= 0xd) || n == 0x20 || n == 0x85 || n == 0xa0 || n == 0x1680 || (0x2000 <= n
        && n <= 0x200a) || n == 0x2028 || n == 0x2029 || n == 0x202f || n == 0x205f || n == 0x3000
}

/// The words of `text`: its runs of characters that are not white space, in
/// order, as `str::split_whitespace` finds them.
pub open spec fn words(text: Seq<char>) -> Seq<Seq<char>>
    decreases text.len(),
{
    if text.len() == 0 {
        seq![]
    } else {
        let before = words(text.drop_last());
        let c = text.last();
        if white(c) {
            before
        } else if text.len() == 1 || white(text[text.len() - 2]) {
            before.push(seq![c])
        } else {
            before.update(before.len() - 1, before.last().push(c))
        }
    }
}

/// A text that does not end in white space has a word at its end, unless it
/// is empty.
proof fn lemma_a_word_is_open(text: Seq<char>)
    requires
        text.len() > 0,
        !white(text.last()),
    ensures
        words(text).len() > 0,
    decreases text.len(),
{
    if text.len() > 1 && !white(text[text.len() - 2]) {
        let before = text.drop_last();
        assert(before.last() == text[text.len() - 2]);
        lemma_a_word_is_open(before);
    }
}

/// The words of a piece of text, as `str::split_whitespace` finds them.
pub fn split_words(text: &str) -> (found: Vec<String>)
    ensures
        found@.map_values(|w: String| w@) == words(text@),
{
    let n = text.unicode_len();
    let mut found: Vec<String> = Vec::new();
    let mut i: usize = 0;
    let mut after_white = true;
    while i < n
        invariant
            n == text@.len(),
            i <= n,
            found@.map_values(|w: String| w@) == words(text@.take(i as int)),
            after_white == (i == 0 || white(text@[i - 1])),
        decreases n - i,
    {
        let c = text.get_char(i);
        let ghost before = text@.take(i as int);
        assert(text@.take(i + 1).drop_last() =~= before);
        assert(text@.take(i + 1).last() == c);
        let white_here = is_white(c);
        if !white_here {
            let one = text.substring_char(i, i + 1);
            assert(one@ =~= seq![c]);
            if after_white {
                let word = String::from_str(one);
                found.push(word);
                assert(found@.map_values(|w: String| w@) =~= words(before).push(seq![c]));
            } else {
                proof {
                    assert(before.len() > 0 && before.last() == text@[i - 1]);
                    lemma_a_word_is_open(before);
                }
                let ghost had = found@;
                let last = found.len() - 1;
                assert(had.map_values(|w: String| w@)[last as int] == words(before)[last as int]);
                let mut word = found.remove(last);
                assert(word@ == words(before).last());
                word.append(one);
                assert(word@ =~= words(before).last().push(c));
                found.push(word);
                assert(found@ =~= had.take(last as int).push(word));
                assert forall|j: int| 0 <= j < last implies found@[j]@ == words(before)[j] by {
                    assert(had.map_values(|w: String| w@)[j] == words(before)[j]);
                }
                assert(found@.map_values(|w: String| w@) =~= words(before).update(
                    words(before).len() - 1,
                    words(before).last().push(c),
                ));
            }
        }
        after_white = white_here;
        i = i + 1;
    }
    assert(text@.take(n as int) =~= text@);
    found
}

/// Where the first character of `text` that is not white space is, or the
/// length of `text` if there is none.
pub open spec fn lead(text: Seq<char>) -> int {
    if exists|i: int| 0 <= i < text.len() && !white(#[trigger] text[i]) {
        choose|i: int|
            0 <= i < text.len() && !white(#[trigger] text[i]) && forall|j: int|
                0 <= j < i ==> white(#[trigger] text[j])
    } else {
        text.len() as int
    }
}

/// Whether `at` is just past the last character of `text` that is not white
/// space, counting from `from`.
pub open spec fn tail_at(text: Seq<char>, from: int, at: int) -> bool {
    &&& from <= at <= text.len()
    &&& forall|j: int| at <= j < text.len() ==> white(#[trigger] text[j])
    &&& (at > from ==> !white(text[at - 1]))
}

/// `text` with the white space at either end taken off, as `str::trim`
/// takes it.
pub open spec fn trimmed(text: Seq<char>) -> Seq<char> {
    let from = lead(text);
    let to = choose|to: int| tail_at(text, from, to);
    text.subrange(from, to)
}

/// `text` with the white space at either end taken off.
pub fn trim(text: &str) -> (kept: &str)
    ensures
        kept@ == trimmed(text@),
{
    let n = text.unicode_len();
    let mut from: usize = 0;
    while from < n && is_white(text.get_char(from))
        invariant
            n == text@.len(),
            from <= n,
            forall|j: int| 0 <= j < from ==> white(#[trigger] text@[j]),
        decreases n - from,
    {
        from = from + 1;
    }
    let mut to: usize = n;
    while to > from && is_white(text.get_char(to - 1))
        invariant
            n == text@.len(),
            from <= to <= n,
            forall|j: int| to <= j < n ==> white(#[trigger] text@[j]),
        decreases to,
    {
        to = to - 1;
    }
    proof {
        let t = text@;
        if from < n {
            assert(!white(t[from as int]));
            assert(exists|i: int| 0 <= i < t.len() && !white(#[trigger] t[i]));
            let l = lead(t);
            assert(l == from) by {
                if l < from {
                    assert(white(t[l]));
                } else if l > from {
                    assert(white(t[from as int]));
                }
            }
        } else {
            assert(!exists|i: int| 0 <= i < t.len() && !white(#[trigger] t[i]));
        }
        assert(tail_at(t, from as int, to as int));
        let chosen = choose|at: int| tail_at(t, from as int, at);
        assert(chosen == to) by {
            if chosen < to {
                assert(white(t[to - 1]));
            } else if chosen > to {
                assert(white(t[chosen - 1]));
            }
        }
    }
    text.substring_char(from, to)
}

} // verus!
