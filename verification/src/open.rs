//! Which links are worth handing to whatever the reader opens links with.
//!
//! The web and nothing else: a link in a message is text somebody else wrote,
//! and its scheme can name anything the shell has been taught to run. The
//! handing over itself is the window's.

use vstd::prelude::*;

verus! {

/// Whether `text` has `://` starting at `at`.
pub open spec fn marked_at(text: Seq<char>, at: int) -> bool {
    &&& 0 <= at
    &&& at + 3 <= text.len()
    &&& text[at] == ':'
    &&& text[at + 1] == '/'
    &&& text[at + 2] == '/'
}

/// Whether `at` is where the first `://` of `text` starts.
pub open spec fn first_mark(text: Seq<char>, at: int) -> bool {
    marked_at(text, at) && forall|j: int| 0 <= j < at ==> !marked_at(text, j)
}

/// The scheme of a link: what comes before its first `://`, if it has one.
pub fn scheme_of(href: &str) -> (scheme: Option<&str>)
    ensures
        match scheme {
            Some(s) => exists|at: int| first_mark(href@, at) && s@ == href@.take(at),
            None => forall|at: int| !marked_at(href@, at),
        },
{
    let n = href.unicode_len();
    let mut i: usize = 0;
    while n - i >= 3
        invariant
            n == href@.len(),
            i <= n,
            forall|j: int| 0 <= j < i ==> !marked_at(href@, j),
        decreases n - i,
    {
        if href.get_char(i) == ':' && href.get_char(i + 1) == '/' && href.get_char(i + 2) == '/' {
            let scheme = href.substring_char(0, i);
            assert(first_mark(href@, i as int));
            return Some(scheme);
        }
        i = i + 1;
    }
    assert forall|at: int| !marked_at(href@, at) by {
        if at >= i {
            assert(at + 3 > n);
        }
    }
    None
}

/// The code of `c` as `char::to_ascii_lowercase` has it: an ASCII capital
/// becomes its small letter and anything else is left alone.
pub open spec fn ascii_lower(c: char) -> u32 {
    if 'A' <= c <= 'Z' {
        ((c as u32) + 32) as u32
    } else {
        c as u32
    }
}

/// Whether `text` is `word` when ASCII case is ignored.
pub open spec fn same_word(text: Seq<char>, word: Seq<char>) -> bool {
    text.len() == word.len() && forall|i: int| 0 <= i < text.len() ==> ascii_lower(#[trigger] text[i]) == word[i] as u32
}

/// Whether `c` is a control character, as `char::is_control` has it: the
/// general category Cc, which is the C0 and C1 blocks and DEL.
pub open spec fn control(c: char) -> bool {
    (c as u32) <= 0x1f || (0x7f <= (c as u32) && (c as u32) <= 0x9f)
}

/// Whether a link is worth opening: its scheme is `http` or `https` in any
/// case, and no control character appears anywhere in it.
pub open spec fn worth(href: Seq<char>) -> bool {
    &&& exists|at: int|
        #![trigger first_mark(href, at)]
        first_mark(href, at) && (same_word(href.take(at), seq!['h', 't', 't', 'p']) || same_word(
            href.take(at),
            seq!['h', 't', 't', 'p', 's'],
        ))
    &&& forall|i: int| 0 <= i < href.len() ==> !control(#[trigger] href[i])
}

/// Whether `text` is `word` when ASCII case is ignored.
fn is_word(text: &str, word: &str) -> (is: bool)
    ensures
        is == same_word(text@, word@),
{
    let n = text.unicode_len();
    if n != word.unicode_len() {
        return false;
    }
    let mut i: usize = 0;
    while i < n
        invariant
            n == text@.len(),
            n == word@.len(),
            i <= n,
            forall|j: int| 0 <= j < i ==> ascii_lower(#[trigger] text@[j]) == word@[j] as u32,
        decreases n - i,
    {
        let c = text.get_char(i);
        let lowered: u32 = if 'A' <= c && c <= 'Z' {
            (c as u32) + 32
        } else {
            c as u32
        };
        if lowered != word.get_char(i) as u32 {
            return false;
        }
        i = i + 1;
    }
    true
}

/// The web and nothing else.
pub fn worth_opening(href: &str) -> (worth_it: bool)
    ensures
        worth_it == worth(href@),
{
    let scheme = match scheme_of(href) {
        Some(scheme) => scheme,
        None => return false,
    };
    proof {
        reveal_strlit("http");
        reveal_strlit("https");
    }
    let web = is_word(scheme, "http") || is_word(scheme, "https");
    assert("http"@ =~= seq!['h', 't', 't', 'p']);
    assert("https"@ =~= seq!['h', 't', 't', 'p', 's']);
    proof {
        let at = choose|at: int| first_mark(href@, at) && scheme@ == href@.take(at);
        assert forall|other: int| first_mark(href@, other) implies other == at by {
            if other < at {
                assert(!marked_at(href@, other));
            } else if other > at {
                assert(!marked_at(href@, at));
            }
        }
    }
    if !web {
        return false;
    }
    let n = href.unicode_len();
    let mut i: usize = 0;
    while i < n
        invariant
            n == href@.len(),
            i <= n,
            forall|j: int| 0 <= j < i ==> !control(#[trigger] href@[j]),
        decreases n - i,
    {
        let c = href.get_char(i);
        let code = c as u32;
        if code <= 0x1f || (0x7f <= code && code <= 0x9f) {
            return false;
        }
        i = i + 1;
    }
    true
}

} // verus!
