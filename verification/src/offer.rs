//! The people and channels a half-typed name could mean: which of them is
//! chosen, and what a keystroke or a click on the list asks for.
//!
//! Where the list hangs and how it is drawn are the window's.

use vstd::prelude::*;
use crate::input::{Input, Key, slug, slug_of};
use crate::session::same_text;

verus! {

/// What opens a list of people.
pub const PEOPLE: char = '@';

/// What opens a list of channels.
pub const CHANNELS: char = '~';

/// How many rows are shown.
pub const ROWS: usize = 6;

/// Whose face to show beside a person.
#[derive(Debug, Clone, PartialEq, Eq)]
pub struct Face {
    pub user_id: String,
    /// The avatar's version, so a new picture is a new name in the atlas.
    pub avatar_at: i64,
}

/// One thing a half-typed name could mean.
#[derive(Debug, Clone, PartialEq, Eq)]
pub struct Suggestion {
    /// What goes into the message, without its sigil.
    pub insert: String,
    /// What the row says.
    pub label: String,
    /// Whose face to show, for a person.
    pub face: Option<Face>,
}

/// A suggestion, as the contracts speak of it.
pub struct SuggestionView {
    pub insert: Seq<char>,
    pub label: Seq<char>,
    pub face: Option<(Seq<char>, i64)>,
}

impl View for Suggestion {
    type V = SuggestionView;

    open spec fn view(&self) -> SuggestionView {
        SuggestionView {
            insert: self.insert@,
            label: self.label@,
            face: match self.face {
                Some(f) => Some((f.user_id@, f.avatar_at)),
                None => None,
            },
        }
    }
}

impl Suggestion {
    /// A copy of it.
    pub fn copy(&self) -> (copy: Suggestion)
        ensures
            copy@ == self@,
    {
        Suggestion {
            insert: self.insert.clone(),
            label: self.label.clone(),
            face: match &self.face {
                Some(f) => Some(Face { user_id: f.user_id.clone(), avatar_at: f.avatar_at }),
                None => None,
            },
        }
    }
}

/// What a press or a keystroke asked for.
#[derive(Debug, Clone, PartialEq, Eq)]
pub enum Chose {
    /// Put this in the message.
    Name(Suggestion),
    /// Leave the typing alone and put the list away.
    Nothing,
}

/// What was chosen, as the contracts speak of it.
pub open spec fn chose_view(chose: Option<Chose>) -> Option<Option<SuggestionView>> {
    match chose {
        None => None,
        Some(Chose::Nothing) => Some(None),
        Some(Chose::Name(s)) => Some(Some(s@)),
    }
}

/// The list, open or shut.
#[derive(Debug)]
pub struct Offer {
    /// What opened it, and what has been typed after it.
    pub sigil: char,
    pub said: String,
    pub found: Vec<Suggestion>,
    /// Which row Return would take.
    pub chosen: usize,
    up: bool,
}

/// The list, as the contracts speak of it.
pub struct OfferView {
    pub sigil: char,
    pub said: Seq<char>,
    pub found: Seq<SuggestionView>,
    pub chosen: usize,
    pub up: bool,
}

impl View for Offer {
    type V = OfferView;

    closed spec fn view(&self) -> OfferView {
        OfferView {
            sigil: self.sigil,
            said: self.said@,
            found: self.found@.map_values(|s: Suggestion| s@),
            chosen: self.chosen,
            up: self.up,
        }
    }
}

impl OfferView {
    /// Whether it is on screen: shown, and with something in it.
    pub open spec fn is_open(self) -> bool {
        self.up && self.found.len() > 0
    }

    /// How many rows are on show.
    pub open spec fn rows(self) -> nat {
        if self.found.len() < ROWS {
            self.found.len()
        } else {
            ROWS as nat
        }
    }
}

/// The number a row's name ends in, as `usize` parsing reads it: decimal
/// digits, after an optional `+`, that fit a `usize`.
pub open spec fn decimal(s: Seq<char>) -> Option<nat> {
    if unsigned(s).len() == 0 || exists|i: int|
        0 <= i < unsigned(s).len() && !is_digit(#[trigger] unsigned(s)[i]) {
        None
    } else if value_of(unsigned(s)) > usize::MAX {
        None
    } else {
        Some(value_of(unsigned(s)))
    }
}

/// The text with a leading `+` taken off.
pub open spec fn unsigned(s: Seq<char>) -> Seq<char> {
    if s.len() > 0 && s[0] == '+' {
        s.skip(1)
    } else {
        s
    }
}

/// Whether a character is a decimal digit.
pub open spec fn is_digit(c: char) -> bool {
    '0' <= c && c <= '9'
}

/// What a run of decimal digits is worth.
pub open spec fn value_of(digits: Seq<char>) -> nat
    decreases digits.len(),
{
    if digits.len() == 0 {
        0
    } else {
        value_of(digits.drop_last()) * 10 + ((digits.last() as int) - ('0' as int)) as nat
    }
}

/// The number some text spells in decimal, as `usize` parsing reads it.
pub fn parse_index(s: &str) -> (n: Option<usize>)
    ensures
        match n {
            Some(v) => decimal(s@) == Some(v as nat),
            None => decimal(s@) is None,
        },
{
    let len = s.unicode_len();
    let mut i: usize = 0;
    if len > 0 && s.get_char(0) == '+' {
        i = 1;
    }
    let start = i;
    let ghost digits = unsigned(s@);
    assert(digits =~= s@.skip(start as int));
    if start == len {
        return None;
    }
    let mut value: usize = 0;
    let mut big = false;
    while i < len
        invariant
            len == s@.len(),
            start <= i <= len,
            start < len,
            digits == s@.skip(start as int),
            digits == unsigned(s@),
            forall|j: int| start <= j < i ==> is_digit(#[trigger] s@[j]),
            big ==> value_of(s@.subrange(start as int, i as int)) > usize::MAX,
            !big ==> value == value_of(s@.subrange(start as int, i as int)),
        decreases len - i,
    {
        let c = s.get_char(i);
        if !('0' <= c && c <= '9') {
            assert(digits[i - start] == c);
            return None;
        }
        let d = (c as u32 - '0' as u32) as usize;
        proof {
            assert(s@.subrange(start as int, i + 1).drop_last() =~= s@.subrange(
                start as int,
                i as int,
            ));
        }
        if !big {
            if value > (usize::MAX - d) / 10 {
                big = true;
                proof {
                    assert(value * 10 + d > usize::MAX) by (nonlinear_arith)
                        requires
                            value > (usize::MAX - d) / 10,
                            d <= 9,
                    ;
                }
            } else {
                proof {
                    assert(value * 10 + d <= usize::MAX) by (nonlinear_arith)
                        requires
                            value <= (usize::MAX - d) / 10,
                            d <= 9,
                    ;
                }
                value = value * 10 + d;
            }
        } else {
            proof {
                let prev = value_of(s@.subrange(start as int, i as int));
                assert(prev * 10 + d > usize::MAX) by (nonlinear_arith)
                    requires
                        prev > usize::MAX,
                ;
            }
        }
        i = i + 1;
    }
    proof {
        assert(s@.subrange(start as int, len as int) =~= digits);
        assert forall|k: int| 0 <= k < digits.len() implies is_digit(#[trigger] digits[k]) by {
            assert(digits[k] == s@[k + start]);
        }
    }
    if big {
        None
    } else {
        Some(value)
    }
}

/// What the list's hit boxes are called.
pub open spec fn offer_name() -> Seq<char> {
    seq!['o', 'f', 'f', 'e', 'r']
}

/// Which row a hit box names: `offer/row/<n>`.
pub open spec fn row_named(name: Seq<char>) -> Option<nat> {
    match slug_of(offer_name(), name) {
        None => None,
        Some(rest) => if rest.len() >= 4 && rest.take(4) == "row/"@ {
            decimal(rest.skip(4))
        } else {
            None
        },
    }
}

/// How many rows a key walks round: those on show, and at least one.
pub open spec fn lap(offer: OfferView) -> nat {
    if offer.rows() == 0 {
        1
    } else {
        offer.rows()
    }
}

/// The row chosen after the arrows struck this frame, walking round the
/// rows on show.
pub open spec fn walked(offer: OfferView, struck: Seq<Key>) -> int {
    let lap = lap(offer) as int;
    let down = if struck.contains(Key::Down) {
        (offer.chosen + 1) % lap
    } else {
        offer.chosen as int
    };
    if struck.contains(Key::Up) {
        (down + lap - 1) % lap
    } else {
        down
    }
}

/// Whether walking the rows stays within what a `usize` can count.
pub open spec fn walk_fits(offer: OfferView, struck: Seq<Key>) -> bool {
    &&& struck.contains(Key::Down) ==> offer.chosen + 1 <= usize::MAX
    &&& (struck.contains(Key::Up) && !struck.contains(Key::Down)) ==> offer.chosen + lap(offer) - 1
        <= usize::MAX
}

/// The suggestion at a row, if the row is one.
pub open spec fn at_row(offer: OfferView, at: int) -> Option<SuggestionView> {
    if 0 <= at < offer.found.len() {
        Some(offer.found[at])
    } else {
        None
    }
}

/// What a frame's input does to the list, and what it asks for: a name to
/// put in the message, or nothing and the list put away.
pub open spec fn offer_reacted(offer: OfferView, input: crate::input::InputView) -> (OfferView, Option<
    Option<SuggestionView>,
>) {
    if !offer.is_open() {
        (offer, None)
    } else if input.clicked matches Some(c) && row_named(c) is Some {
        let at = row_named(input.clicked->0)->0;
        (
            offer,
            match at_row(offer, at as int) {
                Some(s) => Some(Some(s)),
                None => None,
            },
        )
    } else if input.struck.contains(Key::Escape) {
        (offer, Some(None))
    } else {
        let chosen = walked(offer, input.struck);
        let after = OfferView { chosen: chosen as usize, ..offer };
        (
            after,
            if input.struck.contains(Key::Enter) || input.struck.contains(Key::Tab) {
                match at_row(offer, chosen) {
                    Some(s) => Some(Some(s)),
                    None => None,
                }
            } else {
                None
            },
        )
    }
}

/// The list once it offers `found` for `said`, typed after `sigil`: the
/// chosen row kept while the same question only grows, and never past the
/// end of what is found; the top row otherwise.
pub open spec fn offered(
    before: OfferView,
    sigil: char,
    said: Seq<char>,
    found: Seq<SuggestionView>,
) -> OfferView {
    let carried = before.up && before.sigil == sigil && before.said.len() <= said.len() && said.take(
        before.said.len() as int,
    ) == before.said;
    let last = if found.len() == 0 {
        0
    } else {
        found.len() - 1
    };
    OfferView {
        sigil,
        said,
        found,
        up: true,
        chosen: if carried {
            if before.chosen < last {
                before.chosen
            } else {
                last as usize
            }
        } else {
            0
        },
    }
}

impl Default for Offer {
    fn default() -> (offer: Self)
        ensures
            !offer@.up,
            offer@.found.len() == 0,
            offer@.said.len() == 0,
            offer@.chosen == 0,
    {
        let offer = Offer { sigil: '\0', said: String::new(), found: Vec::new(), chosen: 0, up: false };
        assert(offer@.found =~= Seq::<SuggestionView>::empty());
        offer
    }
}

impl Offer {
    /// Whether it is on screen: shown, and with something in it.
    pub fn open(&self) -> (open: bool)
        ensures
            open == self@.is_open(),
    {
        self.up && self.found.len() > 0
    }

    /// Offers these, for what is being typed now.
    ///
    /// The chosen row is kept while the query only grows, and reset when it
    /// changes another way.
    pub fn show(&mut self, sigil: char, said: &str, found: Vec<Suggestion>)
        ensures
            final(self)@ == offered(old(self)@, sigil, said@, found@.map_values(|s: Suggestion| s@)),
    {
        let carried = self.up && self.sigil == sigil && crate::input::starts_with(
            said,
            self.said.as_str(),
        );
        let last = if found.len() == 0 {
            0
        } else {
            found.len() - 1
        };
        self.sigil = sigil;
        self.said = String::from_str(said);
        self.found = found;
        self.up = true;
        self.chosen = if carried {
            if self.chosen < last {
                self.chosen
            } else {
                last
            }
        } else {
            0
        };
    }

    /// Puts it away: nothing found, nothing typed, the top row chosen.
    pub fn put_away(&mut self)
        ensures
            final(self)@ == (OfferView {
                up: false,
                found: seq![],
                said: seq![],
                chosen: 0,
                ..old(self)@
            }),
    {
        self.up = false;
        self.found = Vec::new();
        self.said = String::new();
        self.chosen = 0;
        assert(self@.found =~= Seq::<SuggestionView>::empty());
        assert(self@.said =~= Seq::<char>::empty());
    }

    /// How many rows are on show.
    pub fn shown(&self) -> (rows: usize)
        ensures
            rows == self@.rows(),
    {
        if self.found.len() < ROWS {
            self.found.len()
        } else {
            ROWS
        }
    }

    /// Which row a hit box names.
    pub fn row_at(&self, name: &str) -> (row: Option<usize>)
        ensures
            match row {
                Some(at) => row_named(name@) == Some(at as nat),
                None => row_named(name@) is None,
            },
    {
        proof {
            reveal_strlit("offer");
            reveal_strlit("row/");
        }
        assert("offer"@ =~= offer_name());
        let rest = match slug("offer", name) {
            Some(rest) => rest,
            None => return None,
        };
        if !crate::input::starts_with(rest.as_str(), "row/") {
            return None;
        }
        let n = rest.as_str().unicode_len();
        let number = rest.as_str().substring_char(4, n);
        parse_index(number)
    }

    /// The suggestion at a row, copied, if the row is one.
    fn suggestion_at(&self, at: usize) -> (s: Option<Suggestion>)
        ensures
            match s {
                Some(s) => at_row(self@, at as int) == Some(s@),
                None => at_row(self@, at as int) is None,
            },
    {
        if at < self.found.len() {
            Some(self.found[at].copy())
        } else {
            None
        }
    }

    /// Applies a frame's input, and says what the reader asked for.
    pub fn react(&mut self, input: &Input) -> (chose: Option<Chose>)
        requires
            walk_fits(old(self)@, input@.struck),
        ensures
            final(self)@ == offer_reacted(old(self)@, input@).0,
            chose_view(chose) == offer_reacted(old(self)@, input@).1,
    {
        if !self.open() {
            return None;
        }
        if let Some(name) = input.clicked() {
            if let Some(at) = self.row_at(name) {
                return match self.suggestion_at(at) {
                    Some(s) => Some(Chose::Name(s)),
                    None => None,
                };
            }
        }
        if input.struck(Key::Escape) {
            return Some(Chose::Nothing);
        }
        let rows = self.shown();
        let round = if rows == 0 {
            1
        } else {
            rows
        };
        assert(round == lap(old(self)@));
        let down = input.struck(Key::Down);
        if down {
            self.chosen = (self.chosen + 1) % round;
        }
        if input.struck(Key::Up) {
            assert(self.chosen + round - 1 <= usize::MAX);
            self.chosen = (self.chosen + (round - 1)) % round;
        }
        if input.struck(Key::Enter) || input.struck(Key::Tab) {
            return match self.suggestion_at(self.chosen) {
                Some(s) => Some(Chose::Name(s)),
                None => None,
            };
        }
        None
    }
}


/// Nothing found is nothing shown.
pub proof fn lemma_nothing_found_is_shut(before: OfferView, sigil: char, said: Seq<char>)
    ensures
        !offered(before, sigil, said, seq![]).is_open(),
{
}

/// Whatever was chosen before, the list chooses one of its own rows once it
/// is offered.
pub proof fn lemma_offered_choice_is_a_row(
    before: OfferView,
    sigil: char,
    said: Seq<char>,
    found: Seq<SuggestionView>,
)
    requires
        found.len() > 0,
        found.len() <= usize::MAX,
    ensures
        offered(before, sigil, said, found).chosen < found.len(),
{
}

/// Typing one more letter of the same question keeps the row the arrows
/// reached, as long as it is still a row.
pub proof fn lemma_longer_query_keeps_the_row(
    before: OfferView,
    said: Seq<char>,
    more: Seq<char>,
    found: Seq<SuggestionView>,
)
    requires
        before.up,
        before.said == said,
        before.chosen < found.len(),
        found.len() <= usize::MAX,
    ensures
        offered(before, before.sigil, said + more, found).chosen == before.chosen,
{
    assert((said + more).take(said.len() as int) =~= said);
}

/// A different question starts at the top.
pub proof fn lemma_other_sigil_starts_at_the_top(
    before: OfferView,
    sigil: char,
    said: Seq<char>,
    found: Seq<SuggestionView>,
)
    requires
        sigil != before.sigil,
    ensures
        offered(before, sigil, said, found).chosen == 0,
{
}

/// The arrows walk round the rows on show: from a row on show they land on
/// a row on show, up from the first goes to the last, and down from the last
/// comes back to the first.
pub proof fn lemma_arrows_wrap(offer: OfferView)
    requires
        offer.chosen < lap(offer),
    ensures
        0 <= walked(offer, seq![Key::Down]) < lap(offer),
        0 <= walked(offer, seq![Key::Up]) < lap(offer),
        offer.chosen == 0 ==> walked(offer, seq![Key::Up]) == lap(offer) - 1,
        offer.chosen == lap(offer) - 1 ==> walked(offer, seq![Key::Down]) == 0,
{
    assert(seq![Key::Down].contains(Key::Down)) by {
        assert(seq![Key::Down][0] == Key::Down);
    }
    assert(!seq![Key::Down].contains(Key::Up)) by {
        if seq![Key::Down].contains(Key::Up) {
            let i = choose|i: int| 0 <= i < 1 && seq![Key::Down][i] == Key::Up;
        }
    }
    assert(seq![Key::Up].contains(Key::Up)) by {
        assert(seq![Key::Up][0] == Key::Up);
    }
    assert(!seq![Key::Up].contains(Key::Down)) by {
        if seq![Key::Up].contains(Key::Down) {
            let i = choose|i: int| 0 <= i < 1 && seq![Key::Up][i] == Key::Down;
        }
    }
    let l = lap(offer) as int;
    vstd::arithmetic::div_mod::lemma_small_mod((l - 1) as nat, l as nat);
    vstd::arithmetic::div_mod::lemma_mod_self_0(l);
}


/// Whether a channel of this type is something a `~` could mean: an open or
/// a private channel. A direct message has no name anybody can type.
pub fn nameable(channel_type: &str) -> (nameable: bool)
    ensures
        nameable <==> channel_type@ == "O"@ || channel_type@ == "P"@,
{
    same_text(channel_type, "O") || same_text(channel_type, "P")
}

/// What a person's row says: their real name where they have one, then the
/// name the server knows them by; just that name where they have none.
pub open spec fn person_label(first: Seq<char>, last: Seq<char>, username: Seq<char>) -> Seq<char> {
    let full = crate::profile::full_name_of(first, last);
    if full.len() == 0 {
        username
    } else {
        full + "  "@ + username
    }
}

/// A person, offered: read by their real name where there is one, and
/// mentioned by the name the server knows -- a mention of "Amy Jones"
/// reaches nobody.
pub fn person(first: &str, last: &str, username: &str, user_id: &str, avatar_at: i64) -> (offered:
    Suggestion)
    ensures
        offered@.insert == username@,
        offered@.label == person_label(first@, last@, username@),
        offered@.face == Some((user_id@, avatar_at)),
{
    let full = crate::profile::full_name(first, last);
    let label = if full.as_str().unicode_len() == 0 {
        String::from_str(username)
    } else {
        full.concat("  ").concat(username)
    };
    Suggestion {
        insert: String::from_str(username),
        label,
        face: Some(Face { user_id: String::from_str(user_id), avatar_at }),
    }
}


/// Return, or Tab, takes the chosen row, and Escape takes none: in an open
/// list, with no row pressed, Escape asks for nothing and leaves the list as
/// it was, and Return with no arrow struck asks for the row already chosen.
pub proof fn lemma_return_takes_the_row_and_escape_takes_none(
    offer: OfferView,
    input: crate::input::InputView,
)
    requires
        offer.is_open(),
        offer.chosen < offer.rows(),
        !(input.clicked matches Some(c) && row_named(c) is Some),
    ensures
        input.struck.contains(Key::Escape) ==> offer_reacted(offer, input) == (offer, Some(
            None::<SuggestionView>,
        )),
        !input.struck.contains(Key::Escape) && !input.struck.contains(Key::Up) && !input.struck.contains(
            Key::Down,
        ) && (input.struck.contains(Key::Enter) || input.struck.contains(Key::Tab))
            ==> offer_reacted(offer, input).1 == Some(Some(offer.found[offer.chosen as int])),
{
}

} // verus!
