//! Who somebody is, when their name is pressed: what the card says about them,
//! line by line, and when the press being answered is the one that opened it.
//!
//! Where the card sits, and how each line is set, is left to the window.

use crate::session::same_text;
use crate::text::{trim, trimmed};
use vstd::prelude::*;
use vstd::string::*;

verus! {

/// A person, reduced to what a card says about them.
#[derive(Debug, Clone, PartialEq, Eq)]
pub struct Card {
    pub user_id: String,
    pub username: String,
    /// Their real name, when the server holds one. Empty is ordinary.
    pub full_name: String,
    /// What they call themselves, when they have set one.
    pub nickname: String,
    /// Their presence, as a word. Empty when nobody has asked.
    pub status: String,
    /// The avatar's version, so a new picture is a new name in the atlas.
    pub avatar_at: i64,
    /// Their address, when the server lets this reader see it.
    pub email: String,
    /// What they do there.
    pub position: String,
    /// When they were last active, in the server's milliseconds; zero when
    /// nobody has said.
    pub last_active: i64,
}

/// A card, as the contracts speak of it.
pub struct CardView {
    pub user_id: Seq<char>,
    pub username: Seq<char>,
    pub full_name: Seq<char>,
    pub nickname: Seq<char>,
    pub status: Seq<char>,
    pub avatar_at: i64,
    pub email: Seq<char>,
    pub position: Seq<char>,
    pub last_active: i64,
}

impl View for Card {
    type V = CardView;

    open spec fn view(&self) -> CardView {
        CardView {
            user_id: self.user_id@,
            username: self.username@,
            full_name: self.full_name@,
            nickname: self.nickname@,
            status: self.status@,
            avatar_at: self.avatar_at,
            email: self.email@,
            position: self.position@,
            last_active: self.last_active,
        }
    }
}

impl Default for Card {
    fn default() -> (card: Card)
        ensures
            card@.user_id.len() == 0,
            card@.username.len() == 0,
            card@.full_name.len() == 0,
            card@.nickname.len() == 0,
            card@.status.len() == 0,
            card@.avatar_at == 0,
            card@.email.len() == 0,
            card@.position.len() == 0,
            card@.last_active == 0,
    {
        Card {
            user_id: String::new(),
            username: String::new(),
            full_name: String::new(),
            nickname: String::new(),
            status: String::new(),
            avatar_at: 0,
            email: String::new(),
            position: String::new(),
            last_active: 0,
        }
    }
}

/// Somebody's real name, from their first and last: the two with a space
/// between, and the white space at the ends taken off, so that somebody with
/// neither has no name at all.
pub open spec fn full_name_of(first: Seq<char>, last: Seq<char>) -> Seq<char> {
    trimmed(first + " "@ + last)
}

/// Somebody's real name, from their first and last.
pub fn full_name(first: &str, last: &str) -> (name: String)
    ensures
        name@ == full_name_of(first@, last@),
{
    let whole = String::from_str(first).concat(" ").concat(last);
    String::from_str(trim(whole.as_str()))
}

/// The decimal digit `d` stands for.
pub open spec fn digit(d: nat) -> char {
    seq!['0', '1', '2', '3', '4', '5', '6', '7', '8', '9'][d as int]
}

/// A number in decimal, without leading zeros.
pub open spec fn spelled(n: nat) -> Seq<char>
    decreases n,
{
    if n < 10 {
        seq![digit(n)]
    } else {
        spelled(n / 10).push(digit(n % 10))
    }
}

/// A number in decimal.
pub fn spell(n: u64) -> (text: String)
    ensures
        text@ == spelled(n as nat),
    decreases n,
{
    let digits = "0123456789";
    proof {
        reveal_strlit("0123456789");
    }
    let d = (n % 10) as usize;
    let one = digits.substring_char(d, d + 1);
    assert(one@ =~= seq![digit(d as nat)]);
    if n < 10 {
        String::from_str(one)
    } else {
        let mut text = spell(n / 10);
        text.append(one);
        text
    }
}

/// How many whole minutes have passed between `since` and `now`, and none if
/// `now` is the earlier.
pub open spec fn minutes_between(since: i64, now: i64) -> int {
    if now - since > 0 {
        (now - since) / 60_000
    } else {
        0
    }
}

/// "Last online 7 min. ago", as the official card says it: nothing for
/// somebody who is online or of whom nobody has said, and otherwise the time
/// since they were about, in the largest unit that is not zero.
pub open spec fn last_online_said(status: Seq<char>, since: i64, now: i64) -> Option<Seq<char>> {
    if status == "online"@ || since <= 0 {
        None
    } else {
        let minutes = minutes_between(since, now);
        Some(
            if minutes == 0 {
                "Last online just now"@
            } else if minutes <= 59 {
                "Last online "@ + spelled(minutes as nat) + " min. ago"@
            } else if minutes <= 1439 {
                "Last online "@ + spelled((minutes / 60) as nat) + " hr. ago"@
            } else if minutes <= 2879 {
                "Last online yesterday"@
            } else {
                "Last online "@ + spelled((minutes / 1440) as nat) + " days ago"@
            },
        )
    }
}

/// Whether `last_online` can be asked of these without its subtraction
/// leaving the range of an `i64`.
pub open spec fn in_range(since: i64, now: i64) -> bool {
    since <= 0 || i64::MIN <= now - since
}

/// "Last online 7 min. ago", as the official card says it.
///
/// Only for somebody who is not about: for somebody who is, the dot on their
/// face says so and a time would say something else.
pub fn last_online(status: &str, since: i64, now: i64) -> (said: Option<String>)
    requires
        status@ == "online"@ || in_range(since, now),
    ensures
        match said {
            Some(s) => last_online_said(status@, since, now) == Some(s@),
            None => last_online_said(status@, since, now) is None,
        },
{
    if same_text(status, "online") || since <= 0 {
        return None;
    }
    let gap = now - since;
    let minutes: i64 = if gap > 0 {
        gap / 60_000
    } else {
        0
    };
    assert(minutes == minutes_between(since, now));
    if minutes == 0 {
        return Some(String::from_str("Last online just now"));
    }
    let (count, unit): (i64, &str) = if minutes <= 59 {
        (minutes, " min. ago")
    } else if minutes <= 1439 {
        (minutes / 60, " hr. ago")
    } else if minutes <= 2879 {
        return Some(String::from_str("Last online yesterday"));
    } else {
        (minutes / 1440, " days ago")
    };
    let mut said = String::from_str("Last online ");
    let number = spell(count as u64);
    said.append(number.as_str());
    said.append(unit);
    Some(said)
}

/// Which of the things a card says a line is, and so how it is set.
#[derive(Clone, Copy, PartialEq, Eq, Debug, Structural)]
pub enum Shown {
    /// The handle, in the form you would type to reach them.
    Handle,
    /// Their name, which is the thing most readers came to find.
    Name,
    /// Whatever they chose to call themselves.
    Nickname,
    /// What they do there.
    Position,
    /// When they were last about, for somebody who is not about now.
    LastOnline,
}

/// A handle, in the form you would type to reach them.
pub open spec fn handle(username: Seq<char>) -> Seq<char> {
    seq!['@'] + username
}

/// What a card says, line by line: when they were last about if they are
/// not, their name (or their handle when they have none) and then their
/// handle, and then their nickname and position where they have set them.
pub open spec fn lines_of(card: CardView, now: i64) -> Seq<(Seq<char>, Shown)> {
    let since = match last_online_said(card.status, card.last_active, now) {
        Some(said) => seq![(said, Shown::LastOnline)],
        None => Seq::empty(),
    };
    let names = if card.full_name.len() == 0 {
        seq![(handle(card.username), Shown::Name)]
    } else {
        seq![(card.full_name, Shown::Name), (handle(card.username), Shown::Handle)]
    };
    let nickname = if card.nickname.len() == 0 {
        Seq::empty()
    } else {
        seq![(card.nickname, Shown::Nickname)]
    };
    let position = if card.position.len() == 0 {
        Seq::empty()
    } else {
        seq![(card.position, Shown::Position)]
    };
    since + names + nickname + position
}

/// The open card, if one is.
#[derive(Debug)]
pub struct Profile {
    pub of: Option<Card>,
    /// Opened by the press being answered right now: the click that opens the
    /// card must not also close it.
    fresh: bool,
}

/// The card, as the contracts speak of it.
pub struct ProfileView {
    pub of: Option<CardView>,
    pub fresh: bool,
}

impl View for Profile {
    type V = ProfileView;

    closed spec fn view(&self) -> ProfileView {
        ProfileView {
            of: match self.of {
                Some(card) => Some(card@),
                None => None,
            },
            fresh: self.fresh,
        }
    }
}

/// A card shown for `card`.
pub open spec fn shown(card: CardView) -> ProfileView {
    ProfileView { of: Some(card), fresh: true }
}

/// A card put away.
pub open spec fn put_away(card: ProfileView) -> ProfileView {
    ProfileView { of: None, fresh: false }
}

/// What asking whether the press being answered opened the card answers, and
/// the card after the asking.
pub open spec fn opened(card: ProfileView) -> (bool, ProfileView) {
    (card.fresh, ProfileView { fresh: false, ..card })
}

impl Default for Profile {
    fn default() -> (profile: Profile)
        ensures
            profile@.of is None,
            !profile@.fresh,
    {
        Profile { of: None, fresh: false }
    }
}

impl Profile {
    /// Whether a card is open.
    pub fn open(&self) -> (open: bool)
        ensures
            open <==> self@.of is Some,
    {
        self.of.is_some()
    }

    /// Opens the card for `card`, by the press being answered now.
    pub fn show(&mut self, card: Card)
        ensures
            final(self)@ == shown(card@),
    {
        self.of = Some(card);
        self.fresh = true;
    }

    /// Shuts the card.
    pub fn put_away(&mut self)
        ensures
            final(self)@ == put_away(old(self)@),
    {
        self.of = None;
        self.fresh = false;
    }

    /// Whether the press being answered is the one that opened it. Answers
    /// true once.
    pub fn opening(&mut self) -> (was: bool)
        ensures
            (was, final(self)@) == opened(old(self)@),
    {
        let was = self.fresh;
        self.fresh = false;
        was
    }

    /// What the card says, line by line, at `now` in the server's
    /// milliseconds; nothing when it is shut.
    pub fn lines(&self, now: i64) -> (lines: Vec<(String, Shown)>)
        requires
            self@.of matches Some(card) ==> card.status == "online"@ || in_range(
                card.last_active,
                now,
            ),
        ensures
            self@.of is None ==> lines@.len() == 0,
            self@.of matches Some(card) ==> {
                &&& lines@.len() == lines_of(card, now).len()
                &&& forall|i: int|
                    0 <= i < lines@.len() ==> (#[trigger] lines@[i]).0@ == lines_of(card, now)[i].0
                        && lines@[i].1 == lines_of(card, now)[i].1
            },
    {
        let card = match &self.of {
            Some(card) => card,
            None => return Vec::new(),
        };
        let ghost view = card@;
        let ghost since = match last_online_said(view.status, view.last_active, now) {
            Some(said) => seq![(said, Shown::LastOnline)],
            None => Seq::<(Seq<char>, Shown)>::empty(),
        };
        let mut lines: Vec<(String, Shown)> = Vec::new();
        match last_online(card.status.as_str(), card.last_active, now) {
            Some(said) => lines.push((said, Shown::LastOnline)),
            None => {},
        }
        assert(lines@.len() == since.len());
        let at = String::from_str("@");
        proof {
            reveal_strlit("@");
        }
        let handle_line = at.concat(card.username.as_str());
        assert(handle_line@ =~= handle(view.username));
        if card.full_name.as_str().unicode_len() == 0 {
            lines.push((handle_line, Shown::Name));
        } else {
            lines.push((card.full_name.clone(), Shown::Name));
            lines.push((handle_line, Shown::Handle));
        }
        if card.nickname.as_str().unicode_len() != 0 {
            lines.push((card.nickname.clone(), Shown::Nickname));
        }
        if card.position.as_str().unicode_len() != 0 {
            lines.push((card.position.clone(), Shown::Position));
        }
        assert(lines@.len() == lines_of(view, now).len());
        assert forall|i: int| 0 <= i < lines@.len() implies (#[trigger] lines@[i]).0@ == lines_of(
            view,
            now,
        )[i].0 && lines@[i].1 == lines_of(view, now)[i].1 by {}
        lines
    }
}

/// The press that opens a card is the one that opening answers true to, and
/// the only one: asked again, it answers false.
pub proof fn lemma_opening_answers_once(card: CardView)
    ensures
        opened(shown(card)).0,
        !opened(opened(shown(card)).1).0,
        opened(shown(card)).1.of == Some(card),
{
}

/// A card that was put away answers that it is not opening, whether or not
/// anything asked while it was open.
pub proof fn lemma_put_away_is_not_opening(card: ProfileView)
    ensures
        !opened(put_away(card)).0,
{
}

/// Somebody who is online has no last-online line: presence is the dot on
/// the face, never a line of words.
pub proof fn lemma_online_has_no_last_online(card: CardView, now: i64)
    requires
        card.status == "online"@,
    ensures
        forall|i: int|
            0 <= i < lines_of(card, now).len() ==> (#[trigger] lines_of(card, now)[i]).1
                != Shown::LastOnline,
{
}

/// Somebody who is not online, of whom the server has said when they were
/// last about, has that said first on their card, in words that begin "Last
/// online".
pub proof fn lemma_absence_says_since_when(card: CardView, now: i64)
    requires
        card.status != "online"@,
        card.last_active > 0,
    ensures
        lines_of(card, now)[0].1 == Shown::LastOnline,
        lines_of(card, now)[0].0.take(11) == "Last online"@,
{
    reveal_strlit("Last online");
    reveal_strlit("Last online just now");
    reveal_strlit("Last online yesterday");
    reveal_strlit("Last online ");
    let said = last_online_said(card.status, card.last_active, now);
    assert(said is Some);
    let text = said->0;
    assert(lines_of(card, now)[0] == (text, Shown::LastOnline));
    assert(text.take(11) =~= "Last online"@);
}

} // verus!
