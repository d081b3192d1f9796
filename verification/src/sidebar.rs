//! The rows of the list down the left: who the reader is, the threads and
//! drafts rows, what is waiting lifted to the top, and each team's groups of
//! channels under the team's name.
//!
//! What the store holds is read by the program around this module and handed
//! in as plain values; here is what the list is made of them.

use crate::session::same_text;
use vstd::prelude::*;

verus! {

/// Who the reader is, as the top row says it.
#[derive(Debug, Clone, PartialEq, Eq)]
pub struct Me {
    pub name: String,
    pub status: String,
    /// Whether this window is hearing anything.
    pub live: bool,
    /// Why it is not, when it is not.
    pub offline: Option<String>,
    /// The version of the program that is running.
    pub version: String,
}

/// A channel as the sidebar knows it.
#[derive(Debug, Clone, PartialEq, Eq)]
pub struct Channel {
    pub id: String,
    pub display_name: String,
    /// `D` for one other person, `G` for several, `P` for private, `O` for
    /// open.
    pub channel_type: String,
    /// The other person, in a conversation with other people.
    pub counterpart_id: Option<String>,
    /// When that person last changed their picture; 0 when it is not known.
    pub counterpart_avatar_at: i64,
    pub unread: i64,
    pub mentions: i64,
    pub muted: bool,
    /// When the last message was posted in it.
    pub last_post_at: i64,
}

/// A group of channels in one team, in the order the reader arranged them.
#[derive(Debug, Clone, PartialEq, Eq)]
pub struct Group {
    pub team_id: String,
    pub team_name: String,
    pub display_name: String,
    /// `direct_messages` for the group of conversations with people.
    pub category_type: String,
    pub channels: Vec<Channel>,
}

/// One row of the sidebar.
#[derive(Debug, Clone, PartialEq, Eq)]
pub enum Entry {
    Me { name: String, status: String, live: bool, offline: Option<String>, version: String },
    Threads { unread: i64, mentions: i64 },
    Drafts { count: usize },
    Team { id: String, label: String },
    Heading { label: String, directs: bool },
    Channel {
        id: String,
        label: String,
        unread: i64,
        mentions: i64,
        muted: bool,
        direct: bool,
        private: bool,
        counterpart: Option<String>,
        counterpart_avatar_at: i64,
    },
}

/// A row, as the contracts speak of it.
pub enum EntryView {
    Me {
        name: Seq<char>,
        status: Seq<char>,
        live: bool,
        offline: Option<Seq<char>>,
        version: Seq<char>,
    },
    Threads { unread: i64, mentions: i64 },
    Drafts { count: usize },
    Team { id: Seq<char>, label: Seq<char> },
    Heading { label: Seq<char>, directs: bool },
    Channel {
        id: Seq<char>,
        label: Seq<char>,
        unread: i64,
        mentions: i64,
        muted: bool,
        direct: bool,
        private: bool,
        counterpart: Option<Seq<char>>,
        counterpart_avatar_at: i64,
    },
}

/// An optional piece of text, by what it says.
pub open spec fn text_of(text: Option<String>) -> Option<Seq<char>> {
    match text {
        Some(t) => Some(t@),
        None => None,
    }
}

impl View for Entry {
    type V = EntryView;

    open spec fn view(&self) -> EntryView {
        match *self {
            Entry::Me { name, status, live, offline, version } => EntryView::Me {
                name: name@,
                status: status@,
                live,
                offline: text_of(offline),
                version: version@,
            },
            Entry::Threads { unread, mentions } => EntryView::Threads { unread, mentions },
            Entry::Drafts { count } => EntryView::Drafts { count },
            Entry::Team { id, label } => EntryView::Team { id: id@, label: label@ },
            Entry::Heading { label, directs } => EntryView::Heading { label: label@, directs },
            Entry::Channel {
                id,
                label,
                unread,
                mentions,
                muted,
                direct,
                private,
                counterpart,
                counterpart_avatar_at,
            } => EntryView::Channel {
                id: id@,
                label: label@,
                unread,
                mentions,
                muted,
                direct,
                private,
                counterpart: text_of(counterpart),
                counterpart_avatar_at,
            },
        }
    }
}

/// The rows, as the contracts speak of them.
pub open spec fn viewed(entries: Seq<Entry>) -> Seq<EntryView> {
    entries.map_values(|entry: Entry| entry@)
}

/// The top row.
pub open spec fn me_row(me: Me) -> EntryView {
    EntryView::Me {
        name: me.name@,
        status: me.status@,
        live: me.live,
        offline: text_of(me.offline),
        version: me.version@,
    }
}

/// A channel's row. Without a reader nothing is counted: the store then
/// answers with each channel's total, which is no unread count.
pub open spec fn channel_row(channel: Channel, counted: bool) -> EntryView {
    let kind = channel.channel_type@;
    EntryView::Channel {
        id: channel.id@,
        label: channel.display_name@,
        unread: if counted {
            channel.unread
        } else {
            0
        },
        mentions: if counted {
            channel.mentions
        } else {
            0
        },
        muted: channel.muted,
        direct: kind == "D"@ || kind == "G"@,
        private: kind == "P"@,
        counterpart: if kind == "D"@ {
            text_of(channel.counterpart_id)
        } else {
            None
        },
        counterpart_avatar_at: channel.counterpart_avatar_at,
    }
}

/// The rows of some channels, in order.
pub open spec fn channel_rows(channels: Seq<Channel>, counted: bool) -> Seq<EntryView> {
    channels.map_values(|channel: Channel| channel_row(channel, counted))
}

/// Whether a channel asks to be lifted to the top: something is unread in it
/// and it is not muted.
pub open spec fn asking(channel: Channel) -> bool {
    channel.unread > 0 && !channel.muted
}

/// The channels that ask, in order.
pub open spec fn asking_of(channels: Seq<Channel>) -> Seq<Channel>
    decreases channels.len(),
{
    if channels.len() == 0 {
        channels
    } else if asking(channels.last()) {
        asking_of(channels.drop_last()).push(channels.last())
    } else {
        asking_of(channels.drop_last())
    }
}

/// The channels that stay where they are, in order.
pub open spec fn staying_of(channels: Seq<Channel>) -> Seq<Channel>
    decreases channels.len(),
{
    if channels.len() == 0 {
        channels
    } else if asking(channels.last()) {
        staying_of(channels.drop_last())
    } else {
        staying_of(channels.drop_last()).push(channels.last())
    }
}

/// What a group shows under its heading: all its channels, or, where the
/// waiting ones were lifted out, those that stayed.
pub open spec fn shown_of(channels: Seq<Channel>, lifted: bool) -> Seq<Channel> {
    if lifted {
        staying_of(channels)
    } else {
        channels
    }
}

/// Every channel that asks, group after group.
pub open spec fn waiting_in(groups: Seq<Group>) -> Seq<Channel>
    decreases groups.len(),
{
    if groups.len() == 0 {
        Seq::empty()
    } else {
        waiting_in(groups.drop_last()) + asking_of(groups.last().channels@)
    }
}

/// Where a channel posted to at `at` goes among channels newest first: before
/// the first one that is older, after all that are as new or newer.
pub open spec fn slot_for(sorted: Seq<Channel>, at: i64) -> int
    decreases sorted.len(),
{
    if sorted.len() == 0 {
        0
    } else if sorted[0].last_post_at < at {
        0
    } else {
        1 + slot_for(sorted.drop_first(), at)
    }
}

/// The channels, newest post first; those posted to at the same moment keep
/// the order they came in.
pub open spec fn newest_first(channels: Seq<Channel>) -> Seq<Channel>
    decreases channels.len(),
{
    if channels.len() == 0 {
        channels
    } else {
        let sorted = newest_first(channels.drop_last());
        sorted.insert(slot_for(sorted, channels.last().last_post_at), channels.last())
    }
}

/// The groups' rows: a team's name once above its groups, each group's
/// heading, then its channels. A group with nothing to show has no rows, and
/// a team with no name has no row of its own. `team` is the name of the team
/// whose groups came last.
pub open spec fn grouped(groups: Seq<Group>, team: Seq<char>, counted: bool, lifted: bool) -> Seq<
    EntryView,
>
    decreases groups.len(),
{
    if groups.len() == 0 {
        Seq::empty()
    } else {
        let group = groups[0];
        let rest = groups.drop_first();
        let shown = shown_of(group.channels@, lifted);
        if shown.len() == 0 {
            grouped(rest, team, counted, lifted)
        } else {
            let lead = if group.team_name@ != team && group.team_name@.len() > 0 {
                seq![EntryView::Team { id: group.team_id@, label: group.team_name@ }]
            } else {
                Seq::empty()
            };
            let next = if group.team_name@ != team {
                group.team_name@
            } else {
                team
            };
            lead + seq![
                EntryView::Heading {
                    label: group.display_name@,
                    directs: group.category_type@ == "direct_messages"@,
                },
            ] + channel_rows(shown, counted) + grouped(rest, next, counted, lifted)
        }
    }
}

/// The whole list: who the reader is; with a reader, the threads row and,
/// when there are any, the drafts row; where waiting rows are lifted, those
/// under a heading of their own, newest first; then the groups.
pub open spec fn entries_of(
    me: Me,
    counted: bool,
    threads: (i64, i64),
    drafts: usize,
    lifts: bool,
    unreads: Seq<char>,
    groups: Seq<Group>,
) -> Seq<EntryView> {
    let head = if counted {
        let threads_row = seq![
            EntryView::Threads { unread: threads.0, mentions: threads.1 },
        ];
        if drafts > 0 {
            seq![me_row(me)] + threads_row + seq![EntryView::Drafts { count: drafts }]
        } else {
            seq![me_row(me)] + threads_row
        }
    } else {
        seq![me_row(me)]
    };
    let lifted = counted && lifts;
    let waiting = if lifted {
        waiting_in(groups)
    } else {
        Seq::empty()
    };
    let top = if waiting.len() > 0 {
        seq![EntryView::Heading { label: unreads, directs: false }] + channel_rows(
            newest_first(waiting),
            counted,
        )
    } else {
        Seq::empty()
    };
    head + top + grouped(groups, Seq::empty(), counted, lifted)
}

/// Whether channels come newest post first.
pub open spec fn is_newest_first(channels: Seq<Channel>) -> bool {
    forall|a: int, b: int|
        0 <= a < b < channels.len() ==> #[trigger] channels[a].last_post_at
            >= #[trigger] channels[b].last_post_at
}

/// Whether every channel asks to be lifted.
pub open spec fn all_asking(channels: Seq<Channel>) -> bool {
    forall|k: int| 0 <= k < channels.len() ==> #[trigger] asking(channels[k])
}

proof fn lemma_slot_bounds(sorted: Seq<Channel>, at: i64)
    ensures
        0 <= slot_for(sorted, at) <= sorted.len(),
        forall|q: int| 0 <= q < slot_for(sorted, at) ==> #[trigger] sorted[q].last_post_at >= at,
        slot_for(sorted, at) < sorted.len() ==> sorted[slot_for(sorted, at)].last_post_at < at,
    decreases sorted.len(),
{
    if sorted.len() > 0 && sorted[0].last_post_at >= at {
        let rest = sorted.drop_first();
        lemma_slot_bounds(rest, at);
        assert forall|q: int| 0 <= q < slot_for(sorted, at) implies #[trigger] sorted[q].last_post_at
            >= at by {
            if q > 0 {
                assert(sorted[q] == rest[q - 1]);
            }
        }
        if slot_for(sorted, at) < sorted.len() {
            assert(sorted[slot_for(sorted, at)] == rest[slot_for(rest, at)]);
        }
    }
}

proof fn lemma_newest_first(channels: Seq<Channel>)
    ensures
        newest_first(channels).len() == channels.len(),
        is_newest_first(newest_first(channels)),
        all_asking(channels) ==> all_asking(newest_first(channels)),
        newest_first(channels).to_multiset() == channels.to_multiset(),
    decreases channels.len(),
{
    if channels.len() > 0 {
        let before = channels.drop_last();
        let x = channels.last();
        let sorted = newest_first(before);
        lemma_newest_first(before);
        lemma_slot_bounds(sorted, x.last_post_at);
        let p = slot_for(sorted, x.last_post_at);
        let after = sorted.insert(p, x);
        assert(after == newest_first(channels));
        vstd::seq_lib::to_multiset_insert(sorted, p, x);
        vstd::seq_lib::to_multiset_build(before, x);
        assert(before.push(x) =~= channels);
        assert forall|a: int, b: int| 0 <= a < b < after.len() implies #[trigger] after[a].last_post_at
            >= #[trigger] after[b].last_post_at by {
            if b < p {
                assert(after[a] == sorted[a] && after[b] == sorted[b]);
            } else if b == p {
                assert(after[a] == sorted[a]);
            } else if a < p {
                assert(after[a] == sorted[a] && after[b] == sorted[b - 1]);
                assert(sorted[a].last_post_at >= sorted[b - 1].last_post_at);
            } else if a == p {
                assert(after[b] == sorted[b - 1]);
                if b - 1 > p {
                    assert(sorted[p].last_post_at >= sorted[b - 1].last_post_at);
                }
            } else {
                assert(after[a] == sorted[a - 1] && after[b] == sorted[b - 1]);
            }
        }
        if all_asking(channels) {
            assert forall|k: int| 0 <= k < before.len() implies #[trigger] asking(before[k]) by {
                assert(before[k] == channels[k]);
            }
            assert(asking(channels[channels.len() - 1]));
            assert forall|k: int| 0 <= k < after.len() implies #[trigger] asking(after[k]) by {
                if k < p {
                    assert(after[k] == sorted[k]);
                } else if k > p {
                    assert(after[k] == sorted[k - 1]);
                }
            }
        }
    }
}

proof fn lemma_asking_of(channels: Seq<Channel>)
    ensures
        all_asking(asking_of(channels)),
    decreases channels.len(),
{
    if channels.len() > 0 {
        lemma_asking_of(channels.drop_last());
    }
}

proof fn lemma_waiting_asks(groups: Seq<Group>)
    ensures
        all_asking(waiting_in(groups)),
    decreases groups.len(),
{
    if groups.len() > 0 {
        lemma_waiting_asks(groups.drop_last());
        lemma_asking_of(groups.last().channels@);
        let a = waiting_in(groups.drop_last());
        let b = asking_of(groups.last().channels@);
        assert forall|k: int| 0 <= k < (a + b).len() implies #[trigger] asking((a + b)[k]) by {
            if k < a.len() {
                assert((a + b)[k] == a[k]);
            } else {
                assert((a + b)[k] == b[k - a.len()]);
            }
        }
    }
}

/// What is lifted to the top asks to be there: every channel under that
/// heading has something unread and is not muted, however much a muted one
/// holds; they come newest post first; and they are the channels that ask,
/// each once, neither one more nor one less.
pub proof fn lemma_lifted_rows_ask_and_come_newest_first(groups: Seq<Group>)
    ensures
        all_asking(newest_first(waiting_in(groups))),
        is_newest_first(newest_first(waiting_in(groups))),
        newest_first(waiting_in(groups)).len() == waiting_in(groups).len(),
        newest_first(waiting_in(groups)).to_multiset() == waiting_in(groups).to_multiset(),
{
    lemma_waiting_asks(groups);
    lemma_newest_first(waiting_in(groups));
}

/// Whether every heading in `rows` has a channel straight under it, and every
/// team's name a heading straight under it: no heading stands over nothing.
pub open spec fn nothing_stands_empty(rows: Seq<EntryView>) -> bool {
    &&& forall|k: int|
        0 <= k < rows.len() && (#[trigger] rows[k]) is Heading ==> k + 1 < rows.len()
            && rows[k + 1] is Channel
    &&& forall|k: int|
        0 <= k < rows.len() && (#[trigger] rows[k]) is Team ==> k + 1 < rows.len()
            && rows[k + 1] is Heading
}

proof fn lemma_nothing_stands_empty_joined(a: Seq<EntryView>, b: Seq<EntryView>)
    requires
        nothing_stands_empty(a),
        nothing_stands_empty(b),
    ensures
        nothing_stands_empty(a + b),
{
    let all = a + b;
    assert forall|k: int| 0 <= k < all.len() && (#[trigger] all[k]) is Heading implies k + 1
        < all.len() && all[k + 1] is Channel by {
        if k < a.len() {
            assert(all[k] == a[k]);
            assert(all[k + 1] == a[k + 1]);
        } else {
            assert(all[k] == b[k - a.len()]);
            assert(all[k + 1] == b[k + 1 - a.len()]);
        }
    }
    assert forall|k: int| 0 <= k < all.len() && (#[trigger] all[k]) is Team implies k + 1
        < all.len() && all[k + 1] is Heading by {
        if k < a.len() {
            assert(all[k] == a[k]);
            assert(all[k + 1] == a[k + 1]);
        } else {
            assert(all[k] == b[k - a.len()]);
            assert(all[k + 1] == b[k + 1 - a.len()]);
        }
    }
}

/// A heading with at least one channel under it stands over something.
proof fn lemma_heading_over_channels(heading: EntryView, channels: Seq<Channel>, counted: bool)
    requires
        heading is Heading,
        channels.len() > 0,
    ensures
        nothing_stands_empty(seq![heading] + channel_rows(channels, counted)),
        nothing_stands_empty(channel_rows(channels, counted)),
{
    let rows = channel_rows(channels, counted);
    assert forall|k: int| 0 <= k < rows.len() implies (#[trigger] rows[k]) is Channel by {
        assert(rows[k] == channel_row(channels[k], counted));
    }
    let all = seq![heading] + rows;
    assert forall|k: int| 0 < k < all.len() implies (#[trigger] all[k]) is Channel by {
        assert(all[k] == rows[k - 1]);
    }
    assert(all[1] == rows[0]);
}

proof fn lemma_grouped_stands_over_something(
    groups: Seq<Group>,
    team: Seq<char>,
    counted: bool,
    lifted: bool,
)
    ensures
        nothing_stands_empty(grouped(groups, team, counted, lifted)),
        grouped(groups, team, counted, lifted).len() > 0 ==> grouped(groups, team, counted, lifted)[0] is Team
            || grouped(groups, team, counted, lifted)[0] is Heading,
    decreases groups.len(),
{
    if groups.len() > 0 {
        let group = groups[0];
        let rest = groups.drop_first();
        let shown = shown_of(group.channels@, lifted);
        let next = if group.team_name@ != team {
            group.team_name@
        } else {
            team
        };
        lemma_grouped_stands_over_something(rest, team, counted, lifted);
        lemma_grouped_stands_over_something(rest, next, counted, lifted);
        if shown.len() > 0 {
            let heading = EntryView::Heading {
                label: group.display_name@,
                directs: group.category_type@ == "direct_messages"@,
            };
            let lead = if group.team_name@ != team && group.team_name@.len() > 0 {
                seq![EntryView::Team { id: group.team_id@, label: group.team_name@ }]
            } else {
                Seq::empty()
            };
            let body = seq![heading] + channel_rows(shown, counted);
            lemma_heading_over_channels(heading, shown, counted);
            let after = grouped(rest, next, counted, lifted);
            lemma_nothing_stands_empty_joined(body, after);
            let tail = body + after;
            assert(tail[0] == heading);
            if lead.len() > 0 {
                let whole = lead + tail;
                assert forall|k: int| 0 <= k < whole.len() && (#[trigger] whole[k]) is Heading
                    implies k + 1 < whole.len() && whole[k + 1] is Channel by {
                    assert(k > 0);
                    assert(whole[k] == tail[k - 1]);
                    assert(whole[k + 1] == tail[k]);
                }
                assert forall|k: int| 0 <= k < whole.len() && (#[trigger] whole[k]) is Team
                    implies k + 1 < whole.len() && whole[k + 1] is Heading by {
                    if k == 0 {
                        assert(whole[1] == tail[0]);
                    } else {
                        assert(whole[k] == tail[k - 1]);
                        assert(whole[k + 1] == tail[k]);
                    }
                }
                assert(grouped(groups, team, counted, lifted) =~= whole);
            } else {
                assert(grouped(groups, team, counted, lifted) =~= tail);
            }
        }
    }
}

/// No heading stands over nothing: in the whole list, every heading -- the
/// one over the lifted rows and each group's -- has a channel straight under
/// it, and every team's name a heading straight under it. So a group whose
/// channels were all lifted to the top, or that had none, puts no rows in.
pub proof fn lemma_no_heading_stands_empty(
    me: Me,
    counted: bool,
    threads: (i64, i64),
    drafts: usize,
    lifts: bool,
    unreads: Seq<char>,
    groups: Seq<Group>,
)
    ensures
        nothing_stands_empty(entries_of(me, counted, threads, drafts, lifts, unreads, groups)),
{
    let threads_row = seq![EntryView::Threads { unread: threads.0, mentions: threads.1 }];
    let head = if counted {
        if drafts > 0 {
            seq![me_row(me)] + threads_row + seq![EntryView::Drafts { count: drafts }]
        } else {
            seq![me_row(me)] + threads_row
        }
    } else {
        seq![me_row(me)]
    };
    assert(nothing_stands_empty(head)) by {
        assert forall|k: int| 0 <= k < head.len() implies !((#[trigger] head[k]) is Heading) && !(
        head[k] is Team) by {
            if counted {
                if drafts > 0 {
                    assert(head =~= seq![me_row(me), threads_row[0], EntryView::Drafts { count: drafts }]);
                } else {
                    assert(head =~= seq![me_row(me), threads_row[0]]);
                }
            }
        }
    }
    let lifted = counted && lifts;
    let waiting = if lifted {
        waiting_in(groups)
    } else {
        Seq::empty()
    };
    let top = if waiting.len() > 0 {
        seq![EntryView::Heading { label: unreads, directs: false }] + channel_rows(
            newest_first(waiting),
            counted,
        )
    } else {
        Seq::empty()
    };
    if waiting.len() > 0 {
        lemma_newest_first(waiting);
        lemma_heading_over_channels(
            EntryView::Heading { label: unreads, directs: false },
            newest_first(waiting),
            counted,
        );
    } else {
        assert(nothing_stands_empty(top));
    }
    lemma_grouped_stands_over_something(groups, Seq::empty(), counted, lifted);
    lemma_nothing_stands_empty_joined(head, top);
    lemma_nothing_stands_empty_joined(head + top, grouped(groups, Seq::empty(), counted, lifted));
}

/// Whether a row is one a group contributes: a team's name, a heading or a
/// channel, and a channel counted only where `counted`.
pub open spec fn group_row(row: EntryView, counted: bool) -> bool {
    &&& (row is Team || row is Heading || row is Channel)
    &&& (!counted ==> (row matches EntryView::Channel { unread, mentions, .. } ==> unread == 0
        && mentions == 0))
}

proof fn lemma_channel_rows_are_group_rows(channels: Seq<Channel>, counted: bool)
    ensures
        forall|k: int|
            0 <= k < channel_rows(channels, counted).len() ==> group_row(
                #[trigger] channel_rows(channels, counted)[k],
                counted,
            ),
{
    assert forall|k: int| 0 <= k < channel_rows(channels, counted).len() implies group_row(
        #[trigger] channel_rows(channels, counted)[k],
        counted,
    ) by {
        assert(channel_rows(channels, counted)[k] == channel_row(channels[k], counted));
    }
}

proof fn lemma_grouped_rows(groups: Seq<Group>, team: Seq<char>, counted: bool, lifted: bool)
    ensures
        forall|k: int|
            0 <= k < grouped(groups, team, counted, lifted).len() ==> group_row(
                #[trigger] grouped(groups, team, counted, lifted)[k],
                counted,
            ),
    decreases groups.len(),
{
    if groups.len() > 0 {
        let group = groups[0];
        let rest = groups.drop_first();
        let shown = shown_of(group.channels@, lifted);
        let next = if group.team_name@ != team {
            group.team_name@
        } else {
            team
        };
        lemma_grouped_rows(rest, team, counted, lifted);
        lemma_grouped_rows(rest, next, counted, lifted);
        if shown.len() > 0 {
            let lead = if group.team_name@ != team && group.team_name@.len() > 0 {
                seq![EntryView::Team { id: group.team_id@, label: group.team_name@ }]
            } else {
                Seq::empty()
            };
            let heading = seq![
                EntryView::Heading {
                    label: group.display_name@,
                    directs: group.category_type@ == "direct_messages"@,
                },
            ];
            let rows = channel_rows(shown, counted);
            let after = grouped(rest, next, counted, lifted);
            lemma_channel_rows_are_group_rows(shown, counted);
            let all = lead + heading + rows + after;
            assert(grouped(groups, team, counted, lifted) == all);
            assert forall|k: int| 0 <= k < all.len() implies group_row(#[trigger] all[k], counted) by {
                if k < lead.len() {
                    assert(all[k] == lead[k]);
                } else if k < lead.len() + 1 {
                    assert(all[k] == heading[k - lead.len()]);
                } else if k < lead.len() + 1 + rows.len() {
                    assert(all[k] == rows[k - lead.len() - 1]);
                } else {
                    assert(all[k] == after[k - lead.len() - 1 - rows.len()]);
                }
            }
        } else {
            assert(grouped(groups, team, counted, lifted) == grouped(rest, team, counted, lifted));
        }
    }
}

/// Before the server has said who the reader is nothing is counted or
/// lifted: the list is the reader's row and then only the groups' rows --
/// no threads row, no drafts row, no heading over lifted rows -- and every
/// channel in it says nothing is unread or mentioned.
pub proof fn lemma_without_a_reader_nothing_is_counted(
    me: Me,
    threads: (i64, i64),
    drafts: usize,
    lifts: bool,
    unreads: Seq<char>,
    groups: Seq<Group>,
)
    ensures
        ({
            let rows = entries_of(me, false, threads, drafts, lifts, unreads, groups);
            &&& rows[0] == me_row(me)
            &&& rows == seq![me_row(me)] + grouped(groups, Seq::empty(), false, false)
            &&& forall|k: int| 1 <= k < rows.len() ==> group_row(#[trigger] rows[k], false)
        }),
{
    let rows = entries_of(me, false, threads, drafts, lifts, unreads, groups);
    let rest = grouped(groups, Seq::empty(), false, false);
    lemma_grouped_rows(groups, Seq::empty(), false, false);
    assert(rows =~= seq![me_row(me)] + rest);
    assert forall|k: int| 1 <= k < rows.len() implies group_row(#[trigger] rows[k], false) by {
        assert(rows[k] == rest[k - 1]);
    }
}

/// With a reader and lifting asked for, when anything asks to be lifted the
/// heading over the lifted rows comes straight after the reader's, threads
/// and drafts rows, and under it come as many channel rows as there are
/// channels that ask, each with something unread in it and none muted: the
/// rows of exactly those channels, newest post first.
pub proof fn lemma_lifted_rows_have_something_unread(
    me: Me,
    threads: (i64, i64),
    drafts: usize,
    unreads: Seq<char>,
    groups: Seq<Group>,
)
    requires
        waiting_in(groups).len() > 0,
    ensures
        ({
            let rows = entries_of(me, true, threads, drafts, true, unreads, groups);
            let h = if drafts > 0 {
                3int
            } else {
                2int
            };
            &&& rows[h] == (EntryView::Heading { label: unreads, directs: false })
            &&& forall|k: int|
                h < k <= h + waiting_in(groups).len() ==> (#[trigger] rows[k] matches EntryView::Channel {
                    unread,
                    muted,
                    ..
                } && unread > 0 && !muted)
            &&& exists|lifted: Seq<Channel>|
                #![trigger lifted.to_multiset()]
                lifted.len() == waiting_in(groups).len() && is_newest_first(lifted)
                    && lifted.to_multiset() == waiting_in(groups).to_multiset() && forall|k: int|
                    0 <= k < lifted.len() ==> rows[h + 1 + k] == channel_row(
                        #[trigger] lifted[k],
                        true,
                    )
        }),
{
    let rows = entries_of(me, true, threads, drafts, true, unreads, groups);
    let waiting = waiting_in(groups);
    lemma_lifted_rows_ask_and_come_newest_first(groups);
    let sorted = newest_first(waiting);
    let lifted = channel_rows(sorted, true);
    let threads_row = seq![EntryView::Threads { unread: threads.0, mentions: threads.1 }];
    let head = if drafts > 0 {
        seq![me_row(me)] + threads_row + seq![EntryView::Drafts { count: drafts }]
    } else {
        seq![me_row(me)] + threads_row
    };
    let h = if drafts > 0 {
        3int
    } else {
        2int
    };
    assert(head.len() == h);
    let top = seq![EntryView::Heading { label: unreads, directs: false }] + lifted;
    let rest = grouped(groups, Seq::empty(), true, true);
    assert(rows == head + top + rest);
    assert(rows[h] == top[0]);
    assert forall|k: int| h < k <= h + waiting.len() implies (#[trigger] rows[k] matches EntryView::Channel {
        unread,
        muted,
        ..
    } && unread > 0 && !muted) by {
        assert(rows[k] == top[k - h]);
        assert(top[k - h] == lifted[k - h - 1]);
        assert(lifted[k - h - 1] == channel_row(sorted[k - h - 1], true));
        assert(asking(sorted[k - h - 1]));
    }
    assert forall|k: int| 0 <= k < sorted.len() implies rows[h + 1 + k] == channel_row(
        #[trigger] sorted[k],
        true,
    ) by {
        assert(rows[h + 1 + k] == top[k + 1]);
        assert(top[k + 1] == lifted[k]);
    }
    assert(sorted.to_multiset() == waiting.to_multiset());
}

proof fn lemma_asking_of_holds(channels: Seq<Channel>)
    ensures
        forall|c: Channel| asking_of(channels).contains(c) <==> (channels.contains(c) && c.unread > 0 && !c.muted),
    decreases channels.len(),
{
    if channels.len() > 0 {
        let init = channels.drop_last();
        lemma_asking_of_holds(init);
        assert(channels =~= init.push(channels.last()));
        assert forall|c: Channel| asking_of(channels).contains(c) <==> (channels.contains(c) && c.unread > 0
            && !c.muted) by {
            if channels.contains(c) {
                let i = choose|i: int| 0 <= i < channels.len() && channels[i] == c;
                if i < init.len() {
                    assert(init[i] == c);
                }
            }
            if init.contains(c) {
                let i = choose|i: int| 0 <= i < init.len() && init[i] == c;
                assert(channels[i] == c);
            }
            if asking(channels.last()) {
                assert(asking_of(channels) == asking_of(init).push(channels.last()));
                if asking_of(channels).contains(c) && c != channels.last() {
                    let i = choose|i: int| 0 <= i < asking_of(channels).len() && asking_of(channels)[i] == c;
                    assert(asking_of(init)[i] == c);
                }
                if asking_of(init).contains(c) {
                    let i = choose|i: int| 0 <= i < asking_of(init).len() && asking_of(init)[i] == c;
                    assert(asking_of(channels)[i] == c);
                }
                assert(asking_of(channels)[asking_of(init).len() as int] == channels.last());
            }
        }
    }
}

/// What asks to be lifted is exactly every channel, in any group, with
/// something unread in it and not muted.
pub proof fn lemma_waiting_is_every_unmuted_unread(groups: Seq<Group>)
    ensures
        forall|c: Channel|
            waiting_in(groups).contains(c) <==> (exists|g: int|
                0 <= g < groups.len() && (#[trigger] groups[g]).channels@.contains(c)) && c.unread > 0
                && !c.muted,
    decreases groups.len(),
{
    if groups.len() > 0 {
        let init = groups.drop_last();
        lemma_waiting_is_every_unmuted_unread(init);
        let last = groups.last().channels@;
        lemma_asking_of_holds(last);
        let a = waiting_in(init);
        let b = asking_of(last);
        assert(waiting_in(groups) == a + b);
        assert forall|c: Channel| waiting_in(groups).contains(c) <==> (exists|g: int|
            0 <= g < groups.len() && (#[trigger] groups[g]).channels@.contains(c)) && c.unread > 0
            && !c.muted by {
            if (a + b).contains(c) {
                let i = choose|i: int| 0 <= i < (a + b).len() && (a + b)[i] == c;
                if i < a.len() {
                    assert(a[i] == c);
                    assert(a.contains(c));
                    let g = choose|g: int| 0 <= g < init.len() && (#[trigger] init[g]).channels@.contains(c);
                    assert(groups[g] == init[g]);
                } else {
                    assert(b[i - a.len()] == c);
                    assert(b.contains(c));
                    assert(groups[groups.len() - 1] == groups.last());
                    assert(groups[groups.len() - 1].channels@.contains(c));
                }
            }
            if exists|g: int| 0 <= g < groups.len() && (#[trigger] groups[g]).channels@.contains(c) {
                let g = choose|g: int| 0 <= g < groups.len() && (#[trigger] groups[g]).channels@.contains(c);
                if c.unread > 0 && !c.muted {
                    if g < init.len() {
                        assert(init[g] == groups[g]);
                        assert(init[g].channels@.contains(c));
                        assert(a.contains(c));
                        let i = choose|i: int| 0 <= i < a.len() && a[i] == c;
                        assert((a + b)[i] == c);
                        assert((a + b).contains(c));
                    } else {
                        assert(groups[g] == groups.last());
                        assert(b.contains(c));
                        let i = choose|i: int| 0 <= i < b.len() && b[i] == c;
                        assert((a + b)[a.len() + i] == c);
                        assert((a + b).contains(c));
                    }
                }
            }
        }
    }
}

fn copy_text(text: &Option<String>) -> (copy: Option<String>)
    ensures
        copy == *text,
{
    match text {
        Some(t) => Some(t.clone()),
        None => None,
    }
}

fn copy_channel(channel: &Channel) -> (copy: Channel)
    ensures
        copy == *channel,
{
    Channel {
        id: channel.id.clone(),
        display_name: channel.display_name.clone(),
        channel_type: channel.channel_type.clone(),
        counterpart_id: copy_text(&channel.counterpart_id),
        counterpart_avatar_at: channel.counterpart_avatar_at,
        unread: channel.unread,
        mentions: channel.mentions,
        muted: channel.muted,
        last_post_at: channel.last_post_at,
    }
}

/// A channel's row.
fn row_of(channel: &Channel, counted: bool) -> (entry: Entry)
    ensures
        entry@ == channel_row(*channel, counted),
{
    let kind = channel.channel_type.as_str();
    proof {
        reveal_strlit("D");
        reveal_strlit("G");
        reveal_strlit("P");
    }
    let one = same_text(kind, "D");
    Entry::Channel {
        id: channel.id.clone(),
        label: channel.display_name.clone(),
        unread: if counted {
            channel.unread
        } else {
            0
        },
        mentions: if counted {
            channel.mentions
        } else {
            0
        },
        muted: channel.muted,
        direct: one || same_text(kind, "G"),
        private: same_text(kind, "P"),
        counterpart: if one {
            copy_text(&channel.counterpart_id)
        } else {
            None
        },
        counterpart_avatar_at: channel.counterpart_avatar_at,
    }
}

/// Where `p` is past every channel as new as `at` or newer and at one that is
/// older (or at the end), it is the slot for `at`.
proof fn lemma_slot_for(sorted: Seq<Channel>, at: i64, p: int)
    requires
        0 <= p <= sorted.len(),
        forall|q: int| 0 <= q < p ==> #[trigger] sorted[q].last_post_at >= at,
        p == sorted.len() || sorted[p].last_post_at < at,
    ensures
        slot_for(sorted, at) == p,
    decreases p,
{
    if p > 0 {
        let rest = sorted.drop_first();
        assert forall|q: int| 0 <= q < p - 1 implies #[trigger] rest[q].last_post_at >= at by {
            assert(rest[q] == sorted[q + 1]);
        }
        if p < sorted.len() {
            assert(rest[p - 1] == sorted[p]);
        }
        lemma_slot_for(rest, at, p - 1);
    }
}

/// Puts a channel among channels that are newest first, after every one that
/// is as new or newer.
fn insert_newest(sorted: &mut Vec<Channel>, channel: Channel)
    ensures
        final(sorted)@ == old(sorted)@.insert(slot_for(old(sorted)@, channel.last_post_at), channel),
{
    let mut p: usize = 0;
    while p < sorted.len() && sorted[p].last_post_at >= channel.last_post_at
        invariant
            sorted@ == old(sorted)@,
            p <= sorted@.len(),
            forall|q: int| 0 <= q < p ==> #[trigger] sorted@[q].last_post_at >= channel.last_post_at,
        decreases sorted@.len() - p,
    {
        p = p + 1;
    }
    proof {
        lemma_slot_for(sorted@, channel.last_post_at, p as int);
    }
    sorted.insert(p, channel);
}

/// The channels, newest post first.
fn by_newest(channels: &Vec<Channel>) -> (sorted: Vec<Channel>)
    ensures
        sorted@ == newest_first(channels@),
{
    let mut sorted: Vec<Channel> = Vec::new();
    let mut i: usize = 0;
    assert(channels@.take(0) =~= Seq::<Channel>::empty());
    while i < channels.len()
        invariant
            i <= channels@.len(),
            sorted@ == newest_first(channels@.take(i as int)),
        decreases channels@.len() - i,
    {
        assert(channels@.take(i + 1).drop_last() =~= channels@.take(i as int));
        assert(channels@.take(i + 1).last() == channels@[i as int]);
        let copy = copy_channel(&channels[i]);
        insert_newest(&mut sorted, copy);
        i = i + 1;
    }
    assert(channels@.take(channels@.len() as int) =~= channels@);
    sorted
}

/// Adds the channels that ask to be lifted, in order.
fn gather_asking(channels: &Vec<Channel>, waiting: &mut Vec<Channel>)
    ensures
        final(waiting)@ == old(waiting)@ + asking_of(channels@),
{
    let mut j: usize = 0;
    assert(channels@.take(0) =~= Seq::<Channel>::empty());
    assert(old(waiting)@ + asking_of(channels@.take(0)) =~= old(waiting)@);
    while j < channels.len()
        invariant
            j <= channels@.len(),
            waiting@ == old(waiting)@ + asking_of(channels@.take(j as int)),
        decreases channels@.len() - j,
    {
        let ghost before = channels@.take(j as int);
        assert(channels@.take(j + 1).drop_last() =~= before);
        assert(channels@.take(j + 1).last() == channels@[j as int]);
        let channel = &channels[j];
        if channel.unread > 0 && !channel.muted {
            let copy = copy_channel(channel);
            waiting.push(copy);
            assert(waiting@ =~= old(waiting)@ + asking_of(before).push(channels@[j as int]));
        }
        j = j + 1;
    }
    assert(channels@.take(channels@.len() as int) =~= channels@);
}

/// Every channel that asks to be lifted, group after group.
fn gather_waiting(groups: &Vec<Group>) -> (waiting: Vec<Channel>)
    ensures
        waiting@ == waiting_in(groups@),
{
    let mut waiting: Vec<Channel> = Vec::new();
    let mut i: usize = 0;
    assert(groups@.take(0) =~= Seq::<Group>::empty());
    while i < groups.len()
        invariant
            i <= groups@.len(),
            waiting@ == waiting_in(groups@.take(i as int)),
        decreases groups@.len() - i,
    {
        assert(groups@.take(i + 1).drop_last() =~= groups@.take(i as int));
        assert(groups@.take(i + 1).last() == groups@[i as int]);
        gather_asking(&groups[i].channels, &mut waiting);
        i = i + 1;
    }
    assert(groups@.take(groups@.len() as int) =~= groups@);
    waiting
}

/// The rows a group shows: of all its channels, or of those that stayed.
fn rows_for(channels: &Vec<Channel>, counted: bool, lifted: bool) -> (rows: Vec<Entry>)
    ensures
        viewed(rows@) == channel_rows(shown_of(channels@, lifted), counted),
{
    let mut rows: Vec<Entry> = Vec::new();
    let mut j: usize = 0;
    assert(channels@.take(0) =~= Seq::<Channel>::empty());
    assert(viewed(rows@) =~= channel_rows(shown_of(channels@.take(0), lifted), counted));
    while j < channels.len()
        invariant
            j <= channels@.len(),
            viewed(rows@) == channel_rows(shown_of(channels@.take(j as int), lifted), counted),
        decreases channels@.len() - j,
    {
        let ghost before = channels@.take(j as int);
        let ghost now = channels@.take(j + 1);
        assert(now.drop_last() =~= before);
        assert(now.last() == channels@[j as int]);
        let channel = &channels[j];
        if !(lifted && channel.unread > 0 && !channel.muted) {
            let ghost was = rows@;
            let row = row_of(channel, counted);
            rows.push(row);
            assert(shown_of(now, lifted) =~= shown_of(before, lifted).push(*channel));
            assert(viewed(rows@) =~= viewed(was).push(row@));
            assert(channel_rows(shown_of(now, lifted), counted) =~= channel_rows(
                shown_of(before, lifted),
                counted,
            ).push(channel_row(*channel, counted)));
        } else {
            assert(shown_of(now, lifted) =~= shown_of(before, lifted));
        }
        j = j + 1;
    }
    assert(channels@.take(channels@.len() as int) =~= channels@);
    rows
}

/// The rows of the sidebar, from what the store said: who the reader is
/// (`reader` is their id, empty before the server has said), the threads
/// row's counts, how many drafts are kept, whether waiting rows are lifted to
/// the top, what the heading over them says, and the reader's groups in
/// their order.
pub fn sidebar_entries(
    me: &Me,
    reader: &str,
    threads: (i64, i64),
    drafts: usize,
    lifts: bool,
    unreads: &str,
    groups: &Vec<Group>,
) -> (entries: Vec<Entry>)
    ensures
        viewed(entries@) == entries_of(*me, reader@.len() > 0, threads, drafts, lifts, unreads@, groups@),
{
    let ghost target = entries_of(*me, reader@.len() > 0, threads, drafts, lifts, unreads@, groups@);
    let counted = !reader.is_empty();
    let lifted = counted && lifts;
    let mut entries: Vec<Entry> = Vec::new();
    entries.push(
        Entry::Me {
            name: me.name.clone(),
            status: me.status.clone(),
            live: me.live,
            offline: copy_text(&me.offline),
            version: me.version.clone(),
        },
    );
    assert(viewed(entries@) =~= seq![me_row(*me)]);
    if counted {
        entries.push(Entry::Threads { unread: threads.0, mentions: threads.1 });
        if drafts > 0 {
            entries.push(Entry::Drafts { count: drafts });
        }
    }
    let ghost head = viewed(entries@);
    let ghost waiting_spec = if lifted {
        waiting_in(groups@)
    } else {
        Seq::empty()
    };
    if lifted {
        let waiting = gather_waiting(groups);
        if waiting.len() > 0 {
            entries.push(Entry::Heading { label: String::from_str(unreads), directs: false });
            let sorted = by_newest(&waiting);
            let mut rows = rows_for(&sorted, counted, false);
            let ghost lifted_rows = rows@;
            entries.append(&mut rows);
            assert(viewed(entries@) =~= head + (seq![
                EntryView::Heading { label: unreads@, directs: false },
            ] + channel_rows(newest_first(waiting_spec), counted)));
        } else {
            assert(viewed(entries@) =~= head + Seq::<EntryView>::empty());
        }
    } else {
        assert(viewed(entries@) =~= head + Seq::<EntryView>::empty());
    }
    let mut team = String::new();
    let mut i: usize = 0;
    assert(groups@.skip(0) =~= groups@);
    while i < groups.len()
        invariant
            i <= groups@.len(),
            viewed(entries@) + grouped(groups@.skip(i as int), team@, counted, lifted) == target,
        decreases groups@.len() - i,
    {
        let ghost here = groups@.skip(i as int);
        assert(here[0] == groups@[i as int]);
        assert(here.drop_first() =~= groups@.skip(i + 1));
        let ghost was = viewed(entries@);
        let ghost team_was = team@;
        let group = &groups[i];
        let mut rows = rows_for(&group.channels, counted, lifted);
        if rows.len() > 0 {
            let ghost mut lead: Seq<EntryView> = Seq::empty();
            if !same_text(group.team_name.as_str(), team.as_str()) {
                team = group.team_name.clone();
                if !team.as_str().is_empty() {
                    entries.push(Entry::Team { id: group.team_id.clone(), label: team.clone() });
                    proof {
                        lead = seq![EntryView::Team { id: group.team_id@, label: group.team_name@ }];
                    }
                }
            }
            proof {
                reveal_strlit("direct_messages");
            }
            let heading = Entry::Heading {
                label: group.display_name.clone(),
                directs: same_text(group.category_type.as_str(), "direct_messages"),
            };
            entries.push(heading);
            let ghost shown_rows = rows@;
            entries.append(&mut rows);
            assert(viewed(entries@) =~= was + lead + seq![heading@] + viewed(shown_rows));
            assert(grouped(here, team_was, counted, lifted) == lead + seq![heading@]
                + channel_rows(shown_of(group.channels@, lifted), counted) + grouped(
                groups@.skip(i + 1),
                team@,
                counted,
                lifted,
            ));
            assert(viewed(entries@) + grouped(groups@.skip(i + 1), team@, counted, lifted)
                =~= was + grouped(here, team_was, counted, lifted));
        } else {
            assert(grouped(here, team_was, counted, lifted) == grouped(
                groups@.skip(i + 1),
                team@,
                counted,
                lifted,
            ));
        }
        i = i + 1;
    }
    assert(groups@.skip(groups@.len() as int) =~= Seq::<Group>::empty());
    assert(viewed(entries@) =~= viewed(entries@) + Seq::<EntryView>::empty());
    entries
}

} // verus!
