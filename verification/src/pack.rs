//! The small pictures, in one file rather than one file each: the layout of
//! its bytes, and the directory of what it holds.
//!
//! A pack is `MAGIC`, then records, then a directory, then a footer:
//!
//! - a record is `[key length: u16][type length: u8][byte count: u32]`, then
//!   the key, the content type and the bytes;
//! - the directory is `[count: u32]`, then for each entry
//!   `[offset: u64][byte count: u32][used: u64][key length: u16]
//!   [type length: u8]`, the key and the type, then the footer
//!   `[where the directory began: u64][MAGIC]`.
//!
//! Every number is little-endian. The file itself is opened, read and written
//! by the program around this module; here is what the bytes say.
//!
//! The directory is held as a `Vec` of key and entry, each key at most once
//! (`unique_keys`), in the order the entries were added; that order is also
//! the order the directory is written in. A map keyed by text would leave the
//! contracts with too little to prove from: what a lookup or an insertion does
//! to such a map is not specified closely enough to carry the round trip of
//! the directory.

use vstd::prelude::*;
use vstd::bytes::*;
use vstd::slice::*;
use vstd::utf8::*;

verus! {

broadcast use {encode_utf8_valid_utf8, encode_utf8_decode_utf8};

/// The largest entry worth packing. Above this the file is its own.
pub const LARGEST: usize = 131072;

/// The fixed part of a record: key length, type length and byte count.
pub const RECORD_HEADER: usize = 7;

/// The fixed part of a directory entry, before its key and type.
pub const ENTRY_HEADER: usize = 23;

/// `[directory offset: u64][MAGIC]`.
pub const FOOTER: usize = 16;

/// How long the magic is.
pub const MAGIC_LEN: usize = 8;

/// `MLPACK01`, at the head of a pack and again at its very end.
pub open spec fn magic() -> Seq<u8> {
    seq![0x4du8, 0x4cu8, 0x50u8, 0x41u8, 0x43u8, 0x4bu8, 0x30u8, 0x31u8]
}

/// The magic, to be written.
pub fn magic_bytes() -> (out: Vec<u8>)
    ensures
        out@ == magic(),
{
    let out = vec![0x4du8, 0x4cu8, 0x50u8, 0x41u8, 0x43u8, 0x4bu8, 0x30u8, 0x31u8];
    assert(out@ =~= magic());
    out
}

/// The bytes a piece of text is written as.
pub open spec fn text(s: Seq<char>) -> Seq<u8> {
    encode_utf8(s)
}

/// What the directory says of one entry.
pub struct Listed {
    pub at: u64,
    pub bytes: u32,
    pub content_type: Seq<char>,
    pub used: u64,
}

/// One entry: where its bytes are, how many, what they are, and when it was
/// last used.
#[derive(Clone, Debug)]
pub struct Entry {
    pub at: u64,
    pub bytes: u32,
    pub content_type: String,
    /// The same monotonic stamp the cache orders eviction by.
    pub used: u64,
}

impl View for Entry {
    type V = Listed;

    open spec fn view(&self) -> Listed {
        Listed { at: self.at, bytes: self.bytes, content_type: self.content_type@, used: self.used }
    }
}

/// What a pack holds: its entries by key, where the next record goes (which
/// is where the directory starts), and how many bytes nobody can reach.
#[derive(Clone, Debug)]
pub struct Held {
    pub entries: Vec<(String, Entry)>,
    pub end: u64,
    pub dead: u64,
}

/// The entries as the contracts speak of them.
pub open spec fn listed(entries: Seq<(String, Entry)>) -> Seq<(Seq<char>, Listed)> {
    entries.map_values(|pair: (String, Entry)| (pair.0@, pair.1@))
}

/// What a held directory is, as the contracts speak of it.
pub struct HeldView {
    pub entries: Seq<(Seq<char>, Listed)>,
    pub end: u64,
    pub dead: u64,
}

impl View for Held {
    type V = HeldView;

    open spec fn view(&self) -> HeldView {
        HeldView { entries: listed(self.entries@), end: self.end, dead: self.dead }
    }
}

/// Whether no key is listed twice.
pub open spec fn unique_keys(entries: Seq<(Seq<char>, Listed)>) -> bool {
    forall|i: int, j: int|
        0 <= i < entries.len() && 0 <= j < entries.len() && i != j ==> #[trigger] entries[i].0
            != #[trigger] entries[j].0
}

/// Whether `key` is listed.
pub open spec fn has_key(entries: Seq<(Seq<char>, Listed)>, key: Seq<char>) -> bool {
    exists|i: int| 0 <= i < entries.len() && #[trigger] entries[i].0 == key
}

/// The entry under `key`, with everything else left where it was: replaced
/// in place when the key is already listed, added at the end when it is not.
pub open spec fn put(entries: Seq<(Seq<char>, Listed)>, key: Seq<char>, entry: Listed) -> Seq<
    (Seq<char>, Listed),
>
    decreases entries.len(),
{
    if entries.len() == 0 {
        seq![(key, entry)]
    } else if entries[0].0 == key {
        entries.update(0, (key, entry))
    } else {
        seq![entries[0]] + put(entries.drop_first(), key, entry)
    }
}

/// How many bytes `put` leaves unreachable: those of the entry it replaces.
pub open spec fn replaced(entries: Seq<(Seq<char>, Listed)>, key: Seq<char>) -> nat
    decreases entries.len(),
{
    if entries.len() == 0 {
        0
    } else if entries[0].0 == key {
        entries[0].1.bytes as nat
    } else {
        replaced(entries.drop_first(), key)
    }
}

/// Entries read one after another, a later one under a key taking the place
/// of an earlier.
pub open spec fn gathered(read: Seq<(Seq<char>, Listed)>) -> Seq<(Seq<char>, Listed)>
    decreases read.len(),
{
    if read.len() == 0 {
        seq![]
    } else {
        put(gathered(read.drop_last()), read.last().0, read.last().1)
    }
}

/// The bytes left unreachable while gathering `read`.
pub open spec fn overwritten(read: Seq<(Seq<char>, Listed)>) -> nat
    decreases read.len(),
{
    if read.len() == 0 {
        0
    } else {
        overwritten(read.drop_last()) + replaced(gathered(read.drop_last()), read.last().0)
    }
}

/// The bytes of every listed entry, together.
pub open spec fn live(entries: Seq<(Seq<char>, Listed)>) -> nat
    decreases entries.len(),
{
    if entries.len() == 0 {
        0
    } else {
        live(entries.drop_last()) + entries.last().1.bytes as nat
    }
}

/// One record as written.
pub open spec fn record_bytes(key: Seq<char>, bytes: Seq<u8>, content_type: Seq<char>) -> Seq<u8> {
    spec_u16_to_le_bytes(text(key).len() as u16) + seq![text(content_type).len() as u8]
        + spec_u32_to_le_bytes(bytes.len() as u32) + text(key) + text(content_type) + bytes
}

/// One directory entry as written.
pub open spec fn entry_bytes(key: Seq<char>, entry: Listed) -> Seq<u8> {
    spec_u64_to_le_bytes(entry.at) + spec_u32_to_le_bytes(entry.bytes) + spec_u64_to_le_bytes(
        entry.used,
    ) + spec_u16_to_le_bytes(text(key).len() as u16) + seq![
        text(entry.content_type).len() as u8,
    ] + text(key) + text(entry.content_type)
}

/// Directory entries, one after another.
pub open spec fn entries_bytes(entries: Seq<(Seq<char>, Listed)>) -> Seq<u8>
    decreases entries.len(),
{
    if entries.len() == 0 {
        seq![]
    } else {
        entries_bytes(entries.drop_last()) + entry_bytes(entries.last().0, entries.last().1)
    }
}

/// A whole directory as written, footer included.
pub open spec fn directory_bytes(held: HeldView) -> Seq<u8> {
    spec_u32_to_le_bytes(held.entries.len() as u32) + entries_bytes(held.entries)
        + spec_u64_to_le_bytes(held.end) + magic()
}

/// Appends `more` to `out`.
fn put_bytes(out: &mut Vec<u8>, more: &[u8])
    ensures
        final(out)@ == old(out)@ + more@,
{
    let mut copied = slice_to_vec(more);
    out.append(&mut copied);
}

/// `[key length: u16][type length: u8][byte count: u32][key][type][bytes]`.
///
/// The lengths are written in the widths the header has room for, cut to
/// them as a cast cuts.
pub fn record(key: &str, bytes: &[u8], content_type: &str) -> (out: Vec<u8>)
    ensures
        out@ == record_bytes(key@, bytes@, content_type@),
{
    let key_bytes = key.as_bytes();
    let type_bytes = content_type.as_bytes();
    let mut out = u16_to_le_bytes(key_bytes.len() as u16);
    out.push(type_bytes.len() as u8);
    let count = u32_to_le_bytes(bytes.len() as u32);
    put_bytes(&mut out, count.as_slice());
    put_bytes(&mut out, key_bytes);
    put_bytes(&mut out, type_bytes);
    put_bytes(&mut out, bytes);
    assert(out@ =~= record_bytes(key@, bytes@, content_type@));
    out
}

/// One directory entry.
fn entry_out(out: &mut Vec<u8>, key: &String, entry: &Entry)
    ensures
        final(out)@ == old(out)@ + entry_bytes(key@, entry@),
{
    let key_bytes = key.as_str().as_bytes();
    let type_bytes = entry.content_type.as_str().as_bytes();
    let at = u64_to_le_bytes(entry.at);
    put_bytes(out, at.as_slice());
    let bytes = u32_to_le_bytes(entry.bytes);
    put_bytes(out, bytes.as_slice());
    let used = u64_to_le_bytes(entry.used);
    put_bytes(out, used.as_slice());
    let key_len = u16_to_le_bytes(key_bytes.len() as u16);
    put_bytes(out, key_len.as_slice());
    out.push(type_bytes.len() as u8);
    put_bytes(out, key_bytes);
    put_bytes(out, type_bytes);
    assert(final(out)@ =~= old(out)@ + entry_bytes(key@, entry@));
}

/// `[count: u32]`, then each entry, then `[where this began: u64][MAGIC]`.
pub fn directory(held: &Held) -> (out: Vec<u8>)
    ensures
        out@ == directory_bytes(held@),
{
    let count = u32_to_le_bytes(held.entries.len() as u32);
    let mut out = count;
    let mut i: usize = 0;
    while i < held.entries.len()
        invariant
            i <= held.entries@.len(),
            out@ == spec_u32_to_le_bytes(held.entries@.len() as u32) + entries_bytes(
                held@.entries.take(i as int),
            ),
        decreases held.entries@.len() - i,
    {
        let ghost before = out@;
        entry_out(&mut out, &held.entries[i].0, &held.entries[i].1);
        proof {
            let es = held@.entries;
            assert(es.take(i + 1).drop_last() =~= es.take(i as int));
            assert(es.take(i + 1).last() == es[i as int]);
        }
        i = i + 1;
    }
    proof {
        assert(held@.entries.take(i as int) =~= held@.entries);
    }
    let end = u64_to_le_bytes(held.end);
    put_bytes(&mut out, end.as_slice());
    let magic = magic_bytes();
    put_bytes(&mut out, magic.as_slice());
    out
}


/// One directory entry read from the front of `b`: its key, what it says,
/// and how many bytes it took; `None` when `b` does not begin with a whole
/// entry whose key and type are UTF-8.
pub open spec fn decode_one(b: Seq<u8>) -> Option<(Seq<char>, Listed, nat)> {
    if b.len() < 23 {
        None
    } else {
        let key_len = spec_u16_from_le_bytes(b.subrange(20, 22)) as int;
        let type_len = b[22] as int;
        if b.len() < 23 + key_len + type_len {
            None
        } else {
            let key = b.subrange(23, 23 + key_len);
            let content_type = b.subrange(23 + key_len, 23 + key_len + type_len);
            if valid_utf8(key) && valid_utf8(content_type) {
                Some(
                    (
                        decode_utf8(key),
                        Listed {
                            at: spec_u64_from_le_bytes(b.subrange(0, 8)),
                            bytes: spec_u32_from_le_bytes(b.subrange(8, 12)),
                            content_type: decode_utf8(content_type),
                            used: spec_u64_from_le_bytes(b.subrange(12, 20)),
                        },
                        (23 + key_len + type_len) as nat,
                    ),
                )
            } else {
                None
            }
        }
    }
}

/// `count` directory entries read one after another from the front of `b`.
pub open spec fn decode_entries(b: Seq<u8>, count: nat) -> Option<Seq<(Seq<char>, Listed)>>
    decreases count,
{
    if count == 0 {
        Some(seq![])
    } else {
        match decode_one(b) {
            None => None,
            Some((key, entry, took)) => match decode_entries(b.skip(took as int), (count - 1) as nat) {
                None => None,
                Some(rest) => Some(seq![(key, entry)] + rest),
            },
        }
    }
}

/// Whether every entry's bytes lie before `end`.
pub open spec fn within(read: Seq<(Seq<char>, Listed)>, end: u64) -> bool {
    forall|i: int| 0 <= i < read.len() ==> #[trigger] read[i].1.at + read[i].1.bytes <= end
}

/// What a directory's bytes say, footer left off: its entries, the place it
/// began as `end`, and as dead whatever lies between the magic and `end` that
/// the entries do not account for.
pub open spec fn parsed(written: Seq<u8>, end: u64) -> Option<HeldView> {
    if written.len() < 4 {
        None
    } else {
        match decode_entries(written.skip(4), spec_u32_from_le_bytes(written.take(4)) as nat) {
            None => None,
            Some(read) => if within(read, end) {
                Some(
                    HeldView {
                        entries: gathered(read),
                        end,
                        dead: if end - 8 >= live(read) {
                            (end - 8 - live(read)) as u64
                        } else {
                            0
                        },
                    },
                )
            } else {
                None
            },
        }
    }
}

/// Where the directory begins, read from the footer of a file `length`
/// bytes long; `None` when the file is too short to hold a directory, the
/// footer does not end in the magic, or the offset it gives lies outside the
/// file's body.
pub open spec fn directory_begins(footer: Seq<u8>, length: u64) -> Option<u64> {
    if length < 24 || footer.len() != 16 || footer.skip(8) != magic() {
        None
    } else {
        let end = spec_u64_from_le_bytes(footer.take(8));
        if end < 8 || end > length - 16 {
            None
        } else {
            Some(end)
        }
    }
}

/// The text some bytes spell, if they are UTF-8.
///
/// Calls `String::from_utf8`, which accepts exactly the valid UTF-8 byte
/// sequences and hands back the characters they encode.
#[verifier::external_body]
fn text_from(bytes: Vec<u8>) -> (spelled: Option<String>)
    ensures
        spelled is Some <==> valid_utf8(bytes@),
        spelled matches Some(t) ==> t@ == decode_utf8(bytes@),
{
    String::from_utf8(bytes).ok()
}

/// The next `count` bytes of `from` after `at`, moving `at` past them; `None`,
/// with `at` left where it was, when there are not that many.
pub fn take<'a>(from: &'a [u8], at: &mut usize, count: usize) -> (taken: Option<&'a [u8]>)
    requires
        *old(at) + count <= usize::MAX,
    ensures
        taken is Some <==> *old(at) + count <= from@.len(),
        taken matches Some(t) ==> t@ == from@.subrange(*old(at) as int, *old(at) + count),
        taken is Some ==> *final(at) == *old(at) + count,
        taken is None ==> *final(at) == *old(at),
{
    let start = *at;
    if start > from.len() || count > from.len() - start {
        return None;
    }
    *at = start + count;
    Some(slice_subrange(from, start, start + count))
}

/// Where the directory begins, from the last sixteen bytes of a file
/// `length` long.
pub fn directory_start(footer: &[u8], length: u64) -> (end: Option<u64>)
    ensures
        end == directory_begins(footer@, length),
{
    if length < 24 || footer.len() != 16 {
        return None;
    }
    let tail = slice_subrange(footer, 8, 16);
    let expected = magic_bytes();
    let mut i: usize = 0;
    while i < 8
        invariant
            tail@.len() == 8,
            tail@ == footer@.subrange(8, 16),
            footer@.len() == 16,
            expected@ == magic(),
            i <= 8,
            forall|j: int| 0 <= j < i ==> tail@[j] == expected@[j],
        decreases 8 - i,
    {
        if tail[i] != expected[i] {
            assert(footer@.skip(8)[i as int] != magic()[i as int]);
            return None;
        }
        i = i + 1;
    }
    assert(footer@.skip(8) =~= magic());
    let end = u64_from_le_bytes(slice_subrange(footer, 0, 8));
    assert(footer@.subrange(0, 8) =~= footer@.take(8));
    if end < 8 || end > length - 16 {
        None
    } else {
        Some(end)
    }
}

/// Whether the entry at `i` is the first one under `key`.
pub open spec fn first_under(entries: Seq<(Seq<char>, Listed)>, key: Seq<char>, i: int) -> bool {
    &&& 0 <= i < entries.len()
    &&& entries[i].0 == key
    &&& forall|j: int| 0 <= j < i ==> #[trigger] entries[j].0 != key
}

/// `put` replaces the first entry under the key, in place.
pub proof fn lemma_put_found(
    entries: Seq<(Seq<char>, Listed)>,
    key: Seq<char>,
    entry: Listed,
    i: int,
)
    requires
        first_under(entries, key, i),
    ensures
        put(entries, key, entry) == entries.update(i, (key, entry)),
        replaced(entries, key) == entries[i].1.bytes,
    decreases entries.len(),
{
    if i > 0 {
        let rest = entries.drop_first();
        assert(first_under(rest, key, i - 1)) by {
            assert forall|j: int| 0 <= j < i - 1 implies #[trigger] rest[j].0 != key by {
                assert(rest[j] == entries[j + 1]);
            }
        }
        lemma_put_found(rest, key, entry, i - 1);
        assert(put(entries, key, entry) =~= entries.update(i, (key, entry)));
    }
}

/// `put` adds a key it does not find at the end.
pub proof fn lemma_put_missing(entries: Seq<(Seq<char>, Listed)>, key: Seq<char>, entry: Listed)
    requires
        !has_key(entries, key),
    ensures
        put(entries, key, entry) == entries.push((key, entry)),
        replaced(entries, key) == 0,
    decreases entries.len(),
{
    if entries.len() > 0 {
        let rest = entries.drop_first();
        assert(!has_key(rest, key)) by {
            if has_key(rest, key) {
                let j = choose|j: int| 0 <= j < rest.len() && #[trigger] rest[j].0 == key;
                assert(entries[j + 1].0 == key);
            }
        }
        assert(entries[0].0 != key) by {
            if entries[0].0 == key {
                assert(has_key(entries, key));
            }
        }
        lemma_put_missing(rest, key, entry);
        assert(put(entries, key, entry) =~= entries.push((key, entry)));
    }
}

/// Puts an entry under its key, replacing whatever was there. Answers how
/// many bytes the replaced entry had, when there was one.
pub fn put_entry(entries: &mut Vec<(String, Entry)>, key: String, entry: Entry) -> (gone: Option<
    u32,
>)
    ensures
        listed(final(entries)@) == put(listed(old(entries)@), key@, entry@),
        gone is Some <==> has_key(listed(old(entries)@), key@),
        gone matches Some(bytes) ==> replaced(listed(old(entries)@), key@) == bytes,
        gone is None ==> replaced(listed(old(entries)@), key@) == 0,
{
    let ghost before = listed(entries@);
    let mut i: usize = 0;
    while i < entries.len()
        invariant
            entries@ == old(entries)@,
            before == listed(entries@),
            i <= entries@.len(),
            forall|j: int| 0 <= j < i ==> #[trigger] before[j].0 != key@,
        decreases entries@.len() - i,
    {
        if entries[i].0 == key {
            proof {
                lemma_put_found(before, key@, entry@, i as int);
                assert(before[i as int].0 == key@);
            }
            let gone = entries[i].1.bytes;
            entries.set(i, (key, entry));
            assert(listed(entries@) =~= before.update(i as int, (key@, entry@)));
            return Some(gone);
        }
        i = i + 1;
    }
    proof {
        assert(!has_key(before, key@)) by {
            if has_key(before, key@) {
                let j = choose|j: int| 0 <= j < before.len() && #[trigger] before[j].0 == key@;
            }
        }
        lemma_put_missing(before, key@, entry@);
    }
    entries.push((key, entry));
    assert(listed(entries@) =~= before.push((key@, entry@)));
    None
}


/// Reading `count + 1` entries is reading one and then `count` more.
proof fn lemma_decode_step(b: Seq<u8>, count: nat)
    requires
        count > 0,
    ensures
        decode_entries(b, count) == match decode_one(b) {
            None => None,
            Some((key, entry, took)) => match decode_entries(b.skip(took as int), (count - 1) as nat) {
                None => None,
                Some(rest) => Some(seq![(key, entry)] + rest),
            },
        },
{
}

/// What has been read so far, followed by what is still to read.
pub open spec fn then(done: Seq<(Seq<char>, Listed)>, rest: Option<Seq<(Seq<char>, Listed)>>) -> Option<
    Seq<(Seq<char>, Listed)>,
> {
    match rest {
        None => None,
        Some(more) => Some(done + more),
    }
}

/// One directory entry read from `written` at `at`: its key, the entry, and
/// where the next one begins.
fn read_entry(written: &[u8], at: usize) -> (read: Option<(String, Entry, usize)>)
    requires
        at <= written@.len(),
    ensures
        match read {
            None => decode_one(written@.skip(at as int)) is None,
            Some((key, entry, next)) => {
                &&& decode_one(written@.skip(at as int)) == Some((key@, entry@, (next - at) as nat))
                &&& at < next <= written@.len()
            },
        },
{
    let ghost here = written@.skip(at as int);
    let room = written.len() - at;
    if room < 23 {
        return None;
    }
    let head = slice_subrange(written, at, at + 23);
    let where_at = u64_from_le_bytes(slice_subrange(head, 0, 8));
    let bytes = u32_from_le_bytes(slice_subrange(head, 8, 12));
    let used = u64_from_le_bytes(slice_subrange(head, 12, 20));
    let key_len = u16_from_le_bytes(slice_subrange(head, 20, 22)) as usize;
    let type_len = head[22] as usize;
    proof {
        assert(head@.subrange(0, 8) =~= here.subrange(0, 8));
        assert(head@.subrange(8, 12) =~= here.subrange(8, 12));
        assert(head@.subrange(12, 20) =~= here.subrange(12, 20));
        assert(head@.subrange(20, 22) =~= here.subrange(20, 22));
        assert(head@[22] == here[22]);
    }
    if room - 23 < key_len + type_len {
        return None;
    }
    let key_from = at + 23;
    let type_from = key_from + key_len;
    let next = type_from + type_len;
    let key_bytes = slice_to_vec(slice_subrange(written, key_from, type_from));
    let type_bytes = slice_to_vec(slice_subrange(written, type_from, next));
    proof {
        assert(key_bytes@ =~= here.subrange(23, 23 + key_len as int));
        assert(type_bytes@ =~= here.subrange(
            23 + key_len as int,
            23 + key_len as int + type_len as int,
        ));
    }
    let key = match text_from(key_bytes) {
        Some(key) => key,
        None => return None,
    };
    let content_type = match text_from(type_bytes) {
        Some(content_type) => content_type,
        None => return None,
    };
    let entry = Entry { at: where_at, bytes, content_type, used };
    Some((key, entry, next))
}

/// Reading stops for good at an entry it cannot read.
proof fn lemma_unreadable_stops(
    all: Seq<u8>,
    count: nat,
    done: Seq<(Seq<char>, Listed)>,
    here: Seq<u8>,
    left: nat,
)
    requires
        left > 0,
        decode_entries(all, count) == then(done, decode_entries(here, left)),
        decode_one(here) is None,
    ensures
        decode_entries(all, count) is None,
{
    lemma_decode_step(here, left);
}

/// Reading one entry moves what has been read on by one.
proof fn lemma_read_one(
    done: Seq<(Seq<char>, Listed)>,
    here: Seq<u8>,
    left: nat,
    one: (Seq<char>, Listed),
    took: nat,
)
    requires
        left > 0,
        decode_one(here) == Some((one.0, one.1, took)),
    ensures
        then(done, decode_entries(here, left)) == then(
            done.push(one),
            decode_entries(here.skip(took as int), (left - 1) as nat),
        ),
{
    lemma_decode_step(here, left);
    let rest = decode_entries(here.skip(took as int), (left - 1) as nat);
    if let Some(more) = rest {
        assert(done + (seq![one] + more) =~= done.push(one) + more);
    }
}

/// An entry whose bytes run past `end` leaves nothing to list.
proof fn lemma_out_of_bounds(
    all: Seq<u8>,
    count: nat,
    done: Seq<(Seq<char>, Listed)>,
    here: Seq<u8>,
    left: nat,
    one: (Seq<char>, Listed),
    took: nat,
    end: u64,
)
    requires
        left > 0,
        decode_entries(all, count) == then(done, decode_entries(here, left)),
        decode_one(here) == Some((one.0, one.1, took)),
        one.1.at + one.1.bytes > end,
    ensures
        match decode_entries(all, count) {
            None => true,
            Some(read) => !within(read, end),
        },
{
    lemma_read_one(done, here, left, one, took);
    let rest = decode_entries(here.skip(took as int), (left - 1) as nat);
    if let Some(more) = rest {
        let read = done.push(one) + more;
        assert(read[done.len() as int] == one);
    }
}

/// Adding one more read entry keeps every one of them inside `end`.
proof fn lemma_within_push(done: Seq<(Seq<char>, Listed)>, one: (Seq<char>, Listed), end: u64)
    requires
        within(done, end),
        one.1.at + one.1.bytes <= end,
    ensures
        within(done.push(one), end),
{
    let grown = done.push(one);
    assert forall|j: int| 0 <= j < grown.len() implies #[trigger] grown[j].1.at
        + grown[j].1.bytes <= end by {
        if j < done.len() {
            assert(grown[j] == done[j]);
        }
    }
}

/// The entries of a directory, from its bytes with the footer left off, and
/// the offset `end` that the footer gave for where it begins.
pub fn parse_directory(written: &[u8], end: u64) -> (held: Option<Held>)
    requires
        end >= 8,
    ensures
        match held {
            None => parsed(written@, end) is None,
            Some(h) => parsed(written@, end) == Some(h@),
        },
{
    if written.len() < 4 {
        return None;
    }
    let count = u32_from_le_bytes(slice_subrange(written, 0, 4));
    assert(written@.subrange(0, 4) =~= written@.take(4));
    let ghost all = written@.skip(4);
    let mut at: usize = 4;
    let mut entries: Vec<(String, Entry)> = Vec::new();
    let mut live_bytes: u64 = 0;
    let mut i: u32 = 0;
    let ghost mut done: Seq<(Seq<char>, Listed)> = seq![];
    assert(listed(entries@) =~= gathered(done));
    while i < count
        invariant
            4 <= at <= written@.len(),
            i <= count,
            count == spec_u32_from_le_bytes(written@.take(4)),
            all == written@.skip(4),
            done.len() == i,
            decode_entries(all, count as nat) == then(
                done,
                decode_entries(written@.skip(at as int), (count - i) as nat),
            ),
            listed(entries@) == gathered(done),
            within(done, end),
            live_bytes == live(done),
            live_bytes <= i * 0xffff_ffffu64,
        decreases count - i,
    {
        let ghost here = written@.skip(at as int);
        let (key, entry, next) = match read_entry(written, at) {
            Some(read) => read,
            None => {
                proof {
                    lemma_unreadable_stops(all, count as nat, done, here, (count - i) as nat);
                }
                return None;
            },
        };
        let ghost one = (key@, entry@);
        proof {
            assert(here.skip(next - at) =~= written@.skip(next as int));
            lemma_read_one(done, here, (count - i) as nat, one, (next - at) as nat);
        }
        if entry.at > end || (entry.bytes as u64) > end - entry.at {
            proof {
                lemma_out_of_bounds(
                    all,
                    count as nat,
                    done,
                    here,
                    (count - i) as nat,
                    one,
                    (next - at) as nat,
                    end,
                );
            }
            return None;
        }
        let bytes = entry.bytes;
        let _gone = put_entry(&mut entries, key, entry);
        live_bytes = live_bytes + bytes as u64;
        proof {
            let grown = done.push(one);
            assert(grown.drop_last() =~= done);
            lemma_within_push(done, one, end);
            done = grown;
        }
        at = next;
        i = i + 1;
    }
    proof {
        assert(done + Seq::<(Seq<char>, Listed)>::empty() =~= done);
    }
    let base = end - 8;
    let dead = if base >= live_bytes {
        base - live_bytes
    } else {
        0
    };
    Some(Held { entries, end, dead })
}


/// Whether an entry can be written into a directory and read back: its key
/// fits the two bytes its length is given, and its type the one.
pub open spec fn writable(entry: (Seq<char>, Listed)) -> bool {
    text(entry.0).len() < 0x1_0000 && text(entry.1.content_type).len() < 0x100
}

/// Whether every entry can be written into a directory and read back.
pub open spec fn all_writable(entries: Seq<(Seq<char>, Listed)>) -> bool {
    forall|i: int| 0 <= i < entries.len() ==> #[trigger] writable(entries[i])
}

/// Entries written one after another are the first of them and then the rest.
proof fn lemma_entries_bytes_front(entries: Seq<(Seq<char>, Listed)>)
    requires
        entries.len() > 0,
    ensures
        entries_bytes(entries) == entry_bytes(entries[0].0, entries[0].1) + entries_bytes(
            entries.drop_first(),
        ),
    decreases entries.len(),
{
    if entries.len() > 1 {
        let init = entries.drop_last();
        lemma_entries_bytes_front(init);
        assert(init.drop_first() =~= entries.drop_first().drop_last());
        assert(entries.drop_first().last() == entries.last());
        assert(entries_bytes(entries.drop_first()) == entries_bytes(init.drop_first())
            + entry_bytes(entries.last().0, entries.last().1));
    } else {
        assert(entries.drop_last() =~= Seq::<(Seq<char>, Listed)>::empty());
        assert(entries.drop_first() =~= Seq::<(Seq<char>, Listed)>::empty());
    }
}

/// A directory entry reads back as itself.
proof fn lemma_decode_entry(key: Seq<char>, entry: Listed, rest: Seq<u8>)
    requires
        writable((key, entry)),
    ensures
        decode_one(entry_bytes(key, entry) + rest) == Some(
            (key, entry, entry_bytes(key, entry).len()),
        ),
{
    lemma_auto_spec_u64_to_from_le_bytes();
    lemma_auto_spec_u32_to_from_le_bytes();
    lemma_auto_spec_u16_to_from_le_bytes();
    let k = text(key);
    let t = text(entry.content_type);
    let at = spec_u64_to_le_bytes(entry.at);
    let bytes = spec_u32_to_le_bytes(entry.bytes);
    let used = spec_u64_to_le_bytes(entry.used);
    let key_len = spec_u16_to_le_bytes(k.len() as u16);
    let b = entry_bytes(key, entry) + rest;
    assert(entry_bytes(key, entry) == at + bytes + used + key_len + seq![t.len() as u8] + k + t);
    assert(b.subrange(0, 8) =~= at);
    assert(b.subrange(8, 12) =~= bytes);
    assert(b.subrange(12, 20) =~= used);
    assert(b.subrange(20, 22) =~= key_len);
    assert(b[22] == t.len() as u8);
    assert((k.len() as u16) as int == k.len());
    assert((t.len() as u8) as int == t.len());
    let kl = k.len() as int;
    let tl = t.len() as int;
    assert(b.subrange(23, 23 + kl) =~= k);
    assert(b.subrange(23 + kl, 23 + kl + tl) =~= t);
}

/// Entries written one after another read back as themselves, whatever
/// follows them.
pub proof fn lemma_decode_entries(entries: Seq<(Seq<char>, Listed)>, rest: Seq<u8>)
    requires
        all_writable(entries),
    ensures
        decode_entries(entries_bytes(entries) + rest, entries.len()) == Some(entries),
    decreases entries.len(),
{
    if entries.len() > 0 {
        lemma_entries_bytes_front(entries);
        let first = entries[0];
        let tail = entries.drop_first();
        assert(writable(entries[0]));
        assert(all_writable(tail)) by {
            assert forall|i: int| 0 <= i < tail.len() implies #[trigger] writable(tail[i]) by {
                assert(tail[i] == entries[i + 1]);
                assert(writable(entries[i + 1]));
            }
        }
        let b = entries_bytes(entries) + rest;
        let after = entries_bytes(tail) + rest;
        assert(b =~= entry_bytes(first.0, first.1) + after);
        lemma_decode_entry(first.0, first.1, after);
        lemma_decode_entries(tail, rest);
        assert(b.skip(entry_bytes(first.0, first.1).len() as int) =~= after);
        assert(seq![(first.0, first.1)] + tail =~= entries);
    } else {
        assert(decode_entries(entries_bytes(entries) + rest, 0) == Some(
            Seq::<(Seq<char>, Listed)>::empty(),
        ));
        assert(entries =~= Seq::<(Seq<char>, Listed)>::empty());
    }
}

/// Entries with no key twice gather into themselves.
pub proof fn lemma_gathered_unique(read: Seq<(Seq<char>, Listed)>)
    requires
        unique_keys(read),
    ensures
        gathered(read) == read,
        overwritten(read) == 0,
    decreases read.len(),
{
    if read.len() > 0 {
        let init = read.drop_last();
        assert(unique_keys(init)) by {
            assert forall|i: int, j: int|
                0 <= i < init.len() && 0 <= j < init.len() && i != j implies #[trigger] init[i].0
                != #[trigger] init[j].0 by {
                assert(init[i] == read[i]);
                assert(init[j] == read[j]);
            }
        }
        lemma_gathered_unique(init);
        assert(!has_key(init, read.last().0)) by {
            if has_key(init, read.last().0) {
                let j = choose|j: int| 0 <= j < init.len() && #[trigger] init[j].0 == read.last().0;
                assert(read[j].0 == read[read.len() - 1].0);
            }
        }
        lemma_put_missing(init, read.last().0, read.last().1);
        assert(init.push(read.last()) =~= read);
    }
}

/// What a directory says comes back when it is read: the same entries, in
/// the same order, and the same place it began.
///
/// For a directory whose keys are each listed once, each of which fits the
/// widths the format gives its lengths, with no more entries than its count
/// can say, and every entry inside the part of the file before it.
pub proof fn lemma_directory_round_trip(held: HeldView)
    requires
        held.end >= 8,
        unique_keys(held.entries),
        all_writable(held.entries),
        held.entries.len() <= u32::MAX,
        within(held.entries, held.end),
        held.end + directory_bytes(held).len() <= u64::MAX,
    ensures
        ({
            let written = directory_bytes(held);
            let body = written.take(written.len() - 16);
            let footer = written.skip(written.len() - 16);
            &&& directory_begins(footer, (held.end + written.len()) as u64) == Some(held.end)
            &&& parsed(body, held.end) matches Some(back) && back.entries == held.entries
                && back.end == held.end
        }),
{
    lemma_auto_spec_u64_to_from_le_bytes();
    lemma_auto_spec_u32_to_from_le_bytes();
    let written = directory_bytes(held);
    let count = spec_u32_to_le_bytes(held.entries.len() as u32);
    let listing = entries_bytes(held.entries);
    let end_bytes = spec_u64_to_le_bytes(held.end);
    let body = written.take(written.len() - 16);
    let footer = written.skip(written.len() - 16);
    assert(body =~= count + listing);
    assert(footer =~= end_bytes + magic());
    assert(footer.take(8) =~= end_bytes);
    assert(footer.skip(8) =~= magic());
    assert(body.take(4) =~= count);
    assert(body.skip(4) =~= listing + Seq::<u8>::empty());
    lemma_decode_entries(held.entries, Seq::<u8>::empty());
    lemma_gathered_unique(held.entries);
    assert(spec_u32_from_le_bytes(body.take(4)) == held.entries.len());
    assert(decode_entries(body.skip(4), held.entries.len()) == Some(held.entries));
    assert(parsed(body, held.end) is Some);
    assert(directory_begins(footer, (held.end + written.len()) as u64) == Some(held.end));
}


/// The record that starts at `at` in a file whose bytes are `all` and whose
/// length is `length`: its key, what a directory would say of it (the offset
/// of its bytes, how many, its type, and as its use the offset it starts at),
/// and where the next one starts. `None` where no whole record is, which is
/// also where an empty key is.
pub open spec fn record_at(all: Seq<u8>, length: u64, at: int) -> Option<(Seq<char>, Listed, int)> {
    if at < 0 || at + 7 > all.len() {
        None
    } else {
        let key_len = spec_u16_from_le_bytes(all.subrange(at, at + 2)) as int;
        let type_len = all[at + 2] as int;
        let bytes = spec_u32_from_le_bytes(all.subrange(at + 3, at + 7));
        let payload = at + 7 + key_len + type_len;
        let next = payload + bytes;
        if key_len == 0 || next > all.len() || next > length {
            None
        } else {
            let key = all.subrange(at + 7, at + 7 + key_len);
            let content_type = all.subrange(at + 7 + key_len, payload);
            if valid_utf8(key) && valid_utf8(content_type) {
                Some(
                    (
                        decode_utf8(key),
                        Listed {
                            at: payload as u64,
                            bytes,
                            content_type: decode_utf8(content_type),
                            used: at as u64,
                        },
                        next,
                    ),
                )
            } else {
                None
            }
        }
    }
}

/// Every whole record from `at` on, until the first place none is.
pub open spec fn records_from(all: Seq<u8>, length: u64, at: int) -> Seq<(Seq<char>, Listed)>
    decreases all.len() - at,
{
    if at < 0 || at + 7 > all.len() {
        seq![]
    } else {
        match record_at(all, length, at) {
            None => seq![],
            Some((key, entry, next)) => if next > at {
                seq![(key, entry)] + records_from(all, length, next)
            } else {
                seq![]
            },
        }
    }
}

/// Where the records from `at` on stop.
pub open spec fn records_end(all: Seq<u8>, length: u64, at: int) -> int
    decreases all.len() - at,
{
    if at < 0 || at + 7 > all.len() {
        at
    } else {
        match record_at(all, length, at) {
            None => at,
            Some((key, entry, next)) => if next > at {
                records_end(all, length, next)
            } else {
                at
            },
        }
    }
}

/// A count, held at the most a `u64` can say.
pub open spec fn capped(n: nat) -> u64 {
    if n > u64::MAX {
        u64::MAX
    } else {
        n as u64
    }
}

/// What reading through the records of a file says it holds: every record
/// from just after the magic, a later one under a key taking the place of an
/// earlier, the end of the last of them, and the bytes of those taken over.
pub open spec fn walked(all: Seq<u8>, length: u64) -> HeldView {
    let read = records_from(all, length, 8);
    HeldView {
        entries: gathered(read),
        end: records_end(all, length, 8) as u64,
        dead: capped(overwritten(read)),
    }
}

/// The record at `at`, read.
fn read_record(all: &[u8], length: u64, at: usize) -> (read: Option<(String, Entry, usize)>)
    requires
        at + 7 <= all@.len(),
    ensures
        match read {
            None => record_at(all@, length, at as int) is None,
            Some((key, entry, next)) => {
                &&& record_at(all@, length, at as int) == Some((key@, entry@, next as int))
                &&& at < next <= all@.len()
            },
        },
{
    let length_here = all.len();
    let key_len = u16_from_le_bytes(slice_subrange(all, at, at + 2)) as usize;
    let type_len = all[at + 2] as usize;
    let bytes = u32_from_le_bytes(slice_subrange(all, at + 3, at + 7));
    let room = all.len() - (at + 7);
    if key_len == 0 || key_len + type_len > room {
        return None;
    }
    let key_from = at + 7;
    let payload = key_from + key_len + type_len;
    if bytes as usize > all.len() - payload {
        return None;
    }
    let next = payload + bytes as usize;
    if next as u64 > length {
        return None;
    }
    let key_bytes = slice_to_vec(slice_subrange(all, key_from, key_from + key_len));
    let type_bytes = slice_to_vec(slice_subrange(all, key_from + key_len, payload));
    let key = match text_from(key_bytes) {
        Some(key) => key,
        None => return None,
    };
    let content_type = match text_from(type_bytes) {
        Some(content_type) => content_type,
        None => return None,
    };
    Some((key, Entry { at: payload as u64, bytes, content_type, used: at as u64 }, next))
}

/// Rebuilds what a pack holds by reading through its records, for a file
/// whose directory was lost.
pub fn walk(all: &[u8], length: u64) -> (held: Held)
    ensures
        held@ == walked(all@, length),
{
    let mut at: usize = 8;
    let mut entries: Vec<(String, Entry)> = Vec::new();
    let mut dead: u64 = 0;
    let ghost mut done: Seq<(Seq<char>, Listed)> = seq![];
    let mut stop = false;
    assert(listed(entries@) =~= gathered(done));
    while !stop && at <= all.len() && all.len() - at >= 7
        invariant
            stop ==> at + 7 <= all@.len() && record_at(all@, length, at as int) is None,
            records_from(all@, length, 8) == done + records_from(all@, length, at as int),
            records_end(all@, length, 8) == records_end(all@, length, at as int),
            listed(entries@) == gathered(done),
            dead == capped(overwritten(done)),
            8 <= at,
        decreases (if at <= all@.len() { all@.len() - at } else { 0 }) * 2 + (if stop {
            0int
        } else {
            1int
        }),
    {
        let ghost was = records_from(all@, length, at as int);
        let (key, entry, next) = match read_record(all, length, at) {
            Some(read) => read,
            None => {
                stop = true;
                continue;
            },
        };
        let ghost one = (key@, entry@);
        let gone = put_entry(&mut entries, key, entry);
        let lost: u64 = match gone {
            Some(bytes) => bytes as u64,
            None => 0,
        };
        dead = dead.saturating_add(lost);
        proof {
            let grown = done.push(one);
            assert(grown.drop_last() =~= done);
            assert(was == seq![one] + records_from(all@, length, next as int));
            assert(done + was =~= grown + records_from(all@, length, next as int));
            done = grown;
        }
        at = next;
    }
    proof {
        assert(records_from(all@, length, at as int) =~= Seq::<(Seq<char>, Listed)>::empty());
        assert(records_end(all@, length, at as int) == at as int);
        assert(done + Seq::<(Seq<char>, Listed)>::empty() =~= done);
    }
    Held { entries, end: at as u64, dead }
}


/// The entry listed under `key`, if one is: the first, which in a listing
/// with each key once is the only one.
pub open spec fn found(entries: Seq<(Seq<char>, Listed)>, key: Seq<char>) -> Option<Listed>
    decreases entries.len(),
{
    if entries.len() == 0 {
        None
    } else if entries[0].0 == key {
        Some(entries[0].1)
    } else {
        found(entries.drop_first(), key)
    }
}

/// The listing with the first entry under `key` taken out.
pub open spec fn without(entries: Seq<(Seq<char>, Listed)>, key: Seq<char>) -> Seq<
    (Seq<char>, Listed),
>
    decreases entries.len(),
{
    if entries.len() == 0 {
        entries
    } else if entries[0].0 == key {
        entries.drop_first()
    } else {
        seq![entries[0]] + without(entries.drop_first(), key)
    }
}

/// The listing with the first entry under `key` marked as used at `used`.
pub open spec fn stamped(entries: Seq<(Seq<char>, Listed)>, key: Seq<char>, used: u64) -> Seq<
    (Seq<char>, Listed),
>
    decreases entries.len(),
{
    if entries.len() == 0 {
        entries
    } else if entries[0].0 == key {
        entries.update(0, (key, Listed { used, ..entries[0].1 }))
    } else {
        seq![entries[0]] + stamped(entries.drop_first(), key, used)
    }
}

/// Facts about the first entry under a key, all at once.
pub proof fn lemma_first_under(entries: Seq<(Seq<char>, Listed)>, key: Seq<char>, i: int, used: u64)
    requires
        first_under(entries, key, i),
    ensures
        found(entries, key) == Some(entries[i].1),
        without(entries, key) == entries.remove(i),
        stamped(entries, key, used) == entries.update(i, (key, Listed { used, ..entries[i].1 })),
    decreases entries.len(),
{
    if i > 0 {
        let rest = entries.drop_first();
        assert(first_under(rest, key, i - 1)) by {
            assert forall|j: int| 0 <= j < i - 1 implies #[trigger] rest[j].0 != key by {
                assert(rest[j] == entries[j + 1]);
            }
        }
        lemma_first_under(rest, key, i - 1, used);
        assert(without(entries, key) =~= entries.remove(i));
        assert(stamped(entries, key, used) =~= entries.update(
            i,
            (key, Listed { used, ..entries[i].1 }),
        ));
    } else {
        assert(entries.drop_first() =~= entries.remove(0));
    }
}

/// Facts about a key that is not listed, all at once.
pub proof fn lemma_not_listed(entries: Seq<(Seq<char>, Listed)>, key: Seq<char>, used: u64)
    requires
        !has_key(entries, key),
    ensures
        found(entries, key) is None,
        without(entries, key) == entries,
        stamped(entries, key, used) == entries,
        replaced(entries, key) == 0,
    decreases entries.len(),
{
    if entries.len() > 0 {
        let rest = entries.drop_first();
        assert(!has_key(rest, key)) by {
            if has_key(rest, key) {
                let j = choose|j: int| 0 <= j < rest.len() && #[trigger] rest[j].0 == key;
                assert(entries[j + 1].0 == key);
            }
        }
        assert(entries[0].0 != key) by {
            if entries[0].0 == key {
                assert(has_key(entries, key));
            }
        }
        lemma_not_listed(rest, key, used);
        assert(seq![entries[0]] + rest =~= entries);
    }
}

/// Where the first entry under `key` is, if one is.
fn position(entries: &Vec<(String, Entry)>, key: &str) -> (at: Option<usize>)
    ensures
        match at {
            Some(i) => first_under(listed(entries@), key@, i as int),
            None => !has_key(listed(entries@), key@),
        },
{
    let ghost all = listed(entries@);
    let mut i: usize = 0;
    while i < entries.len()
        invariant
            all == listed(entries@),
            i <= entries@.len(),
            forall|j: int| 0 <= j < i ==> #[trigger] all[j].0 != key@,
        decreases entries@.len() - i,
    {
        if crate::session::same_text(entries[i].0.as_str(), key) {
            return Some(i);
        }
        i = i + 1;
    }
    proof {
        if has_key(all, key@) {
            let j = choose|j: int| 0 <= j < all.len() && #[trigger] all[j].0 == key@;
        }
    }
    None
}

/// Whether an entry of `size` bytes goes into the pack at all: only while
/// this process may write it, and only when it is small enough to be worth
/// packing.
pub fn packs(size: usize, writable: bool) -> (packed: bool)
    ensures
        packed <==> size <= LARGEST && writable,
{
    size <= LARGEST && writable
}

/// Where a record's bytes begin when the record is written at `at`.
pub fn payload_at(at: u64, key: &str, content_type: &str) -> (payload: u64)
    requires
        at + 7 + text(key@).len() + text(content_type@).len() <= u64::MAX,
    ensures
        payload == at + 7 + text(key@).len() + text(content_type@).len(),
{
    at + 7 + key.as_bytes().len() as u64 + content_type.as_bytes().len() as u64
}

impl Held {
    /// A pack with nothing in it yet: the next record goes straight after
    /// the magic.
    pub fn empty() -> (held: Held)
        ensures
            held@.entries.len() == 0,
            held@.end == 8,
            held@.dead == 0,
    {
        let held = Held { entries: Vec::new(), end: 8, dead: 0 };
        assert(held@.entries =~= Seq::<(Seq<char>, Listed)>::empty());
        held
    }

    /// How many entries it holds.
    pub fn held(&self) -> (count: usize)
        ensures
            count == self@.entries.len(),
    {
        self.entries.len()
    }

    /// The entry under `key`, for reading its bytes back.
    pub fn lookup(&self, key: &str) -> (entry: Option<Entry>)
        ensures
            match entry {
                Some(e) => found(self@.entries, key@) == Some(e@),
                None => found(self@.entries, key@) is None,
            },
    {
        match position(&self.entries, key) {
            Some(i) => {
                proof {
                    lemma_first_under(self@.entries, key@, i as int, 0);
                }
                let entry = &self.entries[i].1;
                Some(
                    Entry {
                        at: entry.at,
                        bytes: entry.bytes,
                        content_type: entry.content_type.clone(),
                        used: entry.used,
                    },
                )
            },
            None => {
                proof {
                    lemma_not_listed(self@.entries, key@, 0);
                }
                None
            },
        }
    }

    /// Counts the entry under `key` as dead, because a new one is about to be
    /// written over it.
    pub fn retire(&mut self, key: &str)
        requires
            old(self)@.dead + replaced(old(self)@.entries, key@) <= u64::MAX,
        ensures
            final(self)@.entries == old(self)@.entries,
            final(self)@.end == old(self)@.end,
            final(self)@.dead == old(self)@.dead + replaced(old(self)@.entries, key@),
    {
        match position(&self.entries, key) {
            Some(i) => {
                proof {
                    lemma_put_found(self@.entries, key@, Listed { at: 0, bytes: 0, content_type: seq![], used: 0 }, i as int);
                }
                self.dead = self.dead + self.entries[i].1.bytes as u64;
            },
            None => {
                proof {
                    lemma_not_listed(self@.entries, key@, 0);
                }
            },
        }
    }

    /// Lists an entry just appended, whose bytes begin at `payload`, and moves
    /// the end past them.
    pub fn place(&mut self, key: &str, payload: u64, bytes: u32, content_type: &str, used: u64)
        requires
            payload + bytes <= u64::MAX,
        ensures
            final(self)@.entries == put(
                old(self)@.entries,
                key@,
                Listed { at: payload, bytes, content_type: content_type@, used },
            ),
            final(self)@.end == payload + bytes,
            final(self)@.dead == old(self)@.dead,
    {
        let entry = Entry { at: payload, bytes, content_type: String::from_str(content_type), used };
        let _gone = put_entry(&mut self.entries, String::from_str(key), entry);
        self.end = payload + bytes as u64;
    }

    /// Drops an entry. Its bytes are dead until the next compaction.
    pub fn forget(&mut self, key: &str)
        requires
            old(self)@.dead + replaced(old(self)@.entries, key@) <= u64::MAX,
        ensures
            final(self)@.entries == without(old(self)@.entries, key@),
            final(self)@.end == old(self)@.end,
            final(self)@.dead == old(self)@.dead + replaced(old(self)@.entries, key@),
    {
        match position(&self.entries, key) {
            Some(i) => {
                proof {
                    lemma_first_under(self@.entries, key@, i as int, 0);
                    lemma_put_found(self@.entries, key@, Listed { at: 0, bytes: 0, content_type: seq![], used: 0 }, i as int);
                }
                let gone = self.entries.remove(i);
                self.dead = self.dead + gone.1.bytes as u64;
                assert(self@.entries =~= old(self)@.entries.remove(i as int));
            },
            None => {
                proof {
                    lemma_not_listed(self@.entries, key@, 0);
                }
            },
        }
    }

    /// Marks an entry as just used.
    pub fn touch(&mut self, key: &str, used: u64)
        ensures
            final(self)@.entries == stamped(old(self)@.entries, key@, used),
            final(self)@.end == old(self)@.end,
            final(self)@.dead == old(self)@.dead,
    {
        match position(&self.entries, key) {
            Some(i) => {
                proof {
                    lemma_first_under(self@.entries, key@, i as int, used);
                }
                let (name, entry) = self.entries.remove(i);
                let stamped = Entry { used, ..entry };
                self.entries.insert(i, (name, stamped));
                assert(self@.entries =~= old(self)@.entries.update(
                    i as int,
                    (key@, Listed { used, ..old(self)@.entries[i as int].1 }),
                ));
            },
            None => {
                proof {
                    lemma_not_listed(self@.entries, key@, used);
                }
            },
        }
    }

    /// Every key held, with its size and recency.
    pub fn listing(&self) -> (listing: Vec<(String, u64, u64)>)
        ensures
            listing@.len() == self@.entries.len(),
            forall|i: int|
                0 <= i < listing@.len() ==> #[trigger] listing@[i].0@ == self@.entries[i].0
                    && listing@[i].1 == self@.entries[i].1.bytes && listing@[i].2
                    == self@.entries[i].1.used,
    {
        let mut out: Vec<(String, u64, u64)> = Vec::new();
        let mut i: usize = 0;
        while i < self.entries.len()
            invariant
                i <= self.entries@.len(),
                out@.len() == i,
                forall|j: int|
                    0 <= j < i ==> #[trigger] out@[j].0@ == self@.entries[j].0 && out@[j].1
                        == self@.entries[j].1.bytes && out@[j].2 == self@.entries[j].1.used,
            decreases self.entries@.len() - i,
        {
            let (key, entry) = (&self.entries[i].0, &self.entries[i].1);
            out.push((key.clone(), entry.bytes as u64, entry.used));
            i = i + 1;
        }
        out
    }

    /// Whether most of the file is bytes nobody can reach: more dead than
    /// live, and more than a megabyte of it.
    pub fn mostly_dead(&self) -> (rewrite: bool)
        ensures
            rewrite <==> self@.dead > live(self@.entries) && self@.dead > 1024 * 1024,
    {
        let mut sum: u64 = 0;
        let mut i: usize = 0;
        while i < self.entries.len()
            invariant
                i <= self.entries@.len(),
                sum == capped(live(self@.entries.take(i as int))),
            decreases self.entries@.len() - i,
        {
            proof {
                let es = self@.entries;
                assert(es.take(i + 1).drop_last() =~= es.take(i as int));
            }
            sum = sum.saturating_add(self.entries[i].1.bytes as u64);
            i = i + 1;
        }
        assert(self@.entries.take(i as int) =~= self@.entries);
        let floor: u64 = 1024 * 1024;
        let most = if sum > floor {
            sum
        } else {
            floor
        };
        self.dead > most
    }
}


/// How many bytes an entry's record takes.
pub open spec fn span(entry: (Seq<char>, Listed)) -> nat {
    (7 + text(entry.0).len() + text(entry.1.content_type).len() + entry.1.bytes) as nat
}

/// How many bytes the records of `entries` take, one after another.
pub open spec fn spans(entries: Seq<(Seq<char>, Listed)>) -> nat
    decreases entries.len(),
{
    if entries.len() == 0 {
        0
    } else {
        spans(entries.drop_last()) + span(entries.last())
    }
}

/// The entries once their records are written one after another straight
/// after the magic: each keeps everything but where its bytes now begin.
pub open spec fn relaid(entries: Seq<(Seq<char>, Listed)>) -> Seq<(Seq<char>, Listed)> {
    Seq::new(
        entries.len(),
        |i: int|
            (
                entries[i].0,
                Listed {
                    at: (8 + spans(entries.take(i)) + 7 + text(entries[i].0).len() + text(
                        entries[i].1.content_type,
                    ).len()) as u64,
                    ..entries[i].1
                },
            ),
    )
}

/// What a pack holds once the entries still readable, `kept`, have been
/// rewritten into a fresh file in order: their new offsets, the end after
/// the last of them, and nothing dead.
pub fn relay(kept: &Vec<(String, Entry)>) -> (held: Held)
    requires
        8 + spans(listed(kept@)) <= u64::MAX,
    ensures
        held@.entries == relaid(listed(kept@)),
        held@.end == 8 + spans(listed(kept@)),
        held@.dead == 0,
{
    let ghost all = listed(kept@);
    let mut entries: Vec<(String, Entry)> = Vec::new();
    let mut at: u64 = 8;
    let mut i: usize = 0;
    proof {
        assert(all.take(0) =~= Seq::<(Seq<char>, Listed)>::empty());
    }
    while i < kept.len()
        invariant
            all == listed(kept@),
            8 + spans(all) <= u64::MAX,
            i <= kept@.len(),
            at == 8 + spans(all.take(i as int)),
            listed(entries@) =~= relaid(all).take(i as int),
        decreases kept@.len() - i,
    {
        proof {
            assert(all.take(i + 1).drop_last() =~= all.take(i as int));
            assert(all.take(i + 1).last() == all[i as int]);
            lemma_spans_grow(all, i + 1);
        }
        let key = &kept[i].0;
        let entry = &kept[i].1;
        let payload = payload_at(at, key.as_str(), entry.content_type.as_str());
        let moved = Entry {
            at: payload,
            bytes: entry.bytes,
            content_type: entry.content_type.clone(),
            used: entry.used,
        };
        entries.push((key.clone(), moved));
        at = payload + entry.bytes as u64;
        proof {
            assert(relaid(all).take(i + 1) =~= relaid(all).take(i as int).push(relaid(all)[i as int]));
        }
        i = i + 1;
    }
    proof {
        assert(all.take(i as int) =~= all);
        assert(relaid(all).take(i as int) =~= relaid(all));
    }
    Held { entries, end: at, dead: 0 }
}

/// The records of a prefix take no more room than those of the whole.
proof fn lemma_spans_grow(entries: Seq<(Seq<char>, Listed)>, i: int)
    requires
        0 <= i <= entries.len(),
    ensures
        spans(entries.take(i)) <= spans(entries),
    decreases entries.len() - i,
{
    if i < entries.len() {
        lemma_spans_grow(entries, i + 1);
        assert(entries.take(i + 1).drop_last() =~= entries.take(i));
    } else {
        assert(entries.take(i) =~= entries);
    }
}


/// A key read back after an entry is put under it gives that entry, and
/// every other key reads back what it did before.
pub proof fn lemma_put_then_found(
    entries: Seq<(Seq<char>, Listed)>,
    key: Seq<char>,
    entry: Listed,
    other: Seq<char>,
)
    ensures
        found(put(entries, key, entry), key) == Some(entry),
        other != key ==> found(put(entries, key, entry), other) == found(entries, other),
    decreases entries.len(),
{
    if entries.len() > 0 && entries[0].0 != key {
        lemma_put_then_found(entries.drop_first(), key, entry, other);
        let grown = put(entries, key, entry);
        assert(grown.drop_first() =~= put(entries.drop_first(), key, entry));
        assert(grown[0] == entries[0]);
        if other != key {
            assert(found(grown, other) == found(entries, other));
        }
        assert(found(grown, key) == found(grown.drop_first(), key));
    } else if entries.len() > 0 {
        let grown = put(entries, key, entry);
        assert(grown.drop_first() =~= entries.drop_first());
        assert(grown[0].0 == key);
        if other != key {
            assert(found(grown, other) == found(grown.drop_first(), other));
            assert(found(entries, other) == found(entries.drop_first(), other));
        }
    } else {
        let grown = put(entries, key, entry);
        assert(grown.drop_first() =~= Seq::<(Seq<char>, Listed)>::empty());
        if other != key {
            assert(found(grown, other) == found(grown.drop_first(), other));
        }
    }
}

/// Putting an entry keeps each key listed once, and grows the listing only
/// when the key was not already in it.
pub proof fn lemma_put_unique(entries: Seq<(Seq<char>, Listed)>, key: Seq<char>, entry: Listed)
    requires
        unique_keys(entries),
    ensures
        unique_keys(put(entries, key, entry)),
        put(entries, key, entry).len() == if has_key(entries, key) {
            entries.len()
        } else {
            entries.len() + 1
        },
{
    if has_key(entries, key) {
        let i = choose|i: int| 0 <= i < entries.len() && #[trigger] entries[i].0 == key;
        assert(first_under(entries, key, i));
        lemma_put_found(entries, key, entry, i);
        let after = put(entries, key, entry);
        assert forall|a: int, b: int|
            0 <= a < after.len() && 0 <= b < after.len() && a != b implies #[trigger] after[a].0
            != #[trigger] after[b].0 by {
            assert(after[a].0 == entries[a].0);
            assert(after[b].0 == entries[b].0);
        }
    } else {
        lemma_put_missing(entries, key, entry);
        let after = put(entries, key, entry);
        assert forall|a: int, b: int|
            0 <= a < after.len() && 0 <= b < after.len() && a != b implies #[trigger] after[a].0
            != #[trigger] after[b].0 by {
            if a < entries.len() && b < entries.len() {
                assert(after[a] == entries[a]);
                assert(after[b] == entries[b]);
            } else if a < entries.len() {
                assert(after[a] == entries[a]);
            } else if b < entries.len() {
                assert(after[b] == entries[b]);
            }
        }
    }
}

/// A forgotten key, in a listing that has each key once, reads back nothing.
pub proof fn lemma_forgotten_is_gone(entries: Seq<(Seq<char>, Listed)>, key: Seq<char>)
    requires
        unique_keys(entries),
    ensures
        found(without(entries, key), key) is None,
{
    if has_key(entries, key) {
        let i = choose|i: int| 0 <= i < entries.len() && #[trigger] entries[i].0 == key;
        assert(first_under(entries, key, i));
        lemma_first_under(entries, key, i, 0);
        let rest = entries.remove(i);
        assert(!has_key(rest, key)) by {
            if has_key(rest, key) {
                let j = choose|j: int| 0 <= j < rest.len() && #[trigger] rest[j].0 == key;
                if j < i {
                    assert(rest[j] == entries[j]);
                } else {
                    assert(rest[j] == entries[j + 1]);
                }
            }
        }
        lemma_not_listed(rest, key, 0);
    } else {
        lemma_not_listed(entries, key, 0);
    }
}


/// A record reads back as what was written: whatever stands before it and
/// after it, reading a record at the place it was written finds its key, its
/// content type, its bytes at the payload, and the place the next record
/// starts -- which is how a directory lost to a crash is rebuilt.
pub proof fn lemma_a_record_reads_back(
    before: Seq<u8>,
    key: Seq<char>,
    bytes: Seq<u8>,
    content_type: Seq<char>,
    after: Seq<u8>,
    length: u64,
)
    requires
        text(key).len() > 0,
        writable((key, Listed { at: 0, bytes: 0, content_type, used: 0 })),
        bytes.len() < 0x1_0000_0000,
        before.len() + record_bytes(key, bytes, content_type).len() <= length,
    ensures
        ({
            let all = before + record_bytes(key, bytes, content_type) + after;
            let payload = before.len() + 7 + text(key).len() + text(content_type).len();
            &&& record_at(all, length, before.len() as int) == Some(
                (
                    key,
                    Listed {
                        at: payload as u64,
                        bytes: bytes.len() as u32,
                        content_type,
                        used: before.len() as u64,
                    },
                    (payload + bytes.len()) as int,
                ),
            )
            &&& all.subrange(payload as int, (payload + bytes.len()) as int) == bytes
        }),
{
    lemma_auto_spec_u32_to_from_le_bytes();
    lemma_auto_spec_u16_to_from_le_bytes();
    let record = record_bytes(key, bytes, content_type);
    let all = before + record + after;
    let at = before.len() as int;
    let k = text(key);
    let t = text(content_type);
    let key_len = spec_u16_to_le_bytes(k.len() as u16);
    assert(all.subrange(at, at + 2) =~= key_len);
    assert(spec_u16_from_le_bytes(key_len) == k.len() as u16);
    assert(all[at + 2] == t.len() as u8);
    assert(all.subrange(at + 3, at + 7) =~= spec_u32_to_le_bytes(bytes.len() as u32));
    assert(all.subrange(at + 7, at + 7 + k.len()) =~= k);
    assert(all.subrange(at + 7 + k.len(), at + 7 + k.len() + t.len()) =~= t);
    assert(all.subrange(at + 7 + k.len() + t.len(), at + 7 + k.len() + t.len() + bytes.len()) =~= bytes);
}


/// A record to be written: its key, its bytes and its content type.
pub type Written = (Seq<char>, Seq<u8>, Seq<char>);

/// Records written one after another.
pub open spec fn written(records: Seq<Written>) -> Seq<u8>
    decreases records.len(),
{
    if records.len() == 0 {
        seq![]
    } else {
        record_bytes(records[0].0, records[0].1, records[0].2) + written(records.drop_first())
    }
}

/// What reading through records written one after another from `at` finds:
/// each record's key, and an entry whose bytes start at its payload and whose
/// recency is where the record starts.
pub open spec fn laid(at: int, records: Seq<Written>) -> Seq<(Seq<char>, Listed)>
    decreases records.len(),
{
    if records.len() == 0 {
        seq![]
    } else {
        let r = records[0];
        let payload = at + 7 + text(r.0).len() + text(r.2).len();
        seq![(r.0, Listed { at: payload as u64, bytes: r.1.len() as u32, content_type: r.2, used: at as u64 })]
            + laid(payload + r.1.len(), records.drop_first())
    }
}

/// Whether a record can be written so that it reads back: a key that is not
/// empty, lengths that fit the header.
pub open spec fn recordable(r: Written) -> bool {
    &&& text(r.0).len() > 0
    &&& writable((r.0, Listed { at: 0, bytes: 0, content_type: r.2, used: 0 }))
    &&& r.1.len() < 0x1_0000_0000
}

/// Records written one after another, and nothing after them, read back one
/// by one as they were written, each where it was written, and reading stops
/// where they do.
pub proof fn lemma_records_read_back(before: Seq<u8>, records: Seq<Written>, length: u64)
    requires
        forall|i: int| 0 <= i < records.len() ==> #[trigger] recordable(records[i]),
        before.len() + written(records).len() <= length,
    ensures
        records_from(before + written(records), length, before.len() as int) == laid(
            before.len() as int,
            records,
        ),
        records_end(before + written(records), length, before.len() as int) == before.len()
            + written(records).len(),
    decreases records.len(),
{
    lemma_auto_spec_u32_to_from_le_bytes();
    lemma_auto_spec_u16_to_from_le_bytes();
    let all = before + written(records);
    if records.len() == 0 {
        assert(all =~= before);
    } else {
        let r = records[0];
        assert(recordable(r));
        let rest = records.drop_first();
        let record = record_bytes(r.0, r.1, r.2);
        assert(written(records) == record + written(rest));
        assert(all =~= before + record + written(rest));
        lemma_a_record_reads_back(before, r.0, r.1, r.2, written(rest), length);
        let next = before + record;
        assert forall|i: int| 0 <= i < rest.len() implies #[trigger] recordable(rest[i]) by {
            assert(rest[i] == records[i + 1]);
        }
        lemma_records_read_back(next, rest, length);
        assert(next + written(rest) =~= all);
        assert(record.len() == 7 + text(r.0).len() + text(r.2).len() + r.1.len());
    }
}

/// A pack whose directory was lost, holding the magic and then records
/// written one after another, is walked back to what those records say: each
/// key with the last entry written under it, the end where the last record
/// ends, and the bytes of every entry a later record took the place of
/// counted as dead.
pub proof fn lemma_a_lost_directory_is_walked(records: Seq<Written>, length: u64)
    requires
        forall|i: int| 0 <= i < records.len() ==> #[trigger] recordable(records[i]),
        magic().len() + written(records).len() <= length,
    ensures
        walked(magic() + written(records), length) == (HeldView {
            entries: gathered(laid(8, records)),
            end: (8 + written(records).len()) as u64,
            dead: capped(overwritten(laid(8, records))),
        }),
{
    lemma_records_read_back(magic(), records, length);
}


/// Records written as two runs are the two runs of bytes, one after the other.
proof fn lemma_written_joins(first: Seq<Written>, second: Seq<Written>)
    ensures
        written(first + second) == written(first) + written(second),
    decreases first.len(),
{
    if first.len() == 0 {
        assert(first + second =~= second);
        assert(written(first) + written(second) =~= written(second));
    } else {
        lemma_written_joins(first.drop_first(), second);
        assert((first + second).drop_first() =~= first.drop_first() + second);
        assert(written(first + second) =~= written(first) + written(second));
    }
}

/// One record written alone is that record's bytes, which are the header,
/// the key, the content type and the bytes.
proof fn lemma_written_one(r: Written)
    ensures
        written(seq![r]) == record_bytes(r.0, r.1, r.2),
        record_bytes(r.0, r.1, r.2).len() == 7 + text(r.0).len() + text(r.2).len() + r.1.len(),
{
    lemma_auto_spec_u32_to_from_le_bytes();
    lemma_auto_spec_u16_to_from_le_bytes();
    assert(seq![r].drop_first() =~= Seq::<Written>::empty());
    assert(written(Seq::<Written>::empty()) == Seq::<u8>::empty());
    assert(written(seq![r]) =~= record_bytes(r.0, r.1, r.2));
}

/// The records a set of entries is rewritten as: each entry's key, its bytes
/// as they were read back, and its content type.
pub open spec fn rewritten(kept: Seq<(Seq<char>, Listed)>, payloads: Seq<Seq<u8>>) -> Seq<Written> {
    Seq::new(kept.len(), |i: int| (kept[i].0, payloads[i], kept[i].1.content_type))
}

/// Whether `payloads` are the bytes of `kept`, one for each, each as long as
/// its entry says, and each entry fit to be written as a record.
pub open spec fn payloads_of(kept: Seq<(Seq<char>, Listed)>, payloads: Seq<Seq<u8>>) -> bool {
    &&& kept.len() == payloads.len()
    &&& forall|i: int|
        0 <= i < kept.len() ==> #[trigger] payloads[i].len() == kept[i].1.bytes && recordable(
            (kept[i].0, payloads[i], kept[i].1.content_type),
        )
}

/// The first `n` entries and their bytes are entries and their bytes too.
proof fn lemma_payloads_take(kept: Seq<(Seq<char>, Listed)>, payloads: Seq<Seq<u8>>, n: int)
    requires
        payloads_of(kept, payloads),
        0 <= n <= kept.len(),
    ensures
        payloads_of(kept.take(n), payloads.take(n)),
        rewritten(kept.take(n), payloads.take(n)) == rewritten(kept, payloads).take(n),
{
    assert forall|i: int| 0 <= i < kept.take(n).len() implies #[trigger] payloads.take(n)[i].len()
        == kept.take(n)[i].1.bytes && recordable(
        (kept.take(n)[i].0, payloads.take(n)[i], kept.take(n)[i].1.content_type),
    ) by {
        assert(kept.take(n)[i] == kept[i]);
        assert(payloads.take(n)[i] == payloads[i]);
    }
    assert(rewritten(kept.take(n), payloads.take(n)) =~= rewritten(kept, payloads).take(n));
}

/// Entries rewritten as records take up exactly the room the relaid
/// directory counts for them.
proof fn lemma_rewritten_length(kept: Seq<(Seq<char>, Listed)>, payloads: Seq<Seq<u8>>)
    requires
        payloads_of(kept, payloads),
    ensures
        written(rewritten(kept, payloads)).len() == spans(kept),
    decreases kept.len(),
{
    if kept.len() > 0 {
        let n = kept.len() - 1;
        lemma_payloads_take(kept, payloads, n);
        assert(kept.take(n) =~= kept.drop_last());
        lemma_rewritten_length(kept.take(n), payloads.take(n));
        let all = rewritten(kept, payloads);
        assert(all =~= all.take(n) + seq![all[n]]);
        lemma_written_joins(all.take(n), seq![all[n]]);
        lemma_written_one(all[n]);
        assert(payloads[n].len() == kept[n].1.bytes);
    }
}

/// The entry at `i`, once the kept entries are rewritten: its bytes stand
/// where the relaid directory says they start.
proof fn lemma_rewritten_entry(kept: Seq<(Seq<char>, Listed)>, payloads: Seq<Seq<u8>>, i: int)
    requires
        payloads_of(kept, payloads),
        8 + spans(kept) <= u64::MAX,
        0 <= i < kept.len(),
    ensures
        ({
            let file = magic() + written(rewritten(kept, payloads));
            let at = relaid(kept)[i].1.at;
            file.subrange(at as int, at + kept[i].1.bytes) == payloads[i]
        }),
{
    let rs = rewritten(kept, payloads);
    let front = rs.take(i);
    let back = rs.skip(i + 1);
    let r = rs[i];
    assert(rs =~= front + seq![r] + back);
    lemma_written_joins(front + seq![r], back);
    lemma_written_joins(front, seq![r]);
    lemma_written_one(r);
    lemma_payloads_take(kept, payloads, i);
    lemma_rewritten_length(kept.take(i), payloads.take(i));
    lemma_rewritten_length(kept, payloads);
    assert(recordable(r));
    let file = magic() + written(rs);
    assert(file =~= (magic() + written(front)) + record_bytes(r.0, r.1, r.2) + written(back));
    lemma_a_record_reads_back(
        magic() + written(front),
        r.0,
        r.1,
        r.2,
        written(back),
        (8 + spans(kept)) as u64,
    );
}

/// Compaction keeps what is live: once the entries kept have been rewritten
/// one after another after the magic, each entry's bytes stand in the new
/// file exactly where the relaid directory says they start, under the same
/// key and content type, and the records end where the relaid directory says
/// the directory begins.
pub proof fn lemma_compaction_keeps_what_is_live(
    kept: Seq<(Seq<char>, Listed)>,
    payloads: Seq<Seq<u8>>,
)
    requires
        payloads_of(kept, payloads),
        8 + spans(kept) <= u64::MAX,
    ensures
        8 + written(rewritten(kept, payloads)).len() == 8 + spans(kept),
        forall|i: int|
            0 <= i < kept.len() ==> ({
                let file = magic() + written(rewritten(kept, payloads));
                let at = #[trigger] relaid(kept)[i].1.at;
                &&& relaid(kept)[i].0 == kept[i].0
                &&& relaid(kept)[i].1.bytes == kept[i].1.bytes
                &&& relaid(kept)[i].1.content_type == kept[i].1.content_type
                &&& file.subrange(at as int, at + kept[i].1.bytes) == payloads[i]
            }),
{
    lemma_rewritten_length(kept, payloads);
    assert forall|i: int| 0 <= i < kept.len() implies ({
        let file = magic() + written(rewritten(kept, payloads));
        let at = #[trigger] relaid(kept)[i].1.at;
        &&& relaid(kept)[i].0 == kept[i].0
        &&& relaid(kept)[i].1.bytes == kept[i].1.bytes
        &&& relaid(kept)[i].1.content_type == kept[i].1.content_type
        &&& file.subrange(at as int, at + kept[i].1.bytes) == payloads[i]
    }) by {
        lemma_rewritten_entry(kept, payloads, i);
    }
}


/// What a read gives back of a write: once an entry is written at the end of
/// a pack -- its record where the directory was, then the directory of what
/// is held now -- looking its key up finds where its bytes start, how many
/// there are, its content type and when it was used, the file holds exactly
/// those bytes there, and every other key looks up what it did before.
pub proof fn lemma_a_write_reads_back(
    held: HeldView,
    file: Seq<u8>,
    key: Seq<char>,
    bytes: Seq<u8>,
    content_type: Seq<char>,
    used: u64,
    other: Seq<char>,
)
    requires
        file.len() >= held.end,
        held.end + record_bytes(key, bytes, content_type).len() <= u64::MAX,
    ensures
        ({
            let payload = (held.end + 7 + text(key).len() + text(content_type).len()) as u64;
            let entry = Listed { at: payload, bytes: bytes.len() as u32, content_type, used };
            let now = HeldView { entries: put(held.entries, key, entry), end: (payload + bytes.len()) as u64, dead: held.dead };
            let written = file.take(held.end as int) + record_bytes(key, bytes, content_type) + directory_bytes(now);
            &&& found(now.entries, key) == Some(entry)
            &&& written.subrange(payload as int, payload + bytes.len()) == bytes
            &&& other != key ==> found(now.entries, other) == found(held.entries, other)
        }),
{
    let payload = (held.end + 7 + text(key).len() + text(content_type).len()) as u64;
    let entry = Listed { at: payload, bytes: bytes.len() as u32, content_type, used };
    lemma_put_then_found(held.entries, key, entry, other);
    lemma_written_one((key, bytes, content_type));
    let now = HeldView { entries: put(held.entries, key, entry), end: (payload + bytes.len()) as u64, dead: held.dead };
    let record = record_bytes(key, bytes, content_type);
    let written = file.take(held.end as int) + record + directory_bytes(now);
    let header = (7 + text(key).len() + text(content_type).len()) as int;
    assert(record.subrange(header, header + bytes.len()) =~= bytes);
    assert(written.subrange(payload as int, payload + bytes.len()) =~= record.subrange(
        header,
        header + bytes.len(),
    ));
}

} // verus!
