use matterless_view::pack::{
    FOOTER, Held, LARGEST, MAGIC_LEN, directory, directory_start, magic_bytes, packs,
    parse_directory, payload_at, record, relay, take, walk,
};

/// A pack kept in memory: the bytes a file would hold, and what is held.
struct Mem {
    file: Vec<u8>,
    held: Held,
}

impl Mem {
    /// Opens a pack from the bytes of a file, the way the window does.
    fn open(file: Vec<u8>) -> Mem {
        let mut file = file;
        if file.is_empty() {
            file = magic_bytes();
        }
        let length = file.len() as u64;
        let held = if length <= MAGIC_LEN as u64 {
            Held::empty()
        } else {
            let footer = &file[file.len().saturating_sub(FOOTER)..];
            match directory_start(footer, length) {
                Some(end) => {
                    let written = &file[end as usize..file.len() - FOOTER];
                    match parse_directory(written, end) {
                        Some(held) => held,
                        None => walk(&file, length),
                    }
                }
                None => walk(&file, length),
            }
        };
        let mut pack = Mem { file, held };
        if pack.held.mostly_dead() {
            pack.compact();
        }
        pack
    }

    fn write(&mut self, key: &str, bytes: &[u8], content_type: &str, used: u64) {
        if !packs(bytes.len(), true) {
            return;
        }
        self.held.retire(key);
        let at = self.held.end;
        self.file.truncate(at as usize);
        self.file.extend_from_slice(&record(key, bytes, content_type));
        let payload = payload_at(at, key, content_type);
        self.held
            .place(key, payload, bytes.len() as u32, content_type, used);
        self.file.truncate(self.held.end as usize);
        self.file.extend_from_slice(&directory(&self.held));
    }

    fn read(&self, key: &str) -> Option<(Vec<u8>, String)> {
        let entry = self.held.lookup(key)?;
        let from = entry.at as usize;
        let to = from + entry.bytes as usize;
        Some((self.file.get(from..to)?.to_vec(), entry.content_type))
    }

    fn compact(&mut self) {
        let held = relay(&self.held.entries);
        let mut fresh = magic_bytes();
        for (key, entry) in &self.held.entries {
            let from = entry.at as usize;
            let bytes = self.file[from..from + entry.bytes as usize].to_vec();
            fresh.extend_from_slice(&record(key, &bytes, &entry.content_type));
        }
        fresh.extend_from_slice(&directory(&held));
        self.file = fresh;
        self.held = held;
    }

    /// Closes it and hands back what a file would hold.
    fn close(self) -> Vec<u8> {
        self.file
    }
}

#[test]
fn an_entry_reads_back_with_its_content_type() {
    let mut pack = Mem::open(Vec::new());
    pack.write("avatar/u1", b"the bytes", "image/png", 1);
    let (bytes, content_type) = pack.read("avatar/u1").expect("held");
    assert_eq!(bytes, b"the bytes");
    assert_eq!(content_type, "image/png");
    assert!(pack.read("avatar/u2").is_none());
}

#[test]
fn entries_survive_reopening() {
    let mut pack = Mem::open(Vec::new());
    for at in 0..20 {
        pack.write(
            &format!("emoji/{at}"),
            format!("number {at}").as_bytes(),
            "image/webp",
            at,
        );
    }
    let again = Mem::open(pack.close());
    assert_eq!(again.held.held(), 20);
    assert_eq!(again.read("emoji/7").expect("held").0, b"number 7");
    assert_eq!(again.read("emoji/19").expect("held").0, b"number 19");
}

/// The same key written twice reads back the second one, before and after a
/// restart.
#[test]
fn a_rewritten_key_reads_back_the_new_bytes() {
    let mut pack = Mem::open(Vec::new());
    pack.write("avatar/u1", b"the old ones", "image/png", 1);
    pack.write("avatar/u1", b"the new ones", "image/png", 2);
    assert_eq!(pack.read("avatar/u1").expect("held").0, b"the new ones");
    assert_eq!(pack.held.dead, 12, "the old bytes are dead");
    let again = Mem::open(pack.close());
    assert_eq!(again.held.held(), 1);
    assert_eq!(again.read("avatar/u1").expect("held").0, b"the new ones");
}

/// A directory lost to a crash is rebuilt from the records themselves.
#[test]
fn a_pack_with_no_directory_is_walked() {
    let mut pack = Mem::open(Vec::new());
    pack.write("emoji/one", b"first", "image/webp", 1);
    pack.write("emoji/two", b"second", "image/webp", 2);
    let whole = pack.close();
    let records = whole.len()
        - (FOOTER + 4 + 2 * (8 + 4 + 8 + 2 + 1 + "emoji/one".len() + "image/webp".len()));
    let again = Mem::open(whole[..records].to_vec());
    assert_eq!(again.held.held(), 2, "both records were still there");
    assert_eq!(again.read("emoji/two").expect("held").0, b"second");
    assert_eq!(again.held.end, records as u64);
}

/// Dead bytes do not accumulate forever.
#[test]
fn compaction_keeps_what_is_live_and_drops_the_rest() {
    let big = vec![7u8; 100 * 1024];
    let mut pack = Mem::open(Vec::new());
    for _ in 0..20 {
        pack.write("avatar/u1", &big, "image/png", 1);
    }
    pack.write("avatar/u2", b"small", "image/png", 2);
    let before = pack.close();
    assert!(before.len() > 1024 * 1024, "dead bytes piled up: {}", before.len());

    let again = Mem::open(before);
    assert!(again.file.len() < 200 * 1024, "compacted down to {}", again.file.len());
    assert_eq!(again.held.held(), 2);
    assert_eq!(again.held.dead, 0);
    assert_eq!(again.read("avatar/u1").expect("held").0.len(), big.len());
    assert_eq!(again.read("avatar/u2").expect("held").0, b"small");
}

#[test]
fn something_too_big_is_left_to_its_own_file() {
    let mut pack = Mem::open(Vec::new());
    pack.write("file/huge", &vec![0u8; LARGEST + 1], "video/mp4", 1);
    assert_eq!(pack.held.held(), 0);
    assert!(packs(LARGEST, true));
    assert!(!packs(LARGEST + 1, true));
    assert!(!packs(1, false), "a pack another process holds is not written");
}

#[test]
fn a_record_is_laid_out_as_its_header_says() {
    let written = record("ab", b"xyz", "t");
    assert_eq!(
        written,
        vec![2, 0, 1, 3, 0, 0, 0, b'a', b'b', b't', b'x', b'y', b'z']
    );
    assert_eq!(payload_at(8, "ab", "t"), 8 + 7 + 2 + 1);
    assert_eq!(magic_bytes(), b"MLPACK01".to_vec());
}

#[test]
fn a_directory_is_read_back_as_it_was_written() {
    let mut held = Held::empty();
    held.place("emoji/a", 15, 3, "image/png", 9);
    held.place("emoji/b", 40, 5, "image/gif", 11);
    let written = directory(&held);
    let body = &written[..written.len() - FOOTER];
    let footer = &written[written.len() - FOOTER..];
    let length = held.end + written.len() as u64;
    assert_eq!(directory_start(footer, length), Some(held.end));
    let again = parse_directory(body, held.end).expect("a directory");
    assert_eq!(again.listing(), held.listing());
    assert_eq!(again.end, held.end);
    let b = again.lookup("emoji/b").expect("held");
    assert_eq!((b.at, b.bytes, b.content_type.as_str(), b.used), (40, 5, "image/gif", 11));
}

#[test]
fn a_torn_directory_is_not_read() {
    let mut held = Held::empty();
    held.place("emoji/a", 15, 3, "image/png", 9);
    let written = directory(&held);
    let body = &written[..written.len() - FOOTER];
    assert!(parse_directory(&body[..body.len() - 1], held.end).is_none());
    let mut footer = written[written.len() - FOOTER..].to_vec();
    footer[15] = b'2';
    assert_eq!(directory_start(&footer, 100), None);
}

#[test]
fn forgetting_and_touching_change_only_what_they_name() {
    let mut held = Held::empty();
    held.place("a", 15, 3, "t", 1);
    held.place("b", 25, 4, "t", 2);
    held.touch("b", 7);
    assert_eq!(held.lookup("b").expect("held").used, 7);
    assert_eq!(held.lookup("a").expect("held").used, 1);
    held.forget("a");
    assert!(held.lookup("a").is_none());
    assert_eq!(held.dead, 3);
    assert_eq!(held.listing(), vec![("b".to_string(), 4, 7)]);
    held.touch("missing", 9);
    held.forget("missing");
    assert_eq!(held.held(), 1);
}

#[test]
fn taking_past_the_end_takes_nothing() {
    let from = [1u8, 2, 3];
    let mut at = 1;
    assert_eq!(take(&from, &mut at, 2), Some(&from[1..3]));
    assert_eq!(at, 3);
    assert_eq!(take(&from, &mut at, 1), None);
    assert_eq!(at, 3);
}
