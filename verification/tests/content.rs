use manager_core::search::content::{scan_chunk, ChunkScan, Needle, CHUNK};

#[test]
fn an_empty_search_is_no_search_at_all() {
    assert_eq!(Needle::new("", false), None);
}

#[test]
fn it_finds_text_anywhere_in_the_bytes() {
    let needle = Needle::new("needle", true).unwrap();
    assert!(needle.is_in(b"needle at the start"));
    assert!(needle.is_in(b"somewhere in the needle of it"));
    assert!(needle.is_in(b"at the end is the needle"));
    assert!(!needle.is_in(b"nothing like it here"));
}

#[test]
fn case_can_be_ignored_or_insisted_on() {
    let loose = Needle::new("Error", false).unwrap();
    assert!(loose.is_in(b"ERROR: it broke"));
    assert!(loose.is_in(b"error: it broke"));

    let strict = Needle::new("Error", true).unwrap();
    assert!(strict.is_in(b"Error: it broke"));
    assert!(!strict.is_in(b"ERROR: it broke"));
}

#[test]
fn a_needle_longer_than_the_haystack_is_simply_absent() {
    let needle = Needle::new("a very long search string", false).unwrap();
    assert!(!needle.is_in(b"short"));
    assert!(!needle.is_in(b""));
}

// ---- Reading in chunks, the way a stream is searched ----

/// Feeds `body` through `scan_chunk` in pieces of `size`, as a reader would.
fn search(body: &[u8], text: &str, size: usize) -> bool {
    let needle = Needle::new(text, true).unwrap();
    let mut carried: Vec<u8> = Vec::new();
    for piece in body.chunks(size) {
        match scan_chunk(&needle, &carried, piece) {
            ChunkScan::Found => return true,
            ChunkScan::Carry(keep) => carried = keep,
        }
    }
    false
}

#[test]
fn text_lying_across_two_reads_is_found() {
    let mut body = vec![b'.'; CHUNK - 3];
    body.extend_from_slice(b"SPLIT-HERE");
    body.extend(vec![b'.'; 100]);
    assert!(search(&body, "SPLIT-HERE", CHUNK));
}

#[test]
fn a_search_string_longer_than_a_chunk_is_found() {
    let needle = "x".repeat(CHUNK + 50);
    let mut body = vec![b'.'; 10];
    body.extend_from_slice(needle.as_bytes());
    body.extend(vec![b'.'; 10]);
    assert!(search(&body, &needle, CHUNK));
}

#[test]
fn any_chunk_size_finds_the_same() {
    let body = b"hello there world";
    for size in 1..body.len() + 1 {
        assert!(search(body, "there", size), "{size}");
        assert!(!search(body, "absent", size), "{size}");
    }
}

#[test]
fn the_carried_tail_is_one_byte_short_of_the_text() {
    let needle = Needle::new("abcd", true).unwrap();
    assert_eq!(scan_chunk(&needle, b"", b"xyz123"), ChunkScan::Carry(b"123".to_vec()));
    assert_eq!(scan_chunk(&needle, b"12", b"3"), ChunkScan::Carry(b"123".to_vec()));
    assert_eq!(scan_chunk(&needle, b"ab", b"cd"), ChunkScan::Found);
}

#[test]
fn the_needle_remembers_its_length() {
    let needle = Needle::new("caf\u{e9}", false).unwrap();
    assert_eq!(needle.len(), 5, "counted in bytes");
    assert!(!needle.is_empty());
    assert!(needle.is_in("CAF\u{e9}".as_bytes()));
}
