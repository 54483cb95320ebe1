use blinkdb::bound::Bound;
use blinkdb::crc16::crc16_arr;
use blinkdb::frag::Frag;
use blinkdb::log::{recover, Log};
use blinkdb::page::{Config, Pages};
use blinkdb::radix::Radix;
use blinkdb::stack::{Stack, StackIter};
use blinkdb::tree::Tree;

fn k(s: &str) -> Vec<u8> {
    s.as_bytes().to_vec()
}

#[test]
fn bounds_cover_their_ranges() {
    assert!(Bound::Inf.covers(b"anything"));
    assert!(Bound::Exclusive(k("m")).covers(b"a"));
    assert!(!Bound::Exclusive(k("m")).covers(b"m"));
    assert!(Bound::Inclusive(k("m")).covers(b"m"));
    assert!(!Bound::Inclusive(k("m")).covers(b"n"));
    assert!(Bound::Exclusive(k("")).covers(b"") == false);
}

#[test]
fn checksum_is_deterministic_and_sensitive() {
    let a = crc16_arr(b"hello world");
    let b = crc16_arr(b"hello world");
    let c = crc16_arr(b"hello worle");
    assert_eq!(a, b);
    assert_ne!(a, c);
    let _ = crc16_arr(b"");
}

#[test]
fn stack_push_and_iterate_newest_first() {
    let mut s: Stack<u64> = Stack::new();
    s.push(1);
    s.push(2);
    s.push(3);
    let mut it = StackIter::new_from(&s, s.head_ref());
    assert_eq!(it.next(), Some(&3));
    assert_eq!(it.next(), Some(&2));
    assert_eq!(it.next(), Some(&1));
    assert_eq!(it.next(), None);
}

#[test]
fn stack_iterator_is_a_snapshot() {
    let mut s: Stack<u64> = Stack::new();
    s.push(1);
    s.push(2);
    let snap = s.head_ref();
    s.push(3);
    let mut it = StackIter::new_from(&s, snap);
    assert_eq!(it.next(), Some(&2));
    assert_eq!(it.next(), Some(&1));
    assert_eq!(it.next(), None);
}

#[test]
fn stack_cas_push_exactly_one_winner_per_head() {
    let mut s: Stack<u64> = Stack::new();
    let first = s.cas_push(None, 10);
    assert!(first.is_ok());
    // A racer that still expects the old head must lose and observe the
    // new head, which it can retry from.
    let loser = s.cas_push(None, 11);
    match loser {
        Err(actual) => {
            assert_eq!(actual, s.head_ref());
        },
        Ok(_) => panic!("second CAS on the same expected head must fail"),
    }
    // Retrying from the observed head succeeds.
    let retry = s.cas_push(s.head_ref(), 11);
    assert!(retry.is_ok());
    let mut it = StackIter::new_from(&s, s.head_ref());
    assert_eq!(it.next(), Some(&11));
    assert_eq!(it.next(), Some(&10));
    assert_eq!(it.next(), None);
}

#[test]
fn log_append_read_round_trip() {
    let mut l = Log::new();
    let id0 = l.append(b"");
    let id1 = l.append(b"first record");
    let id2 = l.append(&[0u8; 300]);
    assert_eq!(l.read(id0).unwrap(), Vec::<u8>::new());
    assert_eq!(l.read(id1).unwrap(), b"first record".to_vec());
    assert_eq!(l.read(id2).unwrap(), vec![0u8; 300]);
    // An offset in the middle of a record does not validate.
    assert!(l.read(id1 + 1).is_err());
}

#[test]
fn log_ids_are_byte_offsets_and_monotonic() {
    let mut l = Log::new();
    let id0 = l.append(b"abc");
    let id1 = l.append(b"defg");
    assert_eq!(id0, 0);
    // length prefix (4) + payload (3) + checksum (2)
    assert_eq!(id1, 9);
    assert_eq!(l.tail(), 9 + 4 + 4 + 2);
}

#[test]
fn recover_stops_at_tear_and_is_monotonic() {
    let mut l = Log::new();
    let _ = l.append(b"one");
    let _ = l.append(b"two");
    let _ = l.append(b"three");
    let full = l.buf.clone();
    let mut prev_valid = 0usize;
    for cut in 0..=full.len() {
        let r = recover(&full[..cut]);
        // The recovered prefix only grows with the amount of data
        // present, and every recovered record re-reads valid.
        assert!(r.log.buf.len() >= prev_valid);
        prev_valid = r.log.buf.len();
        for (lid, payload) in &r.records {
            let back = r.log.read(*lid).expect("recovered record must validate");
            assert_eq!(&back, payload);
        }
    }
    let whole = recover(&full);
    assert_eq!(whole.records.len(), 3);
    assert_eq!(whole.records[0].1, b"one".to_vec());
    assert_eq!(whole.records[2].1, b"three".to_vec());
}

#[test]
fn recover_rejects_corrupt_middle() {
    let mut l = Log::new();
    let _ = l.append(b"aaaa");
    let _ = l.append(b"bbbb");
    let mut bytes = l.buf.clone();
    // Flip a payload byte of the first record: its checksum no longer
    // matches, so recovery keeps nothing from that point on.
    bytes[4] ^= 0xFF;
    let r = recover(&bytes);
    assert_eq!(r.records.len(), 0);
    assert_eq!(r.log.buf.len(), 0);
}

#[test]
fn radix_get_cas_insert_new() {
    let mut r = Radix::new();
    assert_eq!(r.get(7), None);
    r.insert_new(7, None);
    assert_eq!(r.get(7), Some(None));
    // CAS with the right expectation wins; with a stale one it fails.
    assert!(r.cas(7, None, Some(3)));
    assert!(!r.cas(7, None, Some(4)));
    assert_eq!(r.get(7), Some(Some(3)));
    // A distant id lands in another trie row.
    r.insert_new(1000, Some(1));
    assert_eq!(r.get(1000), Some(Some(1)));
    assert_eq!(r.get(999), None);
}

#[test]
fn pages_install_and_view() {
    let mut p = Pages::new(Config::new(8, 8));
    let pid = p.allocate();
    let (v0, h0) = p.get_view(pid);
    assert_eq!(v0.items.len(), 0);
    let r = p.install(pid, Frag::Put(k("a"), k("1")), h0);
    assert!(r.is_ok());
    let (v1, h1) = p.get_view(pid);
    assert_eq!(v1.items.len(), 1);
    assert_eq!(v1.items[0].0, k("a"));
    assert_eq!(v1.items[0].1, k("1"));
    // A stale head loses the race and is told the head actually seen.
    let stale = p.install(pid, Frag::Put(k("b"), k("2")), h0);
    match stale {
        Err(actual) => assert_eq!(Some(actual), {
            let (_v, h) = p.get_view(pid);
            Some(h)
        }),
        Ok(_) => panic!("install against a stale head must fail"),
    }
    let ok = p.install(pid, Frag::Put(k("b"), k("2")), h1);
    assert!(ok.is_ok());
}

#[test]
fn consolidation_keeps_the_view_and_shrinks_the_chain_to_one() {
    let mut p = Pages::new(Config::new(3, 100));
    let pid = p.allocate();
    for i in 0..8u8 {
        let (_v, h) = p.get_view(pid);
        let r = p.install(pid, Frag::Put(vec![i], vec![i, i]), h);
        assert!(r.is_ok());
    }
    let (before, _) = p.get_view(pid);
    assert!(chain_len(&p, pid) > 3);
    assert!(p.maybe_consolidate(pid));
    let (after, _) = p.get_view(pid);
    assert_eq!(before.items, after.items);
    assert_eq!(before.hi, after.hi);
    assert_eq!(before.right, after.right);
    assert_eq!(chain_len(&p, pid), 1);
}

fn chain_len(p: &Pages, pid: usize) -> usize {
    let mut n = 0usize;
    let mut cur = p.head_of(pid);
    while let Some(c) = cur {
        n += 1;
        cur = p.arena.next_at(c);
    }
    n
}

#[test]
fn tree_insert_search_delete() {
    let mut t = Tree::new(Config::new(6, 4));
    t.insert(k("apple"), k("red"));
    t.insert(k("banana"), k("yellow"));
    t.insert(k("cherry"), k("dark"));
    assert_eq!(t.search(b"apple"), Some(k("red")));
    assert_eq!(t.search(b"banana"), Some(k("yellow")));
    assert_eq!(t.search(b"durian"), None);
    // The logically last write to a key wins.
    t.insert(k("apple"), k("green"));
    assert_eq!(t.search(b"apple"), Some(k("green")));
    assert!(t.delete(b"banana"));
    assert!(!t.delete(b"banana"));
    assert_eq!(t.search(b"banana"), None);
    assert_eq!(t.search(b"cherry"), Some(k("dark")));
}

#[test]
fn tree_splits_under_tiny_thresholds_and_serves_every_key() {
    // Tiny thresholds force many leaf splits and consolidations.
    let mut t = Tree::new(Config::new(3, 2));
    let alphabet = "abcdefghijklmnopqrstuvwxyz";
    for ch in alphabet.chars() {
        let key = k(&ch.to_string());
        let val = k(&format!("value-{}", ch));
        t.insert(key, val);
    }
    assert!(t.pages.next_pid > 2, "splits must have allocated pages");
    for ch in alphabet.chars() {
        let key = ch.to_string();
        let expect = k(&format!("value-{}", ch));
        assert_eq!(t.search(key.as_bytes()), Some(expect), "key {}", ch);
    }
    assert_eq!(t.search(b"0"), None);
    assert_eq!(t.search(b"zz"), None);
}

#[test]
fn tree_reverse_insertion_order() {
    let mut t = Tree::new(Config::new(3, 2));
    for i in (0..50u8).rev() {
        t.insert(vec![i], vec![i, 0xAB]);
    }
    for i in 0..50u8 {
        assert_eq!(t.search(&[i]), Some(vec![i, 0xAB]));
    }
}

#[test]
fn half_split_is_served_through_the_right_link() {
    // Build the half-split state by hand: a leaf split whose parent was
    // never told. Every key of the original range must still be found.
    let mut p = Pages::new(Config::new(100, 100));
    let root = p.allocate(); // index page
    let left = p.allocate();
    let right = p.allocate();
    // Left leaf originally held a..d; its upper half moved to `right`.
    let (_v, h) = p.get_view(right);
    let r = p.install(
        right,
        Frag::Base(
            vec![(k("c"), k("3")), (k("d"), k("4"))],
            None,
            None,
        ),
        h,
    );
    assert!(r.is_ok());
    let (_v, h) = p.get_view(left);
    let r = p.install(
        left,
        Frag::Base(
            vec![(k("a"), k("1")), (k("b"), k("2")), (k("c"), k("3")), (k("d"), k("4"))],
            None,
            None,
        ),
        h,
    );
    assert!(r.is_ok());
    let (_v, h) = p.get_view(left);
    let r = p.install(left, Frag::ChildSplit(k("c"), right), h);
    assert!(r.is_ok());
    // The parent still routes everything to `left`.
    let (_v, h) = p.get_view(root);
    let r = p.install(root, Frag::IndexBase(vec![(k(""), left)], None, None), h);
    assert!(r.is_ok());
    let t = Tree { pages: p, root };
    assert_eq!(t.search(b"a"), Some(k("1")));
    assert_eq!(t.search(b"b"), Some(k("2")));
    // Keys beyond the narrowed bound are reached through the right link.
    assert_eq!(t.search(b"c"), Some(k("3")));
    assert_eq!(t.search(b"d"), Some(k("4")));
    // After the delayed parent split the same keys are still served.
    let mut t = t;
    let (_v, h) = t.pages.get_view(root);
    let r = t.pages.install(root, Frag::ParentSplit(k("c"), right), h);
    assert!(r.is_ok());
    assert_eq!(t.search(b"a"), Some(k("1")));
    assert_eq!(t.search(b"c"), Some(k("3")));
    assert_eq!(t.search(b"d"), Some(k("4")));
}

#[test]
fn fault_hook_is_inert_when_disabled() {
    for _ in 0..64 {
        assert!(!blinkdb::test_fail(false));
    }
    // Enabled, it may fire or not; both outcomes are acceptable.
    let _ = blinkdb::test_fail(true);
}

#[test]
fn scan_returns_keys_in_order_across_splits() {
    let mut t = Tree::new(Config::new(3, 2));
    let alphabet = "abcdefghijklmnopqrstuvwxyz";
    // Insert in a shuffled order; the scan must come back sorted.
    for ch in "qwertyuiopasdfghjklzxcvbnm".chars() {
        t.insert(k(&ch.to_string()), k(&format!("value-{}", ch)));
    }
    let items = t.scan();
    assert_eq!(items.len(), 26);
    for (i, ch) in alphabet.chars().enumerate() {
        assert_eq!(items[i].0, k(&ch.to_string()));
        assert_eq!(items[i].1, k(&format!("value-{}", ch)));
    }
}

#[test]
fn reopen_from_log_image_restores_every_committed_insert() {
    let mut t = Tree::new(Config::new(3, 2));
    let alphabet = "abcdefghijklmnopqrstuvwxyz";
    for ch in alphabet.chars() {
        t.insert(k(&ch.to_string()), k(&format!("value-{}", ch)));
    }
    let image = t.pages.log.buf.clone();
    let t2 = Tree::recover_from(&image, Config::new(3, 2));
    for ch in alphabet.chars() {
        let key = ch.to_string();
        let expect = k(&format!("value-{}", ch));
        assert_eq!(t2.search(key.as_bytes()), Some(expect), "key {} after reopen", ch);
    }
    assert_eq!(t2.search(b"zz"), None);
    // In-order iteration also survives the reopen.
    let items = t2.scan();
    assert_eq!(items.len(), 26);
    for (i, ch) in alphabet.chars().enumerate() {
        assert_eq!(items[i].0, k(&ch.to_string()));
    }
}

#[test]
fn crash_between_append_and_link_loses_only_the_unlinked_insert() {
    let mut t = Tree::new(Config::new(3, 2));
    for i in 0..10u8 {
        t.insert(vec![i], vec![i, i]);
    }
    // Simulate a crash after one more insert's fragment reached the log
    // but before its chain link committed: its install record is
    // appended with no commit mark following it.
    let mut l = Log {
        buf: t.pages.log.buf.clone(),
    };
    let payload = blinkdb::page::encode_install(1, &Frag::Put(vec![10], vec![10, 10]));
    let _ = l.append(&payload);
    let t2 = Tree::recover_from(&l.buf, Config::new(3, 2));
    for i in 0..10u8 {
        assert_eq!(t2.search(&[i]), Some(vec![i, i]), "committed key {} survives", i);
    }
    assert_eq!(t2.search(&[10u8]), None, "the unlinked insert never happened");
}

#[test]
fn reopen_tolerates_truncation_anywhere() {
    let mut t = Tree::new(Config::new(3, 2));
    for i in 0..6u8 {
        t.insert(vec![i], vec![i]);
    }
    let image = t.pages.log.buf.clone();
    for cut in (0..=image.len()).step_by(7) {
        // Whatever the tear point, reopening neither panics nor serves
        // a value that was never written.
        let t2 = Tree::recover_from(&image[..cut], Config::new(3, 2));
        for i in 0..6u8 {
            match t2.search(&[i]) {
                None => {},
                Some(v) => assert_eq!(v, vec![i]),
            }
        }
    }
}

#[test]
fn log_image_survives_write_ahead_of_tree_operations() {
    // Every tree mutation lands in the log before it is visible; the
    // log image of a populated tree recovers fully (no tears).
    let mut t = Tree::new(Config::new(4, 3));
    for i in 0..20u8 {
        t.insert(vec![i], vec![i]);
    }
    let image = t.pages.log.buf.clone();
    let r = recover(&image);
    assert_eq!(r.log.buf.len(), image.len(), "a clean image has no tear");
    assert!(r.records.len() >= 20, "each insert logged at least one record");
}
