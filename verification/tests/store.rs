use shortlink::store::Store;
use shortlink::store::RETENTION_SECS;

fn code_as_number(code: &str) -> u64 {
    code.parse::<u64>().expect("codes are decimal strings")
}

#[test]
fn min_length_boundary() {
    let mut s = Store::new();
    assert_eq!(s.create(String::from("abcd"), 0), None);
    let code = s.create(String::from("abcde"), 0).expect("five characters are enough");
    assert_eq!(s.load(&code), Some(String::from("http://abcde")));
}

#[test]
fn length_is_measured_in_characters() {
    let mut s = Store::new();
    // four characters, five bytes: still too short
    assert_eq!(s.create(String::from("\u{e1}bcd"), 0), None);
    // five characters, six bytes: accepted
    let code = s.create(String::from("\u{e1}bcde"), 0).unwrap();
    assert_eq!(s.load(&code), Some(String::from("http://\u{e1}bcde")));
}

#[test]
fn create_then_resolve_round_trip() {
    let mut s = Store::new();
    let code = s.create(String::from("example.com/a/b"), 7).unwrap();
    assert_eq!(s.load(&code), Some(String::from("http://example.com/a/b")));
    // the reverse direction holds the same pair: re-creating the link
    // hands the same code back
    let again = s.create(String::from("example.com/a/b"), 8).unwrap();
    assert_eq!(again, code);
}

#[test]
fn scheme_kept_when_present() {
    let mut s = Store::new();
    let code = s.create(String::from("https://op.gg"), 0).unwrap();
    assert_eq!(s.load(&code), Some(String::from("https://op.gg")));
}

#[test]
fn full_scenario() {
    let mut s = Store::new();
    let t0: u64 = 1000;
    let c1 = s.create(String::from("op.gg"), t0).expect("op.gg has five characters");
    assert_eq!(s.load(&c1), Some(String::from("http://op.gg")));
    // re-creating before the window elapses returns the same code
    let t1 = t0 + 60;
    assert_eq!(s.create(String::from("op.gg"), t1), Some(c1.clone()));
    // a reap before expiry removes nothing
    s.remove_expired(t1 + RETENTION_SECS - 1);
    assert_eq!(s.load(&c1), Some(String::from("http://op.gg")));
    // once the window has elapsed, a reap removes the entry
    s.remove_expired(t1 + RETENTION_SECS);
    assert_eq!(s.load(&c1), None);
}

#[test]
fn touch_extends_lifetime() {
    let mut s = Store::new();
    let code = s.create(String::from("alpha.example"), 0).unwrap();
    // touched at 100: the entry now lives until 100 + window
    assert_eq!(s.create(String::from("alpha.example"), 100), Some(code.clone()));
    // a reap past the original expiry, but before the refreshed one,
    // leaves the entry alone
    s.remove_expired(RETENTION_SECS + 50);
    assert_eq!(s.load(&code), Some(String::from("http://alpha.example")));
    s.remove_expired(100 + RETENTION_SECS);
    assert_eq!(s.load(&code), None);
}

#[test]
fn distinct_links_distinct_codes() {
    let mut s = Store::new();
    let mut codes: Vec<String> = Vec::new();
    for k in 0..50u64 {
        let link = format!("host{}.example", k);
        codes.push(s.create(link, k).unwrap());
    }
    for a in 0..codes.len() {
        for b in (a + 1)..codes.len() {
            assert_ne!(codes[a], codes[b]);
        }
    }
}

#[test]
fn ledger_stays_sorted() {
    let mut s = Store::new();
    for k in 0..20u64 {
        s.create(format!("sorted{}.example", k), k * 3).unwrap();
        // touch an early link now and then
        if k % 4 == 0 {
            s.create(String::from("sorted0.example"), k * 3 + 1).unwrap();
        }
    }
    for i in 1..s.remove_queue.len() {
        assert!(s.remove_queue[i - 1].at <= s.remove_queue[i].at);
    }
    // and no code occurs twice
    for i in 0..s.remove_queue.len() {
        for j in (i + 1)..s.remove_queue.len() {
            assert_ne!(s.remove_queue[i].code, s.remove_queue[j].code);
        }
    }
}

#[test]
fn touch_moves_entry_to_back() {
    let mut s = Store::new();
    let ca = s.create(String::from("first.example"), 0).unwrap();
    let cb = s.create(String::from("second.example"), 10).unwrap();
    assert_eq!(s.create(String::from("first.example"), 20), Some(ca.clone()));
    assert_eq!(s.remove_queue.len(), 2);
    assert_eq!(s.remove_queue[0].code, cb);
    assert_eq!(s.remove_queue[1].code, ca);
    assert_eq!(s.remove_queue[1].at, 20 + RETENTION_SECS);
}

#[test]
fn lazy_reap_takes_exactly_the_due_prefix() {
    let mut s = Store::new();
    let c1 = s.create(String::from("one.example"), 0).unwrap();
    let c2 = s.create(String::from("two.example"), 50).unwrap();
    let c3 = s.create(String::from("three.example"), 100).unwrap();
    // due at RETENTION, RETENTION + 50, RETENTION + 100; reap between
    // the second and the third
    s.remove_expired(RETENTION_SECS + 60);
    assert_eq!(s.load(&c1), None);
    assert_eq!(s.load(&c2), None);
    assert_eq!(s.load(&c3), Some(String::from("http://three.example")));
    assert_eq!(s.remove_queue.len(), 1);
    assert_eq!(s.code_to_link.len(), 1);
    assert_eq!(s.link_to_code.len(), 1);
}

#[test]
fn reap_on_empty_store_is_a_no_op() {
    let mut s = Store::new();
    s.remove_expired(123456);
    assert_eq!(s.remove_queue.len(), 0);
    assert_eq!(s.load("42"), None);
}

#[test]
fn desync_is_healed_with_a_fresh_code() {
    let mut s = Store::new();
    // plant a claim whose code has no ledger entry behind it; "zzz" can
    // never be issued, as it is no decimal string
    s.seed_link_to_code(String::from("http://desync.example"), String::from("zzz"));
    let code = s.create(String::from("desync.example"), 5).unwrap();
    assert_ne!(code, "zzz");
    assert_eq!(s.load("zzz"), None);
    assert_eq!(s.load(&code), Some(String::from("http://desync.example")));
    // the healed pair behaves like any other
    assert_eq!(s.create(String::from("desync.example"), 6), Some(code));
}

#[test]
fn codes_come_from_the_bounded_space() {
    let mut s = Store::new();
    for k in 0..20u64 {
        let code = s.create(format!("space{}.example", k), 0).unwrap();
        assert!(code_as_number(&code) < 1_000_000);
    }
}

#[test]
fn info_names_the_live_entries() {
    let mut s = Store::new();
    let code = s.create(String::from("shown.example"), 3).unwrap();
    let dump = s.info();
    assert!(dump.contains(&code));
    assert!(dump.contains("http://shown.example"));
    assert!(dump.contains("ledger:"));
}
