use telemt_admin::clock::current_unix_timestamp;
use telemt_admin::credstore::CredentialStore;
use telemt_admin::qr::build_user_qr_png_bytes;
use telemt_admin::waiting::WaitingSet;

#[test]
fn waiting_set_marks_and_unmarks() {
    let mut w = WaitingSet::new();
    assert!(!w.is_waiting(5));
    w.mark(5);
    w.mark(5);
    assert!(w.is_waiting(5));
    assert!(!w.is_waiting(6));
    w.mark(6);
    w.unmark(5);
    assert!(!w.is_waiting(5));
    assert!(w.is_waiting(6));
    w.unmark(5);
    assert!(w.is_waiting(6));
}

#[test]
fn credential_store_upsert_and_remove() {
    let mut c = CredentialStore::new();
    assert!(c.get_secret("tg_1").is_none());
    c.upsert_user("tg_1", "one");
    c.upsert_user("tg_2", "two");
    assert_eq!(c.get_secret("tg_1").unwrap(), "one");
    // an upsert overwrites in place
    c.upsert_user("tg_1", "newer");
    assert_eq!(c.get_secret("tg_1").unwrap(), "newer");
    assert_eq!(c.get_secret("tg_2").unwrap(), "two");
    assert!(c.remove_user("tg_1"));
    assert!(!c.remove_user("tg_1"));
    assert!(c.get_secret("tg_1").is_none());
    assert_eq!(c.get_secret("tg_2").unwrap(), "two");
    let entries = c.entries();
    assert_eq!(entries.len(), 1);
    assert_eq!(entries[0].0, "tg_2");
}

#[test]
fn clock_reads_forward() {
    let now = current_unix_timestamp().unwrap();
    // a sane machine clock sits well after the epoch
    assert!(now > 0);
}

#[test]
fn qr_bytes_are_png() {
    let png = build_user_qr_png_bytes("https://t.me/proxy?server=h&port=1&secret=00").unwrap();
    // the PNG signature: the encoder really ran, the payload was not
    // handed back
    assert_eq!(&png[0..8], &[0x89, 0x50, 0x4e, 0x47, 0x0d, 0x0a, 0x1a, 0x0a]);
    // the same payload encodes to the same bytes
    let again = build_user_qr_png_bytes("https://t.me/proxy?server=h&port=1&secret=00").unwrap();
    assert_eq!(png, again);
}
