use transcription_queue::users::{page_offset, user_key, UserKey};

#[test]
fn lookup_key_precedence() {
    assert_eq!(user_key(Some(1), Some("n"), Some("e"), Some("t")), UserKey::Id);
    assert_eq!(user_key(None, Some("n"), Some("e"), Some("t")), UserKey::Name);
    assert_eq!(user_key(None, None, Some("e"), Some("t")), UserKey::Email);
    assert_eq!(user_key(None, None, None, Some("t")), UserKey::Token);
    assert_eq!(user_key(None, None, None, None), UserKey::Nothing);
    assert_eq!(user_key(Some(7), None, None, Some("t")), UserKey::Id);
}

#[test]
fn page_offsets() {
    assert_eq!(page_offset(1, 10), Some(0));
    assert_eq!(page_offset(2, 10), Some(10));
    assert_eq!(page_offset(5, 25), Some(100));
    assert_eq!(page_offset(3, 0), Some(0));
    assert_eq!(page_offset(0, 10), None);
    assert_eq!(page_offset(u32::MAX, 2), None);
    assert_eq!(page_offset(2, u32::MAX as usize), Some(u32::MAX));
    assert_eq!(page_offset(3, u32::MAX as usize), None);
    assert_eq!(page_offset(65_537, 65_536), None);
    assert_eq!(page_offset(65_536, 65_537), Some(4_294_967_295));
    assert_eq!(page_offset(7, (1usize << 32) + 5), Some(30));
}
