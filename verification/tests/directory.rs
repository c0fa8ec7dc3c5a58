use common_lib::directory::{
    host_of, offline_notice, parse_online_list, parse_views_record, record_follows, views_notice,
    DirectoryService, RegistrationReply, TextMap,
};
use common_lib::text::{parse_i32, remove_all, same_text, split, starts_with};

#[test]
fn split_keeps_empty_pieces() {
    assert_eq!(split("a_b__c_", '_'), vec!["a", "b", "", "c", ""]);
    assert_eq!(split("", '_'), vec![""]);
    assert_eq!(split("10.0.0.1:9999", ':'), vec!["10.0.0.1", "9999"]);
}

#[test]
fn remove_all_drops_every_tag() {
    assert_eq!(remove_all("OFFLINE:10.0.0.1", "OFFLINE:"), "10.0.0.1");
    assert_eq!(remove_all("aOFFLINE:bOFFLINE:", "OFFLINE:"), "ab");
    assert_eq!(remove_all("OFFLINE", "OFFLINE:"), "OFFLINE");
    assert_eq!(remove_all("abc", ""), "abc");
}

#[test]
fn prefix_and_equality() {
    assert!(starts_with("OFFLINE:x", "OFFLINE:"));
    assert!(!starts_with("OFF", "OFFLINE:"));
    assert!(same_text("YES", "YES"));
    assert!(!same_text("YES", "YESS"));
}

#[test]
fn parse_i32_follows_std() {
    for s in ["0", "3", "-17", "+42", "2147483647", "-2147483648", "007"] {
        assert_eq!(parse_i32(s), s.parse::<i32>().ok(), "{}", s);
    }
    for s in ["", "-", "+", "2147483648", "-2147483649", "1a", " 1", "99999999999999999999"] {
        assert_eq!(parse_i32(s), None, "{}", s);
        assert!(s.parse::<i32>().is_err());
    }
}

#[test]
fn text_map_keeps_one_entry_per_key() {
    let mut m: TextMap<u8> = TextMap::new();
    m.insert("a".to_string(), 1);
    m.insert("b".to_string(), 2);
    m.insert("a".to_string(), 3);
    assert_eq!(m.len(), 2);
    assert_eq!(m.get("a"), Some(&3));
    assert_eq!(m.entry(0), ("a", &3));
    assert!(m.contains_key("b"));
    assert!(!m.contains_key("c"));
}

#[test]
fn registration_marks_peer_online_and_offline() {
    let mut dos = DirectoryService::new();
    assert!(matches!(dos.handle_registration("10.0.0.1"), RegistrationReply::Unknown));
    assert!(matches!(dos.handle_registration("10.0.0.2"), RegistrationReply::Unknown));
    assert_eq!(dos.online_list("10.0.0.9"), "10.0.0.1_10.0.0.2_");
    let notice = offline_notice("10.0.0.1");
    assert_eq!(notice, "OFFLINE:10.0.0.1");
    assert!(matches!(dos.handle_registration(&notice), RegistrationReply::Silent));
    assert_eq!(dos.online_list("10.0.0.9"), "10.0.0.2_");
    assert_eq!(dos.online_list("10.0.0.2"), "");
}

#[test]
fn view_record_reaches_the_peer() {
    let mut dos = DirectoryService::new();
    let notice = views_notice("10.0.0.5", "10.0.0.7_1_3");
    assert_eq!(notice, "OFFLINE:10.0.0.5_10.0.0.7_1_3");
    assert!(dos.handle_views_notice(&notice));
    assert_eq!(dos.online_list("x"), "");
    let record = match dos.handle_registration("10.0.0.5") {
        RegistrationReply::Known(t) => t,
        _ => panic!("a record waits for the peer"),
    };
    assert_eq!(record, "10.0.0.7:1_3");
    let rec = parse_views_record(&record).expect("well-formed record");
    assert_eq!(rec.host, "10.0.0.7");
    assert_eq!(rec.image_id, "1");
    assert_eq!(rec.views, 3);
    assert_eq!(dos.online_list("x"), "10.0.0.5_");
}

#[test]
fn short_view_notice_changes_nothing() {
    let mut dos = DirectoryService::new();
    assert!(!dos.handle_views_notice("OFFLINE:a_b_c"));
    assert!(matches!(dos.handle_registration("a"), RegistrationReply::Unknown));
}

#[test]
fn client_side_readers() {
    assert_eq!(parse_online_list("1.1.1.1_2.2.2.2_"), vec!["1.1.1.1", "2.2.2.2"]);
    assert!(parse_online_list("").is_empty());
    assert!(parse_views_record("host").is_none());
    assert!(parse_views_record("host:1").is_none());
    assert!(parse_views_record("host:1_x").is_none());
    assert_eq!(host_of("10.0.0.3:8888"), "10.0.0.3");
    assert!(record_follows("YES"));
    assert!(!record_follows("NO"));
}

#[test]
fn message_text_decodes_and_trims() {
    use_message_text();
}

fn use_message_text() {
    assert_eq!(common_lib::text::message_text(b"  Who online\r\n").as_deref(), Some("Who online"));
    assert_eq!(common_lib::text::message_text("\u{3000}x\u{a0}".as_bytes()).as_deref(), Some("x"));
    assert_eq!(common_lib::text::message_text(&[0xff, 0x41]), None);
    assert_eq!(common_lib::text::utf8_text(b" ACK ").as_deref(), Some(" ACK "));
    assert!(common_lib::directory::is_who_online("Who online"));
    assert!(!common_lib::directory::is_who_online("who online"));
    for s in ["", " a ", "\t\n", "a b", "\u{2000}é\u{205f}"] {
        assert_eq!(common_lib::text::trim(s), s.trim());
    }
}
