use zwei_core::text::sanitize_txt;
use zwei_core::zwei_conf::{
    default_db, default_err_color, default_loglevel, default_ok_color, strip_hex, Conf,
};
use zwei_core::ZweiErr;

#[test]
fn sanitize_escapes_markdown() {
    assert_eq!(sanitize_txt("a*b_c"), "a\\*b\\_c".to_string());
    assert_eq!(sanitize_txt("~|`<>[]"), "\\~\\|\\`\\<\\>\\[\\]".to_string());
    assert_eq!(sanitize_txt("back\\slash"), "back\\\\slash".to_string());
    assert_eq!(sanitize_txt("plain text 123"), "plain text 123".to_string());
    assert_eq!(sanitize_txt(""), "".to_string());
}

#[test]
fn strip_hex_removes_one_leading_hash() {
    assert_eq!(strip_hex("#9A48C9"), "9A48C9".to_string());
    assert_eq!(strip_hex("9A48C9"), "9A48C9".to_string());
    assert_eq!(strip_hex("##X"), "#X".to_string());
    assert_eq!(strip_hex(""), "".to_string());
}

#[test]
fn defaults_match_the_documented_values() {
    assert_eq!(default_loglevel(), "warn".to_string());
    assert_eq!(default_err_color(), "9A48C9".to_string());
    assert_eq!(default_ok_color(), "B82748".to_string());
    assert_eq!(default_db(), "Zwei.sdb".to_string());
}

#[test]
fn default_conf_uses_the_default_fields() {
    let conf = Conf::default();
    assert_eq!(conf.token, String::new());
    assert!(conf.owners.is_empty());
    assert_eq!(conf.database, "Zwei.sdb".to_string());
    assert_eq!(conf.db_pass, String::new());
    assert_eq!(conf.err_color, "9A48C9".to_string());
    assert_eq!(conf.ok_color, "B82748".to_string());
    assert_eq!(conf.loglevel, "warn".to_string());
}

#[test]
fn error_messages_are_distinct() {
    let all = [
        ZweiErr::AlreadyExists,
        ZweiErr::NotFound,
        ZweiErr::EmptyInput,
        ZweiErr::InputTooLarge,
        ZweiErr::NoMatchingTags,
        ZweiErr::NoSubscribers,
        ZweiErr::StoreUnavailable,
        ZweiErr::CacheInconsistent,
    ];
    for i in 0..all.len() {
        for j in 0..all.len() {
            if i != j {
                assert_ne!(all[i].message(), all[j].message());
            }
        }
    }
}
