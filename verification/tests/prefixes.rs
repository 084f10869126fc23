use zwei_core::db::{self, ZweiDbConn};
use zwei_core::prefixes::{default_prefix, get_prefix, ZweiPrefixes};
use zwei_core::ZweiErr;

#[test]
fn default_prefix_is_semicolon() {
    assert_eq!(default_prefix(), ";".to_string());
}

#[test]
fn set_then_resolve_round_trips() {
    let mut conn = ZweiDbConn::new();
    let mut cache = ZweiPrefixes::new();
    assert_eq!(cache.set(&mut conn, 42, "!"), Ok(()));
    assert_eq!(cache.resolve(42), "!".to_string());
    assert_eq!(get_prefix(&cache, 42), "!".to_string());
    // other guilds still resolve to the default
    assert_eq!(cache.resolve(43), ";".to_string());
}

#[test]
fn clear_then_resolve_returns_default() {
    let mut conn = ZweiDbConn::new();
    let mut cache = ZweiPrefixes::new();
    assert_eq!(cache.set(&mut conn, 42, "!"), Ok(()));
    assert_eq!(cache.clear(&mut conn, 42), Ok(()));
    assert_eq!(cache.resolve(42), ";".to_string());
    assert_eq!(get_prefix(&cache, 42), ";".to_string());
}

#[test]
fn clearing_without_custom_prefix_is_not_found() {
    let mut conn = ZweiDbConn::new();
    let mut cache = ZweiPrefixes::new();
    assert_eq!(cache.clear(&mut conn, 42), Err(ZweiErr::NotFound));
}

#[test]
fn set_overwrites_previous_prefix() {
    let mut conn = ZweiDbConn::new();
    let mut cache = ZweiPrefixes::new();
    assert_eq!(cache.set(&mut conn, 42, "!"), Ok(()));
    assert_eq!(cache.set(&mut conn, 42, "z;"), Ok(()));
    assert_eq!(cache.resolve(42), "z;".to_string());
    // still a single store row
    assert_eq!(conn.prefixes.len(), 1);
}

#[test]
fn cache_loads_from_stored_rows() {
    let mut conn = ZweiDbConn::new();
    assert_eq!(db::set_prefix(&mut conn, 1, "!"), 1);
    assert_eq!(db::set_prefix(&mut conn, 2, "?"), 1);
    assert_eq!(db::remove_prefix(&mut conn, 1), 1);
    assert_eq!(db::remove_prefix(&mut conn, 3), 0);
    let all = db::get_all_prefixes(&conn);
    let mut cache = ZweiPrefixes::new();
    cache.load(all);
    assert_eq!(cache.resolve(1), ";".to_string());
    assert_eq!(cache.resolve(2), "?".to_string());
}

#[test]
fn store_level_prefix_read_has_no_side_effects() {
    let mut conn = ZweiDbConn::new();
    assert_eq!(db::get_prefix(&conn, 7), None);
    assert_eq!(db::set_prefix(&mut conn, 7, "!!"), 1);
    assert_eq!(db::get_prefix(&conn, 7), Some("!!".to_string()));
    assert_eq!(db::get_prefix(&conn, 8), None);
}

#[test]
fn put_and_evict_edit_only_their_guild() {
    let mut cache = ZweiPrefixes::new();
    cache.put(1, "!".to_string());
    cache.put(2, "$".to_string());
    cache.evict(1);
    assert_eq!(cache.resolve(1), ";".to_string());
    assert_eq!(cache.resolve(2), "$".to_string());
}
