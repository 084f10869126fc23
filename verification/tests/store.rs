use zwei_core::db::{
    add_tag, are_tags_in_server, get_server_tags, get_subbers, remove_tag, sub_to, unsub,
    usersubs, ZweiDbConn,
};
use zwei_core::ZweiErr;

fn s(x: &str) -> String {
    x.to_string()
}

#[test]
fn add_tag_then_duplicate_fails_and_count_unchanged() {
    let mut conn = ZweiDbConn::new();
    let r1 = add_tag(&mut conn, 5, &s("news"));
    assert_eq!(r1, Ok(1));
    let count_before = get_server_tags(&conn, 5).len();
    let r2 = add_tag(&mut conn, 5, &s("news"));
    assert_eq!(r2, Err(ZweiErr::AlreadyExists));
    let count_after = get_server_tags(&conn, 5).len();
    assert_eq!(count_before, count_after);
    assert_eq!(count_after, 1);
}

#[test]
fn tag_names_are_stored_lowercased() {
    let mut conn = ZweiDbConn::new();
    assert_eq!(add_tag(&mut conn, 5, &s("NeWs")), Ok(1));
    assert_eq!(get_server_tags(&conn, 5), vec![s("news")]);
    // case-insensitive collision
    assert_eq!(add_tag(&mut conn, 5, &s("NEWS")), Err(ZweiErr::AlreadyExists));
}

#[test]
fn tags_are_scoped_per_guild() {
    let mut conn = ZweiDbConn::new();
    assert_eq!(add_tag(&mut conn, 1, &s("news")), Ok(1));
    assert_eq!(add_tag(&mut conn, 2, &s("news")), Ok(1));
    assert_eq!(get_server_tags(&conn, 1), vec![s("news")]);
    assert_eq!(get_server_tags(&conn, 2), vec![s("news")]);
    assert_eq!(get_server_tags(&conn, 3), Vec::<String>::new());
}

#[test]
fn remove_tag_cascades_subscriptions() {
    let mut conn = ZweiDbConn::new();
    assert_eq!(add_tag(&mut conn, 9, &s("raids")), Ok(1));
    assert_eq!(sub_to(&mut conn, 9, &s("raids"), 100), Ok(1));
    assert_eq!(sub_to(&mut conn, 9, &s("raids"), 101), Ok(1));
    assert_eq!(sub_to(&mut conn, 9, &s("raids"), 102), Ok(1));
    assert_eq!(remove_tag(&mut conn, 9, &s("raids")), 1);
    // no subscription row referencing the tag survives
    assert!(conn.subs.is_empty());
    // recreating the name starts with a clean slate
    assert_eq!(add_tag(&mut conn, 9, &s("raids")), Ok(1));
    assert_eq!(get_subbers(&conn, 9, &s("raids")), Ok(Vec::new()));
}

#[test]
fn remove_missing_tag_reports_zero_rows() {
    let mut conn = ZweiDbConn::new();
    assert_eq!(remove_tag(&mut conn, 9, &s("ghost")), 0);
}

#[test]
fn subscribe_requires_existing_tag() {
    let mut conn = ZweiDbConn::new();
    assert_eq!(sub_to(&mut conn, 1, &s("ghost"), 7), Err(ZweiErr::NotFound));
}

#[test]
fn subscribing_twice_is_a_duplicate_key_failure() {
    let mut conn = ZweiDbConn::new();
    assert_eq!(add_tag(&mut conn, 1, &s("news")), Ok(1));
    assert_eq!(sub_to(&mut conn, 1, &s("news"), 7), Ok(1));
    assert_eq!(sub_to(&mut conn, 1, &s("news"), 7), Err(ZweiErr::AlreadyExists));
    assert_eq!(get_subbers(&conn, 1, &s("news")), Ok(vec![7]));
}

#[test]
fn unsub_variants() {
    let mut conn = ZweiDbConn::new();
    assert_eq!(unsub(&mut conn, 1, &s("ghost"), 7), Err(ZweiErr::NotFound));
    assert_eq!(add_tag(&mut conn, 1, &s("news")), Ok(1));
    assert_eq!(unsub(&mut conn, 1, &s("news"), 7), Ok(0));
    assert_eq!(sub_to(&mut conn, 1, &s("news"), 7), Ok(1));
    assert_eq!(unsub(&mut conn, 1, &s("news"), 7), Ok(1));
    assert_eq!(get_subbers(&conn, 1, &s("news")), Ok(Vec::new()));
}

#[test]
fn usersubs_lists_tags_in_insertion_order() {
    let mut conn = ZweiDbConn::new();
    assert_eq!(add_tag(&mut conn, 1, &s("alpha")), Ok(1));
    assert_eq!(add_tag(&mut conn, 1, &s("beta")), Ok(1));
    assert_eq!(add_tag(&mut conn, 2, &s("gamma")), Ok(1));
    assert_eq!(sub_to(&mut conn, 1, &s("beta"), 7), Ok(1));
    assert_eq!(sub_to(&mut conn, 1, &s("alpha"), 7), Ok(1));
    assert_eq!(sub_to(&mut conn, 2, &s("gamma"), 7), Ok(1));
    // tag insertion order, scoped to the guild
    assert_eq!(usersubs(&conn, 1, 7), vec![s("alpha"), s("beta")]);
    assert_eq!(usersubs(&conn, 2, 7), vec![s("gamma")]);
    assert_eq!(usersubs(&conn, 1, 8), Vec::<String>::new());
}

#[test]
fn are_tags_in_server_counts_matches() {
    let mut conn = ZweiDbConn::new();
    assert_eq!(add_tag(&mut conn, 1, &s("news")), Ok(1));
    assert_eq!(add_tag(&mut conn, 1, &s("events")), Ok(1));
    assert_eq!(add_tag(&mut conn, 2, &s("news")), Ok(1));
    let names = vec![s("news"), s("events"), s("ghost")];
    assert_eq!(are_tags_in_server(&conn, 1, &names), 2);
    assert_eq!(are_tags_in_server(&conn, 2, &names), 1);
    assert_eq!(are_tags_in_server(&conn, 3, &names), 0);
}

#[test]
fn exhausted_id_space_is_store_unavailable() {
    let mut conn = ZweiDbConn {
        prefixes: Vec::new(),
        tags: Vec::new(),
        subs: Vec::new(),
        next_tag: u64::MAX,
    };
    assert_eq!(add_tag(&mut conn, 1, &s("news")), Err(ZweiErr::StoreUnavailable));
    assert!(conn.tags.is_empty());
}
