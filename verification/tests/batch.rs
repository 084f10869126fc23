use zwei_core::db::{add_tag, get_server_tags, get_subbers, sub_to, ZweiDbConn};
use zwei_core::subs::{add_tags, remove_tags, subscribe, unsubscribe};
use zwei_core::ZweiErr;

fn s(x: &str) -> String {
    x.to_string()
}

#[test]
fn batch_add_reports_each_name_independently() {
    let mut conn = ZweiDbConn::new();
    // "a" twice and "b" once in one batch: the repeat fails, the rest succeed
    let out = add_tags(&mut conn, 1, &vec![s("a"), s("a"), s("b")]).unwrap();
    assert_eq!(out.ok, vec![s("a"), s("b")]);
    assert_eq!(out.failed, vec![(s("a"), ZweiErr::AlreadyExists)]);
    assert_eq!(get_server_tags(&conn, 1), vec![s("a"), s("b")]);
}

#[test]
fn batch_add_against_existing_tag_yields_one_success_and_one_failure() {
    let mut conn = ZweiDbConn::new();
    assert_eq!(add_tag(&mut conn, 1, &s("a")), Ok(1));
    let out = add_tags(&mut conn, 1, &vec![s("a"), s("b")]).unwrap();
    assert_eq!(out.ok, vec![s("b")]);
    assert_eq!(out.failed, vec![(s("a"), ZweiErr::AlreadyExists)]);
    assert!(!out.all_ok());
    assert!(!out.none_ok());
}

#[test]
fn batch_add_keeps_typed_casing_but_stores_lowercase() {
    let mut conn = ZweiDbConn::new();
    let out = add_tags(&mut conn, 1, &vec![s("News"), s("NEWS")]).unwrap();
    assert_eq!(out.ok, vec![s("News")]);
    assert_eq!(out.failed, vec![(s("NEWS"), ZweiErr::AlreadyExists)]);
    assert_eq!(get_server_tags(&conn, 1), vec![s("news")]);
}

#[test]
fn empty_batches_are_rejected() {
    let mut conn = ZweiDbConn::new();
    let none: Vec<String> = Vec::new();
    assert!(matches!(add_tags(&mut conn, 1, &none), Err(ZweiErr::EmptyInput)));
    assert!(matches!(remove_tags(&mut conn, 1, &none), Err(ZweiErr::EmptyInput)));
    assert!(matches!(subscribe(&mut conn, 1, &none, 7), Err(ZweiErr::EmptyInput)));
    assert!(matches!(unsubscribe(&mut conn, 1, &none, 7), Err(ZweiErr::EmptyInput)));
}

#[test]
fn batch_remove_cascades_and_reports_missing_names() {
    let mut conn = ZweiDbConn::new();
    add_tags(&mut conn, 1, &vec![s("a"), s("b")]).unwrap();
    assert_eq!(sub_to(&mut conn, 1, &s("a"), 7), Ok(1));
    let out = remove_tags(&mut conn, 1, &vec![s("a"), s("ghost")]).unwrap();
    assert_eq!(out.ok, vec![s("a")]);
    assert_eq!(out.failed, vec![(s("ghost"), ZweiErr::NotFound)]);
    assert_eq!(get_server_tags(&conn, 1), vec![s("b")]);
    assert!(conn.subs.is_empty());
}

#[test]
fn batch_subscribe_reports_reasons_per_name() {
    let mut conn = ZweiDbConn::new();
    add_tags(&mut conn, 1, &vec![s("a"), s("b")]).unwrap();
    assert_eq!(sub_to(&mut conn, 1, &s("b"), 7), Ok(1));
    let out = subscribe(&mut conn, 1, &vec![s("a"), s("b"), s("ghost")], 7).unwrap();
    assert_eq!(out.ok, vec![s("a")]);
    assert_eq!(
        out.failed,
        vec![(s("b"), ZweiErr::AlreadyExists), (s("ghost"), ZweiErr::NotFound)]
    );
    assert_eq!(get_subbers(&conn, 1, &s("a")), Ok(vec![7]));
}

#[test]
fn batch_unsubscribe_tolerates_not_subscribed_but_not_missing_tags() {
    let mut conn = ZweiDbConn::new();
    add_tags(&mut conn, 1, &vec![s("a"), s("b")]).unwrap();
    assert_eq!(sub_to(&mut conn, 1, &s("a"), 7), Ok(1));
    let out = unsubscribe(&mut conn, 1, &vec![s("a"), s("b"), s("ghost")], 7).unwrap();
    // "a" removed a row, "b" was a no-op success, "ghost" does not exist
    assert_eq!(out.ok, vec![s("a"), s("b")]);
    assert_eq!(out.failed, vec![(s("ghost"), ZweiErr::NotFound)]);
    assert_eq!(get_subbers(&conn, 1, &s("a")), Ok(Vec::new()));
}

#[test]
fn batch_with_all_successes_or_all_failures() {
    let mut conn = ZweiDbConn::new();
    let out = add_tags(&mut conn, 1, &vec![s("a"), s("b")]).unwrap();
    assert!(out.all_ok());
    let out2 = add_tags(&mut conn, 1, &vec![s("a"), s("b")]).unwrap();
    assert!(out2.none_ok());
    assert_eq!(out2.failed.len(), 2);
}
