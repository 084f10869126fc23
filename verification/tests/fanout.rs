use zwei_core::db::{add_tag, sub_to, ZweiDbConn};
use zwei_core::fanout::{paginate, ping_all_subbers, MAX_PING_CHARS, PAGE_LIMIT};
use zwei_core::subs::add_tags;
use zwei_core::ZweiErr;

fn s(x: &str) -> String {
    x.to_string()
}

#[test]
fn ping_rejects_oversized_input() {
    let conn = ZweiDbConn::new();
    let raw = "a".repeat(MAX_PING_CHARS + 1);
    assert!(matches!(ping_all_subbers(&conn, 1, &raw), Err(ZweiErr::InputTooLarge)));
    let ok_len = "a".repeat(MAX_PING_CHARS);
    // at the limit the request passes the size gate (and fails later)
    assert!(matches!(ping_all_subbers(&conn, 1, &ok_len), Err(ZweiErr::NoMatchingTags)));
}

#[test]
fn ping_rejects_empty_input() {
    let conn = ZweiDbConn::new();
    assert!(matches!(ping_all_subbers(&conn, 1, ""), Err(ZweiErr::EmptyInput)));
    assert!(matches!(ping_all_subbers(&conn, 1, "   "), Err(ZweiErr::EmptyInput)));
    assert!(matches!(ping_all_subbers(&conn, 1, ", , "), Err(ZweiErr::EmptyInput)));
}

#[test]
fn ping_without_matching_tags_fails_fast() {
    let mut conn = ZweiDbConn::new();
    assert_eq!(add_tag(&mut conn, 2, &s("news")), Ok(1));
    // the tag lives in another guild: nothing matches here
    assert!(matches!(ping_all_subbers(&conn, 1, "news"), Err(ZweiErr::NoMatchingTags)));
    assert!(matches!(ping_all_subbers(&conn, 2, "ghost other"), Err(ZweiErr::NoMatchingTags)));
}

#[test]
fn ping_with_tags_but_no_subscribers_is_distinct() {
    let mut conn = ZweiDbConn::new();
    assert_eq!(add_tag(&mut conn, 1, &s("news")), Ok(1));
    assert!(matches!(ping_all_subbers(&conn, 1, "news"), Err(ZweiErr::NoSubscribers)));
}

#[test]
fn ping_unions_subscribers_and_prefixes_pages_with_the_tag_list() {
    let mut conn = ZweiDbConn::new();
    add_tags(&mut conn, 42, &vec![s("news"), s("events")]).unwrap();
    assert_eq!(sub_to(&mut conn, 42, &s("news"), 7), Ok(1));
    assert_eq!(sub_to(&mut conn, 42, &s("events"), 8), Ok(1));
    let out = ping_all_subbers(&conn, 42, "news events").unwrap();
    assert!(out.failed.is_empty());
    assert_eq!(out.pages, vec![s("news, events <@7> <@8>")]);
    for page in &out.pages {
        assert!(page.contains("news, events"));
        assert!(page.chars().count() <= PAGE_LIMIT);
    }
}

#[test]
fn ping_reports_unknown_names_without_failing() {
    let mut conn = ZweiDbConn::new();
    assert_eq!(add_tag(&mut conn, 1, &s("news")), Ok(1));
    assert_eq!(sub_to(&mut conn, 1, &s("news"), 7), Ok(1));
    let out = ping_all_subbers(&conn, 1, "news ghost").unwrap();
    assert_eq!(out.failed, vec![s("ghost")]);
    assert_eq!(out.pages, vec![s("news, ghost <@7>")]);
}

#[test]
fn ping_deduplicates_case_insensitively_and_keeps_first_spelling() {
    let mut conn = ZweiDbConn::new();
    assert_eq!(add_tag(&mut conn, 1, &s("news")), Ok(1));
    assert_eq!(sub_to(&mut conn, 1, &s("news"), 7), Ok(1));
    let out = ping_all_subbers(&conn, 1, "News,  NEWS news").unwrap();
    assert!(out.failed.is_empty());
    // one token survives, under its first spelling; one mention per user
    assert_eq!(out.pages, vec![s("News <@7>")]);
}

#[test]
fn ping_each_subscriber_is_mentioned_once() {
    let mut conn = ZweiDbConn::new();
    add_tags(&mut conn, 1, &vec![s("a"), s("b")]).unwrap();
    // user 7 subscribes to both; must still be pinged once
    assert_eq!(sub_to(&mut conn, 1, &s("a"), 7), Ok(1));
    assert_eq!(sub_to(&mut conn, 1, &s("b"), 7), Ok(1));
    assert_eq!(sub_to(&mut conn, 1, &s("b"), 9), Ok(1));
    let out = ping_all_subbers(&conn, 1, "a, b").unwrap();
    assert_eq!(out.pages, vec![s("a, b <@7> <@9>")]);
}

#[test]
fn paginate_greedily_fills_pages_and_reseeds_the_header() {
    // header h = 10, token cost c = 4, budget 20: k = (20 - 10) / 4 = 2
    let header = s("0123456789");
    let toks: Vec<String> = (0..5).map(|_| s("abcd")).collect();
    let pages = paginate(&header, &toks, 20);
    // ceil(5 / 2) = 3 pages
    assert_eq!(pages.len(), 3);
    assert_eq!(pages[0], s("0123456789abcdabcd"));
    assert_eq!(pages[1], s("0123456789abcdabcd"));
    assert_eq!(pages[2], s("0123456789abcd"));
    for p in &pages {
        assert!(p.chars().count() <= 20);
    }
}

#[test]
fn paginate_page_count_matches_the_ceiling_formula() {
    let header = s("hh");
    let budget: usize = 11;
    let c: usize = 3;
    for n in 1..=10usize {
        let toks: Vec<String> = (0..n).map(|_| s("xyz")).collect();
        let pages = paginate(&header, &toks, budget);
        let k = (budget - header.len()) / c;
        assert_eq!(pages.len(), (n + k - 1) / k);
        for p in &pages {
            assert!(p.chars().count() <= budget);
        }
    }
}

#[test]
fn paginate_without_tokens_emits_the_header_page() {
    let pages = paginate(&s("just the header"), &Vec::new(), 100);
    assert_eq!(pages, vec![s("just the header")]);
}

#[test]
fn ping_spreads_many_subscribers_over_several_pages() {
    let mut conn = ZweiDbConn::new();
    assert_eq!(add_tag(&mut conn, 1, &s("big")), Ok(1));
    // 500 subscribers with 3-digit ids: mention cost 6 each; header "big";
    // k = (2000 - 3) / 6 = 332 tokens per page -> 2 pages
    for uid in 100..600u64 {
        assert_eq!(sub_to(&mut conn, 1, &s("big"), uid), Ok(1));
    }
    let out = ping_all_subbers(&conn, 1, "big").unwrap();
    assert_eq!(out.pages.len(), 2);
    for page in &out.pages {
        assert!(page.starts_with("big"));
        assert!(page.chars().count() <= PAGE_LIMIT);
    }
    // every subscriber appears exactly once across the pages, in order
    let joined: String = out.pages.join("");
    for uid in 100..600u64 {
        assert_eq!(joined.matches(&format!("<@{}>", uid)).count(), 1);
    }
}
