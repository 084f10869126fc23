//! The fan-out engine: from a raw, user-supplied tag list to the pages of a
//! notification.
//!
//! The pipeline follows fixed steps: reject oversized input before any store
//! work; tokenize on whitespace after normalizing `", "` separators;
//! deduplicate case-insensitively, keeping the first spelling as typed;
//! fail on an empty request, on zero matching tags, and on zero subscribers,
//! each as its own terminal state; union the subscribers of every existing
//! requested tag, reporting the names that did not resolve; and greedily
//! paginate header plus mention tokens under the page budget, first page
//! first.
//!
//! Every step is pinned to a spec function, and the laws about pagination —
//! no page over budget, and the exact page count under equal token cost —
//! are proved over [`spec_paginate`].

use vstd::arithmetic::div_mod::{
    lemma_div_by_self, lemma_div_is_ordered, lemma_fundamental_div_mod,
    lemma_fundamental_div_mod_converse_div, lemma_mod_division_less_than_divisor,
};
use vstd::arithmetic::mul::{lemma_mul_basics, lemma_mul_inequality};
use vstd::prelude::*;
use vstd::string::*;

use crate::db;
use crate::db::{count_matching, has_tag, subbers_of, tag_id_of, DbView, ZweiDbConn};
use crate::errors::ZweiErr;
use crate::text::{chars_of, chars_to_string, dec_digits, lower_of, lowercase, push_dec};

verus! {

/// Upper bound on the characters of a raw ping request, checked before any
/// store work.
pub const MAX_PING_CHARS: usize = 750;

/// The page budget: no delivery unit may exceed this many characters.
pub const PAGE_LIMIT: usize = 2000;

// ---------------------------------------------------------------------------
// Tokenization
// ---------------------------------------------------------------------------
/// `s` with every `", "` separator collapsed to a single space, scanning
/// left to right.
pub open spec fn normalize_seps(s: Seq<char>) -> Seq<char>
    decreases s.len(),
{
    if s.len() >= 2 && s[0] == ',' && s[1] == ' ' {
        seq![' '] + normalize_seps(s.skip(2))
    } else if s.len() == 0 {
        s
    } else {
        seq![s[0]] + normalize_seps(s.skip(1))
    }
}

/// Helper of [`split_ws`]: remaining input, token in progress, tokens done.
pub open spec fn split_rec(s: Seq<char>, cur: Seq<char>, acc: Seq<Seq<char>>) -> Seq<Seq<char>>
    decreases s.len(),
{
    if s.len() == 0 {
        if cur.len() == 0 {
            acc
        } else {
            acc.push(cur)
        }
    } else if s[0] == ' ' {
        if cur.len() == 0 {
            split_rec(s.drop_first(), cur, acc)
        } else {
            split_rec(s.drop_first(), Seq::empty(), acc.push(cur))
        }
    } else {
        split_rec(s.drop_first(), cur.push(s[0]), acc)
    }
}

/// The space-separated tokens of `s`, without empties.
pub open spec fn split_ws(s: Seq<char>) -> Seq<Seq<char>> {
    split_rec(s, Seq::empty(), Seq::empty())
}

/// Helper of [`requested`]: deduplicates tokens case-insensitively, keeping
/// the first spelling as typed (`raws`) alongside its lowercase form
/// (`lows`).
pub open spec fn dedup_rec(toks: Seq<Seq<char>>, raws: Seq<Seq<char>>, lows: Seq<Seq<char>>) -> (
    Seq<Seq<char>>,
    Seq<Seq<char>>,
)
    decreases toks.len(),
{
    if toks.len() == 0 {
        (raws, lows)
    } else if lows.contains(lower_of(toks[0])) {
        dedup_rec(toks.drop_first(), raws, lows)
    } else {
        dedup_rec(toks.drop_first(), raws.push(toks[0]), lows.push(lower_of(toks[0])))
    }
}

/// The requested tag set of a raw ping: first spellings (`.0`) and their
/// lowercase forms (`.1`), deduplicated case-insensitively in order of first
/// occurrence.
pub open spec fn requested(raw: Seq<char>) -> (Seq<Seq<char>>, Seq<Seq<char>>) {
    dedup_rec(split_ws(normalize_seps(raw)), Seq::empty(), Seq::empty())
}

/// Law: the two request lists stay aligned — one lowercase form per
/// spelling, in the same order.
pub proof fn lemma_dedup_aligned(toks: Seq<Seq<char>>, raws: Seq<Seq<char>>, lows: Seq<Seq<char>>)
    requires
        raws.len() == lows.len(),
        forall|i: int| 0 <= i < raws.len() ==> lows[i] == lower_of(#[trigger] raws[i]),
    ensures
        ({
            let d = dedup_rec(toks, raws, lows);
            &&& d.0.len() == d.1.len()
            &&& forall|i: int| 0 <= i < d.0.len() ==> d.1[i] == lower_of(#[trigger] d.0[i])
        }),
    decreases toks.len(),
{
    if toks.len() == 0 {
    } else if lows.contains(lower_of(toks[0])) {
        lemma_dedup_aligned(toks.drop_first(), raws, lows);
    } else {
        let r2 = raws.push(toks[0]);
        let l2 = lows.push(lower_of(toks[0]));
        assert forall|i: int| 0 <= i < r2.len() implies l2[i] == lower_of(#[trigger] r2[i]) by {
            if i < raws.len() {
                assert(r2[i] == raws[i] && l2[i] == lows[i]);
            }
        }
        lemma_dedup_aligned(toks.drop_first(), r2, l2);
    }
}

fn normalize_exec(cs: &Vec<char>) -> (r: Vec<char>)
    ensures
        r@ == normalize_seps(cs@),
{
    let mut out: Vec<char> = Vec::new();
    let mut i: usize = 0;
    proof {
        assert(cs@.skip(0) =~= cs@);
        assert(out@ + normalize_seps(cs@) =~= normalize_seps(cs@));
    }
    while i < cs.len()
        invariant
            i <= cs.len(),
            out@ + normalize_seps(cs@.skip(i as int)) == normalize_seps(cs@),
        decreases cs.len() - i,
    {
        proof {
            assert(cs@.skip(i as int).len() > 0);
            assert(cs@.skip(i as int)[0] == cs@[i as int]);
            if cs@.skip(i as int).len() >= 2 {
                assert(cs@.skip(i as int)[1] == cs@[i as int + 1]);
            }
        }
        if i + 1 < cs.len() && cs[i] == ',' && cs[i + 1] == ' ' {
            out.push(' ');
            proof {
                assert(cs@.skip(i as int).skip(2) =~= cs@.skip(i as int + 2));
                assert(out@ + normalize_seps(cs@.skip(i as int + 2)) =~= normalize_seps(cs@));
            }
            i += 2;
        } else {
            out.push(cs[i]);
            proof {
                assert(cs@.skip(i as int).skip(1) =~= cs@.skip(i as int + 1));
                assert(cs@.skip(i as int).drop_first() =~= cs@.skip(i as int + 1));
                assert(out@ + normalize_seps(cs@.skip(i as int + 1)) =~= normalize_seps(cs@));
            }
            i += 1;
        }
    }
    proof {
        assert(cs@.skip(cs@.len() as int) =~= Seq::<char>::empty());
        assert(out@ =~= normalize_seps(cs@));
    }
    out
}

fn split_ws_exec(cs: &Vec<char>) -> (r: Vec<Vec<char>>)
    ensures
        r.deep_view() == split_ws(cs@),
{
    let mut acc: Vec<Vec<char>> = Vec::new();
    let mut cur: Vec<char> = Vec::new();
    let mut i: usize = 0;
    proof {
        assert(cs@.skip(0) =~= cs@);
        assert(acc.deep_view() =~~= Seq::<Seq<char>>::empty());
        assert(cur@ =~= Seq::<char>::empty());
    }
    while i < cs.len()
        invariant
            i <= cs.len(),
            split_rec(cs@.skip(i as int), cur@, acc.deep_view()) == split_ws(cs@),
        decreases cs.len() - i,
    {
        proof {
            assert(cs@.skip(i as int).len() > 0);
            assert(cs@.skip(i as int)[0] == cs@[i as int]);
            assert(cs@.skip(i as int).drop_first() =~= cs@.skip(i as int + 1));
        }
        if cs[i] == ' ' {
            if cur.len() > 0 {
                let ghost acc0 = acc.deep_view();
                let ghost cur0 = cur@;
                acc.push(cur);
                cur = Vec::new();
                proof {
                    assert(acc.deep_view() =~~= acc0.push(cur0));
                    assert(split_rec(cs@.skip(i as int + 1), cur@, acc.deep_view()) == split_ws(
                        cs@,
                    ));
                }
            }
        } else {
            cur.push(cs[i]);
        }
        i += 1;
    }
    proof {
        assert(cs@.skip(cs@.len() as int) =~= Seq::<char>::empty());
    }
    if cur.len() > 0 {
        let ghost acc0 = acc.deep_view();
        let ghost cur0 = cur@;
        acc.push(cur);
        proof {
            assert(acc.deep_view() =~~= acc0.push(cur0));
        }
    }
    acc
}

fn dedup_tokens(toks: &Vec<Vec<char>>) -> (r: (Vec<String>, Vec<String>))
    ensures
        r.0.deep_view() == dedup_rec(toks.deep_view(), Seq::empty(), Seq::empty()).0,
        r.1.deep_view() == dedup_rec(toks.deep_view(), Seq::empty(), Seq::empty()).1,
{
    let ghost tv = toks.deep_view();
    let mut raws: Vec<String> = Vec::new();
    let mut lows: Vec<String> = Vec::new();
    let mut i: usize = 0;
    proof {
        assert(tv.skip(0) =~= tv);
        assert(raws.deep_view() =~= Seq::<Seq<char>>::empty());
        assert(lows.deep_view() =~= Seq::<Seq<char>>::empty());
    }
    while i < toks.len()
        invariant
            i <= toks.len(),
            tv == toks.deep_view(),
            dedup_rec(tv.skip(i as int), raws.deep_view(), lows.deep_view()) == dedup_rec(
                tv,
                Seq::empty(),
                Seq::empty(),
            ),
        decreases toks.len() - i,
    {
        proof {
            assert(tv.skip(i as int).len() > 0);
            assert(tv.skip(i as int)[0] == tv[i as int]);
            assert(tv.skip(i as int).drop_first() =~= tv.skip(i as int + 1));
        }
        let raw = chars_to_string(&toks[i]);
        let low = lowercase(raw.as_str());
        proof {
            assert(tv[i as int] =~= toks@[i as int]@);
            assert(low@ == lower_of(tv[i as int]));
        }
        if !db::contains_name(&lows, &low) {
            let ghost r0 = raws.deep_view();
            let ghost l0 = lows.deep_view();
            raws.push(raw);
            lows.push(low);
            proof {
                assert(raws.deep_view() =~~= r0.push(tv[i as int]));
                assert(lows.deep_view() =~~= l0.push(lower_of(tv[i as int])));
            }
        }
        i += 1;
    }
    proof {
        assert(tv.skip(toks@.len() as int) =~= Seq::<Seq<char>>::empty());
    }
    (raws, lows)
}

// ---------------------------------------------------------------------------
// Header and mention tokens
// ---------------------------------------------------------------------------
/// The page header: the requested names joined with `", "`.
pub open spec fn join_comma(toks: Seq<Seq<char>>) -> Seq<char>
    decreases toks.len(),
{
    if toks.len() == 0 {
        Seq::empty()
    } else if toks.len() == 1 {
        toks[0]
    } else {
        toks[0] + seq![',', ' '] + join_comma(toks.drop_first())
    }
}

fn join_comma_exec(toks: &Vec<String>) -> (r: String)
    ensures
        r@ == join_comma(toks.deep_view()),
{
    let ghost tv = toks.deep_view();
    let mut out = String::new();
    let mut i: usize = 0;
    proof {
        assert(tv.skip(0) =~= tv);
        assert(out@ + join_comma(tv) =~= join_comma(tv));
    }
    while i < toks.len()
        invariant
            i <= toks.len(),
            tv == toks.deep_view(),
            out@ + join_comma(tv.skip(i as int)) == join_comma(tv),
        decreases toks.len() - i,
    {
        proof {
            assert(tv.skip(i as int).len() > 0);
            assert(tv.skip(i as int)[0] == tv[i as int]);
            assert(tv.skip(i as int).drop_first() =~= tv.skip(i as int + 1));
        }
        out.append(toks[i].as_str());
        if i + 1 < toks.len() {
            out.append(", ");
            proof {
                reveal_strlit(", ");
                assert(", "@ =~= seq![',', ' ']);
                assert(out@ + join_comma(tv.skip(i as int + 1)) =~= join_comma(tv));
            }
        } else {
            proof {
                assert(tv.skip(i as int).len() == 1);
                assert(out@ + join_comma(tv.skip(i as int + 1)) =~= join_comma(tv));
            }
        }
        i += 1;
    }
    proof {
        assert(tv.skip(toks@.len() as int) =~= Seq::<Seq<char>>::empty());
        assert(out@ =~= join_comma(tv));
    }
    out
}

/// The mention token of a user: a leading space, then the platform's user
/// reference.
pub open spec fn mention_of(u: u64) -> Seq<char> {
    seq![' ', '<', '@'] + dec_digits(u as nat) + seq!['>']
}

/// The mention tokens of all users, in order.
pub open spec fn mentions_of(users: Seq<u64>) -> Seq<Seq<char>> {
    users.map_values(|u: u64| mention_of(u))
}

fn mention_exec(u: u64) -> (r: String)
    ensures
        r@ == mention_of(u),
{
    let mut v: Vec<char> = Vec::new();
    v.push(' ');
    v.push('<');
    v.push('@');
    push_dec(&mut v, u);
    v.push('>');
    proof {
        assert(v@ =~= mention_of(u));
    }
    chars_to_string(&v)
}

fn mentions_exec(users: &Vec<u64>) -> (r: Vec<String>)
    ensures
        r.deep_view() == mentions_of(users@),
{
    let mut r: Vec<String> = Vec::new();
    let mut i: usize = 0;
    while i < users.len()
        invariant
            i <= users.len(),
            r.deep_view() == mentions_of(users@.subrange(0, i as int)),
        decreases users.len() - i,
    {
        let ghost r0 = r.deep_view();
        let m = mention_exec(users[i]);
        r.push(m);
        proof {
            assert(r.deep_view() =~= r0.push(mention_of(users@[i as int])));
            assert(r.deep_view() =~= mentions_of(users@.subrange(0, i as int + 1)));
        }
        i += 1;
    }
    proof {
        assert(users@.subrange(0, users@.len() as int) =~= users@);
        assert(r.deep_view() =~= mentions_of(users@));
    }
    r
}

// ---------------------------------------------------------------------------
// Subscriber union
// ---------------------------------------------------------------------------
/// `users` extended with the members of `more` it does not yet hold, in
/// order of first appearance.
pub open spec fn add_new(users: Seq<u64>, more: Seq<u64>) -> Seq<u64>
    decreases more.len(),
{
    if more.len() == 0 {
        users
    } else if users.contains(more[0]) {
        add_new(users, more.drop_first())
    } else {
        add_new(users.push(more[0]), more.drop_first())
    }
}

/// Helper of [`resolve_subscribers`]: fold the requested names, unioning
/// the subscribers of every existing tag and recording the names that do
/// not resolve.
pub open spec fn resolve_rec(
    s: DbView,
    guild: u64,
    names: Seq<Seq<char>>,
    users: Seq<u64>,
    failed: Seq<Seq<char>>,
) -> (Seq<u64>, Seq<Seq<char>>)
    decreases names.len(),
{
    if names.len() == 0 {
        (users, failed)
    } else if has_tag(s.tags, guild, lower_of(names[0])) {
        resolve_rec(
            s,
            guild,
            names.drop_first(),
            add_new(users, subbers_of(s.subs, tag_id_of(s.tags, guild, lower_of(names[0])))),
            failed,
        )
    } else {
        resolve_rec(s, guild, names.drop_first(), users, failed.push(names[0]))
    }
}

proof fn lemma_contains_head_rest(s: Seq<u64>, u: u64)
    requires
        s.len() > 0,
    ensures
        s.contains(u) <==> (s[0] == u || s.drop_first().contains(u)),
{
    let rest = s.drop_first();
    assert(forall|i: int| 0 <= i < rest.len() ==> rest[i] == s[i + 1]);
    if s.contains(u) {
        let i = choose|i: int| 0 <= i < s.len() && s[i] == u;
        if i > 0 {
            assert(rest[i - 1] == u);
            assert(rest.contains(u));
        }
    }
    if rest.contains(u) {
        let i = choose|i: int| 0 <= i < rest.len() && rest[i] == u;
        assert(s[i + 1] == u);
        assert(s.contains(u));
    }
    if s[0] == u {
        assert(s.contains(u));
    }
}

proof fn lemma_contains_push(s: Seq<u64>, x: u64, u: u64)
    ensures
        s.push(x).contains(u) <==> (s.contains(u) || u == x),
{
    if s.push(x).contains(u) {
        let i = choose|i: int| 0 <= i < s.push(x).len() && s.push(x)[i] == u;
        if i < s.len() {
            assert(s[i] == u);
            assert(s.contains(u));
        }
    }
    if s.contains(u) {
        let i = choose|i: int| 0 <= i < s.len() && s[i] == u;
        assert(s.push(x)[i] == u);
        assert(s.push(x).contains(u));
    }
    if u == x {
        assert(s.push(x)[s.len() as int] == u);
        assert(s.push(x).contains(u));
    }
}

/// What joining brings in: exactly the members of either list.
proof fn lemma_add_new_contains(users: Seq<u64>, more: Seq<u64>, u: u64)
    ensures
        add_new(users, more).contains(u) <==> (users.contains(u) || more.contains(u)),
    decreases more.len(),
{
    if more.len() == 0 {
    } else {
        lemma_contains_head_rest(more, u);
        if users.contains(more[0]) {
            lemma_add_new_contains(users, more.drop_first(), u);
            if more.contains(u) && more[0] == u {
                assert(users.contains(u));
            }
        } else {
            lemma_add_new_contains(users.push(more[0]), more.drop_first(), u);
            lemma_contains_push(users, more[0], u);
        }
    }
}

/// Joining keeps the collected users free of duplicates.
proof fn lemma_add_new_no_dup(users: Seq<u64>, more: Seq<u64>)
    requires
        users.no_duplicates(),
    ensures
        add_new(users, more).no_duplicates(),
    decreases more.len(),
{
    if more.len() == 0 {
    } else if users.contains(more[0]) {
        lemma_add_new_no_dup(users, more.drop_first());
    } else {
        let pushed = users.push(more[0]);
        assert forall|i: int, j: int|
            0 <= i < j < pushed.len() implies pushed[i] != pushed[j] by {
            if j == users.len() as int {
                if pushed[i] == pushed[j] {
                    assert(users[i] == more[0]);
                    assert(users.contains(more[0]));
                }
            }
        }
        lemma_add_new_no_dup(pushed, more.drop_first());
    }
}

/// Law (the subscriber set is a union): a user is collected exactly when
/// some requested name resolves to a tag the user subscribes to — or was
/// collected already.
pub proof fn lemma_resolve_union(
    s: DbView,
    guild: u64,
    names: Seq<Seq<char>>,
    users0: Seq<u64>,
    failed0: Seq<Seq<char>>,
    u: u64,
)
    ensures
        ({
            let r = resolve_rec(s, guild, names, users0, failed0);
            r.0.contains(u) <==> (users0.contains(u) || exists|i: int|
                0 <= i < names.len() && has_tag(s.tags, guild, lower_of(#[trigger] names[i]))
                    && subbers_of(s.subs, tag_id_of(s.tags, guild, lower_of(names[i]))).contains(
                    u,
                ))
        }),
    decreases names.len(),
{
    if names.len() == 0 {
    } else {
        let rest = names.drop_first();
        assert(forall|i: int| 0 <= i < rest.len() ==> rest[i] == names[i + 1]);
        let r = resolve_rec(s, guild, names, users0, failed0);
        if has_tag(s.tags, guild, lower_of(names[0])) {
            let head_subs = subbers_of(s.subs, tag_id_of(s.tags, guild, lower_of(names[0])));
            let users1 = add_new(users0, head_subs);
            lemma_resolve_union(s, guild, rest, users1, failed0, u);
            lemma_add_new_contains(users0, head_subs, u);
            // fold the head case into the quantifier over all names
            if r.0.contains(u) && !users0.contains(u) {
                if head_subs.contains(u) {
                    assert(has_tag(s.tags, guild, lower_of(names[0])) && subbers_of(
                        s.subs,
                        tag_id_of(s.tags, guild, lower_of(names[0])),
                    ).contains(u));
                } else {
                    let i = choose|i: int|
                        0 <= i < rest.len() && has_tag(s.tags, guild, lower_of(#[trigger] rest[i]))
                            && subbers_of(
                            s.subs,
                            tag_id_of(s.tags, guild, lower_of(rest[i])),
                        ).contains(u);
                    assert(names[i + 1] == rest[i]);
                }
            }
            if users0.contains(u) {
                assert(users1.contains(u));
            }
            if exists|i: int|
                0 <= i < names.len() && has_tag(s.tags, guild, lower_of(#[trigger] names[i]))
                    && subbers_of(s.subs, tag_id_of(s.tags, guild, lower_of(names[i]))).contains(
                    u,
                ) {
                let i = choose|i: int|
                    0 <= i < names.len() && has_tag(s.tags, guild, lower_of(#[trigger] names[i]))
                        && subbers_of(
                        s.subs,
                        tag_id_of(s.tags, guild, lower_of(names[i])),
                    ).contains(u);
                if i == 0 {
                    assert(users1.contains(u));
                } else {
                    assert(rest[i - 1] == names[i]);
                }
            }
        } else {
            lemma_resolve_union(s, guild, rest, users0, failed0.push(names[0]), u);
            if exists|i: int|
                0 <= i < names.len() && has_tag(s.tags, guild, lower_of(#[trigger] names[i]))
                    && subbers_of(s.subs, tag_id_of(s.tags, guild, lower_of(names[i]))).contains(
                    u,
                ) {
                let i = choose|i: int|
                    0 <= i < names.len() && has_tag(s.tags, guild, lower_of(#[trigger] names[i]))
                        && subbers_of(
                        s.subs,
                        tag_id_of(s.tags, guild, lower_of(names[i])),
                    ).contains(u);
                assert(i != 0);
                assert(rest[i - 1] == names[i]);
            }
            if r.0.contains(u) && !users0.contains(u) {
                let i = choose|i: int|
                    0 <= i < rest.len() && has_tag(s.tags, guild, lower_of(#[trigger] rest[i]))
                        && subbers_of(
                        s.subs,
                        tag_id_of(s.tags, guild, lower_of(rest[i])),
                    ).contains(u);
                assert(names[i + 1] == rest[i]);
            }
        }
    }
}

/// Law (one mention per subscriber): the collected users hold no duplicates,
/// so no subscriber is mentioned twice across the pages of one fan-out.
pub proof fn lemma_resolve_no_dup(
    s: DbView,
    guild: u64,
    names: Seq<Seq<char>>,
    users0: Seq<u64>,
    failed0: Seq<Seq<char>>,
)
    requires
        users0.no_duplicates(),
    ensures
        resolve_rec(s, guild, names, users0, failed0).0.no_duplicates(),
    decreases names.len(),
{
    if names.len() == 0 {
    } else if has_tag(s.tags, guild, lower_of(names[0])) {
        let head_subs = subbers_of(s.subs, tag_id_of(s.tags, guild, lower_of(names[0])));
        lemma_add_new_no_dup(users0, head_subs);
        lemma_resolve_no_dup(s, guild, names.drop_first(), add_new(users0, head_subs), failed0);
    } else {
        lemma_resolve_no_dup(s, guild, names.drop_first(), users0, failed0.push(names[0]));
    }
}

/// Is `x` among the collected users?
fn contains_u64(v: &Vec<u64>, x: u64) -> (b: bool)
    ensures
        b == v@.contains(x),
{
    let mut i: usize = 0;
    while i < v.len()
        invariant
            i <= v.len(),
            forall|j: int| 0 <= j < i ==> v@[j] != x,
        decreases v.len() - i,
    {
        if v[i] == x {
            proof {
                assert(v@.contains(x)) by {
                    assert(v@[i as int] == x);
                }
            }
            return true;
        }
        i += 1;
    }
    false
}

/// Extends `users` with the members of `more` it does not yet hold.
fn add_new_exec(users: &mut Vec<u64>, more: &Vec<u64>)
    ensures
        final(users)@ == add_new(old(users)@, more@),
{
    let mut i: usize = 0;
    proof {
        assert(more@.skip(0) =~= more@);
    }
    while i < more.len()
        invariant
            i <= more.len(),
            add_new(users@, more@.skip(i as int)) == add_new(old(users)@, more@),
        decreases more.len() - i,
    {
        proof {
            assert(more@.skip(i as int).len() > 0);
            assert(more@.skip(i as int)[0] == more@[i as int]);
            assert(more@.skip(i as int).drop_first() =~= more@.skip(i as int + 1));
        }
        let u = more[i];
        if !contains_u64(users, u) {
            users.push(u);
        }
        i += 1;
    }
    proof {
        assert(more@.skip(more@.len() as int) =~= Seq::<u64>::empty());
    }
}

/// Resolves the requested names (as typed) to the union of the subscribers
/// of those that exist in `guild`, in order of first appearance, together
/// with the names that did not resolve to a tag, in request order.
pub fn resolve_subscribers(conn: &ZweiDbConn, guild: u64, names: &Vec<String>) -> (r: (
    Vec<u64>,
    Vec<String>,
))
    requires
        conn.inv(),
    ensures
        r.0@ == resolve_rec(conn@, guild, names.deep_view(), Seq::empty(), Seq::empty()).0,
        r.1.deep_view() == resolve_rec(conn@, guild, names.deep_view(), Seq::empty(), Seq::empty()).1,
{
    let ghost nv = names.deep_view();
    let mut users: Vec<u64> = Vec::new();
    let mut failed: Vec<String> = Vec::new();
    let mut i: usize = 0;
    proof {
        assert(nv.skip(0) =~= nv);
        assert(failed.deep_view() =~= Seq::<Seq<char>>::empty());
    }
    while i < names.len()
        invariant
            i <= names.len(),
            conn.inv(),
            nv == names.deep_view(),
            resolve_rec(conn@, guild, nv.skip(i as int), users@, failed.deep_view()) == resolve_rec(
                conn@,
                guild,
                nv,
                Seq::empty(),
                Seq::empty(),
            ),
        decreases names.len() - i,
    {
        proof {
            assert(nv.skip(i as int).len() > 0);
            assert(nv.skip(i as int)[0] == nv[i as int]);
            assert(nv.skip(i as int).drop_first() =~= nv.skip(i as int + 1));
            assert(nv[i as int] == names@[i as int]@);
        }
        match db::get_subbers(conn, guild, &names[i]) {
            Ok(subs) => {
                add_new_exec(&mut users, &subs);
            },
            Err(_) => {
                let ghost f0 = failed.deep_view();
                failed.push(names[i].clone());
                proof {
                    assert(failed.deep_view() =~= f0.push(nv[i as int]));
                }
            },
        }
        i += 1;
    }
    proof {
        assert(nv.skip(names@.len() as int) =~= Seq::<Seq<char>>::empty());
    }
    (users, failed)
}

// ---------------------------------------------------------------------------
// Pagination
// ---------------------------------------------------------------------------
/// Helper of [`spec_paginate`]: greedy packing of the remaining tokens, with
/// the pages already closed and the page in progress.
pub open spec fn paginate_rec(
    header: Seq<char>,
    toks: Seq<Seq<char>>,
    budget: int,
    done: Seq<Seq<char>>,
    cur: Seq<char>,
) -> Seq<Seq<char>>
    decreases toks.len(),
{
    if toks.len() == 0 {
        done.push(cur)
    } else if cur.len() + toks[0].len() <= budget {
        paginate_rec(header, toks.drop_first(), budget, done, cur + toks[0])
    } else {
        paginate_rec(header, toks.drop_first(), budget, done.push(cur), header + toks[0])
    }
}

/// The pages of a notification: page one starts with the header; each token
/// is appended while it fits the budget, else the page is closed and a new
/// one opens with the header and the token. Emission order is the build
/// order.
pub open spec fn spec_paginate(header: Seq<char>, toks: Seq<Seq<char>>, budget: int) -> Seq<
    Seq<char>,
> {
    paginate_rec(header, toks, budget, Seq::empty(), header)
}

/// Splits the mention tokens into pages of at most `budget` characters,
/// each page seeded with `header`.
pub fn paginate(header: &String, toks: &Vec<String>, budget: usize) -> (r: Vec<String>)
    ensures
        r.deep_view() == spec_paginate(header@, toks.deep_view(), budget as int),
{
    let ghost tv = toks.deep_view();
    let mut done: Vec<String> = Vec::new();
    let mut cur: String = header.clone();
    let mut cur_len: usize = header.as_str().unicode_len();
    let mut i: usize = 0;
    proof {
        assert(tv.skip(0) =~= tv);
        assert(done.deep_view() =~= Seq::<Seq<char>>::empty());
    }
    while i < toks.len()
        invariant
            i <= toks.len(),
            tv == toks.deep_view(),
            cur_len == cur@.len(),
            paginate_rec(header@, tv.skip(i as int), budget as int, done.deep_view(), cur@)
                == spec_paginate(header@, tv, budget as int),
        decreases toks.len() - i,
    {
        proof {
            assert(tv.skip(i as int).len() > 0);
            assert(tv.skip(i as int)[0] == tv[i as int]);
            assert(tv.skip(i as int).drop_first() =~= tv.skip(i as int + 1));
            assert(tv[i as int] == toks@[i as int]@);
        }
        let tlen = toks[i].as_str().unicode_len();
        if tlen <= budget && cur_len <= budget - tlen {
            cur.append(toks[i].as_str());
            cur_len = cur_len + tlen;
        } else {
            let ghost d0 = done.deep_view();
            let ghost c0 = cur@;
            done.push(cur);
            let mut np = header.clone();
            np.append(toks[i].as_str());
            cur = np;
            cur_len = cur.as_str().unicode_len();
            proof {
                assert(done.deep_view() =~= d0.push(c0));
            }
        }
        i += 1;
    }
    proof {
        assert(tv.skip(toks@.len() as int) =~= Seq::<Seq<char>>::empty());
    }
    let ghost d0 = done.deep_view();
    let ghost c0 = cur@;
    done.push(cur);
    proof {
        assert(done.deep_view() =~= d0.push(c0));
    }
    done
}

// ---------------------------------------------------------------------------
// Size bounds: the input guard provably keeps the header small enough that
// every page stays within the budget.
// ---------------------------------------------------------------------------
/// Total character count of a token list.
pub open spec fn sum_len(toks: Seq<Seq<char>>) -> int
    decreases toks.len(),
{
    if toks.len() == 0 {
        0
    } else {
        toks[0].len() + sum_len(toks.drop_first())
    }
}

proof fn lemma_sum_len_nonneg(toks: Seq<Seq<char>>)
    ensures
        sum_len(toks) >= 0,
    decreases toks.len(),
{
    if toks.len() == 0 {
    } else {
        lemma_sum_len_nonneg(toks.drop_first());
    }
}

proof fn lemma_sum_len_push(toks: Seq<Seq<char>>, x: Seq<char>)
    ensures
        sum_len(toks.push(x)) == sum_len(toks) + x.len(),
    decreases toks.len(),
{
    if toks.len() == 0 {
        assert(toks.push(x)[0] == x);
        assert(toks.push(x).drop_first() =~= Seq::<Seq<char>>::empty());
        assert(sum_len(Seq::<Seq<char>>::empty()) == 0);
        assert(sum_len(toks.push(x)) == x.len() + sum_len(toks.push(x).drop_first()));
    } else {
        assert(toks.push(x)[0] == toks[0]);
        assert(toks.push(x).drop_first() =~= toks.drop_first().push(x));
        lemma_sum_len_push(toks.drop_first(), x);
    }
}

/// Splitting cannot create characters: tokens plus one separator each stay
/// within the input length (plus one for the missing last separator).
proof fn lemma_split_rec_budget(s: Seq<char>, cur: Seq<char>, acc: Seq<Seq<char>>)
    ensures
        sum_len(split_rec(s, cur, acc)) + split_rec(s, cur, acc).len() <= sum_len(acc) + acc.len()
            + cur.len() + 1 + s.len(),
    decreases s.len(),
{
    if s.len() == 0 {
        if cur.len() == 0 {
        } else {
            lemma_sum_len_push(acc, cur);
        }
    } else if s[0] == ' ' {
        if cur.len() == 0 {
            lemma_split_rec_budget(s.drop_first(), cur, acc);
        } else {
            lemma_sum_len_push(acc, cur);
            lemma_split_rec_budget(s.drop_first(), Seq::empty(), acc.push(cur));
        }
    } else {
        lemma_split_rec_budget(s.drop_first(), cur.push(s[0]), acc);
    }
}

/// Normalizing separators never lengthens the input.
proof fn lemma_normalize_len(s: Seq<char>)
    ensures
        normalize_seps(s).len() <= s.len(),
    decreases s.len(),
{
    if s.len() >= 2 && s[0] == ',' && s[1] == ' ' {
        lemma_normalize_len(s.skip(2));
    } else if s.len() == 0 {
    } else {
        lemma_normalize_len(s.skip(1));
    }
}

/// Deduplication keeps a selection of the tokens: the kept names cannot
/// outweigh the accumulator plus the input.
proof fn lemma_dedup_budget(toks: Seq<Seq<char>>, raws: Seq<Seq<char>>, lows: Seq<Seq<char>>)
    ensures
        ({
            let d = dedup_rec(toks, raws, lows).0;
            sum_len(d) + d.len() <= sum_len(raws) + raws.len() + sum_len(toks) + toks.len()
        }),
    decreases toks.len(),
{
    if toks.len() == 0 {
    } else {
        let rest = toks.drop_first();
        if lows.contains(lower_of(toks[0])) {
            lemma_dedup_budget(rest, raws, lows);
        } else {
            lemma_sum_len_push(raws, toks[0]);
            lemma_dedup_budget(rest, raws.push(toks[0]), lows.push(lower_of(toks[0])));
        }
    }
}

/// Length of the joined header: the names plus two characters between each
/// pair.
proof fn lemma_join_len(toks: Seq<Seq<char>>)
    ensures
        toks.len() == 0 ==> join_comma(toks).len() == 0,
        toks.len() >= 1 ==> join_comma(toks).len() == sum_len(toks) + 2 * (toks.len() - 1),
    decreases toks.len(),
{
    if toks.len() == 0 {
    } else if toks.len() == 1 {
        assert(toks.drop_first().len() == 0);
        assert(sum_len(toks.drop_first()) == 0);
        assert(sum_len(toks) == toks[0].len() + sum_len(toks.drop_first()));
    } else {
        lemma_join_len(toks.drop_first());
    }
}

/// A mention token is at most 24 characters: 4 fixed characters around at
/// most 20 decimal digits.
proof fn lemma_mention_len(u: u64)
    ensures
        mention_of(u).len() <= 24,
{
    crate::text::lemma_dec_digits_len_u64(u);
}

/// Law (the size guard works): with the raw input within [`MAX_PING_CHARS`],
/// the page header leaves room for a mention token within [`PAGE_LIMIT`].
pub proof fn lemma_header_fits(raw: Seq<char>)
    requires
        raw.len() <= MAX_PING_CHARS,
    ensures
        join_comma(requested(raw).0).len() + 24 <= PAGE_LIMIT,
{
    let norm = normalize_seps(raw);
    lemma_normalize_len(raw);
    let toks = split_ws(norm);
    lemma_split_rec_budget(norm, Seq::empty(), Seq::empty());
    let d = requested(raw).0;
    lemma_dedup_budget(toks, Seq::empty(), Seq::empty());
    lemma_sum_len_nonneg(d);
    lemma_join_len(d);
    // with j := sum_len(d) + d.len() <= raw.len() + 1, the joined header is
    // j + d.len() - 2 <= 2 * (raw.len() + 1) - 2
    if d.len() == 0 {
    }
}

// ---------------------------------------------------------------------------
// The fan-out entry point
// ---------------------------------------------------------------------------
/// The delivery units of one notification, plus the non-fatal report of
/// requested names that are not registered as tags.
pub struct PingOutcome {
    /// The pages, in emission order; every page starts with the joined tag
    /// names.
    pub pages: Vec<String>,
    /// Requested names (as typed) that did not resolve to a tag.
    pub failed: Vec<String>,
}

/// Notifies every subscriber of the requested tags: resolves the raw
/// tag list to the union of subscribers and paginates the mentions under
/// [`PAGE_LIMIT`].
///
/// Terminal states, each distinct: `InputTooLarge` for a raw list over
/// [`MAX_PING_CHARS`] characters (checked before any store work),
/// `EmptyInput` when no tag names remain after tokenizing, `NoMatchingTags`
/// when none of the names is registered, and `NoSubscribers` when the
/// matching tags have no subscribers at all.
pub fn ping_all_subbers(conn: &ZweiDbConn, guild: u64, raw: &str) -> (r: Result<
    PingOutcome,
    ZweiErr,
>)
    requires
        conn.inv(),
    ensures
        ({
            let raws = requested(raw@).0;
            let lows = requested(raw@).1;
            let resolved = resolve_rec(conn@, guild, raws, Seq::empty(), Seq::empty());
            match r {
                Err(ZweiErr::InputTooLarge) => raw@.len() > MAX_PING_CHARS,
                Err(ZweiErr::EmptyInput) => raw@.len() <= MAX_PING_CHARS && raws.len() == 0,
                Err(ZweiErr::NoMatchingTags) => raw@.len() <= MAX_PING_CHARS && raws.len() > 0
                    && count_matching(conn@.tags, guild, lows) == 0,
                Err(ZweiErr::NoSubscribers) => raw@.len() <= MAX_PING_CHARS && raws.len() > 0
                    && count_matching(conn@.tags, guild, lows) > 0 && resolved.0.len() == 0,
                Ok(out) => raw@.len() <= MAX_PING_CHARS && raws.len() > 0 && count_matching(
                    conn@.tags,
                    guild,
                    lows,
                ) > 0 && resolved.0.len() > 0 && out.pages.deep_view() == spec_paginate(
                    join_comma(raws),
                    mentions_of(resolved.0),
                    PAGE_LIMIT as int,
                ) && out.failed.deep_view() == resolved.1 && (forall|p: int|
                    0 <= p < out.pages.deep_view().len() ==> #[trigger] out.pages.deep_view()[p].len()
                        <= PAGE_LIMIT),
                Err(_) => false,
            }
        }),
{
    let n = raw.unicode_len();
    if n > MAX_PING_CHARS {
        return Err(ZweiErr::InputTooLarge);
    }
    let cs = chars_of(raw);
    let norm = normalize_exec(&cs);
    let toks = split_ws_exec(&norm);
    let parts = dedup_tokens(&toks);
    let raws = parts.0;
    let lows = parts.1;
    if raws.len() == 0 {
        return Err(ZweiErr::EmptyInput);
    }
    let count = db::are_tags_in_server(conn, guild, &lows);
    if count == 0 {
        return Err(ZweiErr::NoMatchingTags);
    }
    let resolved = resolve_subscribers(conn, guild, &raws);
    let users = resolved.0;
    let failed = resolved.1;
    if users.len() == 0 {
        return Err(ZweiErr::NoSubscribers);
    }
    let header = join_comma_exec(&raws);
    let mentions = mentions_exec(&users);
    let pages = paginate(&header, &mentions, PAGE_LIMIT);
    proof {
        // the input guard keeps the header small enough for every page to
        // stay within the budget beside any one mention token
        lemma_header_fits(raw@);
        assert forall|i: int|
            0 <= i < mentions_of(users@).len() implies header@.len() + #[trigger] mentions_of(
            users@,
        )[i].len() <= PAGE_LIMIT by {
            lemma_mention_len(users@[i]);
        }
        lemma_pages_bounded(header@, mentions_of(users@), PAGE_LIMIT as int);
    }
    Ok(PingOutcome { pages, failed })
}

// ---------------------------------------------------------------------------
// Laws about pagination
// ---------------------------------------------------------------------------
proof fn lemma_paginate_rec_bounded(
    header: Seq<char>,
    toks: Seq<Seq<char>>,
    budget: int,
    done: Seq<Seq<char>>,
    cur: Seq<char>,
)
    requires
        cur.len() <= budget,
        forall|p: int| 0 <= p < done.len() ==> #[trigger] done[p].len() <= budget,
        forall|i: int| 0 <= i < toks.len() ==> header.len() + #[trigger] toks[i].len() <= budget,
    ensures
        forall|p: int|
            0 <= p < paginate_rec(header, toks, budget, done, cur).len() ==> #[trigger] paginate_rec(
                header,
                toks,
                budget,
                done,
                cur,
            )[p].len() <= budget,
    decreases toks.len(),
{
    let result = paginate_rec(header, toks, budget, done, cur);
    if toks.len() == 0 {
        let r = done.push(cur);
        assert(result == r);
        assert forall|p: int| 0 <= p < r.len() implies #[trigger] r[p].len() <= budget by {
            if p < done.len() {
            } else {
                assert(r[p] == cur);
            }
        }
    } else {
        let rest = toks.drop_first();
        assert(forall|i: int|
            0 <= i < rest.len() ==> header.len() + #[trigger] rest[i].len() <= budget) by {
            assert(forall|i: int| 0 <= i < rest.len() ==> rest[i] == toks[i + 1]);
        }
        assert(header.len() + toks[0].len() <= budget);
        if cur.len() + toks[0].len() <= budget {
            lemma_paginate_rec_bounded(header, rest, budget, done, cur + toks[0]);
            assert(result == paginate_rec(header, rest, budget, done, cur + toks[0]));
        } else {
            let done2 = done.push(cur);
            assert forall|p: int| 0 <= p < done2.len() implies #[trigger] done2[p].len()
                <= budget by {
                if p < done.len() {
                } else {
                    assert(done2[p] == cur);
                }
            }
            lemma_paginate_rec_bounded(header, rest, budget, done2, header + toks[0]);
            assert(result == paginate_rec(header, rest, budget, done2, header + toks[0]));
        }
    }
}

/// Law: no page exceeds the budget, provided the header fits the budget and
/// every token fits a page beside the header.
pub proof fn lemma_pages_bounded(header: Seq<char>, toks: Seq<Seq<char>>, budget: int)
    requires
        header.len() <= budget,
        forall|i: int| 0 <= i < toks.len() ==> header.len() + #[trigger] toks[i].len() <= budget,
    ensures
        forall|p: int|
            0 <= p < spec_paginate(header, toks, budget).len() ==> #[trigger] spec_paginate(
                header,
                toks,
                budget,
            )[p].len() <= budget,
{
    lemma_paginate_rec_bounded(header, toks, budget, Seq::empty(), header);
}

proof fn lemma_paginate_rec_prefix(
    header: Seq<char>,
    toks: Seq<Seq<char>>,
    budget: int,
    done: Seq<Seq<char>>,
    cur: Seq<char>,
)
    requires
        cur.len() >= header.len(),
        cur.subrange(0, header.len() as int) == header,
        forall|p: int|
            0 <= p < done.len() ==> #[trigger] done[p].len() >= header.len() && done[p].subrange(
                0,
                header.len() as int,
            ) == header,
    ensures
        forall|p: int|
            0 <= p < paginate_rec(header, toks, budget, done, cur).len()
                ==> #[trigger] paginate_rec(header, toks, budget, done, cur)[p].len()
                >= header.len() && paginate_rec(header, toks, budget, done, cur)[p].subrange(
                0,
                header.len() as int,
            ) == header,
    decreases toks.len(),
{
    let h = header.len() as int;
    let result = paginate_rec(header, toks, budget, done, cur);
    if toks.len() == 0 {
        let r = done.push(cur);
        assert(result == r);
        assert forall|p: int|
            0 <= p < r.len() implies #[trigger] r[p].len() >= header.len() && r[p].subrange(0, h)
            == header by {
            if p < done.len() {
            } else {
                assert(r[p] == cur);
            }
        }
    } else {
        let rest = toks.drop_first();
        if cur.len() + toks[0].len() <= budget {
            assert((cur + toks[0]).subrange(0, h) =~= header);
            lemma_paginate_rec_prefix(header, rest, budget, done, cur + toks[0]);
            assert(result == paginate_rec(header, rest, budget, done, cur + toks[0]));
        } else {
            let done2 = done.push(cur);
            assert forall|p: int|
                0 <= p < done2.len() implies #[trigger] done2[p].len() >= header.len()
                && done2[p].subrange(0, h) == header by {
                if p < done.len() {
                } else {
                    assert(done2[p] == cur);
                }
            }
            assert((header + toks[0]).subrange(0, h) =~= header);
            lemma_paginate_rec_prefix(header, rest, budget, done2, header + toks[0]);
            assert(result == paginate_rec(header, rest, budget, done2, header + toks[0]));
        }
    }
}

/// Law (the header is on every page): each emitted page carries the joined
/// tag names as its prefix.
pub proof fn lemma_pages_carry_header(header: Seq<char>, toks: Seq<Seq<char>>, budget: int)
    ensures
        forall|p: int|
            0 <= p < spec_paginate(header, toks, budget).len() ==> #[trigger] spec_paginate(
                header,
                toks,
                budget,
            )[p].len() >= header.len() && spec_paginate(header, toks, budget)[p].subrange(
                0,
                header.len() as int,
            ) == header,
{
    assert(header.subrange(0, header.len() as int) =~= header);
    lemma_paginate_rec_prefix(header, toks, budget, Seq::empty(), header);
}

proof fn lemma_paginate_rec_count(
    header: Seq<char>,
    toks: Seq<Seq<char>>,
    budget: int,
    done: Seq<Seq<char>>,
    cur: Seq<char>,
    c: int,
    k: int,
    j: int,
)
    requires
        c >= 1,
        header.len() + c <= budget,
        forall|i: int| 0 <= i < toks.len() ==> #[trigger] toks[i].len() == c,
        k == (budget - header.len()) / c,
        0 <= j <= k,
        cur.len() == header.len() + j * c,
    ensures
        paginate_rec(header, toks, budget, done, cur).len() == done.len() + (if toks.len() <= k - j {
            1int
        } else {
            1 + (toks.len() - (k - j) + k - 1) / k
        }),
    decreases toks.len(),
{
    let h = header.len() as int;
    let n = toks.len() as int;
    lemma_fundamental_div_mod(budget - h, c);
    let rem = (budget - h) % c;
    assert(budget - h == c * k + rem);
    assert(k >= 1) by {
        lemma_div_is_ordered(c, budget - h, c);
        lemma_div_by_self(c);
    }
    if n == 0 {
    } else {
        let rest = toks.drop_first();
        assert(forall|i: int| 0 <= i < rest.len() ==> #[trigger] rest[i].len() == c) by {
            assert(forall|i: int| 0 <= i < rest.len() ==> rest[i] == toks[i + 1]);
        }
        assert(toks[0].len() == c);
        if j < k {
            // the token fits: (j + 1) * c <= k * c <= budget - h
            assert(cur.len() + toks[0].len() <= budget) by {
                lemma_mul_inequality(j + 1, k, c);
                assert((j + 1) * c <= k * c);
                assert(c * k == k * c) by (nonlinear_arith);
                assert((j + 1) * c == j * c + c) by (nonlinear_arith);
            }
            assert((cur + toks[0]).len() == h + (j + 1) * c) by {
                assert((j + 1) * c == j * c + c) by (nonlinear_arith);
            }
            lemma_paginate_rec_count(header, rest, budget, done, cur + toks[0], c, k, j + 1);
        } else {
            // j == k: the page is full, h + k * c + c > budget
            assert(rem < c) by {
                lemma_mod_division_less_than_divisor(budget - h, c);
            }
            assert(cur.len() + toks[0].len() > budget) by {
                assert(c * k == k * c) by (nonlinear_arith);
            }
            let done2 = done.push(cur);
            assert((header + toks[0]).len() == h + 1 * c) by {
                lemma_mul_basics(c);
            }
            lemma_paginate_rec_count(header, rest, budget, done2, header + toks[0], c, k, 1);
            // fold the recursion's count into the claimed closed form
            if n - 1 <= k - 1 {
                // rest fits one page: total done + 2; and (n + k - 1) / k == 1
                assert((n + k - 1) / k == 1) by {
                    lemma_fundamental_div_mod_converse_div(n + k - 1, k, 1, n - 1);
                }
            } else {
                // (n + k - 1) / k == 1 + (n - 1) / k, by adding one denominator
                assert(n - 1 - (k - 1) + k - 1 == n - 1);
                lemma_fundamental_div_mod(n - 1, k);
                let q = (n - 1) / k;
                let r2 = (n - 1) % k;
                assert(n - 1 == k * q + r2);
                assert((n + k - 1) / k == q + 1) by {
                    assert(n + k - 1 == (q + 1) * k + r2) by (nonlinear_arith)
                        requires
                            n - 1 == k * q + r2,
                    ;
                    lemma_fundamental_div_mod_converse_div(n + k - 1, k, q + 1, r2);
                }
            }
        }
    }
}

/// Law (pagination count): when the header leaves room for at least one
/// token and every token costs the same `c` characters, the greedy packing
/// emits exactly `ceil(N / k)` pages for `N` tokens, where
/// `k = (budget - header) / c` tokens fit beside the header on one page.
pub proof fn lemma_equal_cost_page_count(
    header: Seq<char>,
    toks: Seq<Seq<char>>,
    budget: int,
    c: int,
)
    requires
        c >= 1,
        header.len() + c <= budget,
        forall|i: int| 0 <= i < toks.len() ==> #[trigger] toks[i].len() == c,
        toks.len() >= 1,
    ensures
        ({
            let k = (budget - header.len()) / c;
            &&& k >= 1
            &&& spec_paginate(header, toks, budget).len() == (toks.len() + k - 1) / k
        }),
{
    let h = header.len() as int;
    let n = toks.len() as int;
    let k = (budget - h) / c;
    assert(k >= 1) by {
        lemma_div_is_ordered(c, budget - h, c);
        lemma_div_by_self(c);
    }
    assert(header.len() == h + 0 * c) by {
        lemma_mul_basics(c);
    }
    lemma_paginate_rec_count(header, toks, budget, Seq::empty(), header, c, k, 0);
    if n <= k {
        assert((n + k - 1) / k == 1) by {
            lemma_fundamental_div_mod_converse_div(n + k - 1, k, 1, n - 1);
        }
    } else {
        lemma_fundamental_div_mod(n - 1, k);
        let q = (n - 1) / k;
        let r2 = (n - 1) % k;
        assert((n + k - 1) / k == q + 1) by {
            assert(n + k - 1 == (q + 1) * k + r2) by (nonlinear_arith)
                requires
                    n - 1 == k * q + r2,
            ;
            lemma_fundamental_div_mod_converse_div(n + k - 1, k, q + 1, r2);
        }
        assert(n - k + k - 1 == n - 1);
    }
}

} // verus!
