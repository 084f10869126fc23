//! Best-effort batch operations of the tag registry and the subscription
//! index.
//!
//! Each requested name is attempted independently against the store; a name
//! that fails never aborts the batch. The outcome carries the successes, in
//! request order and with the casing as typed, and the per-name failures
//! with their reasons. A request without any names is rejected as
//! `EmptyInput` before any store work.

use vstd::prelude::*;

use crate::db;
use crate::db::{spec_add_tag, spec_remove_tag, spec_sub_to, spec_unsub, DbView, ZweiDbConn};
use crate::errors::ZweiErr;
use crate::text::lower_of;

verus! {

/// Outcome of a best-effort batch: the names that succeeded, in request
/// order, and the names that failed, each with its reason.
pub struct BatchOutcome {
    /// Successfully processed names, as typed.
    pub ok: Vec<String>,
    /// Failed names, as typed, each with the failure that the store
    /// reported for it.
    pub failed: Vec<(String, ZweiErr)>,
}

/// Spec view of a failure list: name characters plus reason.
pub open spec fn failed_view(v: Seq<(String, ZweiErr)>) -> Seq<(Seq<char>, ZweiErr)> {
    v.map_values(|p: (String, ZweiErr)| (p.0@, p.1))
}

impl BatchOutcome {
    /// Spec view of the successes.
    pub open spec fn ok_view(&self) -> Seq<Seq<char>> {
        self.ok.deep_view()
    }

    /// Spec view of the failures.
    pub open spec fn failed_view(&self) -> Seq<(Seq<char>, ZweiErr)> {
        failed_view(self.failed@)
    }

    /// Did every requested name succeed?
    pub fn all_ok(&self) -> (b: bool)
        ensures
            b == (self.failed_view().len() == 0),
    {
        self.failed.len() == 0
    }

    /// Did no requested name succeed?
    pub fn none_ok(&self) -> (b: bool)
        ensures
            b == (self.ok_view().len() == 0),
    {
        self.ok.len() == 0
    }
}

// ---------------------------------------------------------------------------
// Spec-level batch transitions: fold the per-name store transition over the
// request, accumulating successes and failures.
// ---------------------------------------------------------------------------
/// Effect of `add_tags` on the store plus its outcome lists.
pub open spec fn spec_add_tags(s: DbView, guild: u64, names: Seq<Seq<char>>) -> (
    DbView,
    Seq<Seq<char>>,
    Seq<(Seq<char>, ZweiErr)>,
)
    decreases names.len(),
{
    if names.len() == 0 {
        (s, Seq::empty(), Seq::empty())
    } else {
        let head = spec_add_tag(s, guild, lower_of(names[0]));
        let rest = spec_add_tags(head.0, guild, names.drop_first());
        match head.1 {
            Ok(_) => (rest.0, seq![names[0]] + rest.1, rest.2),
            Err(e) => (rest.0, rest.1, seq![(names[0], e)] + rest.2),
        }
    }
}

/// Effect of `remove_tags` on the store plus its outcome lists.
pub open spec fn spec_remove_tags(s: DbView, guild: u64, names: Seq<Seq<char>>) -> (
    DbView,
    Seq<Seq<char>>,
    Seq<(Seq<char>, ZweiErr)>,
)
    decreases names.len(),
{
    if names.len() == 0 {
        (s, Seq::empty(), Seq::empty())
    } else {
        let head = spec_remove_tag(s, guild, lower_of(names[0]));
        let rest = spec_remove_tags(head.0, guild, names.drop_first());
        if head.1 == 1u64 {
            (rest.0, seq![names[0]] + rest.1, rest.2)
        } else {
            (rest.0, rest.1, seq![(names[0], ZweiErr::NotFound)] + rest.2)
        }
    }
}

/// Effect of `subscribe` on the store plus its outcome lists.
pub open spec fn spec_subscribe(s: DbView, guild: u64, names: Seq<Seq<char>>, uid: u64) -> (
    DbView,
    Seq<Seq<char>>,
    Seq<(Seq<char>, ZweiErr)>,
)
    decreases names.len(),
{
    if names.len() == 0 {
        (s, Seq::empty(), Seq::empty())
    } else {
        let head = spec_sub_to(s, guild, lower_of(names[0]), uid);
        let rest = spec_subscribe(head.0, guild, names.drop_first(), uid);
        match head.1 {
            Ok(_) => (rest.0, seq![names[0]] + rest.1, rest.2),
            Err(e) => (rest.0, rest.1, seq![(names[0], e)] + rest.2),
        }
    }
}

/// Effect of `unsubscribe` on the store plus its outcome lists. Removing a
/// subscription that did not exist still counts as success (the user ends up
/// unsubscribed); only a missing tag fails.
pub open spec fn spec_unsubscribe(s: DbView, guild: u64, names: Seq<Seq<char>>, uid: u64) -> (
    DbView,
    Seq<Seq<char>>,
    Seq<(Seq<char>, ZweiErr)>,
)
    decreases names.len(),
{
    if names.len() == 0 {
        (s, Seq::empty(), Seq::empty())
    } else {
        let head = spec_unsub(s, guild, lower_of(names[0]), uid);
        let rest = spec_unsubscribe(head.0, guild, names.drop_first(), uid);
        match head.1 {
            Ok(_) => (rest.0, seq![names[0]] + rest.1, rest.2),
            Err(e) => (rest.0, rest.1, seq![(names[0], e)] + rest.2),
        }
    }
}

/// Law (no name is dropped): every batch accounts for each requested name
/// exactly once, as a success or as a failure, so "none succeeded", "some
/// succeeded" and "all succeeded" can be told apart by the list lengths.
pub proof fn lemma_batches_account_for_every_name(
    s: DbView,
    guild: u64,
    names: Seq<Seq<char>>,
    uid: u64,
)
    ensures
        spec_add_tags(s, guild, names).1.len() + spec_add_tags(s, guild, names).2.len()
            == names.len(),
        spec_remove_tags(s, guild, names).1.len() + spec_remove_tags(s, guild, names).2.len()
            == names.len(),
        spec_subscribe(s, guild, names, uid).1.len() + spec_subscribe(s, guild, names, uid).2.len()
            == names.len(),
        spec_unsubscribe(s, guild, names, uid).1.len() + spec_unsubscribe(
            s,
            guild,
            names,
            uid,
        ).2.len() == names.len(),
    decreases names.len(),
{
    if names.len() == 0 {
    } else {
        let rest = names.drop_first();
        lemma_batches_account_for_every_name(
            spec_add_tag(s, guild, lower_of(names[0])).0,
            guild,
            rest,
            uid,
        );
        lemma_batches_account_for_every_name(
            spec_remove_tag(s, guild, lower_of(names[0])).0,
            guild,
            rest,
            uid,
        );
        lemma_batches_account_for_every_name(
            spec_sub_to(s, guild, lower_of(names[0]), uid).0,
            guild,
            rest,
            uid,
        );
        lemma_batches_account_for_every_name(
            spec_unsub(s, guild, lower_of(names[0]), uid).0,
            guild,
            rest,
            uid,
        );
    }
}

// ---------------------------------------------------------------------------
// Executable batches
// ---------------------------------------------------------------------------
/// Registers every requested name as a tag of `guild`, independently;
/// duplicates fail with `AlreadyExists` without aborting the batch. Rejects
/// an empty request with `EmptyInput`.
pub fn add_tags(conn: &mut ZweiDbConn, guild: u64, names: &Vec<String>) -> (r: Result<
    BatchOutcome,
    ZweiErr,
>)
    requires
        old(conn).inv(),
    ensures
        final(conn).inv(),
        match r {
            Err(e) => e == ZweiErr::EmptyInput && names.deep_view().len() == 0 && final(conn)@
                == old(conn)@,
            Ok(out) => {
                let t = spec_add_tags(old(conn)@, guild, names.deep_view());
                &&& names.deep_view().len() > 0
                &&& final(conn)@ == t.0
                &&& out.ok_view() == t.1
                &&& out.failed_view() == t.2
            },
        },
{
    if names.len() == 0 {
        return Err(ZweiErr::EmptyInput);
    }
    let ghost s0 = old(conn)@;
    let ghost nv = names.deep_view();
    let mut ok: Vec<String> = Vec::new();
    let mut failed: Vec<(String, ZweiErr)> = Vec::new();
    let mut i: usize = 0;
    proof {
        assert(nv.skip(0) =~= nv);
        assert(ok.deep_view() + spec_add_tags(conn@, guild, nv).1 =~= spec_add_tags(
            conn@,
            guild,
            nv,
        ).1);
        assert(failed_view(failed@) + spec_add_tags(conn@, guild, nv).2 =~= spec_add_tags(
            conn@,
            guild,
            nv,
        ).2);
    }
    while i < names.len()
        invariant
            i <= names.len(),
            old(conn).inv(),
            conn.inv(),
            nv == names.deep_view(),
            spec_add_tags(s0, guild, nv).0 == spec_add_tags(conn@, guild, nv.skip(i as int)).0,
            spec_add_tags(s0, guild, nv).1 == ok.deep_view() + spec_add_tags(
                conn@,
                guild,
                nv.skip(i as int),
            ).1,
            spec_add_tags(s0, guild, nv).2 == failed_view(failed@) + spec_add_tags(
                conn@,
                guild,
                nv.skip(i as int),
            ).2,
        decreases names.len() - i,
    {
        proof {
            assert(nv.skip(i as int).len() > 0);
            assert(nv.skip(i as int)[0] == nv[i as int]);
            assert(nv.skip(i as int).drop_first() =~= nv.skip(i as int + 1));
            assert(nv[i as int] == names@[i as int]@);
        }
        let name = &names[i];
        let ghost mid = conn@;
        let res = db::add_tag(conn, guild, name);
        match res {
            Ok(_) => {
                ok.push(name.clone());
                proof {
                    assert(ok.deep_view() + spec_add_tags(conn@, guild, nv.skip(i as int + 1)).1
                        =~= spec_add_tags(s0, guild, nv).1);
                    assert(failed_view(failed@) + spec_add_tags(
                        conn@,
                        guild,
                        nv.skip(i as int + 1),
                    ).2 =~= spec_add_tags(s0, guild, nv).2);
                }
            },
            Err(e) => {
                failed.push((name.clone(), e));
                proof {
                    assert(failed_view(failed@) + spec_add_tags(
                        conn@,
                        guild,
                        nv.skip(i as int + 1),
                    ).2 =~= spec_add_tags(s0, guild, nv).2);
                    assert(ok.deep_view() + spec_add_tags(conn@, guild, nv.skip(i as int + 1)).1
                        =~= spec_add_tags(s0, guild, nv).1);
                }
            },
        }
        i += 1;
    }
    proof {
        assert(nv.skip(names@.len() as int) =~= Seq::<Seq<char>>::empty());
        assert(spec_add_tags(s0, guild, nv).1 =~= ok.deep_view());
        assert(spec_add_tags(s0, guild, nv).2 =~= failed_view(failed@));
    }
    Ok(BatchOutcome { ok, failed })
}

/// Deletes every requested name from `guild`'s tags, independently, each
/// with its subscription cascade; a name that was not registered fails with
/// `NotFound`. Rejects an empty request with `EmptyInput`.
pub fn remove_tags(conn: &mut ZweiDbConn, guild: u64, names: &Vec<String>) -> (r: Result<
    BatchOutcome,
    ZweiErr,
>)
    requires
        old(conn).inv(),
    ensures
        final(conn).inv(),
        match r {
            Err(e) => e == ZweiErr::EmptyInput && names.deep_view().len() == 0 && final(conn)@
                == old(conn)@,
            Ok(out) => {
                let t = spec_remove_tags(old(conn)@, guild, names.deep_view());
                &&& names.deep_view().len() > 0
                &&& final(conn)@ == t.0
                &&& out.ok_view() == t.1
                &&& out.failed_view() == t.2
            },
        },
{
    if names.len() == 0 {
        return Err(ZweiErr::EmptyInput);
    }
    let ghost s0 = old(conn)@;
    let ghost nv = names.deep_view();
    let mut ok: Vec<String> = Vec::new();
    let mut failed: Vec<(String, ZweiErr)> = Vec::new();
    let mut i: usize = 0;
    proof {
        assert(nv.skip(0) =~= nv);
        assert(ok.deep_view() + spec_remove_tags(conn@, guild, nv).1 =~= spec_remove_tags(
            conn@,
            guild,
            nv,
        ).1);
        assert(failed_view(failed@) + spec_remove_tags(conn@, guild, nv).2 =~= spec_remove_tags(
            conn@,
            guild,
            nv,
        ).2);
    }
    while i < names.len()
        invariant
            i <= names.len(),
            old(conn).inv(),
            conn.inv(),
            nv == names.deep_view(),
            spec_remove_tags(s0, guild, nv).0 == spec_remove_tags(
                conn@,
                guild,
                nv.skip(i as int),
            ).0,
            spec_remove_tags(s0, guild, nv).1 == ok.deep_view() + spec_remove_tags(
                conn@,
                guild,
                nv.skip(i as int),
            ).1,
            spec_remove_tags(s0, guild, nv).2 == failed_view(failed@) + spec_remove_tags(
                conn@,
                guild,
                nv.skip(i as int),
            ).2,
        decreases names.len() - i,
    {
        proof {
            assert(nv.skip(i as int).len() > 0);
            assert(nv.skip(i as int)[0] == nv[i as int]);
            assert(nv.skip(i as int).drop_first() =~= nv.skip(i as int + 1));
            assert(nv[i as int] == names@[i as int]@);
        }
        let name = &names[i];
        let rows = db::remove_tag(conn, guild, name);
        if rows == 1 {
            ok.push(name.clone());
            proof {
                assert(ok.deep_view() + spec_remove_tags(conn@, guild, nv.skip(i as int + 1)).1
                    =~= spec_remove_tags(s0, guild, nv).1);
                assert(failed_view(failed@) + spec_remove_tags(
                    conn@,
                    guild,
                    nv.skip(i as int + 1),
                ).2 =~= spec_remove_tags(s0, guild, nv).2);
            }
        } else {
            failed.push((name.clone(), ZweiErr::NotFound));
            proof {
                assert(failed_view(failed@) + spec_remove_tags(
                    conn@,
                    guild,
                    nv.skip(i as int + 1),
                ).2 =~= spec_remove_tags(s0, guild, nv).2);
                assert(ok.deep_view() + spec_remove_tags(conn@, guild, nv.skip(i as int + 1)).1
                    =~= spec_remove_tags(s0, guild, nv).1);
            }
        }
        i += 1;
    }
    proof {
        assert(nv.skip(names@.len() as int) =~= Seq::<Seq<char>>::empty());
        assert(spec_remove_tags(s0, guild, nv).1 =~= ok.deep_view());
        assert(spec_remove_tags(s0, guild, nv).2 =~= failed_view(failed@));
    }
    Ok(BatchOutcome { ok, failed })
}

/// Subscribes `uid` to every requested name, independently; a missing tag
/// fails with `NotFound`, a repeated subscription with `AlreadyExists`.
/// Rejects an empty request with `EmptyInput`.
pub fn subscribe(conn: &mut ZweiDbConn, guild: u64, names: &Vec<String>, uid: u64) -> (r: Result<
    BatchOutcome,
    ZweiErr,
>)
    requires
        old(conn).inv(),
    ensures
        final(conn).inv(),
        match r {
            Err(e) => e == ZweiErr::EmptyInput && names.deep_view().len() == 0 && final(conn)@
                == old(conn)@,
            Ok(out) => {
                let t = spec_subscribe(old(conn)@, guild, names.deep_view(), uid);
                &&& names.deep_view().len() > 0
                &&& final(conn)@ == t.0
                &&& out.ok_view() == t.1
                &&& out.failed_view() == t.2
            },
        },
{
    if names.len() == 0 {
        return Err(ZweiErr::EmptyInput);
    }
    let ghost s0 = old(conn)@;
    let ghost nv = names.deep_view();
    let mut ok: Vec<String> = Vec::new();
    let mut failed: Vec<(String, ZweiErr)> = Vec::new();
    let mut i: usize = 0;
    proof {
        assert(nv.skip(0) =~= nv);
        assert(ok.deep_view() + spec_subscribe(conn@, guild, nv, uid).1 =~= spec_subscribe(
            conn@,
            guild,
            nv,
            uid,
        ).1);
        assert(failed_view(failed@) + spec_subscribe(conn@, guild, nv, uid).2 =~= spec_subscribe(
            conn@,
            guild,
            nv,
            uid,
        ).2);
    }
    while i < names.len()
        invariant
            i <= names.len(),
            old(conn).inv(),
            conn.inv(),
            nv == names.deep_view(),
            spec_subscribe(s0, guild, nv, uid).0 == spec_subscribe(
                conn@,
                guild,
                nv.skip(i as int),
                uid,
            ).0,
            spec_subscribe(s0, guild, nv, uid).1 == ok.deep_view() + spec_subscribe(
                conn@,
                guild,
                nv.skip(i as int),
                uid,
            ).1,
            spec_subscribe(s0, guild, nv, uid).2 == failed_view(failed@) + spec_subscribe(
                conn@,
                guild,
                nv.skip(i as int),
                uid,
            ).2,
        decreases names.len() - i,
    {
        proof {
            assert(nv.skip(i as int).len() > 0);
            assert(nv.skip(i as int)[0] == nv[i as int]);
            assert(nv.skip(i as int).drop_first() =~= nv.skip(i as int + 1));
            assert(nv[i as int] == names@[i as int]@);
        }
        let name = &names[i];
        let res = db::sub_to(conn, guild, name, uid);
        match res {
            Ok(_) => {
                ok.push(name.clone());
                proof {
                    assert(ok.deep_view() + spec_subscribe(
                        conn@,
                        guild,
                        nv.skip(i as int + 1),
                        uid,
                    ).1 =~= spec_subscribe(s0, guild, nv, uid).1);
                    assert(failed_view(failed@) + spec_subscribe(
                        conn@,
                        guild,
                        nv.skip(i as int + 1),
                        uid,
                    ).2 =~= spec_subscribe(s0, guild, nv, uid).2);
                }
            },
            Err(e) => {
                failed.push((name.clone(), e));
                proof {
                    assert(failed_view(failed@) + spec_subscribe(
                        conn@,
                        guild,
                        nv.skip(i as int + 1),
                        uid,
                    ).2 =~= spec_subscribe(s0, guild, nv, uid).2);
                    assert(ok.deep_view() + spec_subscribe(
                        conn@,
                        guild,
                        nv.skip(i as int + 1),
                        uid,
                    ).1 =~= spec_subscribe(s0, guild, nv, uid).1);
                }
            },
        }
        i += 1;
    }
    proof {
        assert(nv.skip(names@.len() as int) =~= Seq::<Seq<char>>::empty());
        assert(spec_subscribe(s0, guild, nv, uid).1 =~= ok.deep_view());
        assert(spec_subscribe(s0, guild, nv, uid).2 =~= failed_view(failed@));
    }
    Ok(BatchOutcome { ok, failed })
}

/// Unsubscribes `uid` from every requested name, independently; a name whose
/// tag does not exist fails with `NotFound`, while a tag the user was not
/// subscribed to still counts as success. Rejects an empty request with
/// `EmptyInput`.
pub fn unsubscribe(conn: &mut ZweiDbConn, guild: u64, names: &Vec<String>, uid: u64) -> (r: Result<
    BatchOutcome,
    ZweiErr,
>)
    requires
        old(conn).inv(),
    ensures
        final(conn).inv(),
        match r {
            Err(e) => e == ZweiErr::EmptyInput && names.deep_view().len() == 0 && final(conn)@
                == old(conn)@,
            Ok(out) => {
                let t = spec_unsubscribe(old(conn)@, guild, names.deep_view(), uid);
                &&& names.deep_view().len() > 0
                &&& final(conn)@ == t.0
                &&& out.ok_view() == t.1
                &&& out.failed_view() == t.2
            },
        },
{
    if names.len() == 0 {
        return Err(ZweiErr::EmptyInput);
    }
    let ghost s0 = old(conn)@;
    let ghost nv = names.deep_view();
    let mut ok: Vec<String> = Vec::new();
    let mut failed: Vec<(String, ZweiErr)> = Vec::new();
    let mut i: usize = 0;
    proof {
        assert(nv.skip(0) =~= nv);
        assert(ok.deep_view() + spec_unsubscribe(conn@, guild, nv, uid).1 =~= spec_unsubscribe(
            conn@,
            guild,
            nv,
            uid,
        ).1);
        assert(failed_view(failed@) + spec_unsubscribe(conn@, guild, nv, uid).2
            =~= spec_unsubscribe(conn@, guild, nv, uid).2);
    }
    while i < names.len()
        invariant
            i <= names.len(),
            old(conn).inv(),
            conn.inv(),
            nv == names.deep_view(),
            spec_unsubscribe(s0, guild, nv, uid).0 == spec_unsubscribe(
                conn@,
                guild,
                nv.skip(i as int),
                uid,
            ).0,
            spec_unsubscribe(s0, guild, nv, uid).1 == ok.deep_view() + spec_unsubscribe(
                conn@,
                guild,
                nv.skip(i as int),
                uid,
            ).1,
            spec_unsubscribe(s0, guild, nv, uid).2 == failed_view(failed@) + spec_unsubscribe(
                conn@,
                guild,
                nv.skip(i as int),
                uid,
            ).2,
        decreases names.len() - i,
    {
        proof {
            assert(nv.skip(i as int).len() > 0);
            assert(nv.skip(i as int)[0] == nv[i as int]);
            assert(nv.skip(i as int).drop_first() =~= nv.skip(i as int + 1));
            assert(nv[i as int] == names@[i as int]@);
        }
        let name = &names[i];
        let res = db::unsub(conn, guild, name, uid);
        match res {
            Ok(_) => {
                ok.push(name.clone());
                proof {
                    assert(ok.deep_view() + spec_unsubscribe(
                        conn@,
                        guild,
                        nv.skip(i as int + 1),
                        uid,
                    ).1 =~= spec_unsubscribe(s0, guild, nv, uid).1);
                    assert(failed_view(failed@) + spec_unsubscribe(
                        conn@,
                        guild,
                        nv.skip(i as int + 1),
                        uid,
                    ).2 =~= spec_unsubscribe(s0, guild, nv, uid).2);
                }
            },
            Err(e) => {
                failed.push((name.clone(), e));
                proof {
                    assert(failed_view(failed@) + spec_unsubscribe(
                        conn@,
                        guild,
                        nv.skip(i as int + 1),
                        uid,
                    ).2 =~= spec_unsubscribe(s0, guild, nv, uid).2);
                    assert(ok.deep_view() + spec_unsubscribe(
                        conn@,
                        guild,
                        nv.skip(i as int + 1),
                        uid,
                    ).1 =~= spec_unsubscribe(s0, guild, nv, uid).1);
                }
            },
        }
        i += 1;
    }
    proof {
        assert(nv.skip(names@.len() as int) =~= Seq::<Seq<char>>::empty());
        assert(spec_unsubscribe(s0, guild, nv, uid).1 =~= ok.deep_view());
        assert(spec_unsubscribe(s0, guild, nv, uid).2 =~= failed_view(failed@));
    }
    Ok(BatchOutcome { ok, failed })
}

} // verus!
