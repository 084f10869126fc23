//! The persistent store: the sole owner of durable state.
//!
//! [`ZweiDbConn`] models the relational state the bot reaches through its
//! database connection — prefix rows, tag rows and subscription rows — as
//! plain vectors with the schema's invariants stated in [`DbView::inv`]:
//! at most one prefix per guild, tag ids unique, `(guild, name)` unique with
//! names stored lowercased, subscription pairs unique, and no subscription
//! row referencing a missing tag. Every operation's effect is pinned to a
//! spec-level transition function (`spec_add_tag` and friends), so laws about
//! sequences of operations are proved once over the transitions.
//!
//! Tag names are normalized to lowercase before any comparison or
//! persistence; the display form shown back to users preserves the casing as
//! typed, which is why the operations here take the name as typed and state
//! their contracts over `lower_of(name@)`.

use vstd::prelude::*;

use crate::errors::ZweiErr;
use crate::text::{lower_of, lowercase};

verus! {

/// One tag row: a unique id, the owning guild, and the lowercased name.
pub struct TagRow {
    pub id: u64,
    pub guild: u64,
    pub name: String,
}

/// Spec-level image of a tag row.
pub struct TagView {
    pub id: u64,
    pub guild: u64,
    pub name: Seq<char>,
}

impl View for TagRow {
    type V = TagView;

    open spec fn view(&self) -> TagView {
        TagView { id: self.id, guild: self.guild, name: self.name@ }
    }
}

impl DeepView for TagRow {
    type V = TagView;

    open spec fn deep_view(&self) -> TagView {
        self@
    }
}

/// One subscription row: a tag id and the subscribed user.
#[derive(Clone, Copy, Debug, PartialEq, Eq, Structural)]
pub struct SubRow {
    pub tag: u64,
    pub user: u64,
}

/// Spec-level image of the whole store.
#[verifier::ext_equal]
pub struct DbView {
    pub prefixes: Seq<(u64, Seq<char>)>,
    pub tags: Seq<TagView>,
    pub subs: Seq<SubRow>,
    pub next_tag: u64,
}

/// The relational state reachable through the bot's database connection.
///
/// The fields are public so that the unverified shell can persist and
/// restore them; every operation requires and preserves [`ZweiDbConn::inv`].
pub struct ZweiDbConn {
    /// `(guild, prefix)` rows; at most one per guild.
    pub prefixes: Vec<(u64, String)>,
    /// Tag rows, in insertion order.
    pub tags: Vec<TagRow>,
    /// Subscription rows, in insertion order.
    pub subs: Vec<SubRow>,
    /// The id the next created tag will get; larger than every existing id.
    pub next_tag: u64,
}

impl View for ZweiDbConn {
    type V = DbView;

    open spec fn view(&self) -> DbView {
        DbView {
            prefixes: self.prefixes.deep_view(),
            tags: self.tags.deep_view(),
            subs: self.subs@,
            next_tag: self.next_tag,
        }
    }
}

// ---------------------------------------------------------------------------
// Spec-level predicates over the store
// ---------------------------------------------------------------------------
/// Does a tag `(guild, name)` exist?
pub open spec fn has_tag(tags: Seq<TagView>, guild: u64, name: Seq<char>) -> bool {
    exists|i: int| 0 <= i < tags.len() && tags[i].guild == guild && tags[i].name == name
}

/// Index of the tag `(guild, name)`; meaningful when `has_tag` holds and the
/// store invariant makes the match unique.
pub open spec fn tag_idx(tags: Seq<TagView>, guild: u64, name: Seq<char>) -> int {
    choose|i: int| 0 <= i < tags.len() && tags[i].guild == guild && tags[i].name == name
}

/// Id of the tag `(guild, name)`.
pub open spec fn tag_id_of(tags: Seq<TagView>, guild: u64, name: Seq<char>) -> u64 {
    tags[tag_idx(tags, guild, name)].id
}

/// Does any tag row carry the id `id`?
pub open spec fn has_tag_id(tags: Seq<TagView>, id: u64) -> bool {
    exists|i: int| 0 <= i < tags.len() && tags[i].id == id
}

/// Is `user` subscribed to the tag with id `tag`?
pub open spec fn has_sub(subs: Seq<SubRow>, tag: u64, user: u64) -> bool {
    exists|i: int| 0 <= i < subs.len() && subs[i].tag == tag && subs[i].user == user
}

/// Index of the subscription `(tag, user)`.
pub open spec fn sub_idx(subs: Seq<SubRow>, tag: u64, user: u64) -> int {
    choose|i: int| 0 <= i < subs.len() && subs[i].tag == tag && subs[i].user == user
}

/// Does `guild` have a custom prefix row?
pub open spec fn has_prefix(prefixes: Seq<(u64, Seq<char>)>, guild: u64) -> bool {
    exists|i: int| 0 <= i < prefixes.len() && prefixes[i].0 == guild
}

/// Index of the prefix row of `guild`.
pub open spec fn prefix_idx(prefixes: Seq<(u64, Seq<char>)>, guild: u64) -> int {
    choose|i: int| 0 <= i < prefixes.len() && prefixes[i].0 == guild
}

/// The custom prefix of `guild`; meaningful when `has_prefix` holds.
pub open spec fn prefix_of(prefixes: Seq<(u64, Seq<char>)>, guild: u64) -> Seq<char> {
    prefixes[prefix_idx(prefixes, guild)].1
}

impl DbView {
    /// Tag rows are well formed: ids unique and below `next_tag`, and
    /// `(guild, name)` unique.
    pub open spec fn tags_wf(self) -> bool {
        &&& forall|i: int, j: int|
            0 <= i < j < self.tags.len() ==> #[trigger] self.tags[i].id != #[trigger] self.tags[j].id
        &&& forall|i: int, j: int|
            0 <= i < j < self.tags.len() ==> !(#[trigger] self.tags[i].guild == #[trigger] self.tags[j].guild
                && self.tags[i].name == self.tags[j].name)
        &&& forall|i: int| 0 <= i < self.tags.len() ==> #[trigger] self.tags[i].id < self.next_tag
    }

    /// Subscription rows are well formed: pairs unique and every row's tag
    /// id owned by some tag row (the cascade invariant).
    pub open spec fn subs_wf(self) -> bool {
        &&& forall|i: int, j: int|
            0 <= i < j < self.subs.len() ==> #[trigger] self.subs[i] != #[trigger] self.subs[j]
        &&& forall|i: int| 0 <= i < self.subs.len() ==> has_tag_id(self.tags, #[trigger] self.subs[i].tag)
    }

    /// At most one prefix row per guild.
    pub open spec fn prefixes_wf(self) -> bool {
        forall|i: int, j: int|
            0 <= i < j < self.prefixes.len() ==> #[trigger] self.prefixes[i].0 != #[trigger] self.prefixes[j].0
    }

    /// The store invariant; every operation requires and preserves it.
    pub open spec fn inv(self) -> bool {
        self.tags_wf() && self.subs_wf() && self.prefixes_wf()
    }
}

impl ZweiDbConn {
    /// The store invariant, at the executable type.
    pub open spec fn inv(&self) -> bool {
        self@.inv()
    }

    /// An empty store.
    pub fn new() -> (r: ZweiDbConn)
        ensures
            r.inv(),
            r@.prefixes.len() == 0,
            r@.tags.len() == 0,
            r@.subs.len() == 0,
            r@.next_tag == 1,
    {
        ZweiDbConn { prefixes: Vec::new(), tags: Vec::new(), subs: Vec::new(), next_tag: 1 }
    }
}

// ---------------------------------------------------------------------------
// Uniqueness: under the invariant, the witness of each `choose` above is the
// one matching index.
// ---------------------------------------------------------------------------
/// If `(guild, name)` pairs are unique and row `i` matches, then `i` is the
/// index `tag_idx` names.
pub proof fn lemma_tag_idx_unique(tags: Seq<TagView>, guild: u64, name: Seq<char>, i: int)
    requires
        forall|a: int, b: int|
            0 <= a < b < tags.len() ==> !(#[trigger] tags[a].guild == #[trigger] tags[b].guild
                && tags[a].name == tags[b].name),
        0 <= i < tags.len(),
        tags[i].guild == guild,
        tags[i].name == name,
    ensures
        has_tag(tags, guild, name),
        tag_idx(tags, guild, name) == i,
        tag_id_of(tags, guild, name) == tags[i].id,
{
    assert(has_tag(tags, guild, name)) by {
        assert(tags[i].guild == guild && tags[i].name == name);
    }
    let c = tag_idx(tags, guild, name);
    assert(0 <= c < tags.len() && tags[c].guild == guild && tags[c].name == name);
    if c < i {
        assert(!(tags[c].guild == tags[i].guild && tags[c].name == tags[i].name));
        assert(false);
    } else if i < c {
        assert(!(tags[i].guild == tags[c].guild && tags[i].name == tags[c].name));
        assert(false);
    }
}

/// If subscription rows are unique and row `j` matches `(id, uid)`, then `j`
/// is the index `sub_idx` names.
pub proof fn lemma_sub_idx_unique(subs: Seq<SubRow>, id: u64, uid: u64, j: int)
    requires
        forall|a: int, b: int| 0 <= a < b < subs.len() ==> #[trigger] subs[a] != #[trigger] subs[b],
        0 <= j < subs.len(),
        subs[j].tag == id,
        subs[j].user == uid,
    ensures
        has_sub(subs, id, uid),
        sub_idx(subs, id, uid) == j,
{
    assert(has_sub(subs, id, uid)) by {
        assert(subs[j].tag == id && subs[j].user == uid);
    }
    let c = sub_idx(subs, id, uid);
    assert(0 <= c < subs.len() && subs[c].tag == id && subs[c].user == uid);
    if c < j {
        assert(subs[c] != subs[j]);
        assert(subs[c] == subs[j]);
        assert(false);
    } else if j < c {
        assert(subs[j] != subs[c]);
        assert(subs[j] == subs[c]);
        assert(false);
    }
}

/// If guilds are unique among prefix rows and row `i` belongs to `guild`,
/// then `i` is the index `prefix_idx` names.
pub proof fn lemma_prefix_idx_unique(prefixes: Seq<(u64, Seq<char>)>, guild: u64, i: int)
    requires
        forall|a: int, b: int|
            0 <= a < b < prefixes.len() ==> #[trigger] prefixes[a].0 != #[trigger] prefixes[b].0,
        0 <= i < prefixes.len(),
        prefixes[i].0 == guild,
    ensures
        has_prefix(prefixes, guild),
        prefix_idx(prefixes, guild) == i,
        prefix_of(prefixes, guild) == prefixes[i].1,
{
    assert(has_prefix(prefixes, guild)) by {
        assert(prefixes[i].0 == guild);
    }
    let c = prefix_idx(prefixes, guild);
    assert(0 <= c < prefixes.len() && prefixes[c].0 == guild);
    if c < i {
        assert(prefixes[c].0 != prefixes[i].0);
        assert(false);
    } else if i < c {
        assert(prefixes[i].0 != prefixes[c].0);
        assert(false);
    }
}

// ---------------------------------------------------------------------------
// Spec-level transitions
// ---------------------------------------------------------------------------
/// Effect of `add_tag`: refuse a duplicate `(guild, name)`, refuse an
/// exhausted id space, otherwise append a row with the next id.
pub open spec fn spec_add_tag(s: DbView, guild: u64, name: Seq<char>) -> (DbView, Result<
    u64,
    ZweiErr,
>) {
    if has_tag(s.tags, guild, name) {
        (s, Err(ZweiErr::AlreadyExists))
    } else if s.next_tag == u64::MAX {
        (s, Err(ZweiErr::StoreUnavailable))
    } else {
        (
            DbView {
                tags: s.tags.push(TagView { id: s.next_tag, guild, name }),
                next_tag: (s.next_tag + 1) as u64,
                ..s
            },
            Ok(1),
        )
    }
}

/// The subscription rows that survive deleting the tag with id `id`.
pub open spec fn remove_subs_of(subs: Seq<SubRow>, id: u64) -> Seq<SubRow>
    decreases subs.len(),
{
    if subs.len() == 0 {
        subs
    } else if subs[0].tag == id {
        remove_subs_of(subs.drop_first(), id)
    } else {
        seq![subs[0]] + remove_subs_of(subs.drop_first(), id)
    }
}

/// Effect of `remove_tag`: delete the row and cascade-delete its
/// subscriptions; report how many tag rows went away.
pub open spec fn spec_remove_tag(s: DbView, guild: u64, name: Seq<char>) -> (DbView, u64) {
    if !has_tag(s.tags, guild, name) {
        (s, 0)
    } else {
        let i = tag_idx(s.tags, guild, name);
        let id = s.tags[i].id;
        (DbView { tags: s.tags.remove(i), subs: remove_subs_of(s.subs, id), ..s }, 1)
    }
}

/// Effect of `sub_to`: refuse a missing tag and a duplicate pair, otherwise
/// append the subscription row.
pub open spec fn spec_sub_to(s: DbView, guild: u64, name: Seq<char>, uid: u64) -> (DbView, Result<
    u64,
    ZweiErr,
>) {
    if !has_tag(s.tags, guild, name) {
        (s, Err(ZweiErr::NotFound))
    } else {
        let id = tag_id_of(s.tags, guild, name);
        if has_sub(s.subs, id, uid) {
            (s, Err(ZweiErr::AlreadyExists))
        } else {
            (DbView { subs: s.subs.push(SubRow { tag: id, user: uid }), ..s }, Ok(1))
        }
    }
}

/// Effect of `unsub`: refuse a missing tag; report 0 rows when the user was
/// not subscribed, otherwise delete the row.
pub open spec fn spec_unsub(s: DbView, guild: u64, name: Seq<char>, uid: u64) -> (DbView, Result<
    u64,
    ZweiErr,
>) {
    if !has_tag(s.tags, guild, name) {
        (s, Err(ZweiErr::NotFound))
    } else {
        let id = tag_id_of(s.tags, guild, name);
        if has_sub(s.subs, id, uid) {
            (DbView { subs: s.subs.remove(sub_idx(s.subs, id, uid)), ..s }, Ok(1))
        } else {
            (s, Ok(0))
        }
    }
}

/// Effect of `set_prefix` (upsert): the guild's row, if any, is replaced.
pub open spec fn spec_set_prefix(s: DbView, guild: u64, pfx: Seq<char>) -> DbView {
    let cleared = if has_prefix(s.prefixes, guild) {
        s.prefixes.remove(prefix_idx(s.prefixes, guild))
    } else {
        s.prefixes
    };
    DbView { prefixes: cleared.push((guild, pfx)), ..s }
}

/// Effect of `remove_prefix`: delete the guild's row; report how many rows
/// went away.
pub open spec fn spec_remove_prefix(s: DbView, guild: u64) -> (DbView, u64) {
    if has_prefix(s.prefixes, guild) {
        (DbView { prefixes: s.prefixes.remove(prefix_idx(s.prefixes, guild)), ..s }, 1)
    } else {
        (s, 0)
    }
}

// ---------------------------------------------------------------------------
// Spec-level reads
// ---------------------------------------------------------------------------
/// The names of the tags of `guild`, in insertion order.
pub open spec fn guild_tag_names(tags: Seq<TagView>, guild: u64) -> Seq<Seq<char>>
    decreases tags.len(),
{
    if tags.len() == 0 {
        Seq::empty()
    } else if tags[0].guild == guild {
        seq![tags[0].name] + guild_tag_names(tags.drop_first(), guild)
    } else {
        guild_tag_names(tags.drop_first(), guild)
    }
}

/// The subscribers of the tag with id `id`, in insertion order.
pub open spec fn subbers_of(subs: Seq<SubRow>, id: u64) -> Seq<u64>
    decreases subs.len(),
{
    if subs.len() == 0 {
        Seq::empty()
    } else if subs[0].tag == id {
        seq![subs[0].user] + subbers_of(subs.drop_first(), id)
    } else {
        subbers_of(subs.drop_first(), id)
    }
}

/// The names of the tags of `guild` that `uid` subscribes to, in tag
/// insertion order.
pub open spec fn user_tag_names(tags: Seq<TagView>, subs: Seq<SubRow>, guild: u64, uid: u64) -> Seq<
    Seq<char>,
>
    decreases tags.len(),
{
    if tags.len() == 0 {
        Seq::empty()
    } else if tags[0].guild == guild && has_sub(subs, tags[0].id, uid) {
        seq![tags[0].name] + user_tag_names(tags.drop_first(), subs, guild, uid)
    } else {
        user_tag_names(tags.drop_first(), subs, guild, uid)
    }
}

/// How many tags of `guild` have their name in `names`.
pub open spec fn count_matching(tags: Seq<TagView>, guild: u64, names: Seq<Seq<char>>) -> int
    decreases tags.len(),
{
    if tags.len() == 0 {
        0
    } else {
        (if tags[0].guild == guild && names.contains(tags[0].name) {
            1int
        } else {
            0int
        }) + count_matching(tags.drop_first(), guild, names)
    }
}

/// How many tags `guild` has in total.
pub open spec fn count_guild_tags(tags: Seq<TagView>, guild: u64) -> int
    decreases tags.len(),
{
    if tags.len() == 0 {
        0
    } else {
        (if tags[0].guild == guild {
            1int
        } else {
            0int
        }) + count_guild_tags(tags.drop_first(), guild)
    }
}

// ---------------------------------------------------------------------------
// Executable operations
// ---------------------------------------------------------------------------
/// First index of the tag `(guild, name)`, scanning in insertion order;
/// `name` must already be lowercased.
fn find_tag_at(tags: &Vec<TagRow>, guild: u64, name: &String) -> (r: Option<usize>)
    ensures
        match r {
            Some(i) => 0 <= i < tags.deep_view().len() && tags.deep_view()[i as int].guild == guild
                && tags.deep_view()[i as int].name == name@,
            None => !has_tag(tags.deep_view(), guild, name@),
        },
{
    let mut i: usize = 0;
    while i < tags.len()
        invariant
            i <= tags.len(),
            forall|j: int|
                0 <= j < i ==> !(#[trigger] tags.deep_view()[j].guild == guild
                    && tags.deep_view()[j].name == name@),
        decreases tags.len() - i,
    {
        if tags[i].guild == guild && tags[i].name == *name {
            return Some(i);
        }
        i += 1;
    }
    None
}

/// First index of the subscription row `(id, uid)`, scanning in insertion
/// order.
fn find_sub_at(subs: &Vec<SubRow>, id: u64, uid: u64) -> (r: Option<usize>)
    ensures
        match r {
            Some(j) => 0 <= j < subs@.len() && subs@[j as int].tag == id && subs@[j as int].user
                == uid,
            None => !has_sub(subs@, id, uid),
        },
{
    let mut j: usize = 0;
    while j < subs.len()
        invariant
            j <= subs.len(),
            forall|k: int|
                0 <= k < j ==> !(#[trigger] subs@[k].tag == id && subs@[k].user == uid),
        decreases subs.len() - j,
    {
        if subs[j].tag == id && subs[j].user == uid {
            return Some(j);
        }
        j += 1;
    }
    None
}

/// Does the (already normalized) name list contain this stored name?
pub(crate) fn contains_name(names: &Vec<String>, name: &String) -> (b: bool)
    ensures
        b == names.deep_view().contains(name@),
{
    let mut j: usize = 0;
    while j < names.len()
        invariant
            j <= names.len(),
            forall|k: int| 0 <= k < j ==> #[trigger] names.deep_view()[k] != name@,
        decreases names.len() - j,
    {
        if names[j] == *name {
            proof {
                assert(names.deep_view().contains(name@)) by {
                    assert(names.deep_view()[j as int] == name@);
                }
            }
            return true;
        }
        j += 1;
    }
    false
}

/// Creates the tag `(guild, lowercase(tag))`.
///
/// Returns the number of created rows (always 1) on success; fails with
/// `AlreadyExists` if the guild already has the name, and with
/// `StoreUnavailable` if the id space is exhausted.
pub fn add_tag(conn: &mut ZweiDbConn, guild: u64, tag: &String) -> (r: Result<u64, ZweiErr>)
    requires
        old(conn).inv(),
    ensures
        final(conn).inv(),
        (final(conn)@, r) == spec_add_tag(old(conn)@, guild, lower_of(tag@)),
{
    let low = lowercase(tag.as_str());
    match find_tag_at(&conn.tags, guild, &low) {
        Some(_) => Err(ZweiErr::AlreadyExists),
        None => {
            if conn.next_tag == u64::MAX {
                return Err(ZweiErr::StoreUnavailable);
            }
            let id = conn.next_tag;
            conn.tags.push(TagRow { id, guild, name: low });
            conn.next_tag = id + 1;
            proof {
                let s = old(conn)@;
                let target = spec_add_tag(s, guild, lower_of(tag@)).0;
                assert(conn@.tags =~= target.tags);
                assert(conn@ =~= target);
                // the new row keeps the invariant: its id is fresh and its
                // (guild, name) pair was absent
                assert forall|i: int| 0 <= i < conn@.subs.len() implies has_tag_id(
                    conn@.tags,
                    #[trigger] conn@.subs[i].tag,
                ) by {
                    let k = choose|k: int|
                        0 <= k < s.tags.len() && s.tags[k].id == s.subs[i].tag;
                    assert(conn@.tags[k].id == conn@.subs[i].tag);
                }
            }
            Ok(1)
        },
    }
}

/// How many of `remove_subs_of`'s survivors there are, and what they are:
/// exactly the rows whose tag id differs from `id`, in order, with
/// uniqueness carried over.
proof fn lemma_remove_subs_of(subs: Seq<SubRow>, id: u64)
    ensures
        forall|j: int|
            0 <= j < remove_subs_of(subs, id).len() ==> #[trigger] remove_subs_of(subs, id)[j].tag
                != id,
        forall|j: int|
            0 <= j < remove_subs_of(subs, id).len() ==> subs.contains(
                #[trigger] remove_subs_of(subs, id)[j],
            ),
        (forall|i: int, j: int|
            0 <= i < j < subs.len() ==> #[trigger] subs[i] != #[trigger] subs[j]) ==> (forall|
            i: int,
            j: int,
        |
            0 <= i < j < remove_subs_of(subs, id).len() ==> #[trigger] remove_subs_of(subs, id)[i]
                != #[trigger] remove_subs_of(subs, id)[j]),
    decreases subs.len(),
{
    if subs.len() == 0 {
    } else {
        let rest = subs.drop_first();
        lemma_remove_subs_of(rest, id);
        assert(forall|j: int| 0 <= j < rest.len() ==> rest[j] == subs[j + 1]);
        let r = remove_subs_of(subs, id);
        let rr = remove_subs_of(rest, id);
        // whatever the rest keeps is also an element of the whole
        assert forall|j: int| 0 <= j < rr.len() implies subs.contains(#[trigger] rr[j]) by {
            assert(rest.contains(rr[j]));
            let k = choose|k: int| 0 <= k < rest.len() && rest[k] == rr[j];
            assert(subs[k + 1] == rr[j]);
        }
        if subs[0].tag == id {
            assert(r == rr);
        } else {
            assert(r == seq![subs[0]] + rr);
            assert(r[0] == subs[0]);
            assert(forall|j: int| 1 <= j < r.len() ==> #[trigger] r[j] == rr[j - 1]);
            assert(subs.contains(subs[0])) by {
                assert(subs[0] == subs[0]);
            }
            assert forall|j: int| 0 <= j < r.len() implies subs.contains(#[trigger] r[j]) by {
                if j > 0 {
                    assert(subs.contains(rr[j - 1]));
                }
            }
            assert forall|j: int| 0 <= j < r.len() implies #[trigger] r[j].tag != id by {
                if j > 0 {
                    assert(rr[j - 1].tag != id);
                }
            }
            if forall|i: int, j: int|
                0 <= i < j < subs.len() ==> #[trigger] subs[i] != #[trigger] subs[j] {
                assert forall|i2: int, j2: int|
                    0 <= i2 < j2 < rest.len() implies #[trigger] rest[i2] != #[trigger] rest[j2] by {
                    assert(rest[i2] == subs[i2 + 1] && rest[j2] == subs[j2 + 1]);
                }
                assert forall|i: int, j: int| 0 <= i < j < r.len() implies #[trigger] r[i]
                    != #[trigger] r[j] by {
                    if i == 0 {
                        // r[j] comes from the rest, and the head differs from
                        // every element of the rest
                        assert(r[j] == rr[j - 1]);
                        assert(rest.contains(rr[j - 1]));
                        let m = choose|m: int| 0 <= m < rest.len() && rest[m] == rr[j - 1];
                        assert(subs[m + 1] == r[j]);
                        assert(subs[0] != subs[m + 1]);
                    } else {
                        assert(r[i] == rr[i - 1] && r[j] == rr[j - 1]);
                    }
                }
            }
        }
    }
}

/// Deletes the tag `(guild, lowercase(tag))` together with all of its
/// subscription rows (the cascade). Returns how many tag rows went away:
/// 0 when the tag did not exist, 1 otherwise.
pub fn remove_tag(conn: &mut ZweiDbConn, guild: u64, tag: &String) -> (r: u64)
    requires
        old(conn).inv(),
    ensures
        final(conn).inv(),
        (final(conn)@, r) == spec_remove_tag(old(conn)@, guild, lower_of(tag@)),
{
    let low = lowercase(tag.as_str());
    match find_tag_at(&conn.tags, guild, &low) {
        None => 0,
        Some(i) => {
            proof {
                lemma_tag_idx_unique(old(conn)@.tags, guild, lower_of(tag@), i as int);
            }
            let ghost s = old(conn)@;
            let ghost id_spec = s.tags[tag_idx(s.tags, guild, lower_of(tag@))].id;
            let id = conn.tags[i].id;
            let _removed = conn.tags.remove(i);
            let mut kept: Vec<SubRow> = Vec::new();
            let mut j: usize = 0;
            proof {
                assert(conn.subs@.skip(0) =~= conn.subs@);
                assert(kept@ + remove_subs_of(conn.subs@, id) =~= remove_subs_of(conn.subs@, id));
            }
            while j < conn.subs.len()
                invariant
                    j <= conn.subs.len(),
                    kept@ + remove_subs_of(conn.subs@.skip(j as int), id) == remove_subs_of(
                        conn.subs@,
                        id,
                    ),
                decreases conn.subs.len() - j,
            {
                let row = conn.subs[j];
                proof {
                    assert(conn.subs@.skip(j as int).len() > 0);
                    assert(conn.subs@.skip(j as int)[0] == conn.subs@[j as int]);
                    assert(conn.subs@.skip(j as int).drop_first() =~= conn.subs@.skip(j as int + 1));
                }
                if row.tag != id {
                    kept.push(row);
                    assert(kept@ + remove_subs_of(conn.subs@.skip(j as int + 1), id)
                        =~= remove_subs_of(conn.subs@, id));
                }
                j += 1;
            }
            proof {
                assert(conn.subs@.skip(conn.subs@.len() as int) =~= Seq::<SubRow>::empty());
                assert(kept@ =~= remove_subs_of(conn.subs@, id));
            }
            conn.subs = kept;
            proof {
                let target = spec_remove_tag(s, guild, lower_of(tag@)).0;
                assert(id == id_spec);
                assert(conn@.tags =~= target.tags);
                assert(conn@ =~= target);
                lemma_remove_subs_of(s.subs, id);
                // invariant: tag rows after removal stay unique
                assert forall|a: int, b: int| 0 <= a < b < conn@.tags.len() implies #[trigger] conn@.tags[a].id != #[trigger] conn@.tags[b].id by {
                    let i0 = i as int;
                    let a0 = if a < i0 { a } else { a + 1 };
                    let b0 = if b < i0 { b } else { b + 1 };
                    assert(conn@.tags[a] == s.tags[a0] && conn@.tags[b] == s.tags[b0]);
                }
                assert forall|a: int, b: int| 0 <= a < b < conn@.tags.len() implies !(#[trigger] conn@.tags[a].guild == #[trigger] conn@.tags[b].guild
                    && conn@.tags[a].name == conn@.tags[b].name) by {
                    let i0 = i as int;
                    let a0 = if a < i0 { a } else { a + 1 };
                    let b0 = if b < i0 { b } else { b + 1 };
                    assert(conn@.tags[a] == s.tags[a0] && conn@.tags[b] == s.tags[b0]);
                }
                assert forall|a: int| 0 <= a < conn@.tags.len() implies #[trigger] conn@.tags[a].id < conn@.next_tag by {
                    let i0 = i as int;
                    let a0 = if a < i0 { a } else { a + 1 };
                    assert(conn@.tags[a] == s.tags[a0]);
                }
                // invariant: every surviving subscription row still has its
                // tag, because only the row at index i disappeared and the
                // survivors' ids differ from its id
                assert forall|k: int| 0 <= k < conn@.subs.len() implies has_tag_id(
                    conn@.tags,
                    #[trigger] conn@.subs[k].tag,
                ) by {
                    let row = conn@.subs[k];
                    assert(s.subs.contains(row));
                    let m = choose|m: int| 0 <= m < s.subs.len() && s.subs[m] == row;
                    let t = choose|t: int| 0 <= t < s.tags.len() && s.tags[t].id == row.tag;
                    let i0 = i as int;
                    assert(row.tag != id);
                    assert(t != i0);
                    let t2 = if t < i0 { t } else { t - 1 };
                    assert(conn@.tags[t2] == s.tags[t]);
                }
            }
            1
        },
    }
}

/// Subscribes `uid` to the tag `(guild, lowercase(tag))`.
///
/// Returns the number of created rows (always 1) on success; fails with
/// `NotFound` if the tag does not exist and with `AlreadyExists` if the user
/// is already subscribed.
pub fn sub_to(conn: &mut ZweiDbConn, guild: u64, tag: &String, uid: u64) -> (r: Result<
    u64,
    ZweiErr,
>)
    requires
        old(conn).inv(),
    ensures
        final(conn).inv(),
        (final(conn)@, r) == spec_sub_to(old(conn)@, guild, lower_of(tag@), uid),
{
    let low = lowercase(tag.as_str());
    match find_tag_at(&conn.tags, guild, &low) {
        None => Err(ZweiErr::NotFound),
        Some(i) => {
            proof {
                lemma_tag_idx_unique(old(conn)@.tags, guild, lower_of(tag@), i as int);
            }
            let id = conn.tags[i].id;
            match find_sub_at(&conn.subs, id, uid) {
                Some(_) => Err(ZweiErr::AlreadyExists),
                None => {
                    conn.subs.push(SubRow { tag: id, user: uid });
                    proof {
                        let s = old(conn)@;
                        let target = spec_sub_to(s, guild, lower_of(tag@), uid).0;
                        assert(conn@ =~~= target);
                        assert forall|k: int| 0 <= k < conn@.subs.len() implies has_tag_id(
                            conn@.tags,
                            #[trigger] conn@.subs[k].tag,
                        ) by {
                            if k < s.subs.len() {
                                assert(has_tag_id(s.tags, s.subs[k].tag));
                            } else {
                                assert(conn@.subs[k].tag == conn@.tags[i as int].id);
                            }
                        }
                    }
                    Ok(1)
                },
            }
        },
    }
}

/// Unsubscribes `uid` from the tag `(guild, lowercase(tag))`.
///
/// Fails with `NotFound` if the tag does not exist; returns 0 deleted rows
/// when the user was not subscribed, 1 otherwise.
pub fn unsub(conn: &mut ZweiDbConn, guild: u64, tag: &String, uid: u64) -> (r: Result<u64, ZweiErr>)
    requires
        old(conn).inv(),
    ensures
        final(conn).inv(),
        (final(conn)@, r) == spec_unsub(old(conn)@, guild, lower_of(tag@), uid),
{
    let low = lowercase(tag.as_str());
    match find_tag_at(&conn.tags, guild, &low) {
        None => Err(ZweiErr::NotFound),
        Some(i) => {
            proof {
                lemma_tag_idx_unique(old(conn)@.tags, guild, lower_of(tag@), i as int);
            }
            let id = conn.tags[i].id;
            match find_sub_at(&conn.subs, id, uid) {
                None => Ok(0),
                Some(j) => {
                    proof {
                        lemma_sub_idx_unique(old(conn)@.subs, id, uid, j as int);
                    }
                    conn.subs.remove(j);
                    proof {
                        let s = old(conn)@;
                        let target = spec_unsub(s, guild, lower_of(tag@), uid).0;
                        assert(conn@ =~~= target);
                        let j0 = j as int;
                        assert forall|a: int, b: int|
                            0 <= a < b < conn@.subs.len() implies #[trigger] conn@.subs[a]
                            != #[trigger] conn@.subs[b] by {
                            let a0 = if a < j0 {
                                a
                            } else {
                                a + 1
                            };
                            let b0 = if b < j0 {
                                b
                            } else {
                                b + 1
                            };
                            assert(conn@.subs[a] == s.subs[a0] && conn@.subs[b] == s.subs[b0]);
                        }
                        assert forall|k: int| 0 <= k < conn@.subs.len() implies has_tag_id(
                            conn@.tags,
                            #[trigger] conn@.subs[k].tag,
                        ) by {
                            let k0 = if k < j0 {
                                k
                            } else {
                                k + 1
                            };
                            assert(conn@.subs[k] == s.subs[k0]);
                            assert(has_tag_id(s.tags, s.subs[k0].tag));
                        }
                    }
                    Ok(1)
                },
            }
        },
    }
}

/// First index of the prefix row of `guild`.
fn find_prefix_at(prefixes: &Vec<(u64, String)>, guild: u64) -> (r: Option<usize>)
    ensures
        match r {
            Some(i) => 0 <= i < prefixes.deep_view().len() && prefixes.deep_view()[i as int].0
                == guild,
            None => !has_prefix(prefixes.deep_view(), guild),
        },
{
    let mut i: usize = 0;
    while i < prefixes.len()
        invariant
            i <= prefixes.len(),
            forall|j: int| 0 <= j < i ==> #[trigger] prefixes.deep_view()[j].0 != guild,
        decreases prefixes.len() - i,
    {
        if prefixes[i].0 == guild {
            return Some(i);
        }
        i += 1;
    }
    None
}

/// Sets the command prefix of `guild`, inserting or replacing its row
/// (upsert). Returns the number of affected rows, always 1.
pub fn set_prefix(conn: &mut ZweiDbConn, guild: u64, pfx: &str) -> (r: u64)
    requires
        old(conn).inv(),
    ensures
        final(conn).inv(),
        final(conn)@ == spec_set_prefix(old(conn)@, guild, pfx@),
        r == 1,
{
    let ghost s = old(conn)@;
    match find_prefix_at(&conn.prefixes, guild) {
        Some(i) => {
            proof {
                lemma_prefix_idx_unique(s.prefixes, guild, i as int);
            }
            conn.prefixes.remove(i);
        },
        None => {},
    }
    conn.prefixes.push((guild, pfx.to_owned()));
    proof {
        let target = spec_set_prefix(s, guild, pfx@);
        assert(conn@.prefixes =~= target.prefixes);
        assert(conn@ =~= target);
        let cleared = if has_prefix(s.prefixes, guild) {
            s.prefixes.remove(prefix_idx(s.prefixes, guild))
        } else {
            s.prefixes
        };
        // uniqueness survives: the guild's old row is gone before the push
        if has_prefix(s.prefixes, guild) {
            let i0 = prefix_idx(s.prefixes, guild);
            assert forall|a: int| 0 <= a < cleared.len() implies #[trigger] cleared[a].0 != guild by {
                let a0 = if a < i0 { a } else { a + 1 };
                assert(cleared[a] == s.prefixes[a0]);
                if a0 != i0 && s.prefixes[a0].0 == guild {
                    assert(false);
                }
            }
            assert forall|a: int, b: int| 0 <= a < b < cleared.len() implies #[trigger] cleared[a].0 != #[trigger] cleared[b].0 by {
                let a0 = if a < i0 { a } else { a + 1 };
                let b0 = if b < i0 { b } else { b + 1 };
                assert(cleared[a] == s.prefixes[a0] && cleared[b] == s.prefixes[b0]);
            }
        }
    }
    1
}

/// Clears the custom prefix of `guild`. Returns the number of deleted rows:
/// 0 when no custom prefix existed, 1 otherwise.
pub fn remove_prefix(conn: &mut ZweiDbConn, guild: u64) -> (r: u64)
    requires
        old(conn).inv(),
    ensures
        final(conn).inv(),
        (final(conn)@, r) == spec_remove_prefix(old(conn)@, guild),
{
    let ghost s = old(conn)@;
    match find_prefix_at(&conn.prefixes, guild) {
        None => 0,
        Some(i) => {
            proof {
                lemma_prefix_idx_unique(s.prefixes, guild, i as int);
            }
            conn.prefixes.remove(i);
            proof {
                let target = spec_remove_prefix(s, guild).0;
                assert(conn@.prefixes =~= target.prefixes);
                assert(conn@ =~= target);
                let i0 = i as int;
                assert forall|a: int, b: int| 0 <= a < b < conn@.prefixes.len() implies #[trigger] conn@.prefixes[a].0 != #[trigger] conn@.prefixes[b].0 by {
                    let a0 = if a < i0 { a } else { a + 1 };
                    let b0 = if b < i0 { b } else { b + 1 };
                    assert(conn@.prefixes[a] == s.prefixes[a0]
                        && conn@.prefixes[b] == s.prefixes[b0]);
                }
            }
            1
        },
    }
}

/// The stored custom prefix of `guild`, if any. No side effects.
pub fn get_prefix(conn: &ZweiDbConn, guild: u64) -> (r: Option<String>)
    requires
        conn.inv(),
    ensures
        match r {
            Some(p) => has_prefix(conn@.prefixes, guild) && p@ == prefix_of(conn@.prefixes, guild),
            None => !has_prefix(conn@.prefixes, guild),
        },
{
    match find_prefix_at(&conn.prefixes, guild) {
        None => None,
        Some(i) => {
            proof {
                lemma_prefix_idx_unique(conn@.prefixes, guild, i as int);
            }
            Some(conn.prefixes[i].1.clone())
        },
    }
}

/// All stored prefixes, as the map the cache is bulk-initialized from.
pub fn get_all_prefixes(conn: &ZweiDbConn) -> (r: std::collections::HashMap<u64, String>)
    requires
        conn.inv(),
    ensures
        forall|g: u64| r@.contains_key(g) <==> has_prefix(conn@.prefixes, g),
        forall|g: u64| #[trigger] r@.contains_key(g) ==> r@[g]@ == prefix_of(conn@.prefixes, g),
{
    let mut r: std::collections::HashMap<u64, String> = std::collections::HashMap::new();
    let mut i: usize = 0;
    while i < conn.prefixes.len()
        invariant
            i <= conn.prefixes.len(),
            conn.inv(),
            forall|g: u64|
                r@.contains_key(g) <==> exists|j: int|
                    0 <= j < i && #[trigger] conn@.prefixes[j].0 == g,
            forall|g: u64| #[trigger] r@.contains_key(g) ==> r@[g]@ == prefix_of(conn@.prefixes, g),
        decreases conn.prefixes.len() - i,
    {
        let g = conn.prefixes[i].0;
        let p = conn.prefixes[i].1.clone();
        proof {
            // the row at i is the guild's unique row, so it is the one
            // prefix_of names
            lemma_prefix_idx_unique(conn@.prefixes, g, i as int);
        }
        let ghost before = r@;
        r.insert(g, p);
        proof {
            assert forall|g2: u64| r@.contains_key(g2) implies exists|j: int|
                0 <= j < i + 1 && #[trigger] conn@.prefixes[j].0 == g2 by {
                if g2 == g {
                    assert(conn@.prefixes[i as int].0 == g2);
                } else {
                    assert(before.contains_key(g2));
                    let j = choose|j: int| 0 <= j < i && #[trigger] conn@.prefixes[j].0 == g2;
                    assert(conn@.prefixes[j].0 == g2);
                }
            }
            assert forall|g2: u64|
                (exists|j: int| 0 <= j < i + 1 && #[trigger] conn@.prefixes[j].0 == g2)
                implies r@.contains_key(g2) by {
                let j = choose|j: int| 0 <= j < i + 1 && #[trigger] conn@.prefixes[j].0 == g2;
                if j == i as int {
                    assert(g2 == g);
                } else {
                    assert(before.contains_key(g2));
                }
            }
        }
        i += 1;
    }
    proof {
        assert forall|g: u64| r@.contains_key(g) implies has_prefix(conn@.prefixes, g) by {
            let j = choose|j: int|
                0 <= j < conn.prefixes.len() && #[trigger] conn@.prefixes[j].0 == g;
            assert(conn@.prefixes[j].0 == g);
        }
        assert forall|g: u64| has_prefix(conn@.prefixes, g) implies r@.contains_key(g) by {
            let j = choose|j: int|
                0 <= j < conn@.prefixes.len() && #[trigger] conn@.prefixes[j].0 == g;
            assert(0 <= j < conn.prefixes.len() && conn@.prefixes[j].0 == g);
        }
    }
    r
}

/// The names of the tags registered for `guild`, in insertion order
/// (lowercased, as stored).
pub fn get_server_tags(conn: &ZweiDbConn, guild: u64) -> (r: Vec<String>)
    ensures
        r.deep_view() == guild_tag_names(conn@.tags, guild),
{
    let mut r: Vec<String> = Vec::new();
    let mut i: usize = 0;
    proof {
        assert(conn@.tags.skip(0) =~= conn@.tags);
        assert(r.deep_view() + guild_tag_names(conn@.tags, guild) =~= guild_tag_names(
            conn@.tags,
            guild,
        ));
    }
    while i < conn.tags.len()
        invariant
            i <= conn.tags.len(),
            r.deep_view() + guild_tag_names(conn@.tags.skip(i as int), guild) == guild_tag_names(
                conn@.tags,
                guild,
            ),
        decreases conn.tags.len() - i,
    {
        proof {
            assert(conn@.tags.skip(i as int).len() > 0);
            assert(conn@.tags.skip(i as int)[0] == conn@.tags[i as int]);
            assert(conn@.tags.skip(i as int).drop_first() =~= conn@.tags.skip(i as int + 1));
        }
        if conn.tags[i].guild == guild {
            r.push(conn.tags[i].name.clone());
        }
        proof {
            assert(r.deep_view() + guild_tag_names(conn@.tags.skip(i as int + 1), guild)
                =~= guild_tag_names(conn@.tags, guild));
        }
        i += 1;
    }
    proof {
        assert(conn@.tags.skip(conn@.tags.len() as int) =~= Seq::<TagView>::empty());
        assert(r.deep_view() =~= guild_tag_names(conn@.tags, guild));
    }
    r
}

/// The users subscribed to the tag `(guild, lowercase(tag))`, in insertion
/// order. Fails with `NotFound` if the tag does not exist.
pub fn get_subbers(conn: &ZweiDbConn, guild: u64, tag: &String) -> (r: Result<Vec<u64>, ZweiErr>)
    requires
        conn.inv(),
    ensures
        match r {
            Ok(users) => has_tag(conn@.tags, guild, lower_of(tag@)) && users@ == subbers_of(
                conn@.subs,
                tag_id_of(conn@.tags, guild, lower_of(tag@)),
            ),
            Err(e) => e == ZweiErr::NotFound && !has_tag(conn@.tags, guild, lower_of(tag@)),
        },
{
    let low = lowercase(tag.as_str());
    match find_tag_at(&conn.tags, guild, &low) {
        None => Err(ZweiErr::NotFound),
        Some(i) => {
            proof {
                lemma_tag_idx_unique(conn@.tags, guild, lower_of(tag@), i as int);
            }
            let id = conn.tags[i].id;
            let mut users: Vec<u64> = Vec::new();
            let mut j: usize = 0;
            proof {
                assert(conn@.subs.skip(0) =~= conn@.subs);
                assert(users@ + subbers_of(conn@.subs, id) =~= subbers_of(conn@.subs, id));
            }
            while j < conn.subs.len()
                invariant
                    j <= conn.subs.len(),
                    users@ + subbers_of(conn@.subs.skip(j as int), id) == subbers_of(
                        conn@.subs,
                        id,
                    ),
                decreases conn.subs.len() - j,
            {
                proof {
                    assert(conn@.subs.skip(j as int).len() > 0);
                    assert(conn@.subs.skip(j as int)[0] == conn@.subs[j as int]);
                    assert(conn@.subs.skip(j as int).drop_first() =~= conn@.subs.skip(
                        j as int + 1,
                    ));
                }
                if conn.subs[j].tag == id {
                    users.push(conn.subs[j].user);
                }
                proof {
                    assert(users@ + subbers_of(conn@.subs.skip(j as int + 1), id) =~= subbers_of(
                        conn@.subs,
                        id,
                    ));
                }
                j += 1;
            }
            proof {
                assert(conn@.subs.skip(conn@.subs.len() as int) =~= Seq::<SubRow>::empty());
                assert(users@ =~= subbers_of(conn@.subs, id));
            }
            Ok(users)
        },
    }
}

/// The names of the tags of `guild` that `uid` subscribes to, in tag
/// insertion order.
pub fn usersubs(conn: &ZweiDbConn, guild: u64, uid: u64) -> (r: Vec<String>)
    ensures
        r.deep_view() == user_tag_names(conn@.tags, conn@.subs, guild, uid),
{
    let mut r: Vec<String> = Vec::new();
    let mut i: usize = 0;
    proof {
        assert(conn@.tags.skip(0) =~= conn@.tags);
        assert(r.deep_view() + user_tag_names(conn@.tags, conn@.subs, guild, uid)
            =~= user_tag_names(conn@.tags, conn@.subs, guild, uid));
    }
    while i < conn.tags.len()
        invariant
            i <= conn.tags.len(),
            r.deep_view() + user_tag_names(conn@.tags.skip(i as int), conn@.subs, guild, uid)
                == user_tag_names(conn@.tags, conn@.subs, guild, uid),
        decreases conn.tags.len() - i,
    {
        proof {
            assert(conn@.tags.skip(i as int).len() > 0);
            assert(conn@.tags.skip(i as int)[0] == conn@.tags[i as int]);
            assert(conn@.tags.skip(i as int).drop_first() =~= conn@.tags.skip(i as int + 1));
        }
        let id = conn.tags[i].id;
        if conn.tags[i].guild == guild {
            let hit = find_sub_at(&conn.subs, id, uid);
            proof {
                if hit is Some {
                    let j = hit->Some_0;
                    assert(has_sub(conn@.subs, id, uid)) by {
                        assert(conn.subs@[j as int].tag == id && conn.subs@[j as int].user == uid);
                    }
                }
            }
            if hit.is_some() {
                r.push(conn.tags[i].name.clone());
            }
        }
        proof {
            assert(r.deep_view() + user_tag_names(
                conn@.tags.skip(i as int + 1),
                conn@.subs,
                guild,
                uid,
            ) =~= user_tag_names(conn@.tags, conn@.subs, guild, uid));
        }
        i += 1;
    }
    proof {
        assert(conn@.tags.skip(conn@.tags.len() as int) =~= Seq::<TagView>::empty());
        assert(r.deep_view() =~= user_tag_names(conn@.tags, conn@.subs, guild, uid));
    }
    r
}

/// How many of the given (already normalized) names are registered as tags
/// of `guild`. The cheap existence pre-check of the fan-out engine.
pub fn are_tags_in_server(conn: &ZweiDbConn, guild: u64, tagvec: &Vec<String>) -> (r: usize)
    ensures
        r == count_matching(conn@.tags, guild, tagvec.deep_view()),
{
    let ghost names = tagvec.deep_view();
    let mut count: usize = 0;
    let mut i: usize = 0;
    proof {
        assert(conn@.tags.skip(0) =~= conn@.tags);
    }
    while i < conn.tags.len()
        invariant
            i <= conn.tags.len(),
            count <= i,
            names == tagvec.deep_view(),
            count + count_matching(conn@.tags.skip(i as int), guild, names) == count_matching(
                conn@.tags,
                guild,
                names,
            ),
        decreases conn.tags.len() - i,
    {
        proof {
            assert(conn@.tags.skip(i as int).len() > 0);
            assert(conn@.tags.skip(i as int)[0] == conn@.tags[i as int]);
            assert(conn@.tags.skip(i as int).drop_first() =~= conn@.tags.skip(i as int + 1));
        }
        if conn.tags[i].guild == guild {
            let found = contains_name(tagvec, &conn.tags[i].name);
            if found {
                count += 1;
            }
        }
        i += 1;
    }
    proof {
        assert(conn@.tags.skip(conn@.tags.len() as int) =~= Seq::<TagView>::empty());
    }
    count
}

// ---------------------------------------------------------------------------
// Laws
// ---------------------------------------------------------------------------
/// Law: adding the same `(guild, name)` twice in a row cannot duplicate it.
/// If the first add succeeded (or already reported a duplicate), the second
/// add returns `AlreadyExists`, leaves the store untouched, and the guild's
/// tag count is unchanged by the second call.
pub proof fn lemma_add_tag_twice(s: DbView, guild: u64, name: Seq<char>)
    ensures
        ({
            let (s1, r1) = spec_add_tag(s, guild, name);
            let (s2, r2) = spec_add_tag(s1, guild, name);
            (r1 == Ok::<u64, ZweiErr>(1) || r1 == Err::<u64, ZweiErr>(ZweiErr::AlreadyExists))
                ==> {
                &&& r2 == Err::<u64, ZweiErr>(ZweiErr::AlreadyExists)
                &&& s2 == s1
                &&& count_guild_tags(s2.tags, guild) == count_guild_tags(s1.tags, guild)
            }
        }),
{
    let (s1, r1) = spec_add_tag(s, guild, name);
    if r1 == Ok::<u64, ZweiErr>(1) {
        assert(s1.tags[s.tags.len() as int].guild == guild && s1.tags[s.tags.len() as int].name
            == name);
        assert(has_tag(s1.tags, guild, name));
    }
}

/// Law: the matching-tag count is zero exactly when none of the given names
/// exists as a tag of the guild.
pub proof fn lemma_count_matching_zero(tags: Seq<TagView>, guild: u64, names: Seq<Seq<char>>)
    ensures
        (count_matching(tags, guild, names) == 0) <==> (forall|n: Seq<char>|
            #[trigger] names.contains(n) ==> !has_tag(tags, guild, n)),
    decreases tags.len(),
{
    if tags.len() == 0 {
    } else {
        let rest = tags.drop_first();
        lemma_count_matching_zero(rest, guild, names);
        assert(forall|j: int| 0 <= j < rest.len() ==> rest[j] == tags[j + 1]);
        assert(count_matching(rest, guild, names) >= 0) by {
            lemma_count_matching_nonneg(rest, guild, names);
        }
        if count_matching(tags, guild, names) == 0 {
            assert forall|n: Seq<char>| #[trigger]
                names.contains(n) implies !has_tag(tags, guild, n) by {
                if has_tag(tags, guild, n) {
                    let i = choose|i: int|
                        0 <= i < tags.len() && tags[i].guild == guild && tags[i].name == n;
                    if i == 0 {
                        assert(names.contains(tags[0].name));
                        assert(false);
                    } else {
                        assert(rest[i - 1].guild == guild && rest[i - 1].name == n);
                        assert(has_tag(rest, guild, n));
                        assert(false);
                    }
                }
            }
        }
        if forall|n: Seq<char>| #[trigger] names.contains(n) ==> !has_tag(tags, guild, n) {
            if tags[0].guild == guild && names.contains(tags[0].name) {
                assert(has_tag(tags, guild, tags[0].name)) by {
                    assert(tags[0].guild == guild && tags[0].name == tags[0].name);
                }
                assert(false);
            }
            assert forall|n: Seq<char>| #[trigger]
                names.contains(n) implies !has_tag(rest, guild, n) by {
                if has_tag(rest, guild, n) {
                    let i = choose|i: int|
                        0 <= i < rest.len() && rest[i].guild == guild && rest[i].name == n;
                    assert(tags[i + 1].guild == guild && tags[i + 1].name == n);
                    assert(has_tag(tags, guild, n));
                    assert(false);
                }
            }
        }
    }
}

/// The matching-tag count is never negative.
pub proof fn lemma_count_matching_nonneg(tags: Seq<TagView>, guild: u64, names: Seq<Seq<char>>)
    ensures
        count_matching(tags, guild, names) >= 0,
    decreases tags.len(),
{
    if tags.len() == 0 {
    } else {
        lemma_count_matching_nonneg(tags.drop_first(), guild, names);
    }
}

/// Law (the cascade invariant): removing a tag leaves no subscription row
/// referencing it, and the tag id itself is gone from the store.
pub proof fn lemma_remove_tag_cascades(s: DbView, guild: u64, name: Seq<char>)
    requires
        s.inv(),
        has_tag(s.tags, guild, name),
    ensures
        ({
            let id = tag_id_of(s.tags, guild, name);
            let (s2, n) = spec_remove_tag(s, guild, name);
            &&& n == 1
            &&& forall|j: int| 0 <= j < s2.subs.len() ==> #[trigger] s2.subs[j].tag != id
            &&& !has_tag_id(s2.tags, id)
        }),
{
    let id = tag_id_of(s.tags, guild, name);
    let (s2, n) = spec_remove_tag(s, guild, name);
    lemma_remove_subs_of(s.subs, id);
    let i0 = tag_idx(s.tags, guild, name);
    assert(0 <= i0 < s.tags.len() && s.tags[i0].id == id);
    assert forall|a: int| 0 <= a < s2.tags.len() implies #[trigger] s2.tags[a].id != id by {
        let a0 = if a < i0 {
            a
        } else {
            a + 1
        };
        assert(s2.tags[a] == s.tags[a0]);
        if s.tags[a0].id == id {
            // two distinct rows would share the id
            assert(a0 != i0);
            assert(false);
        }
    }
}

} // verus!
