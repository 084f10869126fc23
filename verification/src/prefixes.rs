//! The prefix cache: an in-memory, write-through mirror of the store's
//! prefix rows, consulted on every inbound message.
//!
//! [`ZweiPrefixes`] owns the map. [`ZweiPrefixes::resolve`] never touches the
//! store; [`ZweiPrefixes::set`] and [`ZweiPrefixes::clear`] implement the
//! write-through discipline: the store write comes first, and the cache is
//! only touched once the store reports the write as committed. The predicate
//! [`write_through`] states the resulting agreement between cache and store,
//! and both flows prove that they preserve it.

use std::collections::HashMap;
use vstd::prelude::*;
use vstd::string::*;

use crate::db;
use crate::db::{has_prefix, prefix_of, spec_remove_prefix, spec_set_prefix, DbView, ZweiDbConn};
use crate::errors::ZweiErr;

verus! {

/// The process-wide default prefix.
pub open spec fn spec_default_prefix() -> Seq<char> {
    ";"@
}

/// The default prefix, used in direct messages and in guilds without a
/// custom prefix.
pub fn default_prefix() -> (r: String)
    ensures
        r@ == spec_default_prefix(),
{
    String::from_str(";")
}

/// The effective prefix of `guild` under the cache map `m`: the cached value
/// if present, the default otherwise.
pub open spec fn resolve_spec(m: Map<u64, String>, guild: u64) -> Seq<char> {
    if m.contains_key(guild) {
        m[guild]@
    } else {
        spec_default_prefix()
    }
}

/// In-memory cache of guild → custom prefix. Absent entries mean "use the
/// default". One exclusion primitive around the whole value is the shell's
/// responsibility; the operations here are sequential.
pub struct ZweiPrefixes {
    /// The cached rows; an entry per guild with a custom prefix.
    pub map: HashMap<u64, String>,
}

impl View for ZweiPrefixes {
    type V = Map<u64, String>;

    open spec fn view(&self) -> Map<u64, String> {
        self.map@
    }
}

/// The write-through invariant: the cache holds exactly the store's prefix
/// rows, with exactly their values.
pub open spec fn write_through(cache: Map<u64, String>, s: DbView) -> bool {
    &&& forall|g: u64|
        #![trigger cache.contains_key(g)]
        #![trigger has_prefix(s.prefixes, g)]
        cache.contains_key(g) <==> has_prefix(s.prefixes, g)
    &&& forall|g: u64| #[trigger]
        cache.contains_key(g) ==> cache[g]@ == prefix_of(s.prefixes, g)
}

impl ZweiPrefixes {
    /// An empty cache.
    pub fn new() -> (r: ZweiPrefixes)
        ensures
            r@ == Map::<u64, String>::empty(),
    {
        ZweiPrefixes { map: HashMap::new() }
    }

    /// Bulk-initializes the cache from the store's rows at process start;
    /// must complete before the first message is resolved.
    pub fn load(&mut self, all: HashMap<u64, String>)
        ensures
            final(self)@ == all@,
    {
        self.map = all;
    }

    /// The effective prefix for `guild`: the cached value if present, the
    /// default otherwise. Never touches the store.
    pub fn resolve(&self, guild: u64) -> (r: String)
        ensures
            r@ == resolve_spec(self@, guild),
    {
        match self.map.get(&guild) {
            Some(p) => p.clone(),
            None => default_prefix(),
        }
    }

    /// Caches `pfx` for `guild`. Only to be invoked after the corresponding
    /// store write succeeded; [`ZweiPrefixes::set`] packages the discipline.
    pub fn put(&mut self, guild: u64, pfx: String)
        ensures
            final(self)@ == old(self)@.insert(guild, pfx),
    {
        self.map.insert(guild, pfx);
    }

    /// Drops the cached prefix of `guild`. Only to be invoked after the
    /// corresponding store delete succeeded; [`ZweiPrefixes::clear`]
    /// packages the discipline.
    pub fn evict(&mut self, guild: u64)
        ensures
            final(self)@ == old(self)@.remove(guild),
    {
        self.map.remove(&guild);
    }

    /// The `prefix set` flow: upserts the store row, verifies the write is
    /// committed, and only then writes the cache through.
    ///
    /// Afterwards the cache resolves `guild` to `pfx`, resolves every other
    /// guild as before, and the write-through invariant is preserved.
    pub fn set(&mut self, conn: &mut ZweiDbConn, guild: u64, pfx: &str) -> (r: Result<
        (),
        ZweiErr,
    >)
        requires
            old(conn).inv(),
        ensures
            final(conn).inv(),
            final(conn)@ == spec_set_prefix(old(conn)@, guild, pfx@),
            r == Ok::<(), ZweiErr>(()),
            resolve_spec(final(self)@, guild) == pfx@,
            forall|g: u64| g != guild ==> resolve_spec(final(self)@, g) == resolve_spec(
                old(self)@,
                g,
            ),
            write_through(old(self)@, old(conn)@) ==> write_through(final(self)@, final(conn)@),
    {
        let ghost s0 = old(conn)@;
        let ghost c0 = old(self)@;
        let rows = db::set_prefix(conn, guild, pfx);
        if rows < 1 {
            // set_prefix proves rows == 1; the check mirrors the required
            // caller discipline of treating anything less as uncommitted
            return Err(ZweiErr::StoreUnavailable);
        }
        self.put(guild, pfx.to_owned());
        proof {
            let ns = conn@;
            let nc = self@;
            let len0 = s0.prefixes.len() as int;
            let cleared = if has_prefix(s0.prefixes, guild) {
                s0.prefixes.remove(db::prefix_idx(s0.prefixes, guild))
            } else {
                s0.prefixes
            };
            assert(ns.prefixes == cleared.push((guild, pfx@)));
            assert(ns.prefixes[ns.prefixes.len() - 1].0 == guild);
            db::lemma_prefix_idx_unique(ns.prefixes, guild, ns.prefixes.len() - 1);
            if write_through(c0, s0) {
                assert forall|g: u64|
                    #![trigger nc.contains_key(g)]
                    #![trigger has_prefix(ns.prefixes, g)]
                    nc.contains_key(g) <==> has_prefix(ns.prefixes, g) by {
                    if g == guild {
                        assert(nc.contains_key(g));
                        assert(has_prefix(ns.prefixes, g));
                    } else {
                        if c0.contains_key(g) {
                            let j = db::prefix_idx(s0.prefixes, g);
                            assert(s0.prefixes[j].0 == g);
                            if has_prefix(s0.prefixes, guild) {
                                let i0 = db::prefix_idx(s0.prefixes, guild);
                                let j2 = if j < i0 {
                                    j
                                } else {
                                    j - 1
                                };
                                assert(cleared[j2] == s0.prefixes[j]);
                                assert(ns.prefixes[j2].0 == g);
                            } else {
                                assert(ns.prefixes[j].0 == g);
                            }
                        }
                        if has_prefix(ns.prefixes, g) {
                            let j = db::prefix_idx(ns.prefixes, g);
                            assert(ns.prefixes[j].0 == g);
                            assert(j < cleared.len());
                            if has_prefix(s0.prefixes, guild) {
                                let i0 = db::prefix_idx(s0.prefixes, guild);
                                let j2 = if j < i0 {
                                    j
                                } else {
                                    j + 1
                                };
                                assert(cleared[j] == s0.prefixes[j2]);
                                assert(has_prefix(s0.prefixes, g)) by {
                                    assert(s0.prefixes[j2].0 == g);
                                }
                            } else {
                                assert(has_prefix(s0.prefixes, g)) by {
                                    assert(s0.prefixes[j].0 == g);
                                }
                            }
                        }
                    }
                }
                assert forall|g: u64| #[trigger]
                    nc.contains_key(g) implies nc[g]@ == prefix_of(ns.prefixes, g) by {
                    if g == guild {
                        assert(prefix_of(ns.prefixes, g) == pfx@);
                    } else {
                        // the guild's unique old row survives at a (possibly
                        // shifted) index, with the same value
                        let j = db::prefix_idx(s0.prefixes, g);
                        assert(c0.contains_key(g));
                        assert(s0.prefixes[j].0 == g);
                        if has_prefix(s0.prefixes, guild) {
                            let i0 = db::prefix_idx(s0.prefixes, guild);
                            let j2 = if j < i0 {
                                j
                            } else {
                                j - 1
                            };
                            assert(cleared[j2] == s0.prefixes[j]);
                            assert(ns.prefixes[j2] == s0.prefixes[j]);
                            db::lemma_prefix_idx_unique(ns.prefixes, g, j2);
                        } else {
                            assert(ns.prefixes[j] == s0.prefixes[j]);
                            db::lemma_prefix_idx_unique(ns.prefixes, g, j);
                        }
                        db::lemma_prefix_idx_unique(s0.prefixes, g, j);
                    }
                }
            }
        }
        Ok(())
    }

    /// The `prefix clear` flow: deletes the store row; if no row existed,
    /// reports `NotFound` ("nothing to clear") without touching the cache,
    /// otherwise evicts the cache entry.
    ///
    /// Afterwards the cache resolves `guild` to the default, resolves every
    /// other guild as before, and the write-through invariant is preserved.
    pub fn clear(&mut self, conn: &mut ZweiDbConn, guild: u64) -> (r: Result<(), ZweiErr>)
        requires
            old(conn).inv(),
            write_through(old(self)@, old(conn)@),
        ensures
            final(conn).inv(),
            final(conn)@ == spec_remove_prefix(old(conn)@, guild).0,
            r == Ok::<(), ZweiErr>(()) <==> has_prefix(old(conn)@.prefixes, guild),
            r is Err ==> r == Err::<(), ZweiErr>(ZweiErr::NotFound) && final(self)@ == old(self)@,
            resolve_spec(final(self)@, guild) == spec_default_prefix(),
            forall|g: u64| g != guild ==> resolve_spec(final(self)@, g) == resolve_spec(
                old(self)@,
                g,
            ),
            write_through(final(self)@, final(conn)@),
    {
        let ghost s0 = old(conn)@;
        let ghost c0 = old(self)@;
        let rows = db::remove_prefix(conn, guild);
        if rows == 0 {
            assert(!has_prefix(s0.prefixes, guild));
            assert(!c0.contains_key(guild));
            return Err(ZweiErr::NotFound);
        }
        self.evict(guild);
        proof {
            let ns = conn@;
            let nc = self@;
            let i0 = db::prefix_idx(s0.prefixes, guild);
            assert(ns.prefixes == s0.prefixes.remove(i0));
            assert forall|g: u64|
                #![trigger nc.contains_key(g)]
                #![trigger has_prefix(ns.prefixes, g)]
                nc.contains_key(g) <==> has_prefix(ns.prefixes, g) by {
                if g != guild {
                    if c0.contains_key(g) {
                        let j = db::prefix_idx(s0.prefixes, g);
                        assert(s0.prefixes[j].0 == g);
                        let j2 = if j < i0 {
                            j
                        } else {
                            j - 1
                        };
                        assert(ns.prefixes[j2] == s0.prefixes[j]);
                        assert(has_prefix(ns.prefixes, g)) by {
                            assert(ns.prefixes[j2].0 == g);
                        }
                    }
                    if has_prefix(ns.prefixes, g) {
                        let j = db::prefix_idx(ns.prefixes, g);
                        assert(ns.prefixes[j].0 == g);
                        let j2 = if j < i0 {
                            j
                        } else {
                            j + 1
                        };
                        assert(ns.prefixes[j] == s0.prefixes[j2]);
                        assert(has_prefix(s0.prefixes, g)) by {
                            assert(s0.prefixes[j2].0 == g);
                        }
                    }
                } else {
                    if has_prefix(ns.prefixes, g) {
                        let j = db::prefix_idx(ns.prefixes, g);
                        assert(ns.prefixes[j].0 == g);
                        let j2 = if j < i0 {
                            j
                        } else {
                            j + 1
                        };
                        assert(s0.prefixes[j2].0 == guild);
                        assert(j2 != i0);
                        assert(s0.prefixes[i0].0 == guild);
                        assert(false);
                    }
                }
            }
            assert forall|g: u64| #[trigger]
                nc.contains_key(g) implies nc[g]@ == prefix_of(ns.prefixes, g) by {
                let j = db::prefix_idx(s0.prefixes, g);
                assert(c0.contains_key(g));
                assert(s0.prefixes[j].0 == g);
                let j2 = if j < i0 {
                    j
                } else {
                    j - 1
                };
                assert(ns.prefixes[j2] == s0.prefixes[j]);
                db::lemma_prefix_idx_unique(ns.prefixes, g, j2);
                db::lemma_prefix_idx_unique(s0.prefixes, g, j);
            }
        }
        Ok(())
    }
}

/// The effective prefix for a message in `guild`: the cached custom prefix
/// if one is set, the default `;` otherwise.
pub fn get_prefix(cache: &ZweiPrefixes, guild: u64) -> (r: String)
    ensures
        r@ == resolve_spec(cache@, guild),
{
    cache.resolve(guild)
}

/// Law (cache initialization): bulk-loading the rows that
/// [`db::get_all_prefixes`] promises — exactly the store's guilds, with
/// exactly their prefixes — establishes the write-through invariant, which
/// [`ZweiPrefixes::set`] and [`ZweiPrefixes::clear`] then preserve.
pub proof fn lemma_load_establishes_write_through(m: Map<u64, String>, s: DbView)
    requires
        forall|g: u64|
            #![trigger m.contains_key(g)]
            #![trigger has_prefix(s.prefixes, g)]
            m.contains_key(g) <==> has_prefix(s.prefixes, g),
        forall|g: u64| #[trigger] m.contains_key(g) ==> m[g]@ == prefix_of(s.prefixes, g),
    ensures
        write_through(m, s),
{
}

/// Law (round trip through the cache): after caching `p` for a guild, the
/// guild resolves to `p`; after evicting it, the guild resolves to the
/// default.
pub proof fn lemma_prefix_round_trip(m: Map<u64, String>, guild: u64, p: String)
    ensures
        resolve_spec(m.insert(guild, p), guild) == p@,
        resolve_spec(m.remove(guild), guild) == spec_default_prefix(),
{
}

} // verus!
