//! The bot's process configuration: the shape of the config record and the
//! default values for every field that has one. Reading and writing the
//! config file is I/O and lives outside the crate; it hands the parsed
//! fields in as plain values.

use std::collections::HashSet;
use vstd::prelude::*;
use vstd::string::*;

verus! {

/// The basic bot configuration.
///
/// `token` and `owners` have no usable default: every running instance has
/// its own. All other fields default through the `default_*` functions
/// below. `database` holds the database file name, resolved against the
/// data directory by the shell that owns the process.
pub struct Conf {
    /// The token used to authenticate to the chat platform.
    pub token: String,
    /// Users the bot considers owners.
    pub owners: HashSet<u64>,
    /// The database file to read.
    pub database: String,
    /// Database password, if relevant. Currently unused.
    pub db_pass: String,
    /// The color used for error messages, as six hex digits.
    pub err_color: String,
    /// The color used for success messages, as six hex digits.
    pub ok_color: String,
    /// The log level the logger is configured with.
    pub loglevel: String,
}

/// Default log level.
pub fn default_loglevel() -> (r: String)
    ensures
        r@ == "warn"@,
{
    String::from_str("warn")
}

/// Default error color.
pub fn default_err_color() -> (r: String)
    ensures
        r@ == "9A48C9"@,
{
    String::from_str("9A48C9")
}

/// Default success color.
pub fn default_ok_color() -> (r: String)
    ensures
        r@ == "B82748"@,
{
    String::from_str("B82748")
}

/// Default database file name, resolved against the data directory by the
/// shell.
pub fn default_db() -> (r: String)
    ensures
        r@ == "Zwei.sdb"@,
{
    String::from_str("Zwei.sdb")
}

impl Default for Conf {
    /// A configuration with empty credentials and every defaultable field
    /// at its default.
    fn default() -> (r: Conf)
        ensures
            r.token@ == Seq::<char>::empty(),
            r.owners@ == Set::<u64>::empty(),
            r.database@ == "Zwei.sdb"@,
            r.db_pass@ == Seq::<char>::empty(),
            r.err_color@ == "9A48C9"@,
            r.ok_color@ == "B82748"@,
            r.loglevel@ == "warn"@,
    {
        Conf {
            token: String::new(),
            owners: HashSet::new(),
            database: default_db(),
            db_pass: String::new(),
            err_color: default_err_color(),
            ok_color: default_ok_color(),
            loglevel: default_loglevel(),
        }
    }
}

/// `s` without a single leading `#`, if one is present.
pub open spec fn spec_strip_hex(s: Seq<char>) -> Seq<char> {
    if s.len() > 0 && s[0] == '#' {
        s.drop_first()
    } else {
        s
    }
}

/// Strips the leading `#` from a color value as written in the config file.
pub fn strip_hex(val: &str) -> (r: String)
    ensures
        r@ == spec_strip_hex(val@),
{
    let n = val.unicode_len();
    if n > 0 && val.get_char(0) == '#' {
        let rest = val.substring_char(1, n);
        assert(rest@ =~= val@.drop_first());
        rest.to_owned()
    } else {
        val.to_owned()
    }
}

} // verus!
