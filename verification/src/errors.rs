use vstd::prelude::*;

verus! {

/// Typed failure of the store, the tag registry, the subscription index or
/// the fan-out engine.
///
/// Every terminal state the bot can report is a distinct variant; batch
/// operations collect these per item instead of aborting, while
/// whole-operation failures (`StoreUnavailable`) abort immediately.
/// `CacheInconsistent` is defensive: the verified write-through operations
/// never produce it, but the unverified shell around the crate may.
#[derive(Clone, Copy, Debug, PartialEq, Eq, Structural)]
pub enum ZweiErr {
    /// A tag (or subscription pair) with this identity already exists.
    AlreadyExists,
    /// The named tag does not exist in this guild.
    NotFound,
    /// A request carried no tag names at all.
    EmptyInput,
    /// The raw tag list of a ping exceeded the configured character limit.
    InputTooLarge,
    /// None of the requested tag names exist in this guild.
    NoMatchingTags,
    /// At least one requested tag exists, but no user subscribes to any.
    NoSubscribers,
    /// The store cannot make progress (for example, tag ids are exhausted).
    StoreUnavailable,
    /// The prefix cache disagrees with the store; unreachable through the
    /// verified write-through operations.
    CacheInconsistent,
}

impl ZweiErr {
    /// The text of each terminal state, for the shell to render.
    pub open spec fn spec_message(self) -> Seq<char> {
        match self {
            ZweiErr::AlreadyExists => "already registered"@,
            ZweiErr::NotFound => "not found in this server"@,
            ZweiErr::EmptyInput => "no tags were supplied"@,
            ZweiErr::InputTooLarge => "the tag list is too long"@,
            ZweiErr::NoMatchingTags => "no matching tags found"@,
            ZweiErr::NoSubscribers => "no users subscribed"@,
            ZweiErr::StoreUnavailable => "the store is unavailable"@,
            ZweiErr::CacheInconsistent => "the prefix cache is inconsistent"@,
        }
    }

    /// Short description of the failure, one distinct text per variant.
    pub fn message(&self) -> (r: &'static str)
        ensures
            r@ == self.spec_message(),
    {
        match self {
            ZweiErr::AlreadyExists => "already registered",
            ZweiErr::NotFound => "not found in this server",
            ZweiErr::EmptyInput => "no tags were supplied",
            ZweiErr::InputTooLarge => "the tag list is too long",
            ZweiErr::NoMatchingTags => "no matching tags found",
            ZweiErr::NoSubscribers => "no users subscribed",
            ZweiErr::StoreUnavailable => "the store is unavailable",
            ZweiErr::CacheInconsistent => "the prefix cache is inconsistent",
        }
    }
}

} // verus!
