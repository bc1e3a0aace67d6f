//! Per-channel entity keys. A name is always lower-cased before it is
//! compared or stored, so lookups are case-insensitive.
//!
//! The fields are private on purpose: outside this crate a key can only be
//! built by [`Key::new`], which folds the name. Every key in existence —
//! and, since the row tables are keyed only through `Key` values, every
//! persisted name — is therefore in folded form.

use vstd::prelude::*;

verus! {

/// The lower-case form of `s`. The result depends on the characters of `s`
/// alone.
pub uninterp spec fn lower_of(s: Seq<char>) -> Seq<char>;

/// Relies on str::to_lowercase: the lower-case mapping of `s`.
#[verifier::external_body]
pub fn lowercase(s: &str) -> (r: String)
    ensures
        r@ == lower_of(s@),
{
    s.to_lowercase()
}

/// The key a channel and a raw (not yet lower-cased) name resolve to.
pub open spec fn key_view(channel: Seq<char>, name: Seq<char>) -> (Seq<char>, Seq<char>) {
    (channel, lower_of(name))
}

/// What identifies an entity: its channel, and its name in lower case.
#[derive(Debug)]
pub struct Key {
    channel: String,
    name: String,
}

impl View for Key {
    type V = (Seq<char>, Seq<char>);

    closed spec fn view(&self) -> (Seq<char>, Seq<char>) {
        (self.channel@, self.name@)
    }
}

impl Key {
    /// The key for `name` in `channel`; the name is lower-cased here.
    pub fn new(channel: &str, name: &str) -> (r: Key)
        ensures
            r@ == key_view(channel@, name@),
    {
        Key { channel: String::from_str(channel), name: lowercase(name) }
    }

    /// A key from parts that already came out of a key — the rows of a
    /// store — so the name is already folded and is taken as it stands.
    pub(crate) fn from_folded(channel: String, name: String) -> (r: Key)
        ensures
            r@ == (channel@, name@),
    {
        Key { channel, name }
    }

    /// The channel the key belongs to.
    pub fn channel(&self) -> (r: &str)
        ensures
            r@ == self@.0,
    {
        self.channel.as_str()
    }

    /// The folded name.
    pub fn name(&self) -> (r: &str)
        ensures
            r@ == self@.1,
    {
        self.name.as_str()
    }

    /// An independent copy of this key.
    pub fn duplicate(&self) -> (r: Key)
        ensures
            r@ == self@,
    {
        Key { channel: self.channel.clone(), name: self.name.clone() }
    }
}

impl PartialEq for Key {
    /// Two keys are equal when channel and lower-cased name agree.
    fn eq(&self, other: &Key) -> (r: bool) {
        self.channel == other.channel && self.name == other.name
    }
}

impl vstd::std_specs::cmp::PartialEqSpecImpl for Key {
    open spec fn obeys_eq_spec() -> bool {
        true
    }

    open spec fn eq_spec(&self, other: &Key) -> bool {
        self@ == other@
    }
}

} // verus!
