//! The formats that are available, by name.
use vstd::prelude::*;

verus! {

/// What reads a format.
pub trait ReadHandler {}

/// What writes a format.
pub trait WriteHandler {}

/// A format known to a registry.
pub struct FormatEntry {
    name: String,
}

impl View for FormatEntry {
    type V = Seq<char>;

    closed spec fn view(&self) -> Seq<char> {
        self.name@
    }
}

impl FormatEntry {
    pub fn new(name: String) -> (r: FormatEntry)
        ensures
            r@ == name@,
    {
        FormatEntry { name }
    }

    /// The name of the format.
    pub fn name(&self) -> (r: &str)
        ensures
            r@ == self@,
    {
        self.name.as_str()
    }
}

/// A set of available formats, in the order they were registered.
pub struct FormatRegistry {
    formats: Vec<FormatEntry>,
}

impl View for FormatRegistry {
    type V = Seq<Seq<char>>;

    closed spec fn view(&self) -> Seq<Seq<char>> {
        self.formats@.map_values(|e: FormatEntry| e@)
    }
}

impl FormatRegistry {
    /// A registry without formats.
    pub fn empty() -> (r: FormatRegistry)
        ensures
            r@ == Seq::<Seq<char>>::empty(),
    {
        let r = FormatRegistry { formats: Vec::new() };
        assert(r@ =~= Seq::<Seq<char>>::empty());
        r
    }

    pub fn formats(&self) -> (r: &[FormatEntry])
        ensures
            r@.map_values(|e: FormatEntry| e@) == self@,
    {
        self.formats.as_slice()
    }

    /// Adds `entry` after the formats already registered.
    pub fn register(&mut self, entry: FormatEntry)
        ensures
            final(self)@ == old(self)@.push(entry@),
    {
        let ghost before = self@;
        let ghost e = entry@;
        self.formats.push(entry);
        assert(self@ =~= before.push(e));
    }
}

/// A registry of the formats of this crate: MEDIT and PLY.
pub fn default_registry() -> (r: FormatRegistry)
    ensures
        r@ == seq!["medit"@, "ply"@],
{
    let mut r = FormatRegistry::empty();
    r.register(FormatEntry::new("medit".to_string()));
    r.register(FormatEntry::new("ply".to_string()));
    assert(r@ =~= seq!["medit"@, "ply"@]);
    r
}

} // verus!
