//! The language table the core consumes: a caller-supplied immutable
//! mapping from a language name to its display extension and color.
//! Extension derivation is total: an unknown language falls back to a
//! fixed default extension and reports a non-fatal miss.

use vstd::prelude::*;
use crate::text::string_from_chars;

verus! {

/// A terminal color, as plain red/green/blue components.
#[derive(Clone, Copy, Debug, PartialEq, Eq, Structural)]
pub struct Color {
    pub r: u8,
    pub g: u8,
    pub b: u8,
}

/// One row of the language table.
pub struct LanguageEntry {
    /// Normalized lowercase language name.
    pub name: String,
    /// Display extension used to key the highlighter.
    pub extension: String,
    /// Marker color for the language.
    pub color: Color,
}

/// The immutable language table, looked up by exact name; the first
/// matching row wins.
pub struct LanguageTable {
    pub entries: Vec<LanguageEntry>,
}

/// The fixed extension used when a language is not in the table.
pub open spec fn spec_default_extension() -> Seq<char> {
    seq!['t', 'x', 't']
}

impl LanguageTable {
    /// Whether some row of the table is named `name`.
    pub open spec fn spec_has(self, name: Seq<char>) -> bool {
        exists|k: int| 0 <= k < self.entries@.len() && (#[trigger] self.entries@[k]).name@ == name
    }

    /// The index of the first row named `name`.
    pub open spec fn spec_index_of(self, name: Seq<char>) -> int {
        choose|k: int|
            0 <= k < self.entries@.len() && (#[trigger] self.entries@[k]).name@ == name && forall|
                j: int,
            | 0 <= j < k ==> (#[trigger] self.entries@[j]).name@ != name
    }

    /// The extension the table derives for `name`: the first matching
    /// row's extension, or the fixed default on a miss.
    pub open spec fn spec_extension_of(self, name: Seq<char>) -> Seq<char> {
        if self.spec_has(name) {
            self.entries@[self.spec_index_of(name)].extension@
        } else {
            spec_default_extension()
        }
    }

    /// An empty table: every lookup misses.
    pub fn new() -> (r: LanguageTable)
        ensures
            r.entries@.len() == 0,
    {
        LanguageTable { entries: Vec::new() }
    }

    /// Appends one row to the table.
    pub fn add(&mut self, name: String, extension: String, color: Color)
        ensures
            final(self).entries@ == old(self).entries@.push(
                LanguageEntry { name, extension, color },
            ),
    {
        self.entries.push(LanguageEntry { name, extension, color });
    }

    /// Finds the first row named `name`, if any.
    fn find(&self, name: &str) -> (r: Option<usize>)
        ensures
            match r {
                Some(k) => 0 <= k < self.entries@.len() && self.entries@[k as int].name@ == name@
                    && k == self.spec_index_of(name@) && self.spec_has(name@),
                None => !self.spec_has(name@),
            },
    {
        let key: String = name.to_owned();
        let mut i: usize = 0;
        while i < self.entries.len()
            invariant
                i <= self.entries@.len(),
                key@ == name@,
                forall|j: int| 0 <= j < i ==> (#[trigger] self.entries@[j]).name@ != name@,
            decreases self.entries@.len() - i,
        {
            if self.entries[i].name == key {
                proof {
                    let k = i as int;
                    assert(0 <= k < self.entries@.len() && self.entries@[k].name@ == name@
                        && forall|j: int|
                        0 <= j < k ==> (#[trigger] self.entries@[j]).name@ != name@);
                }
                return Some(i);
            }
            i = i + 1;
        }
        None
    }

    /// Derives the extension for a language: the table's extension when
    /// the language is known, else the fixed default. Total; the flag
    /// reports a miss as a non-fatal diagnostic.
    pub fn get_extension(&self, name: &str) -> (r: (String, bool))
        ensures
            r.0@ == self.spec_extension_of(name@),
            r.1 == self.spec_has(name@),
    {
        match self.find(name) {
            Some(k) => (self.entries[k].extension.clone(), true),
            None => {
                let cs: Vec<char> = vec!['t', 'x', 't'];
                proof {
                    assert(cs@ =~= spec_default_extension());
                }
                (string_from_chars(&cs), false)
            },
        }
    }

    /// The marker color for a language, when the table knows it.
    pub fn get_color(&self, name: &str) -> (r: Option<Color>)
        ensures
            match r {
                Some(c) => self.spec_has(name@) && c == self.entries@[self.spec_index_of(
                    name@,
                )].color,
                None => !self.spec_has(name@),
            },
    {
        match self.find(name) {
            Some(k) => Some(self.entries[k].color),
            None => None,
        }
    }
}

} // verus!
