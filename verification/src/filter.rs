//! Which directory entries are let into the tree.

use vstd::prelude::*;
use crate::paths::{extension, extension_of};
use crate::text::{
    chars_contain, chars_eq, chars_of, chars_start_with, contains_run, has_prefix, texts,
};

verus! {

/// A name that begins with `.`.
pub open spec fn is_hidden(name: Seq<char>) -> bool {
    has_prefix(name, "."@)
}

/// Some pattern of `patterns` occurs in `text`.
pub open spec fn matches_any(text: Seq<char>, patterns: Seq<Seq<char>>) -> bool {
    exists|k: int| 0 <= k < patterns.len() && contains_run(text, #[trigger] patterns[k])
}

/// The mathematical value of a [`Filter`].
pub struct FilterView {
    pub extensions: Seq<Seq<char>>,
    pub ignore_patterns: Seq<Seq<char>>,
}

impl FilterView {
    /// Hidden entries, the dependency directory and every name in which an
    /// ignore pattern occurs are left out.
    pub open spec fn ignores(self, name: Seq<char>) -> bool {
        is_hidden(name) || name == "node_modules"@ || matches_any(name, self.ignore_patterns)
    }

    /// A file is a source file when the extension of its name is one of
    /// the admitted ones.
    pub open spec fn is_source_file(self, name: Seq<char>) -> bool {
        extension_of(name) matches Some(ext) && self.extensions.contains(ext)
    }

    /// Directories that are not ignored are let in, and so are source files
    /// that are not ignored.
    pub open spec fn admits(self, name: Seq<char>, is_dir: bool) -> bool {
        !self.ignores(name) && (is_dir || self.is_source_file(name))
    }
}

/// The admitted file extensions and the ignore patterns.
pub struct Filter {
    pub extensions: Vec<String>,
    pub ignore_patterns: Vec<String>,
}

impl View for Filter {
    type V = FilterView;

    open spec fn view(&self) -> FilterView {
        FilterView {
            extensions: texts(self.extensions@),
            ignore_patterns: texts(self.ignore_patterns@),
        }
    }
}

/// Whether `item` is one of `list`.
pub fn list_contains(list: &Vec<String>, item: &str) -> (r: bool)
    ensures
        r == texts(list@).contains(item@),
{
    let wanted = chars_of(item);
    let mut i: usize = 0;
    while i < list.len()
        invariant
            i <= list.len(),
            wanted@ == item@,
            forall|k: int| 0 <= k < i ==> (#[trigger] texts(list@)[k]) != item@,
        decreases list.len() - i,
    {
        let here = chars_of(list[i].as_str());
        if chars_eq(&here, &wanted) {
            assert(texts(list@)[i as int] == item@);
            return true;
        }
        i += 1;
    }
    false
}

/// Whether some pattern of `patterns` occurs in `text`.
pub fn any_pattern_occurs(text: &str, patterns: &Vec<String>) -> (r: bool)
    ensures
        r == matches_any(text@, texts(patterns@)),
{
    let hay = chars_of(text);
    let mut i: usize = 0;
    while i < patterns.len()
        invariant
            i <= patterns.len(),
            hay@ == text@,
            forall|k: int| 0 <= k < i ==> !contains_run(text@, #[trigger] texts(patterns@)[k]),
        decreases patterns.len() - i,
    {
        let needle = chars_of(patterns[i].as_str());
        if chars_contain(&hay, &needle) {
            assert(contains_run(text@, texts(patterns@)[i as int]));
            return true;
        }
        i += 1;
    }
    false
}

impl Filter {
    /// A filter with the given extensions and ignore patterns.
    pub fn new(extensions: Vec<String>, ignore_patterns: Vec<String>) -> (filter: Filter)
        ensures
            filter@.extensions == texts(extensions@),
            filter@.ignore_patterns == texts(ignore_patterns@),
    {
        Filter { extensions, ignore_patterns }
    }

    /// The filter for TypeScript sources: `.ts` and `.tsx` files, no extra
    /// ignore patterns.
    pub fn typescript() -> (filter: Filter)
        ensures
            filter@.extensions == seq!["ts"@, "tsx"@],
            filter@.ignore_patterns == Seq::<Seq<char>>::empty(),
    {
        let mut extensions: Vec<String> = Vec::new();
        extensions.push(String::from_str("ts"));
        extensions.push(String::from_str("tsx"));
        let filter = Filter { extensions, ignore_patterns: Vec::new() };
        proof {
            assert(filter@.extensions =~= seq!["ts"@, "tsx"@]);
            assert(filter@.ignore_patterns =~= Seq::<Seq<char>>::empty());
        }
        filter
    }

    /// Whether the entry called `name` is left out whatever its kind.
    pub fn ignores(&self, name: &str) -> (r: bool)
        ensures
            r == self@.ignores(name@),
    {
        let chars = chars_of(name);
        let dot = chars_of(".");
        if chars_start_with(&chars, &dot) {
            return true;
        }
        let fixed = chars_of("node_modules");
        if chars_eq(&chars, &fixed) {
            return true;
        }
        any_pattern_occurs(name, &self.ignore_patterns)
    }

    /// Whether the entry called `name` is let into the tree.
    pub fn admits(&self, name: &str, is_dir: bool) -> (r: bool)
        ensures
            r == self@.admits(name@, is_dir),
    {
        if self.ignores(name) {
            return false;
        }
        if is_dir {
            return true;
        }
        match extension(name) {
            Some(ext) => list_contains(&self.extensions, ext.as_str()),
            None => false,
        }
    }
}

} // verus!
