//! The set of selected file paths.

use vstd::prelude::*;
use crate::text::{chars_eq, chars_of, texts};

verus! {

/// The set with `path` taken out if it was in, and put in if it was not.
pub open spec fn toggled(selection: Set<Seq<char>>, path: Seq<char>) -> Set<Seq<char>> {
    if selection.contains(path) {
        selection.remove(path)
    } else {
        selection.insert(path)
    }
}

/// Toggling the same path twice gives the set back.
pub proof fn lemma_toggle_twice(selection: Set<Seq<char>>, path: Seq<char>)
    ensures
        toggled(toggled(selection, path), path) == selection,
{
    assert(toggled(toggled(selection, path), path) =~= selection);
}

/// Toggling a path flips its membership and nothing else, so the number of
/// selected paths changes by exactly one.
pub proof fn lemma_toggle_once(selection: Set<Seq<char>>, path: Seq<char>)
    ensures
        toggled(selection, path).contains(path) != selection.contains(path),
        forall|other: Seq<char>|
            other != path ==> toggled(selection, path).contains(other) == selection.contains(other),
        selection.finite() ==> toggled(selection, path).finite(),
        selection.finite() && selection.contains(path) ==> toggled(selection, path).len()
            == selection.len() - 1,
        selection.finite() && !selection.contains(path) ==> toggled(selection, path).len()
            == selection.len() + 1,
{
}

/// A set of paths. It holds each path at most once.
pub struct Selection {
    paths: Vec<String>,
}

impl View for Selection {
    type V = Set<Seq<char>>;

    closed spec fn view(&self) -> Set<Seq<char>> {
        texts(self.paths@).to_set()
    }
}

proof fn lemma_texts_push(v: Seq<String>, s: String)
    ensures
        texts(v.push(s)) == texts(v).push(s@),
{
    assert(texts(v.push(s)) =~= texts(v).push(s@));
}

proof fn lemma_texts_remove(v: Seq<String>, i: int)
    requires
        0 <= i < v.len(),
    ensures
        texts(v.remove(i)) == texts(v).remove(i),
{
    assert(texts(v.remove(i)) =~= texts(v).remove(i));
}

proof fn lemma_remove_to_set(s: Seq<Seq<char>>, i: int)
    requires
        s.no_duplicates(),
        0 <= i < s.len(),
    ensures
        s.remove(i).no_duplicates(),
        s.remove(i).to_set() == s.to_set().remove(s[i]),
{
    let t = s.remove(i);
    assert forall|a: int, b: int| 0 <= a < t.len() && 0 <= b < t.len() && a != b implies t[a]
        != t[b] by {
        let a0 = if a < i {
            a
        } else {
            a + 1
        };
        let b0 = if b < i {
            b
        } else {
            b + 1
        };
        assert(t[a] == s[a0] && t[b] == s[b0]);
    }
    assert forall|x: Seq<char>| t.to_set().contains(x) == s.to_set().remove(s[i]).contains(
        x,
    ) by {
        if t.contains(x) {
            let k = choose|k: int| 0 <= k < t.len() && t[k] == x;
            let k0 = if k < i {
                k
            } else {
                k + 1
            };
            assert(s[k0] == x);
        }
        if s.contains(x) && x != s[i] {
            let k = choose|k: int| 0 <= k < s.len() && s[k] == x;
            let k1 = if k < i {
                k
            } else {
                k - 1
            };
            assert(t[k1] == x);
        }
    }
    assert(t.to_set() =~= s.to_set().remove(s[i]));
}

/// Where `path` stands in `paths`, if it is there.
fn position_of(paths: &Vec<String>, path: &str) -> (found: Option<usize>)
    ensures
        match found {
            Some(i) => i < paths.len() && paths@[i as int]@ == path@,
            None => !texts(paths@).contains(path@),
        },
{
    let wanted = chars_of(path);
    let mut i: usize = 0;
    while i < paths.len()
        invariant
            i <= paths.len(),
            wanted@ == path@,
            forall|k: int| 0 <= k < i ==> (#[trigger] texts(paths@)[k]) != path@,
        decreases paths.len() - i,
    {
        let here = chars_of(paths[i].as_str());
        if chars_eq(&here, &wanted) {
            return Some(i);
        }
        i += 1;
    }
    None
}

impl Selection {
    #[verifier::type_invariant]
    spec fn inv(self) -> bool {
        texts(self.paths@).no_duplicates()
    }

    /// The empty selection.
    pub fn new() -> (selection: Selection)
        ensures
            selection@ == Set::<Seq<char>>::empty(),
    {
        let selection = Selection { paths: Vec::new() };
        proof {
            assert(texts(selection.paths@) =~= Seq::<Seq<char>>::empty());
            assert(selection@ =~= Set::<Seq<char>>::empty());
        }
        selection
    }

    /// Whether `path` is selected.
    pub fn contains(&self, path: &str) -> (r: bool)
        ensures
            r == self@.contains(path@),
    {
        match position_of(&self.paths, path) {
            Some(i) => {
                assert(texts(self.paths@)[i as int] == path@);
                true
            },
            None => false,
        }
    }

    /// Selects `path` if it was not selected, and takes it out if it was.
    pub fn toggle(&mut self, path: &str)
        ensures
            final(self)@ == toggled(old(self)@, path@),
    {
        proof {
            use_type_invariant(&*self);
        }
        // The paths are taken out, changed and put back: in between the
        // selection is empty, which holds no path twice.
        let mut paths: Vec<String> = Vec::new();
        core::mem::swap(&mut self.paths, &mut paths);
        let ghost before = paths@;
        match position_of(&paths, path) {
            Some(i) => {
                paths.remove(i);
                proof {
                    assert(texts(before)[i as int] == path@);
                    lemma_texts_remove(before, i as int);
                    lemma_remove_to_set(texts(before), i as int);
                }
            },
            None => {
                let owned = String::from_str(path);
                paths.push(owned);
                proof {
                    lemma_texts_push(before, owned);
                    texts(before).lemma_push_to_set_commute(path@);
                    assert forall|a: int, b: int|
                        0 <= a < texts(paths@).len() && 0 <= b < texts(paths@).len() && a
                            != b implies texts(paths@)[a] != texts(paths@)[b] by {
                        if a < before.len() {
                            assert(texts(before)[a] == texts(paths@)[a]);
                        }
                        if b < before.len() {
                            assert(texts(before)[b] == texts(paths@)[b]);
                        }
                    }
                }
            },
        }
        self.paths = paths;
    }

    /// The number of selected paths.
    pub fn len(&self) -> (n: usize)
        ensures
            self@.finite(),
            n == self@.len(),
    {
        proof {
            use_type_invariant(self);
            texts(self.paths@).unique_seq_to_set();
            vstd::seq_lib::seq_to_set_is_finite(texts(self.paths@));
        }
        self.paths.len()
    }

    /// Whether nothing is selected.
    pub fn is_empty(&self) -> (r: bool)
        ensures
            r == (self@ == Set::<Seq<char>>::empty()),
    {
        proof {
            if self.paths@.len() > 0 {
                assert(texts(self.paths@)[0] == self.paths@[0]@);
                assert(self@.contains(self.paths@[0]@));
            } else {
                assert(self@ =~= Set::<Seq<char>>::empty());
            }
        }
        self.paths.len() == 0
    }

    /// The selected paths, each once, in no particular order.
    pub fn paths(&self) -> (out: Vec<String>)
        ensures
            texts(out@).to_set() == self@,
            texts(out@).no_duplicates(),
    {
        proof {
            use_type_invariant(self);
        }
        let mut out: Vec<String> = Vec::new();
        let mut i: usize = 0;
        while i < self.paths.len()
            invariant
                i <= self.paths.len(),
                texts(out@) == texts(self.paths@).take(i as int),
            decreases self.paths.len() - i,
        {
            let ghost before = out@;
            out.push(self.paths[i].clone());
            proof {
                lemma_texts_push(before, out@.last());
                assert(texts(self.paths@).take(i + 1) =~= texts(self.paths@).take(i as int).push(
                    self.paths@[i as int]@,
                ));
            }
            i += 1;
        }
        proof {
            assert(texts(self.paths@).take(self.paths@.len() as int) =~= texts(self.paths@));
        }
        out
    }
}

} // verus!
