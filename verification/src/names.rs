//! Lists of names kept in strictly increasing order, so that each name
//! stands in them at most once.

use vstd::prelude::*;
use crate::text::{
    chars_eq, chars_lt, chars_of, lemma_lex_lt_total, lemma_lex_lt_transitive, lex_lt, texts,
};

verus! {

/// Each name comes strictly before all that follow it.
pub open spec fn increasing(names: Seq<Seq<char>>) -> bool {
    forall|i: int, j: int| 0 <= i < j < names.len() ==> lex_lt(names[i], names[j])
}

/// The number of leading names that come before `name`.
pub open spec fn place(names: Seq<Seq<char>>, name: Seq<char>) -> nat
    decreases names.len(),
{
    if names.len() == 0 || !lex_lt(names[0], name) {
        0
    } else {
        1 + place(names.drop_first(), name)
    }
}

/// `name` stands in the list, at the place its order gives it.
pub open spec fn has_name(names: Seq<Seq<char>>, name: Seq<char>) -> bool {
    let at = place(names, name) as int;
    at < names.len() && names[at] == name
}

/// The list with `name` put at its place, unless it stands there already.
pub open spec fn with_name(names: Seq<Seq<char>>, name: Seq<char>) -> Seq<Seq<char>> {
    let at = place(names, name) as int;
    if has_name(names, name) {
        names
    } else {
        names.take(at).push(name) + names.skip(at)
    }
}

/// What `place` counts: every name before it is smaller, the one at it is not.
pub proof fn lemma_place(names: Seq<Seq<char>>, name: Seq<char>)
    ensures
        place(names, name) <= names.len(),
        forall|k: int| 0 <= k < place(names, name) ==> lex_lt(#[trigger] names[k], name),
        place(names, name) < names.len() ==> !lex_lt(names[place(names, name) as int], name),
    decreases names.len(),
{
    if names.len() == 0 || !lex_lt(names[0], name) {
    } else {
        let rest = names.drop_first();
        lemma_place(rest, name);
        assert forall|k: int| 0 <= k < place(names, name) implies lex_lt(
            #[trigger] names[k],
            name,
        ) by {
            if k > 0 {
                assert(names[k] == rest[k - 1]);
            }
        }
        if place(names, name) < names.len() {
            assert(names[place(names, name) as int] == rest[place(rest, name) as int]);
        }
    }
}

/// `place` is the only index with every smaller name before it and none at it.
pub proof fn lemma_place_is(names: Seq<Seq<char>>, name: Seq<char>, at: int)
    requires
        0 <= at <= names.len(),
        forall|k: int| 0 <= k < at ==> lex_lt(#[trigger] names[k], name),
        at < names.len() ==> !lex_lt(names[at], name),
    ensures
        place(names, name) == at,
    decreases at,
{
    if at > 0 {
        let rest = names.drop_first();
        assert(lex_lt(names[0], name));
        assert forall|k: int| 0 <= k < at - 1 implies lex_lt(#[trigger] rest[k], name) by {
            assert(rest[k] == names[k + 1]);
        }
        if at - 1 < rest.len() {
            assert(rest[at - 1] == names[at]);
        }
        lemma_place_is(rest, name, at - 1);
    }
}

/// Putting a name into an increasing list at its place keeps the list increasing.
pub proof fn lemma_insert_increasing(names: Seq<Seq<char>>, name: Seq<char>)
    requires
        increasing(names),
        !has_name(names, name),
    ensures
        increasing(names.take(place(names, name) as int).push(name) + names.skip(
            place(names, name) as int,
        )),
{
    let at = place(names, name) as int;
    lemma_place(names, name);
    let after = names.take(at).push(name) + names.skip(at);
    assert forall|j: int| at <= j < names.len() implies lex_lt(name, #[trigger] names[j]) by {
        lemma_lex_lt_total(names[at], name);
        if j > at {
            assert(lex_lt(names[at], names[j]));
            lemma_lex_lt_transitive(name, names[at], names[j]);
        }
    }
    assert forall|i: int, j: int| 0 <= i < j < after.len() implies lex_lt(after[i], after[j]) by {
        if j < at {
            assert(after[i] == names[i] && after[j] == names[j]);
        } else if j == at {
            assert(after[i] == names[i] && after[j] == name);
        } else if i < at {
            assert(after[i] == names[i] && after[j] == names[j - 1]);
            assert(lex_lt(names[i], names[j - 1]));
        } else if i == at {
            assert(after[i] == name && after[j] == names[j - 1]);
        } else {
            assert(after[i] == names[i - 1] && after[j] == names[j - 1]);
            assert(lex_lt(names[i - 1], names[j - 1]));
        }
    }
}

/// Putting a name into an increasing list keeps the list increasing.
pub proof fn lemma_with_name_increasing(names: Seq<Seq<char>>, name: Seq<char>)
    requires
        increasing(names),
    ensures
        increasing(with_name(names, name)),
{
    if !has_name(names, name) {
        lemma_insert_increasing(names, name);
    }
}

/// Something that is kept in order under a name.
pub trait Keyed {
    /// The name under which the item is kept.
    spec fn key_of(&self) -> Seq<char>;

    /// The name under which the item is kept.
    fn key(&self) -> (key: &String)
        ensures
            key@ == self.key_of(),
    ;
}

impl Keyed for String {
    open spec fn key_of(&self) -> Seq<char> {
        self@
    }

    fn key(&self) -> (key: &String) {
        self
    }
}

/// The names under which `items` are kept, in their order.
pub open spec fn keys<T: Keyed>(items: Seq<T>) -> Seq<Seq<char>> {
    items.map_values(|item: T| item.key_of())
}

/// The place of `name` among the names of `items`.
pub fn find_place<T: Keyed>(items: &Vec<T>, name: &Vec<char>) -> (at: usize)
    ensures
        at == place(keys(items@), name@),
        at <= items.len(),
{
    let mut at: usize = 0;
    while at < items.len()
        invariant
            at <= items.len(),
            forall|k: int| 0 <= k < at ==> lex_lt(#[trigger] keys(items@)[k], name@),
        decreases items.len() - at,
    {
        let here = chars_of(items[at].key().as_str());
        assert(keys(items@)[at as int] == items@[at as int].key_of());
        if !chars_lt(&here, name) {
            proof {
                lemma_place_is(keys(items@), name@, at as int);
            }
            return at;
        }
        at += 1;
    }
    proof {
        lemma_place_is(keys(items@), name@, at as int);
    }
    at
}

/// A set of names, kept in increasing order.
pub struct NameSet {
    names: Vec<String>,
}

impl View for NameSet {
    type V = Seq<Seq<char>>;

    closed spec fn view(&self) -> Seq<Seq<char>> {
        texts(self.names@)
    }
}

impl NameSet {
    /// The names are strictly increasing.
    #[verifier::type_invariant]
    pub open spec fn inv(self) -> bool {
        increasing(self@)
    }

    /// The empty set.
    pub fn new() -> (set: NameSet)
        ensures
            set@ == Seq::<Seq<char>>::empty(),
    {
        let set = NameSet { names: Vec::new() };
        proof {
            assert(set@ =~= Seq::<Seq<char>>::empty());
        }
        set
    }

    /// Puts `name` into the set, unless it is there already.
    pub fn insert(&mut self, name: &str)
        ensures
            final(self)@ == with_name(old(self)@, name@),
    {
        proof {
            use_type_invariant(&*self);
            lemma_with_name_increasing(self@, name@);
        }
        // The names are taken out, changed and put back: in between the
        // set is empty, which is in order.
        let mut names: Vec<String> = Vec::new();
        core::mem::swap(&mut self.names, &mut names);
        proof {
            assert(texts(self.names@) =~= Seq::<Seq<char>>::empty());
        }
        let wanted = chars_of(name);
        let at = find_place(&names, &wanted);
        proof {
            assert(keys(names@) =~= texts(names@));
        }
        let ghost before = names@;
        let mut present = false;
        if at < names.len() {
            let there = chars_of(names[at].as_str());
            assert(texts(names@)[at as int] == names@[at as int]@);
            present = chars_eq(&there, &wanted);
        }
        if !present {
            names.insert(at, String::from_str(name));
            proof {
                assert(texts(names@) =~= texts(before).take(at as int).push(name@) + texts(
                    before,
                ).skip(at as int));
            }
        }
        self.names = names;
    }

    /// The names, in increasing order.
    pub fn names(&self) -> (names: &Vec<String>)
        ensures
            texts(names@) == self@,
            increasing(self@),
    {
        proof {
            use_type_invariant(self);
        }
        &self.names
    }

    /// Whether the set holds no name.
    pub fn is_empty(&self) -> (r: bool)
        ensures
            r == (self@.len() == 0),
    {
        self.names.len() == 0
    }
}

} // verus!
