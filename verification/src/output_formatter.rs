//! The report on the selected files: their names grouped and indented, then
//! each file with its signatures and its contents.

use vstd::prelude::*;
use crate::file_system::FileInfo;
use crate::names::{
    find_place, has_name, increasing, keys, lemma_place, lemma_place_is,
    lemma_with_name_increasing, place, with_name, Keyed, NameSet,
};
use crate::paths::{
    all_names, parts_are_names, relative_components, relative_parts, relative_path,
    relative_text,
};
use crate::text::{chars_eq, chars_lt, chars_of, lemma_lex_lt_irreflexive, lex_lt, texts};

verus! {

/// The mathematical value of one entry of a [`Group`]: a key and the names
/// filed under it.
pub struct GroupEntryView {
    pub key: Seq<char>,
    pub inner: Seq<Seq<char>>,
}

/// The keys of a group, in its order.
pub open spec fn keys_of(group: Seq<GroupEntryView>) -> Seq<Seq<char>> {
    group.map_values(|e: GroupEntryView| e.key)
}

/// The group with an entry for `key`, which holds no names, put at the
/// key's place, unless the group has an entry for the key already.
pub open spec fn with_key(group: Seq<GroupEntryView>, key: Seq<char>) -> Seq<GroupEntryView> {
    let at = place(keys_of(group), key) as int;
    if has_name(keys_of(group), key) {
        group
    } else {
        group.take(at).push(GroupEntryView { key, inner: Seq::empty() }) + group.skip(at)
    }
}

/// The group with `name` filed under `key`.
pub open spec fn with_inner(group: Seq<GroupEntryView>, key: Seq<char>, name: Seq<char>) -> Seq<
    GroupEntryView,
> {
    let keyed = with_key(group, key);
    let at = place(keys_of(keyed), key) as int;
    keyed.update(at, GroupEntryView { key, inner: with_name(keyed[at].inner, name) })
}

/// The group after each of `names` was given an entry, one after the other.
pub open spec fn grouped(group: Seq<GroupEntryView>, names: Seq<Seq<char>>) -> Seq<GroupEntryView>
    decreases names.len(),
{
    if names.len() == 0 {
        group
    } else {
        with_key(grouped(group, names.drop_last()), names.last())
    }
}

/// Two spaces for each level of depth.
pub open spec fn indent(depth: nat) -> Seq<char>
    decreases depth,
{
    if depth == 0 {
        Seq::empty()
    } else {
        indent((depth - 1) as nat) + "  "@
    }
}

/// One indented line for each name.
pub open spec fn inner_text(names: Seq<Seq<char>>, depth: nat) -> Seq<char>
    decreases names.len(),
{
    if names.len() == 0 {
        Seq::empty()
    } else {
        inner_text(names.drop_last(), depth) + indent(depth) + names.last() + "\n"@
    }
}

/// An entry without names is one line; an entry with names is a line that
/// ends in a colon, followed by the names one level deeper.
pub open spec fn entry_text(entry: GroupEntryView, depth: nat) -> Seq<char> {
    if entry.inner.len() == 0 {
        indent(depth) + entry.key + "\n"@
    } else {
        indent(depth) + entry.key + ":\n"@ + inner_text(entry.inner, depth + 1)
    }
}

/// The entries of a group written out, in the group's order.
pub open spec fn group_text(group: Seq<GroupEntryView>, depth: nat) -> Seq<char>
    decreases group.len(),
{
    if group.len() == 0 {
        Seq::empty()
    } else {
        group_text(group.drop_last(), depth) + entry_text(group.last(), depth)
    }
}

/// The group that holds the parts of every one of `files`, each as seen from `base`.
pub open spec fn structure_of(base: Seq<char>, files: Seq<Seq<char>>) -> Seq<GroupEntryView>
    decreases files.len(),
{
    if files.len() == 0 {
        Seq::empty()
    } else {
        grouped(structure_of(base, files.drop_last()), relative_components(files.last(), base))
    }
}

/// One entry of a [`Group`].
pub struct GroupEntry {
    key: String,
    inner: NameSet,
}

impl View for GroupEntry {
    type V = GroupEntryView;

    closed spec fn view(&self) -> GroupEntryView {
        GroupEntryView { key: self.key@, inner: self.inner@ }
    }
}

/// The values of a list of entries.
pub open spec fn group_views(entries: Seq<GroupEntry>) -> Seq<GroupEntryView> {
    Seq::new(entries.len(), |i: int| entries[i]@)
}

/// Names filed under keys; the keys are kept in increasing order, and so
/// are the names under each key.
pub struct Group {
    entries: Vec<GroupEntry>,
}

impl View for Group {
    type V = Seq<GroupEntryView>;

    closed spec fn view(&self) -> Seq<GroupEntryView> {
        group_views(self.entries@)
    }
}

proof fn lemma_keys_with_key(group: Seq<GroupEntryView>, key: Seq<char>)
    ensures
        keys_of(with_key(group, key)) == with_name(keys_of(group), key),
{
    let at = place(keys_of(group), key) as int;
    lemma_place(keys_of(group), key);
    assert(keys_of(with_key(group, key)) =~= with_name(keys_of(group), key));
}

impl Keyed for GroupEntry {
    open spec fn key_of(&self) -> Seq<char> {
        self@.key
    }

    fn key(&self) -> (key: &String) {
        &self.key
    }
}

/// The place of `key` among the keys of `entries`.
fn find_key(entries: &Vec<GroupEntry>, key: &Vec<char>) -> (at: usize)
    ensures
        at == place(keys_of(group_views(entries@)), key@),
        at <= entries.len(),
{
    let at = find_place(entries, key);
    proof {
        assert(keys(entries@) =~= keys_of(group_views(entries@)));
    }
    at
}

impl Group {
    /// The keys are strictly increasing.
    #[verifier::type_invariant]
    pub open spec fn inv(self) -> bool {
        increasing(keys_of(self@))
    }

    /// The group without entries.
    pub fn new() -> (group: Group)
        ensures
            group@ == Seq::<GroupEntryView>::empty(),
    {
        let group = Group { entries: Vec::new() };
        proof {
            assert(group@ =~= Seq::<GroupEntryView>::empty());
        }
        group
    }

    /// Gives `key` an entry, which holds no names, unless it has one already.
    pub fn insert(&mut self, key: &str)
        ensures
            final(self)@ == with_key(old(self)@, key@),
    {
        proof {
            use_type_invariant(&*self);
            lemma_keys_with_key(self@, key@);
            lemma_with_name_increasing(keys_of(self@), key@);
        }
        // The entries are taken out, changed and put back: in between the
        // group is empty, which is in order.
        let mut entries: Vec<GroupEntry> = Vec::new();
        core::mem::swap(&mut self.entries, &mut entries);
        proof {
            assert(keys_of(group_views(self.entries@)) =~= Seq::<Seq<char>>::empty());
        }
        let wanted = chars_of(key);
        let at = find_key(&entries, &wanted);
        let ghost before = entries@;
        let mut present = false;
        if at < entries.len() {
            let there = chars_of(entries[at].key.as_str());
            assert(keys_of(group_views(entries@))[at as int] == entries@[at as int].key@);
            present = chars_eq(&there, &wanted);
        }
        if !present {
            let entry = GroupEntry { key: String::from_str(key), inner: NameSet::new() };
            entries.insert(at, entry);
            proof {
                assert(group_views(entries@) =~= group_views(before).take(at as int).push(
                    GroupEntryView { key: key@, inner: Seq::empty() },
                ) + group_views(before).skip(at as int));
            }
        }
        self.entries = entries;
    }

    /// Files `name` under `key`, giving the key an entry if it has none.
    pub fn insert_under(&mut self, key: &str, name: &str)
        ensures
            final(self)@ == with_inner(old(self)@, key@, name@),
    {
        proof {
            use_type_invariant(&*self);
        }
        self.insert(key);
        proof {
            use_type_invariant(&*self);
            lemma_place(keys_of(self@), key@);
            lemma_keys_with_key(old(self)@, key@);
        }
        let ghost keyed = self@;
        let mut entries: Vec<GroupEntry> = Vec::new();
        core::mem::swap(&mut self.entries, &mut entries);
        proof {
            assert(keys_of(group_views(self.entries@)) =~= Seq::<Seq<char>>::empty());
        }
        let wanted = chars_of(key);
        let at = find_key(&entries, &wanted);
        proof {
            lemma_has_after_with_key(old(self)@, key@);
            assert(keys_of(keyed)[at as int] == entries@[at as int].key@);
        }
        let mut entry = entries.remove(at);
        let ghost rest = entries@;
        entry.inner.insert(name);
        entries.insert(at, entry);
        proof {
            assert(group_views(entries@) =~= keyed.update(
                at as int,
                GroupEntryView { key: key@, inner: with_name(keyed[at as int].inner, name@) },
            ));
            assert(keys_of(group_views(entries@)) =~= keys_of(keyed));
        }
        self.entries = entries;
    }

    /// The number of entries.
    pub fn len(&self) -> (n: usize)
        ensures
            n == self@.len(),
    {
        self.entries.len()
    }

    /// The key of the entry at `index`.
    pub fn key_at(&self, index: usize) -> (key: &String)
        requires
            index < self@.len(),
        ensures
            key@ == self@[index as int].key,
    {
        &self.entries[index].key
    }

    /// The names filed under the entry at `index`.
    pub fn inner_at(&self, index: usize) -> (inner: &NameSet)
        requires
            index < self@.len(),
        ensures
            inner@ == self@[index as int].inner,
    {
        &self.entries[index].inner
    }
}

/// After `with_key` the key has an entry.
proof fn lemma_has_after_with_key(group: Seq<GroupEntryView>, key: Seq<char>)
    requires
        increasing(keys_of(group)),
    ensures
        has_name(keys_of(with_key(group, key)), key),
{
    let keys = keys_of(group);
    let at = place(keys, key) as int;
    lemma_place(keys, key);
    lemma_keys_with_key(group, key);
    if !has_name(keys, key) {
        let after = with_name(keys, key);
        assert(after[at] == key);
        lemma_lex_lt_irreflexive(key);
        assert forall|k: int| 0 <= k < at implies lex_lt(#[trigger] after[k], key) by {
            assert(after[k] == keys[k]);
        }
        lemma_place_is(after, key, at);
    }
}

/// The values of a list of paths with their signatures.
pub open spec fn signature_views(list: Seq<(String, Vec<String>)>) -> Seq<
    (Seq<char>, Seq<Seq<char>>),
> {
    list.map_values(|pair: (String, Vec<String>)| (pair.0@, texts(pair.1@)))
}

/// The values of a list of paths with their contents.
pub open spec fn content_views(list: Seq<(String, String)>) -> Seq<(Seq<char>, Seq<char>)> {
    list.map_values(|pair: (String, String)| (pair.0@, pair.1@))
}

/// The signatures of the first entry for `path`, if there is one.
pub open spec fn signatures_for(
    signatures: Seq<(Seq<char>, Seq<Seq<char>>)>,
    path: Seq<char>,
) -> Option<Seq<Seq<char>>>
    decreases signatures.len(),
{
    if signatures.len() == 0 {
        None
    } else if signatures[0].0 == path {
        Some(signatures[0].1)
    } else {
        signatures_for(signatures.drop_first(), path)
    }
}

/// One list item for each signature.
pub open spec fn signature_lines(signatures: Seq<Seq<char>>) -> Seq<char>
    decreases signatures.len(),
{
    if signatures.len() == 0 {
        Seq::empty()
    } else {
        signature_lines(signatures.drop_last()) + "- "@ + signatures.last() + "\n"@
    }
}

/// The part of the report on one file: a heading with its path as seen
/// from `base`, its signatures if any were handed in for it, and its contents.
pub open spec fn file_section(
    base: Seq<char>,
    signatures: Seq<(Seq<char>, Seq<Seq<char>>)>,
    path: Seq<char>,
    content: Seq<char>,
) -> Seq<char> {
    let heading = "# "@ + relative_text(path, base) + "\n"@;
    let listed = match signatures_for(signatures, path) {
        Some(found) => "## Signatures\n"@ + signature_lines(found) + "\n"@,
        None => Seq::empty(),
    };
    heading + listed + "## File contents\n"@ + "```\n"@ + content + "\n```\n\n"@
}

/// The parts of the report on the files, in their order.
pub open spec fn file_sections(
    base: Seq<char>,
    signatures: Seq<(Seq<char>, Seq<Seq<char>>)>,
    contents: Seq<(Seq<char>, Seq<char>)>,
) -> Seq<char>
    decreases contents.len(),
{
    if contents.len() == 0 {
        Seq::empty()
    } else {
        file_sections(base, signatures, contents.drop_last()) + file_section(
            base,
            signatures,
            contents.last().0,
            contents.last().1,
        )
    }
}

/// The whole report: the names of the selected files grouped, then one
/// part for each file that was read.
pub open spec fn report(
    base: Seq<char>,
    selected: Seq<Seq<char>>,
    signatures: Seq<(Seq<char>, Seq<Seq<char>>)>,
    contents: Seq<(Seq<char>, Seq<char>)>,
) -> Seq<char> {
    "# File Structure\n"@ + group_text(structure_of(base, selected), 0) + "\n"@ + file_sections(
        base,
        signatures,
        contents,
    )
}

/// A path can be filed in a group when, seen from `base`, it has at least
/// one component and each of its components names a file or a directory:
/// it is not `base` itself, does not start at the root or with a dot, and
/// holds no `..`.
pub open spec fn groupable(path: Seq<char>, base: Seq<char>) -> bool {
    all_names(relative_components(path, base))
}

/// Every one of `files` can be filed as seen from `base`.
pub open spec fn all_groupable(base: Seq<char>, files: Seq<Seq<char>>) -> bool {
    forall|i: int| 0 <= i < files.len() ==> groupable(#[trigger] files[i], base)
}

/// Whether `path` can be filed as seen from `base`.
pub fn can_group(path: &str, base: &str) -> (r: bool)
    ensures
        r == groupable(path@, base@),
{
    let parts = relative_parts(path, base);
    parts_are_names(&parts)
}

/// Whether every one of `selected_files` can be filed as seen from the
/// directory of `info`.
pub fn can_group_all(info: &FileInfo, selected_files: &Vec<String>) -> (r: bool)
    ensures
        r == all_groupable(info.path@, texts(selected_files@)),
{
    let mut i: usize = 0;
    while i < selected_files.len()
        invariant
            i <= selected_files.len(),
            forall|k: int|
                0 <= k < i ==> groupable(#[trigger] texts(selected_files@)[k], info.path@),
        decreases selected_files.len() - i,
    {
        assert(texts(selected_files@)[i as int] == selected_files@[i as int]@);
        if !can_group(selected_files[i].as_str(), info.path.as_str()) {
            return false;
        }
        i += 1;
    }
    true
}

/// Gives every component of `path` an entry in `group`, the first one
/// first. `path` is a relative path as the list of its components, each of
/// which names a file or a directory.
pub fn add_to_group(group: &mut Group, path: &Vec<String>)
    requires
        all_names(texts(path@)),
    ensures
        final(group)@ == grouped(old(group)@, texts(path@)),
{
    let mut i: usize = 0;
    proof {
        assert(texts(path@).take(0) =~= Seq::<Seq<char>>::empty());
    }
    while i < path.len()
        invariant
            i <= path.len(),
            group@ == grouped(old(group)@, texts(path@).take(i as int)),
        decreases path.len() - i,
    {
        proof {
            let upto = texts(path@).take(i + 1);
            assert(upto.drop_last() =~= texts(path@).take(i as int));
            assert(upto.last() == path@[i as int]@);
        }
        group.insert(path[i].as_str());
        i += 1;
    }
    proof {
        assert(texts(path@).take(path@.len() as int) =~= texts(path@));
    }
}

/// Two spaces for each level of depth.
pub fn indentation(depth: usize) -> (text: String)
    ensures
        text@ == indent(depth as nat),
{
    let mut text = String::new();
    let mut i: usize = 0;
    while i < depth
        invariant
            i <= depth,
            text@ == indent(i as nat),
        decreases depth - i,
    {
        text.append("  ");
        i += 1;
    }
    text
}

/// Writes the names of the innermost level, one indented line each.
pub fn format_group_inner(group: &NameSet, depth: usize) -> (text: String)
    ensures
        text@ == inner_text(group@, depth as nat),
{
    let names = group.names();
    let mut text = String::new();
    let mut i: usize = 0;
    proof {
        assert(texts(names@).take(0) =~= Seq::<Seq<char>>::empty());
    }
    while i < names.len()
        invariant
            i <= names.len(),
            text@ == inner_text(texts(names@).take(i as int), depth as nat),
        decreases names.len() - i,
    {
        proof {
            let upto = texts(names@).take(i + 1);
            assert(upto.drop_last() =~= texts(names@).take(i as int));
            assert(upto.last() == names@[i as int]@);
        }
        let lead = indentation(depth);
        text.append(lead.as_str());
        text.append(names[i].as_str());
        text.append("\n");
        i += 1;
    }
    proof {
        assert(texts(names@).take(names@.len() as int) =~= texts(names@));
    }
    text
}

/// Writes the entries of `group`, indented by `depth` levels: an entry
/// without names as one line, an entry with names as a heading with the
/// names below it.
pub fn format_group(group: &Group, depth: usize) -> (text: String)
    requires
        depth < usize::MAX,
    ensures
        text@ == group_text(group@, depth as nat),
{
    let mut text = String::new();
    let mut i: usize = 0;
    proof {
        assert(group@.take(0) =~= Seq::<GroupEntryView>::empty());
    }
    while i < group.len()
        invariant
            i <= group@.len(),
            depth < usize::MAX,
            text@ == group_text(group@.take(i as int), depth as nat),
        decreases group@.len() - i,
    {
        proof {
            let upto = group@.take(i + 1);
            assert(upto.drop_last() =~= group@.take(i as int));
            assert(upto.last() == group@[i as int]);
        }
        let lead = indentation(depth);
        let inner = group.inner_at(i);
        text.append(lead.as_str());
        text.append(group.key_at(i).as_str());
        if inner.is_empty() {
            text.append("\n");
        } else {
            text.append(":\n");
            let below = format_group_inner(inner, depth + 1);
            text.append(below.as_str());
        }
        i += 1;
    }
    proof {
        assert(group@.take(group@.len() as int) =~= group@);
    }
    text
}

/// Writes the names that occur in the paths of the selected files, each
/// path taken as seen from the directory of `info`. Every selected path
/// must be one that can be filed; `can_group_all` tells.
pub fn format_grouped_file_structure(info: &FileInfo, selected_files: &Vec<String>) -> (text:
    String)
    requires
        all_groupable(info.path@, texts(selected_files@)),
    ensures
        text@ == group_text(structure_of(info.path@, texts(selected_files@)), 0),
{
    let mut grouped = Group::new();
    let mut i: usize = 0;
    proof {
        assert(texts(selected_files@).take(0) =~= Seq::<Seq<char>>::empty());
    }
    while i < selected_files.len()
        invariant
            i <= selected_files.len(),
            all_groupable(info.path@, texts(selected_files@)),
            grouped@ == structure_of(info.path@, texts(selected_files@).take(i as int)),
        decreases selected_files.len() - i,
    {
        proof {
            let upto = texts(selected_files@).take(i + 1);
            assert(upto.drop_last() =~= texts(selected_files@).take(i as int));
            assert(upto.last() == selected_files@[i as int]@);
            assert(texts(selected_files@)[i as int] == selected_files@[i as int]@);
        }
        let parts = relative_parts(selected_files[i].as_str(), info.path.as_str());
        add_to_group(&mut grouped, &parts);
        i += 1;
    }
    proof {
        assert(texts(selected_files@).take(selected_files@.len() as int) =~= texts(
            selected_files@,
        ));
    }
    format_group(&grouped, 0)
}

/// The signatures of the first entry for `path`, if there is one.
fn find_signatures<'a>(signatures: &'a Vec<(String, Vec<String>)>, path: &str) -> (found: Option<
    &'a Vec<String>,
>)
    ensures
        match found {
            Some(list) => signatures_for(signature_views(signatures@), path@) == Some(
                texts(list@),
            ),
            None => signatures_for(signature_views(signatures@), path@) is None,
        },
{
    let wanted = chars_of(path);
    let ghost all = signature_views(signatures@);
    let mut i: usize = 0;
    proof {
        assert(all.skip(0) =~= all);
    }
    while i < signatures.len()
        invariant
            i <= signatures.len(),
            wanted@ == path@,
            all == signature_views(signatures@),
            signatures_for(all, path@) == signatures_for(all.skip(i as int), path@),
        decreases signatures.len() - i,
    {
        let here = chars_of(signatures[i].0.as_str());
        proof {
            assert(all.skip(i as int)[0] == all[i as int]);
            assert(all.skip(i as int).drop_first() =~= all.skip(i + 1));
        }
        if chars_eq(&here, &wanted) {
            return Some(&signatures[i].1);
        }
        i += 1;
    }
    None
}

/// Writes one list item for each signature.
fn format_signatures(signatures: &Vec<String>) -> (text: String)
    ensures
        text@ == signature_lines(texts(signatures@)),
{
    let mut text = String::new();
    let mut i: usize = 0;
    proof {
        assert(texts(signatures@).take(0) =~= Seq::<Seq<char>>::empty());
    }
    while i < signatures.len()
        invariant
            i <= signatures.len(),
            text@ == signature_lines(texts(signatures@).take(i as int)),
        decreases signatures.len() - i,
    {
        proof {
            let upto = texts(signatures@).take(i + 1);
            assert(upto.drop_last() =~= texts(signatures@).take(i as int));
            assert(upto.last() == signatures@[i as int]@);
        }
        text.append("- ");
        text.append(signatures[i].as_str());
        text.append("\n");
        i += 1;
    }
    proof {
        assert(texts(signatures@).take(signatures@.len() as int) =~= texts(signatures@));
    }
    text
}

/// Writes the part of the report on one file.
fn format_file(
    base: &str,
    signatures: &Vec<(String, Vec<String>)>,
    path: &str,
    content: &str,
) -> (text: String)
    ensures
        text@ == file_section(base@, signature_views(signatures@), path@, content@),
{
    let mut text = String::from_str("# ");
    let shown = relative_path(path, base);
    text.append(shown.as_str());
    text.append("\n");
    let ghost heading = text@;
    match find_signatures(signatures, path) {
        Some(found) => {
            let lines = format_signatures(found);
            text.append("## Signatures\n");
            text.append(lines.as_str());
            text.append("\n");
            proof {
                assert(text@ =~= heading + ("## Signatures\n"@ + signature_lines(texts(found@))
                    + "\n"@));
            }
        },
        None => {
            proof {
                assert(text@ =~= heading + Seq::<char>::empty());
            }
        },
    }
    text.append("## File contents\n");
    text.append("```\n");
    text.append(content);
    text.append("\n```\n\n");
    text
}

/// Writes the report that is shown in the editor: the names of the
/// selected files grouped, then each file that was read with its signatures
/// and its contents. Every selected path must be one that can be filed;
/// `can_group_all` tells.
pub fn format_output_for_neovim(
    file_structure: &FileInfo,
    selected_files: &Vec<String>,
    signatures: &Vec<(String, Vec<String>)>,
    contents: &Vec<(String, String)>,
) -> (output: String)
    requires
        all_groupable(file_structure.path@, texts(selected_files@)),
    ensures
        output@ == report(
            file_structure.path@,
            texts(selected_files@),
            signature_views(signatures@),
            content_views(contents@),
        ),
{
    let mut output = String::from_str("# File Structure\n");
    let structure = format_grouped_file_structure(file_structure, selected_files);
    output.append(structure.as_str());
    output.append("\n");
    let ghost head = output@;
    let ghost sigs = signature_views(signatures@);
    let ghost all = content_views(contents@);
    let mut i: usize = 0;
    proof {
        assert(all.take(0) =~= Seq::<(Seq<char>, Seq<char>)>::empty());
        assert(output@ =~= head + file_sections(file_structure.path@, sigs, all.take(0)));
    }
    while i < contents.len()
        invariant
            i <= contents.len(),
            sigs == signature_views(signatures@),
            all == content_views(contents@),
            output@ == head + file_sections(file_structure.path@, sigs, all.take(i as int)),
        decreases contents.len() - i,
    {
        proof {
            let upto = all.take(i + 1);
            assert(upto.drop_last() =~= all.take(i as int));
            assert(upto.last() == (contents@[i as int].0@, contents@[i as int].1@));
        }
        let section = format_file(
            file_structure.path.as_str(),
            signatures,
            contents[i].0.as_str(),
            contents[i].1.as_str(),
        );
        output.append(section.as_str());
        proof {
            assert(output@ =~= head + file_sections(file_structure.path@, sigs, all.take(i + 1)));
        }
        i += 1;
    }
    proof {
        assert(all.take(all.len() as int) =~= all);
    }
    output
}

} // verus!
