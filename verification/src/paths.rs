//! Paths as text, read the way the standard library reads them on a
//! system whose separator is `/`: parts, base names, extensions, and one
//! path as seen from another.

use vstd::prelude::*;
use crate::text::{
    chars_of, chars_start_with, has_prefix, lemma_pieces_nonempty, pieces, split, text_is, texts,
};

verus! {

/// A piece between separators that counts as a part of the path: it is
/// neither empty nor a single dot.
pub open spec fn is_plain(piece: Seq<char>) -> bool {
    piece.len() > 0 && piece != "."@
}

/// A path that starts at the root of the file system.
pub open spec fn is_absolute(path: Seq<char>) -> bool {
    has_prefix(path, "/"@)
}

/// A relative path whose first piece is a single dot.
pub open spec fn leads_with_dot(path: Seq<char>) -> bool {
    pieces(path, '/')[0] == "."@
}

/// What stands before the parts proper: `/` for a path that starts at the
/// root, `.` for a relative path that leads with a dot, nothing otherwise.
pub open spec fn head(path: Seq<char>) -> Seq<Seq<char>> {
    if is_absolute(path) {
        seq!["/"@]
    } else if leads_with_dot(path) {
        seq!["."@]
    } else {
        Seq::empty()
    }
}

/// The pieces of the path that count as parts, in their order. Empty
/// pieces and single dots are passed over; `..` is a part.
pub open spec fn body(path: Seq<char>) -> Seq<Seq<char>> {
    pieces(path, '/').filter(|piece: Seq<char>| is_plain(piece))
}

/// The components of a path: its head, then its parts. A single dot is a
/// component only where it leads a relative path.
pub open spec fn components(path: Seq<char>) -> Seq<Seq<char>> {
    head(path) + body(path)
}

/// A component that names a file or a directory: not empty, without a
/// separator in it, and neither `.` nor `..`.
pub open spec fn is_name(part: Seq<char>) -> bool {
    part.len() > 0 && !part.contains('/') && part != "."@ && part != ".."@
}

/// The base name of a path: its last component when that names a file or
/// a directory, and nothing when the path has no component or ends in the
/// root, in a leading dot or in `..`.
pub open spec fn file_name_of(path: Seq<char>) -> Seq<char> {
    let parts = components(path);
    if parts.len() > 0 && is_name(parts.last()) {
        parts.last()
    } else {
        Seq::empty()
    }
}

/// The path of the entry `name` inside the directory `parent`: the two
/// with one separator between them, unless `parent` is empty or ends in
/// one. `name` is the name of a directory entry, not a path of its own.
pub open spec fn child_path(parent: Seq<char>, name: Seq<char>) -> Seq<char> {
    if parent.len() == 0 {
        name
    } else if parent.last() == '/' {
        parent + name
    } else {
        parent + seq!['/'] + name
    }
}

/// The extension of a file name: what follows its last `.`, provided a `.`
/// occurs somewhere after the first character.
pub open spec fn name_extension(name: Seq<char>) -> Option<Seq<char>> {
    let parts = pieces(name, '.');
    if parts.len() < 2 || (parts.len() == 2 && parts[0].len() == 0) {
        None
    } else {
        Some(parts.last())
    }
}

/// The extension of a path: that of its base name.
pub open spec fn extension_of(path: Seq<char>) -> Option<Seq<char>> {
    name_extension(file_name_of(path))
}

/// `path` lies in `base` or is `base`: the components of `base` are the
/// first components of `path`.
pub open spec fn is_below(path: Seq<char>, base: Seq<char>) -> bool {
    &&& components(base).len() <= components(path).len()
    &&& components(path).take(components(base).len() as int) == components(base)
}

/// The components of `path` as seen from `base`: those that follow the
/// components of `base` when the path lies in it, all of them when it does not.
pub open spec fn relative_components(path: Seq<char>, base: Seq<char>) -> Seq<Seq<char>> {
    if is_below(path, base) {
        components(path).skip(components(base).len() as int)
    } else {
        components(path)
    }
}

/// Every one of `parts` names a file or a directory, and there is at least one.
pub open spec fn all_names(parts: Seq<Seq<char>>) -> bool {
    parts.len() > 0 && forall|i: int| 0 <= i < parts.len() ==> is_name(#[trigger] parts[i])
}

/// The parts put together again, with one `/` between neighbours.
pub open spec fn joined(parts: Seq<Seq<char>>) -> Seq<char>
    decreases parts.len(),
{
    if parts.len() == 0 {
        Seq::empty()
    } else if parts.len() == 1 {
        parts[0]
    } else {
        joined(parts.drop_last()) + "/"@ + parts.last()
    }
}

/// The pieces from the part that follows the first `skipped` parts on.
pub open spec fn from_plain(raw: Seq<Seq<char>>, skipped: nat) -> Seq<Seq<char>>
    decreases raw.len(),
{
    if raw.len() == 0 {
        raw
    } else if is_plain(raw[0]) && skipped == 0 {
        raw
    } else if is_plain(raw[0]) {
        from_plain(raw.drop_first(), (skipped - 1) as nat)
    } else {
        from_plain(raw.drop_first(), skipped)
    }
}

/// The pieces up to the last part; what trails it is left out.
pub open spec fn upto_last_plain(raw: Seq<Seq<char>>) -> Seq<Seq<char>>
    decreases raw.len(),
{
    if raw.len() == 0 || is_plain(raw.last()) {
        raw
    } else {
        upto_last_plain(raw.drop_last())
    }
}

/// `path` as seen from `base`, written as a path. Where the path lies in
/// the base this is the text of the path from the first part that follows
/// the base to the last part, with what stands between them untouched;
/// where it does not, it is the path itself.
pub open spec fn relative_text(path: Seq<char>, base: Seq<char>) -> Seq<char> {
    let raw = pieces(path, '/');
    let taken = components(base).len();
    if !is_below(path, base) {
        path
    } else if taken == 0 {
        if body(path).len() == 0 {
            joined(head(path))
        } else {
            joined(upto_last_plain(raw))
        }
    } else {
        joined(upto_last_plain(from_plain(raw, (taken - head(path).len()) as nat)))
    }
}

/// Whether `piece` counts as a part.
fn piece_is_plain(piece: &str) -> (r: bool)
    ensures
        r == is_plain(piece@),
{
    !piece.is_empty() && !text_is(piece, ".")
}

/// Whether `part` names a file or a directory.
pub fn part_is_name(part: &str) -> (r: bool)
    ensures
        r == is_name(part@),
{
    let chars = chars_of(part);
    if chars.len() == 0 || text_is(part, ".") || text_is(part, "..") {
        return false;
    }
    let mut i: usize = 0;
    while i < chars.len()
        invariant
            i <= chars.len(),
            chars@ == part@,
            forall|k: int| 0 <= k < i ==> chars@[k] != '/',
        decreases chars.len() - i,
    {
        if chars[i] == '/' {
            assert(part@[i as int] == '/');
            return false;
        }
        i += 1;
    }
    true
}

/// Whether every one of `parts` names a file or a directory, and there is
/// at least one.
pub fn parts_are_names(parts: &Vec<String>) -> (r: bool)
    ensures
        r == all_names(texts(parts@)),
{
    if parts.len() == 0 {
        return false;
    }
    let mut i: usize = 0;
    while i < parts.len()
        invariant
            i <= parts.len(),
            forall|k: int| 0 <= k < i ==> is_name(#[trigger] texts(parts@)[k]),
        decreases parts.len() - i,
    {
        assert(texts(parts@)[i as int] == parts@[i as int]@);
        if !part_is_name(parts[i].as_str()) {
            return false;
        }
        i += 1;
    }
    true
}

/// Whether `path` starts at the root of the file system.
fn starts_at_root(path: &str) -> (r: bool)
    ensures
        r == is_absolute(path@),
{
    let chars = chars_of(path);
    let slash = chars_of("/");
    chars_start_with(&chars, &slash)
}

/// The components of `path`.
pub fn path_components(path: &str) -> (parts: Vec<String>)
    ensures
        texts(parts@) == components(path@),
{
    let raw = split(path, '/');
    proof {
        lemma_pieces_nonempty(path@, '/');
        assert(texts(raw@)[0] == raw@[0]@);
    }
    let ghost keep = |piece: Seq<char>| is_plain(piece);
    let mut parts: Vec<String> = Vec::new();
    if starts_at_root(path) {
        parts.push(String::from_str("/"));
    } else if text_is(raw[0].as_str(), ".") {
        parts.push(String::from_str("."));
    }
    let mut i: usize = 0;
    proof {
        reveal(Seq::filter);
        assert(texts(raw@).take(0) =~= Seq::<Seq<char>>::empty());
        assert(texts(parts@) =~= head(path@) + texts(raw@).take(0).filter(keep));
    }
    while i < raw.len()
        invariant
            i <= raw.len(),
            keep == |piece: Seq<char>| is_plain(piece),
            texts(parts@) == head(path@) + texts(raw@).take(i as int).filter(keep),
        decreases raw.len() - i,
    {
        let piece = &raw[i];
        let ghost before = parts@;
        proof {
            assert(texts(raw@).take(i + 1) =~= texts(raw@).take(i as int).push(piece@));
            texts(raw@).take(i as int).lemma_filter_push(piece@, keep);
        }
        if piece_is_plain(piece.as_str()) {
            parts.push(piece.clone());
            proof {
                assert(texts(parts@) =~= texts(before).push(piece@));
                assert(texts(parts@) =~= head(path@) + texts(raw@).take(i + 1).filter(keep));
            }
        }
        i += 1;
    }
    proof {
        assert(texts(raw@).take(raw@.len() as int) =~= texts(raw@));
    }
    parts
}

/// The base name of `path`.
pub fn file_name(path: &str) -> (name: String)
    ensures
        name@ == file_name_of(path@),
{
    let parts = path_components(path);
    if parts.len() > 0 {
        let last = &parts[parts.len() - 1];
        assert(texts(parts@).last() == last@);
        if part_is_name(last.as_str()) {
            return last.clone();
        }
    }
    String::new()
}

/// The path of the entry `name` inside the directory `parent`.
pub fn join_path(parent: &str, name: &str) -> (path: String)
    ensures
        path@ == child_path(parent@, name@),
{
    let chars = chars_of(parent);
    let mut path = String::from_str(parent);
    if chars.len() > 0 && chars[chars.len() - 1] != '/' {
        proof {
            reveal_strlit("/");
            assert("/"@ =~= seq!['/']);
        }
        path.append("/");
    }
    path.append(name);
    proof {
        if parent@.len() == 0 {
            assert(path@ =~= name@);
        }
    }
    path
}

/// The extension of the file name `name`.
fn extension_of_name(name: &str) -> (ext: Option<String>)
    ensures
        match ext {
            Some(e) => name_extension(name@) == Some(e@),
            None => name_extension(name@) is None,
        },
{
    let parts = split(name, '.');
    proof {
        lemma_pieces_nonempty(name@, '.');
        assert(texts(parts@)[0] == parts@[0]@);
        assert(texts(parts@).last() == parts@.last()@);
    }
    if parts.len() < 2 || (parts.len() == 2 && parts[0].as_str().is_empty()) {
        None
    } else {
        Some(parts[parts.len() - 1].clone())
    }
}

/// The extension of `path`.
pub fn extension(path: &str) -> (ext: Option<String>)
    ensures
        match ext {
            Some(e) => extension_of(path@) == Some(e@),
            None => extension_of(path@) is None,
        },
{
    let name = file_name(path);
    extension_of_name(name.as_str())
}

/// Whether the components `base_parts` are the first of `parts`.
fn starts_with_parts(parts: &Vec<String>, base_parts: &Vec<String>) -> (r: bool)
    ensures
        r == (base_parts@.len() <= parts@.len() && texts(parts@).take(base_parts@.len() as int)
            == texts(base_parts@)),
{
    if base_parts.len() > parts.len() {
        return false;
    }
    let mut i: usize = 0;
    while i < base_parts.len()
        invariant
            i <= base_parts.len() <= parts.len(),
            texts(parts@).take(i as int) == texts(base_parts@).take(i as int),
        decreases base_parts.len() - i,
    {
        if !text_is(parts[i].as_str(), base_parts[i].as_str()) {
            assert(texts(parts@).take(base_parts@.len() as int)[i as int] != texts(
                base_parts@,
            )[i as int]);
            return false;
        }
        proof {
            assert(texts(parts@).take(i + 1) =~= texts(parts@).take(i as int).push(parts@[i as int]@));
            assert(texts(base_parts@).take(i + 1) =~= texts(base_parts@).take(i as int).push(
                base_parts@[i as int]@,
            ));
        }
        i += 1;
    }
    proof {
        assert(texts(base_parts@).take(base_parts@.len() as int) =~= texts(base_parts@));
    }
    true
}

/// The items of `list` from `from` up to `to`.
fn copy_range(list: &Vec<String>, from: usize, to: usize) -> (out: Vec<String>)
    requires
        from <= to <= list.len(),
    ensures
        texts(out@) == texts(list@).subrange(from as int, to as int),
{
    let mut out: Vec<String> = Vec::new();
    let mut i: usize = from;
    proof {
        assert(texts(out@) =~= texts(list@).subrange(from as int, i as int));
    }
    while i < to
        invariant
            from <= i <= to <= list.len(),
            texts(out@) == texts(list@).subrange(from as int, i as int),
        decreases to - i,
    {
        let ghost before = out@;
        out.push(list[i].clone());
        proof {
            assert(texts(out@) =~= texts(before).push(list@[i as int]@));
            assert(texts(list@).subrange(from as int, i + 1) =~= texts(list@).subrange(
                from as int,
                i as int,
            ).push(list@[i as int]@));
        }
        i += 1;
    }
    out
}

/// The components of `path` as seen from `base`.
pub fn relative_parts(path: &str, base: &str) -> (parts: Vec<String>)
    ensures
        texts(parts@) == relative_components(path@, base@),
{
    let all = path_components(path);
    let base_parts = path_components(base);
    if starts_with_parts(&all, &base_parts) {
        let parts = copy_range(&all, base_parts.len(), all.len());
        proof {
            assert(texts(all@).subrange(base_parts@.len() as int, all@.len() as int) =~= texts(
                all@,
            ).skip(base_parts@.len() as int));
        }
        parts
    } else {
        all
    }
}

/// The parts put together again, with one `/` between neighbours.
pub fn join_parts(parts: &Vec<String>) -> (path: String)
    ensures
        path@ == joined(texts(parts@)),
{
    let mut path = String::new();
    let mut i: usize = 0;
    proof {
        assert(texts(parts@).take(0) =~= Seq::<Seq<char>>::empty());
    }
    while i < parts.len()
        invariant
            i <= parts.len(),
            path@ == joined(texts(parts@).take(i as int)),
        decreases parts.len() - i,
    {
        proof {
            let upto = texts(parts@).take(i + 1);
            assert(upto.drop_last() =~= texts(parts@).take(i as int));
            assert(upto.last() == parts@[i as int]@);
            if i == 0 {
                assert(upto[0] == parts@[0]@);
                assert(path@ + parts@[0]@ =~= parts@[0]@);
            }
        }
        if i > 0 {
            path.append("/");
        }
        path.append(parts[i].as_str());
        i += 1;
    }
    proof {
        assert(texts(parts@).take(parts@.len() as int) =~= texts(parts@));
    }
    path
}

/// Where the part that follows the first `skipped` parts stands among `raw`.
fn skip_parts(raw: &Vec<String>, skipped: usize) -> (at: usize)
    ensures
        at <= raw.len(),
        from_plain(texts(raw@), skipped as nat) == texts(raw@).skip(at as int),
{
    let mut at: usize = 0;
    let mut left: usize = skipped;
    proof {
        assert(texts(raw@).skip(0) =~= texts(raw@));
    }
    while at < raw.len()
        invariant
            at <= raw.len(),
            from_plain(texts(raw@), skipped as nat) == from_plain(
                texts(raw@).skip(at as int),
                left as nat,
            ),
        decreases raw.len() - at,
    {
        proof {
            let rest = texts(raw@).skip(at as int);
            assert(rest[0] == raw@[at as int]@);
            assert(rest.drop_first() =~= texts(raw@).skip(at + 1));
        }
        if piece_is_plain(raw[at].as_str()) {
            if left == 0 {
                return at;
            }
            left -= 1;
        }
        at += 1;
    }
    at
}

/// Where the last part of `raw` at or after `from` ends.
fn last_part_end(raw: &Vec<String>, from: usize) -> (to: usize)
    requires
        from <= raw.len(),
    ensures
        from <= to <= raw.len(),
        upto_last_plain(texts(raw@).skip(from as int)) == texts(raw@).subrange(
            from as int,
            to as int,
        ),
{
    let mut to: usize = raw.len();
    proof {
        assert(texts(raw@).subrange(from as int, to as int) =~= texts(raw@).skip(from as int));
    }
    while to > from
        invariant
            from <= to <= raw.len(),
            upto_last_plain(texts(raw@).skip(from as int)) == upto_last_plain(
                texts(raw@).subrange(from as int, to as int),
            ),
        decreases to,
    {
        proof {
            let seen = texts(raw@).subrange(from as int, to as int);
            assert(seen.last() == raw@[to - 1]@);
            assert(seen.drop_last() =~= texts(raw@).subrange(from as int, to - 1));
        }
        if piece_is_plain(raw[to - 1].as_str()) {
            return to;
        }
        to -= 1;
    }
    to
}

/// `path` as seen from `base`, written as a path.
pub fn relative_path(path: &str, base: &str) -> (text: String)
    ensures
        text@ == relative_text(path@, base@),
{
    let parts = path_components(path);
    let base_parts = path_components(base);
    if !starts_with_parts(&parts, &base_parts) {
        return String::from_str(path);
    }
    let raw = split(path, '/');
    proof {
        lemma_pieces_nonempty(path@, '/');
        assert(texts(raw@)[0] == raw@[0]@);
    }
    let lead: usize = if starts_at_root(path) || text_is(raw[0].as_str(), ".") {
        1
    } else {
        0
    };
    assert(lead == head(path@).len());
    let from = if base_parts.len() == 0 {
        if parts.len() == lead {
            proof {
                assert(texts(parts@) =~= head(path@));
            }
            return join_parts(&parts);
        }
        proof {
            assert(texts(raw@).skip(0) =~= texts(raw@));
        }
        0
    } else {
        skip_parts(&raw, base_parts.len() - lead)
    };
    let to = last_part_end(&raw, from);
    let kept = copy_range(&raw, from, to);
    join_parts(&kept)
}

} // verus!
