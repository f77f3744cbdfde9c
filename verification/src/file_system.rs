//! Choosing the source files among the paths found below a directory, and
//! reading the patterns of an ignore file.

use vstd::prelude::*;
use crate::filter::{any_pattern_occurs, matches_any};
use crate::paths::{extension, extension_of};
use crate::text::{
    chars_contain, chars_eq, chars_of, chars_start_with, contains_run, has_prefix,
    lemma_pieces_nonempty, pieces, split, texts,
};

verus! {

/// A directory and the source files found below it.
pub struct FileInfo {
    pub path: String,
    pub files: Vec<String>,
}

/// A path is left out when an ignore pattern occurs in it, or the name of
/// the dependency directory, or the repository's own directory as one of
/// its inner parts.
pub open spec fn ignored_path(path: Seq<char>, patterns: Seq<Seq<char>>) -> bool {
    matches_any(path, patterns) || contains_run(path, "node_modules"@) || contains_run(
        path,
        "/.git/"@,
    )
}

/// A path names a TypeScript file when its extension is `ts` or `tsx`.
pub open spec fn is_typescript_path(path: Seq<char>) -> bool {
    extension_of(path) matches Some(ext) && (ext == "ts"@ || ext == "tsx"@)
}

/// A path is kept when it names a TypeScript file and is not left out.
pub open spec fn is_kept(path: Seq<char>, patterns: Seq<Seq<char>>) -> bool {
    !ignored_path(path, patterns) && is_typescript_path(path)
}

/// The characters that Unicode counts as white space.
pub open spec fn is_whitespace(c: char) -> bool {
    ||| '\u{9}' <= c <= '\u{d}'
    ||| c == ' '
    ||| c == '\u{85}'
    ||| c == '\u{a0}'
    ||| c == '\u{1680}'
    ||| '\u{2000}' <= c <= '\u{200a}'
    ||| c == '\u{2028}'
    ||| c == '\u{2029}'
    ||| c == '\u{202f}'
    ||| c == '\u{205f}'
    ||| c == '\u{3000}'
}

/// A line that holds nothing but white space.
pub open spec fn is_blank(line: Seq<char>) -> bool {
    forall|i: int| 0 <= i < line.len() ==> is_whitespace(#[trigger] line[i])
}

/// The line without the carriage return at its end, if it has one.
pub open spec fn without_cr(line: Seq<char>) -> Seq<char> {
    if line.len() > 0 && line.last() == '\r' {
        line.drop_last()
    } else {
        line
    }
}

/// The lines of a text. A line ends at a line feed, or at a carriage
/// return followed by one; what follows the last line feed is a line of its
/// own unless it is empty.
pub open spec fn text_lines(content: Seq<char>) -> Seq<Seq<char>> {
    let parts = pieces(content, '\n');
    let ended = Seq::new((parts.len() - 1) as nat, |i: int| without_cr(parts[i]));
    if parts.last().len() > 0 {
        ended.push(parts.last())
    } else {
        ended
    }
}

/// A line of an ignore file gives a pattern unless it is blank or a comment.
pub open spec fn is_pattern_line(line: Seq<char>) -> bool {
    !is_blank(line) && !has_prefix(line, "#"@)
}

/// The patterns that an ignore file with this content gives, in its order.
pub open spec fn gitignore_patterns(content: Seq<char>) -> Seq<Seq<char>> {
    text_lines(content).filter(|line: Seq<char>| is_pattern_line(line))
}

/// Whether `path` is left out.
pub fn should_ignore(path: &str, ignore_patterns: &Vec<String>) -> (r: bool)
    ensures
        r == ignored_path(path@, texts(ignore_patterns@)),
{
    if any_pattern_occurs(path, ignore_patterns) {
        return true;
    }
    let chars = chars_of(path);
    let modules = chars_of("node_modules");
    let git = chars_of("/.git/");
    chars_contain(&chars, &modules) || chars_contain(&chars, &git)
}

/// Whether `path` names a TypeScript file.
pub fn is_typescript_file(path: &str) -> (r: bool)
    ensures
        r == is_typescript_path(path@),
{
    match extension(path) {
        Some(ext) => {
            let chars = chars_of(ext.as_str());
            let ts = chars_of("ts");
            let tsx = chars_of("tsx");
            chars_eq(&chars, &ts) || chars_eq(&chars, &tsx)
        },
        None => false,
    }
}

/// Whether `c` is white space.
pub fn char_is_whitespace(c: char) -> (r: bool)
    ensures
        r == is_whitespace(c),
{
    ('\u{9}' <= c && c <= '\u{d}') || c == ' ' || c == '\u{85}' || c == '\u{a0}' || c
        == '\u{1680}' || ('\u{2000}' <= c && c <= '\u{200a}') || c == '\u{2028}' || c
        == '\u{2029}' || c == '\u{202f}' || c == '\u{205f}' || c == '\u{3000}'
}

/// Whether a line gives a pattern.
fn line_is_pattern(line: &Vec<char>) -> (r: bool)
    ensures
        r == is_pattern_line(line@),
{
    let hash = chars_of("#");
    if chars_start_with(line, &hash) {
        return false;
    }
    let mut i: usize = 0;
    while i < line.len()
        invariant
            i <= line.len(),
            !has_prefix(line@, "#"@),
            forall|k: int| 0 <= k < i ==> is_whitespace(#[trigger] line@[k]),
        decreases line.len() - i,
    {
        if !char_is_whitespace(line[i]) {
            assert(!is_whitespace(line@[i as int]));
            return true;
        }
        i += 1;
    }
    false
}

/// The patterns that an ignore file with this content gives: its lines but
/// for the blank ones and the comments.
pub fn read_gitignore(content: &str) -> (patterns: Vec<String>)
    ensures
        texts(patterns@) == gitignore_patterns(content@),
{
    let parts = split(content, '\n');
    proof {
        lemma_pieces_nonempty(content@, '\n');
    }
    let ghost lines = text_lines(content@);
    let ghost keep = |line: Seq<char>| is_pattern_line(line);
    let mut patterns: Vec<String> = Vec::new();
    let mut i: usize = 0;
    proof {
        reveal(Seq::filter);
        assert(lines.take(0) =~= Seq::<Seq<char>>::empty());
        assert(texts(patterns@) =~= lines.take(0).filter(keep));
    }
    while i < parts.len()
        invariant
            i <= parts.len(),
            parts.len() >= 1,
            texts(parts@) == pieces(content@, '\n'),
            lines == text_lines(content@),
            keep == |line: Seq<char>| is_pattern_line(line),
            i < parts.len() ==> texts(patterns@) == lines.take(i as int).filter(keep),
            i == parts.len() ==> texts(patterns@) == lines.filter(keep),
        decreases parts.len() - i,
    {
        let part = &parts[i];
        let is_last = i == parts.len() - 1;
        let mut chars = chars_of(part.as_str());
        proof {
            assert(texts(parts@)[i as int] == part@);
            assert(texts(parts@).last() == parts@.last()@);
        }
        if is_last && chars.len() == 0 {
            proof {
                assert(lines.take(i as int) =~= lines);
            }
        } else {
            let ghost before = patterns@;
            let mut end: usize = chars.len();
            if !is_last && end > 0 && chars[end - 1] == '\r' {
                end = end - 1;
                chars.pop();
            }
            let line = part.as_str().substring_char(0, end);
            proof {
                assert(line@ =~= lines[i as int]);
                assert(chars@ =~= line@);
                assert(lines.take(i + 1) =~= lines.take(i as int).push(line@));
                lines.take(i as int).lemma_filter_push(line@, keep);
                if is_last {
                    assert(lines.take(i + 1) =~= lines);
                }
            }
            if line_is_pattern(&chars) {
                patterns.push(String::from_str(line));
                proof {
                    assert(texts(patterns@) =~= texts(before).push(line@));
                }
            }
        }
        i += 1;
    }
    patterns
}

/// The directory `root` with those of `files` that are kept, in their order.
pub fn get_file_structure(root: &str, ignore_patterns: &Vec<String>, files: &Vec<String>) -> (info:
    FileInfo)
    ensures
        info.path@ == root@,
        texts(info.files@) == texts(files@).filter(
            |path: Seq<char>| is_kept(path, texts(ignore_patterns@)),
        ),
{
    let ghost keep = |path: Seq<char>| is_kept(path, texts(ignore_patterns@));
    let mut kept: Vec<String> = Vec::new();
    let mut i: usize = 0;
    proof {
        reveal(Seq::filter);
        assert(texts(files@).take(0) =~= Seq::<Seq<char>>::empty());
        assert(texts(kept@) =~= texts(files@).take(0).filter(keep));
    }
    while i < files.len()
        invariant
            i <= files.len(),
            keep == |path: Seq<char>| is_kept(path, texts(ignore_patterns@)),
            texts(kept@) == texts(files@).take(i as int).filter(keep),
        decreases files.len() - i,
    {
        let file = &files[i];
        let ghost before = kept@;
        proof {
            assert(texts(files@).take(i + 1) =~= texts(files@).take(i as int).push(file@));
            texts(files@).take(i as int).lemma_filter_push(file@, keep);
        }
        if !should_ignore(file.as_str(), ignore_patterns) && is_typescript_file(file.as_str()) {
            kept.push(file.clone());
            proof {
                assert(texts(kept@) =~= texts(before).push(file@));
            }
        }
        i += 1;
    }
    proof {
        assert(texts(files@).take(files@.len() as int) =~= texts(files@));
    }
    FileInfo { path: String::from_str(root), files: kept }
}

} // verus!
