//! Finding the signatures that a source file declares.

use tree_sitter::{Parser, Query, QueryCursor};
use vstd::prelude::*;
use crate::text::{chars_end_with, chars_of, has_suffix, text_is, texts};

verus! {

/// The grammar that a file is read with.
#[derive(Clone, Copy, Debug, PartialEq, Eq)]
pub enum Grammar {
    TypeScript,
    Tsx,
}

/// The declarations that are looked for, as a query on the syntax tree.
pub const SIGNATURE_QUERY: &'static str = r#"
        (function_declaration
          name: (identifier) @func_name
        ) @function

        (variable_declarator
          name: (identifier) @var_name
          value: (arrow_function)
        ) @component

        (export_statement
          declaration: [
            (function_declaration
              name: (identifier) @export_func_name
            )
            (variable_declaration
              (variable_declarator
                name: (identifier) @export_var_name
              )
            )
          ]
        ) @export

        (lexical_declaration
          (variable_declarator
            name: (identifier) @const_name
            value: (arrow_function)
          )
        ) @const_component
    "#;

/// One capture of a match: the index of its capture name in the query, and
/// the text of the node it captured, if that is text.
pub type Capture = (u32, Option<String>);

/// One match of a query: the index of its pattern, and its captures in order.
pub type Match = (usize, Vec<Capture>);

/// The mathematical value of a [`Capture`].
pub type CaptureView = (nat, Option<Seq<char>>);

/// The mathematical value of a [`Match`].
pub type MatchView = (nat, Seq<CaptureView>);

/// The value of a list of captures.
pub open spec fn capture_views(captures: Seq<Capture>) -> Seq<CaptureView> {
    captures.map_values(
        |c: Capture|
            (
                c.0 as nat,
                match c.1 {
                    Some(text) => Some(text@),
                    None => None,
                },
            ),
    )
}

/// The value of a list of matches.
pub open spec fn match_views(matches: Seq<Match>) -> Seq<MatchView> {
    matches.map_values(|m: Match| (m.0 as nat, capture_views(m.1@)))
}

/// Runs `query` on `content` with tree-sitter and the grammar that
/// `tree_sitter_typescript::language_typescript` gives: `Parser::set_language`,
/// `Query::new`, `Parser::parse`, then `QueryCursor::matches` from the root
/// of the tree. Hands back `Query::capture_names` and, for each match, its
/// `pattern_index` and each of its `captures` as its `index` and the
/// `Node::utf8_text` of its `node`; `None` when the language, the query or
/// the content is refused. Nothing is claimed of what is handed back: it
/// is tree-sitter's answer, which may also go by the locale of the process.
#[verifier::external_body]
fn typescript_matches(query: &str, content: &str) -> (found: Option<(Vec<String>, Vec<Match>)>) {
    let language = tree_sitter_typescript::language_typescript();
    let mut parser = Parser::new();
    parser.set_language(&language).ok()?;
    let query = Query::new(&language, query).ok()?;
    let tree = parser.parse(content, None)?;
    let source = content.as_bytes();
    let names = query.capture_names().iter().map(|n| n.to_string()).collect();
    let mut cursor = QueryCursor::new();
    let found = cursor.matches(&query, tree.root_node(), source).map(
        |m| (m.pattern_index, m.captures.iter().map(|c| (c.index, c.node.utf8_text(source).ok().map(String::from))).collect()),
    );
    Some((names, found.collect()))
}

/// Runs `query` on `content` with tree-sitter and the grammar that
/// `tree_sitter_typescript::language_tsx` gives: `Parser::set_language`,
/// `Query::new`, `Parser::parse`, then `QueryCursor::matches` from the root
/// of the tree. Hands back `Query::capture_names` and, for each match, its
/// `pattern_index` and each of its `captures` as its `index` and the
/// `Node::utf8_text` of its `node`; `None` when the language, the query or
/// the content is refused. Nothing is claimed of what is handed back: it
/// is tree-sitter's answer, which may also go by the locale of the process.
#[verifier::external_body]
fn tsx_matches(query: &str, content: &str) -> (found: Option<(Vec<String>, Vec<Match>)>) {
    let language = tree_sitter_typescript::language_tsx();
    let mut parser = Parser::new();
    parser.set_language(&language).ok()?;
    let query = Query::new(&language, query).ok()?;
    let tree = parser.parse(content, None)?;
    let source = content.as_bytes();
    let names = query.capture_names().iter().map(|n| n.to_string()).collect();
    let mut cursor = QueryCursor::new();
    let found = cursor.matches(&query, tree.root_node(), source).map(
        |m| (m.pattern_index, m.captures.iter().map(|c| (c.index, c.node.utf8_text(source).ok().map(String::from))).collect()),
    );
    Some((names, found.collect()))
}

/// A file whose name ends in `.tsx` is read as TSX, every other file as TypeScript.
pub open spec fn grammar_of(file_name: Seq<char>) -> Grammar {
    if has_suffix(file_name, ".tsx"@) {
        Grammar::Tsx
    } else {
        Grammar::TypeScript
    }
}

/// How a function called `name` is written.
pub open spec fn function_signature(name: Seq<char>) -> Seq<char> {
    "function "@ + name
}

/// How a variable called `name` that holds a function is written.
pub open spec fn const_signature(name: Seq<char>) -> Seq<char> {
    "const "@ + name + " = () => {}"@
}

/// How a declaration is written, by the name under which it was captured:
/// a function as `function NAME`, a variable that holds a function as
/// `const NAME = () => {}`, anything else not at all.
pub open spec fn signature_of(capture_name: Seq<char>, name: Seq<char>) -> Option<Seq<char>> {
    if capture_name == "func_name"@ || capture_name == "export_func_name"@ {
        Some(function_signature(name))
    } else if capture_name == "var_name"@ || capture_name == "export_var_name"@ || capture_name
        == "const_name"@ {
        Some(const_signature(name))
    } else {
        None
    }
}

/// A text that is written as a function or as a variable that holds one.
pub open spec fn is_signature(text: Seq<char>) -> bool {
    ||| exists|name: Seq<char>| #[trigger] function_signature(name) == text
    ||| exists|name: Seq<char>| #[trigger] const_signature(name) == text
}

/// The text of the first of `captures` that stands under the capture name
/// at `index`; none when there is no such capture or it holds no text.
pub open spec fn first_text(captures: Seq<CaptureView>, index: nat) -> Option<Seq<char>>
    decreases captures.len(),
{
    if captures.len() == 0 {
        None
    } else if captures[0].0 == index {
        captures[0].1
    } else {
        first_text(captures.drop_first(), index)
    }
}

/// The signature that a match gives. The capture name is the one that
/// stands at the index of the match's pattern; the declared name is the
/// text of the match's first capture under the query's first capture name.
/// A match without such a text gives nothing.
pub open spec fn match_signature(names: Seq<Seq<char>>, found: MatchView) -> Option<Seq<char>> {
    if found.0 < names.len() {
        match first_text(found.1, 0) {
            Some(name) => signature_of(names[found.0 as int], name),
            None => None,
        }
    } else {
        None
    }
}

/// The signatures that the matches give, in the order of the matches.
pub open spec fn signatures_of(names: Seq<Seq<char>>, matches: Seq<MatchView>) -> Seq<Seq<char>>
    decreases matches.len(),
{
    if matches.len() == 0 {
        Seq::empty()
    } else {
        let before = signatures_of(names, matches.drop_last());
        match match_signature(names, matches.last()) {
            Some(signature) => before.push(signature),
            None => before,
        }
    }
}

/// Whatever the capture names and the matches are, each of the texts that
/// they give is written as a signature.
pub proof fn lemma_signatures_are_written(
    names: Seq<Seq<char>>,
    matches: Seq<MatchView>,
    i: int,
)
    requires
        0 <= i < signatures_of(names, matches).len(),
    ensures
        is_signature(signatures_of(names, matches)[i]),
    decreases matches.len(),
{
    if matches.len() > 0 {
        let before = signatures_of(names, matches.drop_last());
        if i < before.len() {
            lemma_signatures_are_written(names, matches.drop_last(), i);
        } else {
            let found = matches.last();
            let name = first_text(found.1, 0)->0;
            assert(signatures_of(names, matches)[i] == signature_of(names[found.0 as int], name)->0);
        }
    }
}

/// `signatures` are what a search hands out: the signatures that some
/// capture names and some matches give, in the order of the matches.
pub open spec fn is_search_result(signatures: Seq<Seq<char>>) -> bool {
    exists|names: Seq<Seq<char>>, matches: Seq<MatchView>|
        #[trigger] signatures_of(names, matches) == signatures
}

/// A file that could not be searched for signatures.
#[derive(Clone, Copy, Debug, PartialEq, Eq)]
pub struct AnalysisError {
    /// The place of the file in the list that was handed in.
    pub index: usize,
}

/// The grammar that the file `file_name` is read with.
pub fn get_language(file_name: &str) -> (grammar: Grammar)
    ensures
        grammar == grammar_of(file_name@),
{
    let name = chars_of(file_name);
    let suffix = chars_of(".tsx");
    if chars_end_with(&name, &suffix) {
        Grammar::Tsx
    } else {
        Grammar::TypeScript
    }
}

/// How the declaration `name`, captured as `capture_name`, is written.
pub fn signature(capture_name: &str, name: &str) -> (r: Option<String>)
    ensures
        match r {
            Some(text) => signature_of(capture_name@, name@) == Some(text@),
            None => signature_of(capture_name@, name@) is None,
        },
{
    if text_is(capture_name, "func_name") || text_is(capture_name, "export_func_name") {
        let mut text = String::from_str("function ");
        text.append(name);
        Some(text)
    } else if text_is(capture_name, "var_name") || text_is(capture_name, "export_var_name")
        || text_is(capture_name, "const_name") {
        let mut text = String::from_str("const ");
        text.append(name);
        text.append(" = () => {}");
        Some(text)
    } else {
        None
    }
}

/// The text of the first of `captures` that stands under the capture name
/// at `index`.
pub fn first_capture(captures: &Vec<Capture>, index: u32) -> (text: Option<&String>)
    ensures
        match text {
            Some(t) => first_text(capture_views(captures@), index as nat) == Some(t@),
            None => first_text(capture_views(captures@), index as nat) is None,
        },
{
    let ghost all = capture_views(captures@);
    let mut i: usize = 0;
    proof {
        assert(all.skip(0) =~= all);
    }
    while i < captures.len()
        invariant
            i <= captures.len(),
            all == capture_views(captures@),
            first_text(all, index as nat) == first_text(all.skip(i as int), index as nat),
        decreases captures.len() - i,
    {
        proof {
            assert(all.skip(i as int)[0] == all[i as int]);
            assert(all.skip(i as int).drop_first() =~= all.skip(i + 1));
        }
        if captures[i].0 == index {
            return match &captures[i].1 {
                Some(t) => Some(t),
                None => None,
            };
        }
        i += 1;
    }
    None
}

/// The signatures that `matches` give under the capture names `names`.
pub fn collect_signatures(names: &Vec<String>, matches: &Vec<Match>) -> (out: Vec<String>)
    ensures
        texts(out@) == signatures_of(texts(names@), match_views(matches@)),
{
    let mut out: Vec<String> = Vec::new();
    let mut i: usize = 0;
    proof {
        assert(match_views(matches@).take(0) =~= Seq::<MatchView>::empty());
        assert(texts(out@) =~= Seq::<Seq<char>>::empty());
    }
    while i < matches.len()
        invariant
            i <= matches.len(),
            texts(out@) == signatures_of(texts(names@), match_views(matches@).take(i as int)),
        decreases matches.len() - i,
    {
        let ghost before = out@;
        proof {
            let upto = match_views(matches@).take(i + 1);
            assert(upto.drop_last() =~= match_views(matches@).take(i as int));
            assert(upto.last() == match_views(matches@)[i as int]);
        }
        let pattern = matches[i].0;
        if pattern < names.len() {
            assert(texts(names@)[pattern as int] == names@[pattern as int]@);
            match first_capture(&matches[i].1, 0) {
                Some(name) => {
                    match signature(names[pattern].as_str(), name.as_str()) {
                        Some(text) => {
                            out.push(text);
                            proof {
                                assert(texts(out@) =~= texts(before).push(text@));
                            }
                        },
                        None => {},
                    }
                },
                None => {},
            }
        }
        i += 1;
    }
    proof {
        assert(match_views(matches@).take(matches@.len() as int) =~= match_views(matches@));
    }
    out
}

/// The signatures that `query` finds in the file `file_name` with the
/// given content. The file is read with the grammar that its name asks
/// for. What is found is decided outside; `None` tells that the query or
/// the content was refused there.
pub fn search_file(query: &str, file_name: &str, content: &str) -> (r: Option<Vec<String>>)
    ensures
        r matches Some(signatures) ==> is_search_result(texts(signatures@)),
{
    let found = match get_language(file_name) {
        Grammar::Tsx => tsx_matches(query, content),
        Grammar::TypeScript => typescript_matches(query, content),
    };
    match found {
        Some((names, matches)) => {
            let signatures = collect_signatures(&names, &matches);
            assert(signatures_of(texts(names@), match_views(matches@)) == texts(signatures@));
            Some(signatures)
        },
        None => None,
    }
}

/// The signatures of each file, with the file's name. `contents` holds the
/// files as pairs of name and content. The first file that is refused ends
/// the work; with no file there is nothing to refuse.
pub fn extract_signatures(contents: &Vec<(String, String)>) -> (r: Result<
    Vec<(String, Vec<String>)>,
    AnalysisError,
>)
    ensures
        contents@.len() == 0 ==> r is Ok,
        match r {
            Ok(list) => {
                &&& list@.len() == contents@.len()
                &&& forall|i: int|
                    0 <= i < list@.len() ==> (#[trigger] list@[i]).0@ == contents@[i].0@
                        && is_search_result(texts(list@[i].1@))
            },
            Err(e) => e.index < contents@.len(),
        },
{
    let mut list: Vec<(String, Vec<String>)> = Vec::new();
    let mut i: usize = 0;
    while i < contents.len()
        invariant
            i <= contents.len(),
            list@.len() == i,
            forall|k: int|
                0 <= k < i ==> (#[trigger] list@[k]).0@ == contents@[k].0@ && is_search_result(
                    texts(list@[k].1@),
                ),
        decreases contents.len() - i,
    {
        let file = &contents[i].0;
        let content = &contents[i].1;
        match search_file(SIGNATURE_QUERY, file.as_str(), content.as_str()) {
            Some(signatures) => {
                list.push((file.clone(), signatures));
            },
            None => {
                return Err(AnalysisError { index: i });
            },
        }
        i += 1;
    }
    Ok(list)
}

} // verus!
