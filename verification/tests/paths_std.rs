use source_select::file_system::{FileInfo, is_typescript_file};
use source_select::output_formatter::{can_group, format_grouped_file_structure};
use source_select::paths::{extension, file_name, join_path, path_components, relative_path};
use std::collections::BTreeSet;
use std::path::{Component, Path};

fn samples() -> Vec<&'static str> {
    vec![
        "", "/", "//", ".", "..", "./", "../", "/.", "/..", "a", "a/", "a/.", "a/..", "a//", "/a",
        "/a/", "//a", "./a", "././a", "a/./b", "a//b", "a/b/.", "a/b/./", "a/b/..", "a/../b",
        "../a", "/proj", "/proj/", "/proj/b.ts", "/proj/./b.ts", "/proj//b.ts", "/proj/a/./b.ts",
        "/proj/a//b.ts", "/proj/a/b.ts/", "/proj/a/b.ts/.", "/proj/../b.ts", "/proj/a/../b.ts",
        "proj/b.ts", "./proj/b.ts", "/other/c.ts", "a.ts", "a.ts/.", "a.ts/", "a.ts/..",
        ".ts", ".a.ts", "a.", "a.d.ts", "..a", "...", "a..ts", "/x/.hidden", "x/.a.tsx", "é/ü.ts",
        "/proj/./", "/proj/.", "./.", ".//a/.", "/./a", "/../a", "a/...", ".a", "a/.b/c",
    ]
}

fn std_components(path: &str) -> Vec<String> {
    Path::new(path)
        .components()
        .map(|c| match c {
            Component::RootDir => "/".to_string(),
            Component::CurDir => ".".to_string(),
            Component::ParentDir => "..".to_string(),
            Component::Normal(name) => name.to_string_lossy().into_owned(),
            Component::Prefix(p) => p.as_os_str().to_string_lossy().into_owned(),
        })
        .collect()
}

#[test]
fn file_name_agrees_with_the_standard_library() {
    let mut wrong = Vec::new();
    for path in samples() {
        let expected =
            Path::new(path).file_name().map(|n| n.to_string_lossy().into_owned()).unwrap_or_default();
        let got = file_name(path);
        if got != expected {
            wrong.push(format!("{:?}: got {:?}, expected {:?}", path, got, expected));
        }
    }
    assert!(wrong.is_empty(), "{:#?}", wrong);
}

#[test]
fn extension_agrees_with_the_standard_library() {
    let mut wrong = Vec::new();
    for path in samples() {
        let expected = Path::new(path).extension().map(|n| n.to_string_lossy().into_owned());
        let got = extension(path);
        if got != expected {
            wrong.push(format!("{:?}: got {:?}, expected {:?}", path, got, expected));
        }
    }
    assert!(wrong.is_empty(), "{:#?}", wrong);
}

#[test]
fn components_agree_with_the_standard_library() {
    let mut wrong = Vec::new();
    for path in samples() {
        let expected = std_components(path);
        let got = path_components(path);
        if got != expected {
            wrong.push(format!("{:?}: got {:?}, expected {:?}", path, got, expected));
        }
    }
    assert!(wrong.is_empty(), "{:#?}", wrong);
}

#[test]
fn relative_path_agrees_with_the_standard_library() {
    let mut wrong = Vec::new();
    for base in samples() {
        for path in samples() {
            let expected = Path::new(path)
                .strip_prefix(base)
                .unwrap_or(Path::new(path))
                .to_string_lossy()
                .into_owned();
            let got = relative_path(path, base);
            if got != expected {
                wrong.push(format!("{:?} from {:?}: got {:?}, expected {:?}", path, base, got, expected));
            }
        }
    }
    wrong.truncate(40);
    assert!(wrong.is_empty(), "{:#?}", wrong);
}

/// The names that filing `path` puts into a group, found with the standard
/// library alone; `None` where a path without a final component turns up.
fn std_filed(path: &Path, names: &mut BTreeSet<String>) -> Option<()> {
    if let Some(parent) = path.parent() {
        if !parent.as_os_str().is_empty() {
            std_filed(parent, names)?;
        }
    }
    names.insert(path.file_name()?.to_string_lossy().into_owned());
    Some(())
}

#[test]
fn filing_agrees_with_the_standard_library() {
    let mut wrong = Vec::new();
    for base in samples() {
        for path in samples() {
            let relative = Path::new(path).strip_prefix(base).unwrap_or(Path::new(path));
            let mut names = BTreeSet::new();
            let expected = std_filed(relative, &mut names).map(|_| {
                names.iter().map(|n| format!("{}\n", n)).collect::<String>()
            });
            let got = if can_group(path, base) {
                let info = FileInfo { path: base.to_string(), files: Vec::new() };
                Some(format_grouped_file_structure(&info, &vec![path.to_string()]))
            } else {
                None
            };
            if got != expected {
                wrong.push(format!("{:?} from {:?}: got {:?}, expected {:?}", path, base, got, expected));
            }
        }
    }
    wrong.truncate(40);
    assert!(wrong.is_empty(), "{:#?}", wrong);
}

#[test]
fn typescript_files_agree_with_the_standard_library() {
    for path in samples() {
        let expected = Path::new(path).extension().map_or(false, |ext| ext == "ts" || ext == "tsx");
        assert_eq!(is_typescript_file(path), expected, "{:?}", path);
    }
}

#[test]
fn joining_a_name_agrees_with_the_standard_library() {
    let names = ["a", "a.ts", ".hidden", "é.tsx", "with space", "..."];
    for parent in samples() {
        for name in names {
            let expected = Path::new(parent).join(name).to_string_lossy().into_owned();
            assert_eq!(join_path(parent, name), expected, "{:?} and {:?}", parent, name);
        }
    }
}
