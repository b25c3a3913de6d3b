use refactor::command::{absolute_moves, sort_moves_desc, MoveParseError, MoveValueParser};
use refactor::path::{find_common_parent, FsPath};
use refactor::rewrite::{replace_path_usages_in_file_content, Move};

fn to_string(v: &Vec<char>) -> String {
    v.iter().collect()
}

fn render(p: &FsPath) -> String {
    to_string(&p.render())
}

#[test]
fn should_replace_normal_imports() {
    let moves = vec![Move {
        source: FsPath::parse("/src/lib/test.ts"),
        destination: FsPath::parse("/src/lib/test/utils.ts"),
    }];
    let path = FsPath::parse("/src/main/run.ts");
    let content = r#"
        import * from "../lib/test.ts";

        console.log("Run");
        "#;
    let expected = r#"
        import * from "../lib/test/utils.ts";

        console.log("Run");
        "#;

    let replacement = replace_path_usages_in_file_content(&path, content, &moves);

    assert_eq!(expected, replacement);
}

#[test]
fn should_replace_imports_without_extension() {
    let moves = vec![Move {
        source: FsPath::parse("/src/lib/test.ts"),
        destination: FsPath::parse("/src/lib/test/utils.ts"),
    }];
    let path = FsPath::parse("/src/main/run.ts");
    let content = r#"
        import * from "../lib/test";

        console.log("Run");
        "#;
    let expected = r#"
        import * from "../lib/test/utils";

        console.log("Run");
        "#;

    let replacement = replace_path_usages_in_file_content(&path, content, &moves);

    assert_eq!(expected, replacement);
}

#[test]
fn should_replace_imports_without_extension_single_quote() {
    let moves = vec![Move {
        source: FsPath::parse("/src/lib/test.ts"),
        destination: FsPath::parse("/src/lib/test/utils.ts"),
    }];
    let path = FsPath::parse("/src/main/run.ts");
    let content = r#"
        import * from '../lib/test';

        console.log("Run");
        "#;
    let expected = r#"
        import * from '../lib/test/utils';

        console.log("Run");
        "#;

    let replacement = replace_path_usages_in_file_content(&path, content, &moves);

    assert_eq!(expected, replacement);
}

#[test]
fn should_replace_absolute_imports() {
    let moves = vec![Move {
        source: FsPath::parse("/src/lib/test.ts"),
        destination: FsPath::parse("/src/lib/test/utils.ts"),
    }];
    let path = FsPath::parse("/src/main/run.ts");
    let content = r#"
        import * from "@app/lib/test";

        const path = "lib/test";

        console.log("Run");
        "#;
    let expected = r#"
        import * from "@app/lib/test/utils";

        const path = "lib/test";

        console.log("Run");
        "#;

    let replacement = replace_path_usages_in_file_content(&path, content, &moves);

    assert_eq!(expected, replacement);
}

#[test]
fn untouched_content_without_any_occurrence() {
    let moves = vec![Move {
        source: FsPath::parse("/src/lib/test.ts"),
        destination: FsPath::parse("/src/lib/test/utils.ts"),
    }];
    let path = FsPath::parse("/src/main/run.ts");
    let content = "let x = compute();\nconsole.log(x);\n";

    let replacement = replace_path_usages_in_file_content(&path, content, &moves);

    assert_eq!(content, replacement);
}

#[test]
fn parse_ref_splits_on_delimiter() {
    let parser = MoveValueParser::new();
    let mv = parser.parse_ref("/home/test.txt::/home/new/test.md").unwrap();
    assert_eq!("/home/test.txt", render(&mv.source));
    assert_eq!("/home/new/test.md", render(&mv.destination));
}

#[test]
fn parse_ref_without_delimiter_is_refused() {
    let parser = MoveValueParser::new();
    match parser.parse_ref("/home/test.txt") {
        Err(err) => {
            assert_eq!(MoveParseError::MissingDelimiter, err);
            assert_eq!("Argument needs to have a \"::\" delimiter", err.message());
        },
        Ok(_) => panic!("an argument without the delimiter must be refused"),
    }
}

#[test]
fn absolute_moves_join_and_clean() {
    let cwd = FsPath::parse("/home/user");
    let moves = vec![Move {
        source: FsPath::parse("notes/../a.txt"),
        destination: FsPath::parse("./b.txt"),
    }];
    let out = absolute_moves(&moves, &cwd);
    assert_eq!(1, out.len());
    assert_eq!("/home/user/a.txt", render(&out[0].source));
    assert_eq!("/home/user/b.txt", render(&out[0].destination));
}

#[test]
fn sort_orders_sources_descending() {
    let mk = |s: &str, d: &str| Move {
        source: FsPath::parse(s),
        destination: FsPath::parse(d),
    };
    let moves = vec![
        mk("/a/b", "/z/1"),
        mk("/a/b/c", "/z/2"),
        mk("/a", "/z/3"),
    ];
    let sorted = sort_moves_desc(moves);
    let order: Vec<String> = sorted.iter().map(|m| render(&m.source)).collect();
    assert_eq!(vec!["/a/b/c", "/a/b", "/a"], order);
}

#[test]
fn common_parent_of_move_paths() {
    let p1 = FsPath::parse("/src/lib/test.ts");
    let p2 = FsPath::parse("/src/lib/test/utils.ts");
    let c = find_common_parent(&p1, &p2);
    assert_eq!("/src/lib", render(&c));
}

#[test]
fn parse_keeps_unicode_characters() {
    let p = FsPath::parse("/docs/r\u{e9}sum\u{e9}.txt");
    assert_eq!("/docs/r\u{e9}sum\u{e9}.txt", render(&p));
}
