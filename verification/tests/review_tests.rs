use refactor::diff::{diff_lines, group_hunks};
use refactor::path::FsPath;
use refactor::review::{
    decision_of_line, hunk_rows, process_files, review_content, FileEntry, FileOutcome,
    FileReport, ReviewDecision, RowKind,
};
use refactor::rewrite::Move;
use refactor::text::{join_lines, split_lines, str_chars};

fn chars(s: &str) -> Vec<char> {
    s.chars().collect()
}

fn to_string(v: &Vec<char>) -> String {
    v.iter().collect()
}

fn lines(v: &[&str]) -> String {
    v.join("\n")
}

/// Original and candidate differing on the first and last of 30 lines, far
/// enough apart for two separate hunks.
fn two_hunk_pair() -> (String, String) {
    let mut orig: Vec<String> = Vec::new();
    let mut cand: Vec<String> = Vec::new();
    for i in 0..30 {
        if i == 0 {
            orig.push("first old".to_string());
            cand.push("first new".to_string());
        } else if i == 29 {
            orig.push("last old".to_string());
            cand.push("last new".to_string());
        } else {
            orig.push(format!("line {i}"));
            cand.push(format!("line {i}"));
        }
    }
    (orig.join("\n"), cand.join("\n"))
}

#[test]
fn decision_mapping_matches_prompt() {
    assert_eq!(ReviewDecision::Accept, decision_of_line(""));
    assert_eq!(ReviewDecision::Accept, decision_of_line("y"));
    assert_eq!(ReviewDecision::Accept, decision_of_line("Y"));
    assert_eq!(ReviewDecision::CancelAll, decision_of_line("C"));
    assert_eq!(ReviewDecision::SkipFile, decision_of_line("S"));
    assert_eq!(ReviewDecision::Decline, decision_of_line("n"));
    assert_eq!(ReviewDecision::Decline, decision_of_line("no"));
    assert_eq!(ReviewDecision::Decline, decision_of_line("c"));
}

#[test]
fn accept_first_decline_second_mixes_hunks() {
    let (orig, cand) = two_hunk_pair();
    let decisions = vec![ReviewDecision::Accept, ReviewDecision::Decline];
    match review_content(&chars(&orig), &chars(&cand), &decisions) {
        FileOutcome::Written(out) => {
            let text = to_string(&join_lines(&out));
            let expected_lines: Vec<String> = orig
                .split('\n')
                .enumerate()
                .map(|(i, l)| {
                    if i == 0 {
                        "first new".to_string()
                    } else {
                        l.to_string()
                    }
                })
                .collect();
            assert_eq!(expected_lines.join("\n"), text);
        },
        _ => panic!("expected a written outcome"),
    }
}

#[test]
fn accept_all_yields_candidate() {
    let (orig, cand) = two_hunk_pair();
    let decisions = vec![ReviewDecision::Accept, ReviewDecision::Accept];
    match review_content(&chars(&orig), &chars(&cand), &decisions) {
        FileOutcome::Written(out) => {
            assert_eq!(cand, to_string(&join_lines(&out)));
        },
        _ => panic!("expected a written outcome"),
    }
}

#[test]
fn skip_after_accept_leaves_file_untouched() {
    let (orig, cand) = two_hunk_pair();
    let decisions = vec![ReviewDecision::Accept, ReviewDecision::SkipFile];
    match review_content(&chars(&orig), &chars(&cand), &decisions) {
        FileOutcome::Untouched => {},
        _ => panic!("expected the file to stay untouched"),
    }
}

#[test]
fn cancel_stops_the_whole_run() {
    let mv = Move {
        source: FsPath::parse("/src/lib/test.ts"),
        destination: FsPath::parse("/src/lib/test/utils.ts"),
    };
    let moves = vec![mv];
    let mk = |name: &str| FileEntry {
        path: FsPath::parse(name),
        content: chars("import * from \"../lib/test\";\ndone();"),
    };
    let files = vec![mk("/src/main/a.ts"), mk("/src/main/b.ts"), mk("/src/main/c.ts")];
    let scripts = vec![
        vec![ReviewDecision::Accept],
        vec![ReviewDecision::CancelAll],
        vec![ReviewDecision::Accept],
    ];
    let reports = process_files(&files, &moves, &scripts);
    assert_eq!(3, reports.len());
    match &reports[0] {
        FileReport::Written(c) => {
            assert_eq!(
                "import * from \"../lib/test/utils\";\ndone();",
                to_string(c)
            );
        },
        _ => panic!("the first file should have been written"),
    }
    assert!(matches!(reports[1], FileReport::Cancelled));
    assert!(matches!(reports[2], FileReport::NotReached));
}

#[test]
fn unchanged_file_is_never_reviewed() {
    let mv = Move {
        source: FsPath::parse("/src/lib/test.ts"),
        destination: FsPath::parse("/src/lib/test/utils.ts"),
    };
    let files = vec![FileEntry {
        path: FsPath::parse("/src/main/a.ts"),
        content: chars("nothing to see"),
    }];
    // an empty script: a review would stop untouched, so a report of
    // `Unchanged` shows none was started
    let scripts = vec![vec![]];
    let reports = process_files(&files, &vec![mv], &scripts);
    assert!(matches!(reports[0], FileReport::Unchanged));
}

#[test]
fn rows_number_and_classify_lines() {
    let orig = split_lines(&chars(&lines(&["same", "old line"])));
    let cand = split_lines(&chars(&lines(&["same", "new line"])));
    let ops = diff_lines(&orig, &cand);
    let hunks = group_hunks(&ops, 10, &orig, &cand);
    assert_eq!(1, hunks.len());
    let rows = hunk_rows(&hunks[0], &orig, &cand);
    let view: Vec<(usize, RowKind, String)> = rows
        .iter()
        .map(|r| (r.number, r.kind, to_string(&r.text)))
        .collect();
    assert_eq!(
        vec![
            (1, RowKind::Equal, "same".to_string()),
            (2, RowKind::Delete, "old line".to_string()),
            (2, RowKind::Insert, "new line".to_string()),
        ],
        view
    );
}

#[test]
fn split_and_join_restore_content() {
    let text = "a\n\nb\n";
    let split = split_lines(&chars(text));
    assert_eq!(4, split.len());
    assert_eq!(text, to_string(&join_lines(&split)));
}

#[test]
fn str_chars_keeps_every_character() {
    let v = str_chars("na\u{ef}ve\n");
    assert_eq!(6, v.len());
    assert_eq!('\u{ef}', v[2]);
}

#[test]
fn decline_all_leaves_file_untouched() {
    let (orig, cand) = two_hunk_pair();
    let decisions = vec![ReviewDecision::Decline, ReviewDecision::Decline];
    match review_content(&chars(&orig), &chars(&cand), &decisions) {
        FileOutcome::Untouched => {},
        _ => panic!("a review that accepts nothing must leave the file alone"),
    }
}
