//! The three wire schemas: strict parsing, serialization, round trips,
//! and the rejections the strict validation owes.

use shellcheck_all::comment::comment_cmp;
use shellcheck_all::comment::{Comment, CommentSet, Fix, InsertionPoint, Level, Replacement};
use shellcheck_all::formatter::{ShellcheckFormat, ShellcheckFormatter};
use shellcheck_all::gcc::{gcc_doc_bytes, parse_gcc_bytes};
use shellcheck_all::ShellcheckError;

fn record(file: &str, line: u32, column: u32, code: u32, level: Level, message: &str) -> Comment {
    Comment {
        file: file.as_bytes().to_vec(),
        line,
        column,
        code,
        level,
        message: message.as_bytes().to_vec(),
        end_line: None,
        end_column: None,
        fix: None,
    }
}

#[test]
fn json1_parses_a_strict_object() {
    let mut fmt = ShellcheckFormatter::new(ShellcheckFormat::Json1);
    let bytes = br#"{"comments":[{"file":"b.sh","line":3,"column":1,"code":2086,"level":"warning","message":"Double quote to prevent globbing and word splitting.","endLine":3,"endColumn":3,"fix":null}]}"#;
    fmt.push_slice(bytes).unwrap();
    assert_eq!(fmt.len(), 1);
}

#[test]
fn json1_rejects_an_unknown_field() {
    let mut fmt = ShellcheckFormatter::new(ShellcheckFormat::Json1);
    let bytes = br#"{"comments":[{"file":"b.sh","line":3,"column":1,"code":2086,"level":"warning","message":"m","endLine":null,"endColumn":null,"fix":null,"extra":1}]}"#;
    assert_eq!(fmt.push_slice(bytes), Err(ShellcheckError::SchemaParse));
    assert_eq!(fmt.len(), 0);
}

#[test]
fn json1_rejects_a_duplicated_field() {
    let mut fmt = ShellcheckFormatter::new(ShellcheckFormat::Json1);
    let bytes = br#"{"comments":[{"file":"b.sh","file":"c.sh","line":3,"column":1,"code":2086,"level":"warning","message":"m","endLine":null,"endColumn":null,"fix":null}]}"#;
    assert_eq!(fmt.push_slice(bytes), Err(ShellcheckError::SchemaParse));
}

#[test]
fn json1_rejects_a_missing_nullable_key() {
    // under the strict object schema endLine/endColumn/fix must be present
    let mut fmt = ShellcheckFormatter::new(ShellcheckFormat::Json1);
    let bytes = br#"{"comments":[{"file":"b.sh","line":3,"column":1,"code":2086,"level":"warning","message":"m"}]}"#;
    assert_eq!(fmt.push_slice(bytes), Err(ShellcheckError::SchemaParse));
}

#[test]
fn json1_rejects_the_note_level() {
    let mut fmt = ShellcheckFormatter::new(ShellcheckFormat::Json1);
    let bytes = br#"{"comments":[{"file":"b.sh","line":3,"column":1,"code":2086,"level":"note","message":"m","endLine":null,"endColumn":null,"fix":null}]}"#;
    assert_eq!(fmt.push_slice(bytes), Err(ShellcheckError::SchemaParse));
}

#[test]
fn json1_rejects_trailing_content() {
    let mut fmt = ShellcheckFormatter::new(ShellcheckFormat::Json1);
    let bytes = br#"{"comments":[]}x"#;
    assert_eq!(fmt.push_slice(bytes), Err(ShellcheckError::SchemaParse));
}

#[test]
fn json1_rejects_an_overflowing_number() {
    let mut fmt = ShellcheckFormatter::new(ShellcheckFormat::Json1);
    let bytes = br#"{"comments":[{"file":"b.sh","line":4294967296,"column":1,"code":1,"level":"error","message":"m","endLine":null,"endColumn":null,"fix":null}]}"#;
    assert_eq!(fmt.push_slice(bytes), Err(ShellcheckError::SchemaParse));
}

#[test]
fn json_parses_a_bare_array_with_absent_keys() {
    // the bare-array schema lets endLine/endColumn/fix be absent, and
    // accepts the note level
    let mut fmt = ShellcheckFormatter::new(ShellcheckFormat::Json);
    let bytes = br#"[{"file":"b.sh","line":3,"column":1,"code":2086,"level":"note","message":"m"}]"#;
    fmt.push_slice(bytes).unwrap();
    assert_eq!(fmt.len(), 1);
}

#[test]
fn json_accepts_fields_in_any_order() {
    let mut fmt = ShellcheckFormatter::new(ShellcheckFormat::Json);
    let bytes = br#"[{"message":"m","level":"info","code":1,"column":2,"line":3,"file":"a.sh"}]"#;
    fmt.push_slice(bytes).unwrap();
    assert_eq!(fmt.len(), 1);
}

#[test]
fn json1_round_trip_is_identity() {
    let mut fmt = ShellcheckFormatter::new(ShellcheckFormat::Json1);
    let bytes = br#"{"comments":[{"file":"a.sh","line":1,"column":2,"code":1000,"level":"error","message":"quote \"this\"\n","endLine":null,"endColumn":null,"fix":null},{"file":"b.sh","line":3,"column":1,"code":2086,"level":"warning","message":"m","endLine":3,"endColumn":9,"fix":{"replacements":[{"line":3,"endLine":3,"column":1,"endColumn":9,"insertionPoint":"afterEnd","precedence":7,"replacement":"\"$x\""}]}}]}"#;
    fmt.push_slice(bytes).unwrap();
    let out = fmt.to_bytes();
    let mut fmt2 = ShellcheckFormatter::new(ShellcheckFormat::Json1);
    fmt2.push_slice(&out).unwrap();
    assert_eq!(fmt2.to_bytes(), out);
    assert_eq!(fmt2.len(), 2);
}

#[test]
fn json_round_trip_is_identity() {
    let mut fmt = ShellcheckFormatter::new(ShellcheckFormat::Json);
    let bytes =
        br#"[{"file":"a.sh","line":7,"column":5,"code":2154,"level":"style","message":"tab\there"}]"#;
    fmt.push_slice(bytes).unwrap();
    let out = fmt.to_bytes();
    let mut fmt2 = ShellcheckFormatter::new(ShellcheckFormat::Json);
    fmt2.push_slice(&out).unwrap();
    assert_eq!(fmt2.to_bytes(), out);
}

#[test]
fn json1_serializes_the_exact_wire_shape() {
    let mut fmt = ShellcheckFormatter::new(ShellcheckFormat::Json1);
    let bytes = br#"{"comments":[{"file":"b.sh","line":3,"column":1,"code":2086,"level":"warning","message":"m","endLine":null,"endColumn":null,"fix":null}]}"#;
    fmt.push_slice(bytes).unwrap();
    assert_eq!(fmt.to_bytes(), bytes.to_vec());
}

#[test]
fn string_escapes_round_trip() {
    let mut fmt = ShellcheckFormatter::new(ShellcheckFormat::Json);
    // backslash, quote, newline, tab, a control byte, and \u escapes
    let bytes =
        r#"[{"file":"a.sh","line":1,"column":1,"code":1,"level":"error","message":"a\\b\"c\nd\te\u0001fé"}]"#.as_bytes();
    fmt.push_slice(bytes).unwrap();
    let out = fmt.to_bytes();
    let mut fmt2 = ShellcheckFormatter::new(ShellcheckFormat::Json);
    fmt2.push_slice(&out).unwrap();
    assert_eq!(fmt2.to_bytes(), out);
    // the decoded message carries the real bytes: é is two UTF-8 bytes
    let s = String::from_utf8(out).unwrap();
    assert!(s.contains("a\\\\b\\\"c\\nd\\te\\u0001f\u{e9}"));
}

#[test]
fn gcc_parses_the_line_shape() {
    let mut fmt = ShellcheckFormatter::new(ShellcheckFormat::Gcc);
    let bytes = b"b.sh:3:1: warning: Double quote to prevent globbing. [SC2086]\n";
    fmt.push_slice(bytes).unwrap();
    assert_eq!(fmt.len(), 1);
    assert_eq!(
        fmt.to_bytes(),
        b"b.sh:3:1: warning: Double quote to prevent globbing. [SC2086]\n".to_vec()
    );
}

#[test]
fn gcc_takes_the_longest_file_prefix() {
    // a file name holding colons still parses: the file part is greedy
    let mut fmt = ShellcheckFormatter::new(ShellcheckFormat::Gcc);
    let bytes = b"dir:2020/a.sh:10:4: error: msg [SC1000]\n";
    fmt.push_slice(bytes).unwrap();
    let out = fmt.to_bytes();
    assert_eq!(out, bytes.to_vec());
}

#[test]
fn gcc_rejects_a_malformed_line() {
    // a malformed line is a hard parse error, not a skip
    let mut fmt = ShellcheckFormatter::new(ShellcheckFormat::Gcc);
    let bytes = b"b.sh:3:1: warning: fine [SC2086]\nnot a diagnostic line\n";
    assert_eq!(fmt.push_slice(bytes), Err(ShellcheckError::SchemaParse));
    assert_eq!(fmt.len(), 0);
}

#[test]
fn gcc_rejects_an_unknown_severity() {
    let mut fmt = ShellcheckFormatter::new(ShellcheckFormat::Gcc);
    let bytes = b"b.sh:3:1: fatal: boom [SC2086]\n";
    assert_eq!(fmt.push_slice(bytes), Err(ShellcheckError::SchemaParse));
}

#[test]
fn gcc_round_trip_loses_the_span_and_the_fix() {
    // serializing under the text schema must lose endLine, endColumn and
    // fix: assert the loss, not equality
    let mut set = CommentSet::new();
    set.insert(Comment {
        file: b"b.sh".to_vec(),
        line: 3,
        column: 1,
        code: 2086,
        level: Level::Warning,
        message: b"quote it".to_vec(),
        end_line: Some(3),
        end_column: Some(9),
        fix: Some(Fix {
            replacements: vec![Replacement {
                line: 3,
                end_line: 3,
                column: 1,
                end_column: 9,
                insertion_point: InsertionPoint::AfterEnd,
                precedence: 7,
                replacement: b"\"$x\"".to_vec(),
            }],
        }),
    });
    let wire = gcc_doc_bytes(&set);
    assert_eq!(wire, b"b.sh:3:1: warning: quote it [SC2086]\n".to_vec());
    let back = parse_gcc_bytes(&wire).unwrap();
    assert_eq!(back.len(), 1);
    let c = &back[0];
    assert_eq!(c.file, b"b.sh".to_vec());
    assert_eq!(c.line, 3);
    assert_eq!(c.column, 1);
    assert_eq!(c.code, 2086);
    assert_eq!(c.level, Level::Warning);
    assert_eq!(c.message, b"quote it".to_vec());
    assert_eq!(c.end_line, None);
    assert_eq!(c.end_column, None);
    assert!(c.fix.is_none());
}

#[test]
fn serialization_lists_records_in_the_natural_order() {
    // arrival order does not matter: the output is the set's total order
    let mut fmt = ShellcheckFormatter::new(ShellcheckFormat::Gcc);
    fmt.push_slice(b"z.sh:1:1: error: late [SC1]\n").unwrap();
    fmt.push_slice(b"a.sh:9:9: note: early [SC2]\n").unwrap();
    assert_eq!(
        fmt.to_bytes(),
        b"a.sh:9:9: note: early [SC2]\nz.sh:1:1: error: late [SC1]\n".to_vec()
    );
}

#[test]
fn empty_outputs_leave_the_document_empty() {
    let mut j1 = ShellcheckFormatter::new(ShellcheckFormat::Json1);
    j1.push_slice(b"{\"comments\":[]}").unwrap();
    assert_eq!(j1.to_bytes(), b"{\"comments\":[]}".to_vec());
    let mut j = ShellcheckFormatter::new(ShellcheckFormat::Json);
    j.push_slice(b"[]").unwrap();
    assert_eq!(j.to_bytes(), b"[]".to_vec());
    let mut g = ShellcheckFormatter::new(ShellcheckFormat::Gcc);
    g.push_slice(b"").unwrap();
    assert_eq!(g.to_bytes(), b"".to_vec());
}

#[test]
fn records_deduplicate_across_invocations() {
    // the same record reported by two invocations collapses to one entry
    let mut fmt = ShellcheckFormatter::new(ShellcheckFormat::Gcc);
    fmt.push_slice(b"a.sh:1:1: error: x [SC1]\n").unwrap();
    fmt.push_slice(b"a.sh:1:1: error: x [SC1]\nb.sh:2:2: warning: y [SC2]\n").unwrap();
    assert_eq!(fmt.len(), 2);
}

#[test]
fn dedup_is_idempotent() {
    // aggregating the same successful output twice equals aggregating once
    let bytes = br#"[{"file":"a.sh","line":1,"column":1,"code":1,"level":"error","message":"m"}]"#;
    let mut once = ShellcheckFormatter::new(ShellcheckFormat::Json);
    once.push_slice(bytes).unwrap();
    let mut twice = ShellcheckFormatter::new(ShellcheckFormat::Json);
    twice.push_slice(bytes).unwrap();
    twice.push_slice(bytes).unwrap();
    assert_eq!(once.to_bytes(), twice.to_bytes());
    assert_eq!(once.len(), twice.len());
}

#[test]
fn merge_is_commutative() {
    // aggregating two results in either order yields the same document
    let x = br#"[{"file":"a.sh","line":1,"column":1,"code":1,"level":"error","message":"m"}]"#;
    let y = br#"[{"file":"b.sh","line":2,"column":2,"code":2,"level":"style","message":"n"}]"#;
    let mut xy = ShellcheckFormatter::new(ShellcheckFormat::Json);
    xy.push_slice(x).unwrap();
    xy.push_slice(y).unwrap();
    let mut yx = ShellcheckFormatter::new(ShellcheckFormat::Json);
    yx.push_slice(y).unwrap();
    yx.push_slice(x).unwrap();
    assert_eq!(xy.to_bytes(), yx.to_bytes());
}

#[test]
fn comment_order_is_lexicographic_over_the_fields() {
    let a = record("a.sh", 1, 1, 1, Level::Error, "m");
    let b = record("a.sh", 1, 1, 1, Level::Warning, "m");
    let c = record("b.sh", 1, 1, 1, Level::Error, "m");
    assert_eq!(comment_cmp(&a, &b), -1);
    assert_eq!(comment_cmp(&b, &c), -1);
    assert_eq!(comment_cmp(&a, &a), 0);
    assert_eq!(comment_cmp(&c, &a), 1);
}
