//! The drain-loop decisions: success merges, a failed batch splits into
//! singletons, a failed singleton is reported; the argument vector; the
//! version banner.

use shellcheck_all::comment::Level;
use shellcheck_all::formatter::ShellcheckFormat;
use shellcheck_all::shellcheck::{parse_version, Shellcheck, ShellcheckArgs, StepAction};
use shellcheck_all::ShellcheckError;

fn plain_args(format: ShellcheckFormat) -> ShellcheckArgs {
    ShellcheckArgs {
        check_sourced: false,
        extended_analysis: None,
        format,
        norc: false,
        rcfile: None,
        shell: None,
        external_sources: false,
    }
}

fn tool(format: ShellcheckFormat) -> Shellcheck {
    Shellcheck::new(b"shellcheck".to_vec(), plain_args(format))
}

fn names(files: &[&str]) -> Vec<Vec<u8>> {
    files.iter().map(|f| f.as_bytes().to_vec()).collect()
}

#[test]
fn argv_is_program_flags_separator_files() {
    let sc = tool(ShellcheckFormat::Json1);
    let t = sc.check_files(names(&["a.sh", "b.sh"]));
    let argv: Vec<&[u8]> = t.argv.iter().map(|a| a.as_slice()).collect();
    assert_eq!(
        argv,
        vec![
            b"shellcheck".as_slice(),
            b"--format",
            b"json1",
            b"--",
            b"a.sh",
            b"b.sh",
        ]
    );
    assert_eq!(t.files, names(&["a.sh", "b.sh"]));
}

#[test]
fn argv_carries_every_configured_flag() {
    let sc = Shellcheck::new(
        b"/usr/bin/shellcheck".to_vec(),
        ShellcheckArgs {
            check_sourced: true,
            extended_analysis: Some(b"true".to_vec()),
            format: ShellcheckFormat::Gcc,
            norc: true,
            rcfile: Some(b"rc".to_vec()),
            shell: Some(b"bash".to_vec()),
            external_sources: true,
        },
    );
    let t = sc.check_files(names(&["x.sh"]));
    let argv: Vec<&[u8]> = t.argv.iter().map(|a| a.as_slice()).collect();
    assert_eq!(
        argv,
        vec![
            b"/usr/bin/shellcheck".as_slice(),
            b"--check-sourced",
            b"--extended-analysis",
            b"true",
            b"--format",
            b"gcc",
            b"--norc",
            b"--rcfile",
            b"rc",
            b"--shell",
            b"bash",
            b"--external-sources",
            b"--",
            b"x.sh",
        ]
    );
}

#[test]
fn success_merges_the_output() {
    let sc = tool(ShellcheckFormat::Gcc);
    let mut fmt = sc.formatter();
    let out = b"b.sh:3:1: warning: quote it [SC2086]\n".to_vec();
    let act = sc.handle_completion(&mut fmt, names(&["a.sh", "b.sh"]), &out, &Vec::new()).unwrap();
    assert!(matches!(act, StepAction::Merged));
    assert_eq!(fmt.len(), 1);
}

#[test]
fn schema_mismatch_on_success_is_fatal() {
    let sc = tool(ShellcheckFormat::Json1);
    let mut fmt = sc.formatter();
    let out = b"not json".to_vec();
    let r = sc.handle_completion(&mut fmt, names(&["a.sh"]), &out, &Vec::new());
    assert_eq!(r.unwrap_err(), ShellcheckError::SchemaParse);
    assert_eq!(fmt.len(), 0);
}

#[test]
fn failed_batch_splits_into_singletons() {
    let sc = tool(ShellcheckFormat::Json1);
    let mut fmt = sc.formatter();
    let stderr = b"b.sh: parse failure".to_vec();
    let act = sc
        .handle_completion(&mut fmt, names(&["a.sh", "b.sh", "c.sh"]), &Vec::new(), &stderr)
        .unwrap();
    match act {
        StepAction::Split(ts) => {
            assert_eq!(ts.len(), 3);
            for (t, want) in ts.iter().zip(["a.sh", "b.sh", "c.sh"]) {
                assert_eq!(t.files, names(&[want]));
                // same flags, one file each
                let single = sc.check_files(names(&[want]));
                assert_eq!(t.argv, single.argv);
            }
        },
        _ => panic!("expected a split"),
    }
    // the failed batch merged nothing
    assert_eq!(fmt.len(), 0);
}

#[test]
fn failed_singleton_is_reported_not_merged() {
    let sc = tool(ShellcheckFormat::Json1);
    let mut fmt = sc.formatter();
    let stderr = b"b.sh: parse failure".to_vec();
    let act = sc.handle_completion(&mut fmt, names(&["b.sh"]), &Vec::new(), &stderr).unwrap();
    match act {
        StepAction::Report(file, text) => {
            assert_eq!(file, b"b.sh".to_vec());
            assert_eq!(text, stderr);
        },
        _ => panic!("expected a report"),
    }
    assert_eq!(fmt.len(), 0);
}

#[test]
fn split_equivalence_scenario() {
    // the batch [a,b,c] fails; each singleton retry succeeds with one
    // record apiece; the document is exactly the union of the three
    let sc = tool(ShellcheckFormat::Gcc);
    let mut fmt = sc.formatter();
    let stderr = b"c.sh: boom".to_vec();
    let act = sc
        .handle_completion(&mut fmt, names(&["a.sh", "b.sh", "c.sh"]), &Vec::new(), &stderr)
        .unwrap();
    assert!(matches!(act, StepAction::Split(_)));
    // retries complete in an arbitrary order
    for out in [
        b"c.sh:3:3: note: third [SC3]\n".to_vec(),
        b"a.sh:1:1: error: first [SC1]\n".to_vec(),
        b"b.sh:2:2: warning: second [SC2]\n".to_vec(),
    ] {
        let act = sc
            .handle_completion(&mut fmt, names(&["x.sh"]), &out, &Vec::new())
            .unwrap();
        assert!(matches!(act, StepAction::Merged));
    }
    assert_eq!(fmt.len(), 3);
    assert_eq!(
        fmt.to_bytes(),
        b"a.sh:1:1: error: first [SC1]\nb.sh:2:2: warning: second [SC2]\nc.sh:3:3: note: third [SC3]\n"
            .to_vec()
    );
}

#[test]
fn end_to_end_two_files_one_violation() {
    // two files, one clean, one with a single violation at line 3
    // column 1, rule 2086: the document holds exactly that record and
    // nothing for the clean file
    let sc = tool(ShellcheckFormat::Json1);
    let mut fmt = sc.formatter();
    let batch = sc.check_files(names(&["a.sh", "b.sh"]));
    assert_eq!(batch.files.len(), 2);
    let out = br#"{"comments":[{"file":"b.sh","line":3,"column":1,"code":2086,"level":"warning","message":"Double quote to prevent globbing and word splitting.","endLine":null,"endColumn":null,"fix":null}]}"#.to_vec();
    let act = sc.handle_completion(&mut fmt, batch.files, &out, &Vec::new()).unwrap();
    assert!(matches!(act, StepAction::Merged));
    assert_eq!(fmt.len(), 1);
    assert_eq!(fmt.to_bytes(), out);
}

#[test]
fn version_banner_yields_the_version() {
    let banner = b"ShellCheck - shell script analysis tool\nversion: 0.9.0\nlicense: GNU General Public License, version 3\n".to_vec();
    assert_eq!(parse_version(&banner).unwrap(), b"0.9.0".to_vec());
}

#[test]
fn version_value_is_trimmed() {
    let banner = b"version: \t 0.10.0  \n".to_vec();
    assert_eq!(parse_version(&banner).unwrap(), b"0.10.0".to_vec());
}

#[test]
fn missing_version_line_is_an_error() {
    let banner = b"ShellCheck - shell script analysis tool\nlicense: GPLv3\n".to_vec();
    assert_eq!(parse_version(&banner).unwrap_err(), ShellcheckError::NoVersion);
}

#[test]
fn formatter_speaks_the_configured_schema() {
    let sc = tool(ShellcheckFormat::Json);
    let mut fmt = sc.formatter();
    fmt.push_slice(b"[]").unwrap();
    assert_eq!(fmt.to_bytes(), b"[]".to_vec());
    let _ = Level::Error;
}
