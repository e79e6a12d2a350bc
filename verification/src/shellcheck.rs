//! The tool invocation and the retry/split orchestrator. A task is an
//! immutable process descriptor — the full argument vector — bound to the
//! ordered list of files it covers. Each completed invocation is judged by
//! its captured standard error: empty means success and the output is
//! merged; text on a multi-file batch splits the batch into one singleton
//! task per file; text on a singleton is a terminal per-file report.

use crate::comment::CommentModel;
use crate::formatter::ShellcheckFormat;
use crate::formatter::ShellcheckFormatter;
use crate::planner::files_view;
use crate::ShellcheckError;
use vstd::prelude::*;

verus! {

/// Pass-through configuration for the wrapped tool, plus the output schema
/// of the run.
pub struct ShellcheckArgs {
    /// Include warnings from sourced files.
    pub check_sourced: bool,
    /// Perform dataflow analysis.
    pub extended_analysis: Option<Vec<u8>>,
    /// The output schema, fixed for the whole run.
    pub format: ShellcheckFormat,
    /// Do not look for configuration files.
    pub norc: bool,
    /// Prefer this configuration file over searching for one.
    pub rcfile: Option<Vec<u8>>,
    /// Dialect to check against.
    pub shell: Option<Vec<u8>>,
    /// Allow `source` outside the checked files.
    pub external_sources: bool,
}

/// A configured wrapped tool: its resolved binary path and its flags.
pub struct Shellcheck {
    /// The resolved path of the tool binary.
    pub program: Vec<u8>,
    /// The flags every invocation carries.
    pub args: ShellcheckArgs,
}

/// One unit of work: the full argument vector of an external process,
/// bound to the files the invocation covers. Immutable once built; a retry
/// builds new tasks.
#[derive(Debug)]
pub struct Task {
    /// Argument vector, program path first.
    pub argv: Vec<Vec<u8>>,
    /// The files this invocation covers, in order.
    pub files: Vec<Vec<u8>>,
}

/// The schema name handed to the tool's format selector flag.
pub open spec fn format_word(f: ShellcheckFormat) -> Seq<u8> {
    match f {
        ShellcheckFormat::Json => seq![106u8, 115u8, 111u8, 110u8],
        ShellcheckFormat::Json1 => seq![106u8, 115u8, 111u8, 110u8, 49u8],
        ShellcheckFormat::Gcc => seq![103u8, 99u8, 99u8],
    }
}

/// The flag arguments an invocation carries, fixed by the configuration:
/// each enabled switch, the format selector, and each valued flag with its
/// value.
pub open spec fn flags_of(args: ShellcheckArgs) -> Seq<Seq<u8>> {
    (if args.check_sourced {
        seq![spec_flag_check_sourced()]
    } else {
        Seq::empty()
    }) + (match args.extended_analysis {
        Option::Some(x) => seq![spec_flag_extended_analysis(), x@],
        Option::None => Seq::empty(),
    }) + seq![spec_flag_format(), format_word(args.format)] + (if args.norc {
        seq![spec_flag_norc()]
    } else {
        Seq::empty()
    }) + (match args.rcfile {
        Option::Some(x) => seq![spec_flag_rcfile(), x@],
        Option::None => Seq::empty(),
    }) + (match args.shell {
        Option::Some(x) => seq![spec_flag_shell(), x@],
        Option::None => Seq::empty(),
    }) + (if args.external_sources {
        seq![spec_flag_external_sources()]
    } else {
        Seq::empty()
    })
}

pub open spec fn spec_flag_check_sourced() -> Seq<u8> {
    seq![
        45u8,
        45u8,
        99u8,
        104u8,
        101u8,
        99u8,
        107u8,
        45u8,
        115u8,
        111u8,
        117u8,
        114u8,
        99u8,
        101u8,
        100u8,
    ]
}

pub open spec fn spec_flag_extended_analysis() -> Seq<u8> {
    seq![
        45u8,
        45u8,
        101u8,
        120u8,
        116u8,
        101u8,
        110u8,
        100u8,
        101u8,
        100u8,
        45u8,
        97u8,
        110u8,
        97u8,
        108u8,
        121u8,
        115u8,
        105u8,
        115u8,
    ]
}

pub open spec fn spec_flag_format() -> Seq<u8> {
    seq![45u8, 45u8, 102u8, 111u8, 114u8, 109u8, 97u8, 116u8]
}

pub open spec fn spec_flag_norc() -> Seq<u8> {
    seq![45u8, 45u8, 110u8, 111u8, 114u8, 99u8]
}

pub open spec fn spec_flag_rcfile() -> Seq<u8> {
    seq![45u8, 45u8, 114u8, 99u8, 102u8, 105u8, 108u8, 101u8]
}

pub open spec fn spec_flag_shell() -> Seq<u8> {
    seq![45u8, 45u8, 115u8, 104u8, 101u8, 108u8, 108u8]
}

pub open spec fn spec_flag_external_sources() -> Seq<u8> {
    seq![
        45u8,
        45u8,
        101u8,
        120u8,
        116u8,
        101u8,
        114u8,
        110u8,
        97u8,
        108u8,
        45u8,
        115u8,
        111u8,
        117u8,
        114u8,
        99u8,
        101u8,
        115u8,
    ]
}

pub open spec fn spec_dashdash() -> Seq<u8> {
    seq![45u8, 45u8]
}

/// The whole argument vector of one invocation over `files`: the program,
/// the flags, the `--` separator, then the files in order.
pub open spec fn argv_of(sc: Shellcheck, files: Seq<Seq<u8>>) -> Seq<Seq<u8>> {
    seq![sc.program@] + flags_of(sc.args) + seq![spec_dashdash()] + files
}

/// Append a literal flag to an argument vector.
fn push_arg(v: &mut Vec<Vec<u8>>, arg: Vec<u8>)
    ensures
        files_view(final(v)@) == files_view(old(v)@).push(arg@),
{
    let ghost a = arg@;
    v.push(arg);
    proof {
        assert(files_view(v@) =~= files_view(old(v)@).push(a));
    }
}

impl Shellcheck {
    /// A configured tool from its resolved binary path and flags. The
    /// binary lookup and the version probe stay with the caller.
    pub fn new(program: Vec<u8>, args: ShellcheckArgs) -> (r: Shellcheck)
        ensures
            r.program@ == program@,
            r.args == args,
    {
        Shellcheck { program, args }
    }

    /// An empty aggregate document speaking this run's schema.
    pub fn formatter(&self) -> (r: ShellcheckFormatter)
        ensures
            r.wf(),
            r@ == Set::<CommentModel>::empty(),
            r.schema() == self.args.format,
    {
        ShellcheckFormatter::new(self.args.format)
    }

    /// The task checking `files`: its full argument vector, exactly the
    /// program, the configured flags, `--`, and the files, which the task
    /// owns outright.
    #[verifier::rlimit(100)]
    pub fn check_files(&self, files: Vec<Vec<u8>>) -> (t: Task)
        ensures
            files_view(t.argv@) == argv_of(*self, files_view(files@)),
            t.files@ == files@,
    {
        let mut argv: Vec<Vec<u8>> = Vec::new();
        let mut prog: Vec<u8> = Vec::new();
        crate::bytes::push_bytes(&mut prog, &self.program);
        push_arg(&mut argv, prog);
        proof {
            assert(files_view(argv@) =~= seq![self.program@]);
        }
        if self.args.check_sourced {
            let a: Vec<u8> = vec![45, 45, 99, 104, 101, 99, 107, 45, 115, 111, 117, 114, 99, 101, 100];
            proof {
                assert(a@ =~= spec_flag_check_sourced());
            }
            push_arg(&mut argv, a);
        }
        match &self.args.extended_analysis {
            Option::Some(x) => {
                let a: Vec<u8> = vec![
                    45,
                    45,
                    101,
                    120,
                    116,
                    101,
                    110,
                    100,
                    101,
                    100,
                    45,
                    97,
                    110,
                    97,
                    108,
                    121,
                    115,
                    105,
                    115,
                ];
                proof {
                    assert(a@ =~= spec_flag_extended_analysis());
                }
                push_arg(&mut argv, a);
                let mut val: Vec<u8> = Vec::new();
                crate::bytes::push_bytes(&mut val, x);
                push_arg(&mut argv, val);
            },
            Option::None => {},
        }
        let a: Vec<u8> = vec![45, 45, 102, 111, 114, 109, 97, 116];
        proof {
            assert(a@ =~= spec_flag_format());
        }
        push_arg(&mut argv, a);
        let fw: Vec<u8> = match self.args.format {
            ShellcheckFormat::Json => vec![106, 115, 111, 110],
            ShellcheckFormat::Json1 => vec![106, 115, 111, 110, 49],
            ShellcheckFormat::Gcc => vec![103, 99, 99],
        };
        proof {
            assert(fw@ =~= format_word(self.args.format));
        }
        push_arg(&mut argv, fw);
        if self.args.norc {
            let a: Vec<u8> = vec![45, 45, 110, 111, 114, 99];
            proof {
                assert(a@ =~= spec_flag_norc());
            }
            push_arg(&mut argv, a);
        }
        match &self.args.rcfile {
            Option::Some(x) => {
                let a: Vec<u8> = vec![45, 45, 114, 99, 102, 105, 108, 101];
                proof {
                    assert(a@ =~= spec_flag_rcfile());
                }
                push_arg(&mut argv, a);
                let mut val: Vec<u8> = Vec::new();
                crate::bytes::push_bytes(&mut val, x);
                push_arg(&mut argv, val);
            },
            Option::None => {},
        }
        match &self.args.shell {
            Option::Some(x) => {
                let a: Vec<u8> = vec![45, 45, 115, 104, 101, 108, 108];
                proof {
                    assert(a@ =~= spec_flag_shell());
                }
                push_arg(&mut argv, a);
                let mut val: Vec<u8> = Vec::new();
                crate::bytes::push_bytes(&mut val, x);
                push_arg(&mut argv, val);
            },
            Option::None => {},
        }
        if self.args.external_sources {
            let a: Vec<u8> = vec![
                45,
                45,
                101,
                120,
                116,
                101,
                114,
                110,
                97,
                108,
                45,
                115,
                111,
                117,
                114,
                99,
                101,
                115,
            ];
            proof {
                assert(a@ =~= spec_flag_external_sources());
            }
            push_arg(&mut argv, a);
        }
        let dd: Vec<u8> = vec![45, 45];
        proof {
            assert(dd@ =~= spec_dashdash());
        }
        push_arg(&mut argv, dd);
        proof {
            assert(files_view(argv@) =~= seq![self.program@] + flags_of(self.args) + seq![
                spec_dashdash(),
            ]);
        }
        let ghost before_files = files_view(argv@);
        let n: usize = files.len();
        let mut i: usize = 0;
        let mut argv = argv;
        while i < n
            invariant
                i <= n,
                n == files@.len(),
                files_view(argv@) == before_files + files_view(files@).take(i as int),
            decreases n - i,
        {
            let mut f: Vec<u8> = Vec::new();
            crate::bytes::push_bytes(&mut f, &files[i]);
            push_arg(&mut argv, f);
            proof {
                assert(files_view(files@).take(i + 1) =~= files_view(files@).take(i as int).push(
                    files@[i as int]@,
                ));
                assert(files_view(argv@) =~= before_files + files_view(files@).take(i + 1));
            }
            i = i + 1;
        }
        proof {
            assert(files_view(files@).take(n as int) =~= files_view(files@));
            assert(files_view(argv@) =~= argv_of(*self, files_view(files@)));
        }
        Task { argv, files }
    }
}

/// The value after `version:` on the first line that carries that key,
/// with surrounding blanks trimmed; nothing where no line carries it.
pub open spec fn spec_parse_version(out: Seq<u8>) -> Option<Seq<u8>> {
    version_of_lines(crate::gcc::split_lines(out))
}

/// ASCII blank for trimming the banner value.
pub open spec fn is_blank(b: u8) -> bool {
    b == 32 || b == 9 || b == 10 || b == 13 || b == 11 || b == 12
}

/// `s` with leading and trailing blanks removed.
pub open spec fn trim_of(s: Seq<u8>) -> Seq<u8>
    decreases s.len(),
{
    if s.len() == 0 {
        s
    } else if is_blank(s[0]) {
        trim_of(s.drop_first())
    } else if is_blank(s.last()) {
        trim_of(s.drop_last())
    } else {
        s
    }
}

/// The word `version`.
pub open spec fn kw_version() -> Seq<u8> {
    seq![118u8, 101u8, 114u8, 115u8, 105u8, 111u8, 110u8]
}

/// The first line of the form `version:<value>`: its trimmed value.
pub open spec fn version_of_lines(ls: Seq<Seq<u8>>) -> Option<Seq<u8>>
    decreases ls.len(),
{
    if ls.len() == 0 {
        Option::None
    } else {
        let line = ls[0];
        let c = crate::bytes::find_byte(line, 58, 0);
        if c < line.len() && line.subrange(0, c) == kw_version() {
            Option::Some(trim_of(line.subrange(c + 1, line.len() as int)))
        } else {
            version_of_lines(ls.drop_first())
        }
    }
}

/// Whether the byte at `i` is a blank.
fn blank_at(s: &Vec<u8>, i: usize) -> (r: bool)
    requires
        i < s@.len(),
    ensures
        r == is_blank(s@[i as int]),
{
    let b = s[i];
    b == 32 || b == 9 || b == 10 || b == 13 || b == 11 || b == 12
}

/// `s[from .. to]` with leading and trailing blanks removed.
fn trim_range(s: &Vec<u8>, from: usize, to: usize) -> (v: Vec<u8>)
    requires
        from <= to <= s@.len(),
    ensures
        v@ == trim_of(s@.subrange(from as int, to as int)),
{
    let mut lo: usize = from;
    let mut hi: usize = to;
    while lo < hi && blank_at(s, lo)
        invariant
            from <= lo <= hi <= to <= s@.len(),
            trim_of(s@.subrange(from as int, to as int)) == trim_of(
                s@.subrange(lo as int, hi as int),
            ),
        decreases hi - lo,
    {
        proof {
            let cur = s@.subrange(lo as int, hi as int);
            assert(cur[0] == s@[lo as int]);
            assert(cur.drop_first() =~= s@.subrange(lo + 1, hi as int));
        }
        lo = lo + 1;
    }
    while lo < hi && blank_at(s, hi - 1)
        invariant
            from <= lo <= hi <= to <= s@.len(),
            trim_of(s@.subrange(from as int, to as int)) == trim_of(
                s@.subrange(lo as int, hi as int),
            ),
            lo < hi ==> !is_blank(s@[lo as int]),
        decreases hi - lo,
    {
        proof {
            let cur = s@.subrange(lo as int, hi as int);
            assert(cur[0] == s@[lo as int]);
            assert(cur.last() == s@[hi - 1]);
            assert(cur.drop_last() =~= s@.subrange(lo as int, hi - 1));
        }
        hi = hi - 1;
    }
    proof {
        let cur = s@.subrange(lo as int, hi as int);
        if lo < hi {
            assert(cur[0] == s@[lo as int]);
            assert(cur.last() == s@[hi - 1]);
        }
        assert(trim_of(cur) == cur);
    }
    crate::bytes::copy_range(s, lo, hi)
}

/// Find the `version:` line of the tool's version banner and hand back its
/// trimmed value, as `spec_parse_version` says; the error where no line
/// carries the key — a fatal startup condition for the caller.
pub fn parse_version(out: &Vec<u8>) -> (r: Result<Vec<u8>, ShellcheckError>)
    ensures
        match r {
            Result::Ok(v) => spec_parse_version(out@) == Option::Some(v@),
            Result::Err(e) => spec_parse_version(out@) matches Option::None && e
                == ShellcheckError::NoVersion,
        },
{
    proof {
        reveal(crate::gcc::split_lines);
        assert(out@.skip(0) =~= out@);
    }
    let n: usize = out.len();
    let mut pos: usize = 0;
    while pos < n
        invariant
            pos <= n,
            n == out@.len(),
            spec_parse_version(out@) == version_of_lines(
                crate::gcc::split_lines(out@.skip(pos as int)),
            ),
        decreases n - pos,
    {
        let ghost pre_pos = pos as int;
        let ghost suffix = out@.skip(pre_pos);
        let f = crate::bytes::find_byte_at(out, 10, pos);
        proof {
            crate::bytes::lemma_find_byte(out@, 10, pre_pos);
            crate::gcc::lemma_find_byte_skip(out@, 10, pre_pos);
        }
        let line_end = if f > pos && out[f - 1] == 13 {
            f - 1
        } else {
            f
        };
        let ghost line = out@.subrange(pre_pos, line_end as int);
        proof {
            reveal(crate::gcc::split_lines);
            let fs = crate::bytes::find_byte(suffix, 10, 0);
            assert(fs == f - pre_pos);
            assert(suffix.subrange(0, fs) =~= out@.subrange(pre_pos, f as int));
            if fs > 0 {
                assert(suffix.subrange(0, fs).last() == out@[f - 1]);
            }
            if f > pre_pos && out@[f - 1] == 13 {
                assert(suffix.subrange(0, fs).drop_last() =~= out@.subrange(pre_pos, f - 1));
            }
            assert(crate::gcc::split_lines(suffix)[0] == line);
        }
        let c = crate::bytes::find_byte_at(out, 58, pos);
        proof {
            crate::bytes::lemma_find_byte(out@, 58, pre_pos);
            crate::gcc::lemma_find_byte_skip(out@, 58, pre_pos);
            assert(crate::bytes::find_byte(line, 58, 0) == if crate::bytes::find_byte(out@, 58, pre_pos)
                <= line_end { crate::bytes::find_byte(out@, 58, pre_pos) - pre_pos } else { line.len() as int })
                by {
                lemma_find_byte_within(out@, 58, pre_pos, line_end as int);
            }
        }
        if c < line_end {
            let kw: Vec<u8> = vec![118, 101, 114, 115, 105, 111, 110];
            proof {
                assert(kw@ =~= kw_version());
            }
            let mut key: Vec<u8> = crate::bytes::copy_range(out, pos, c);
            proof {
                assert(line.subrange(0, c - pre_pos) =~= out@.subrange(pre_pos, c as int));
            }
            if crate::comment::bytes_cmp(&key, &kw) == 0 {
                let v = trim_range(out, c + 1, line_end);
                proof {
                    assert(line.subrange(c - pre_pos + 1, line.len() as int) =~= out@.subrange(
                        c + 1,
                        line_end as int,
                    ));
                }
                return Result::Ok(v);
            }
        }
        pos = if f < n {
            f + 1
        } else {
            f
        };
        proof {
            reveal(crate::gcc::split_lines);
            let fs = crate::bytes::find_byte(suffix, 10, 0);
            let rest = if fs < suffix.len() {
                suffix.skip(fs + 1)
            } else {
                Seq::<u8>::empty()
            };
            assert(rest =~= out@.skip(pos as int));
            assert(crate::gcc::split_lines(suffix) =~= seq![line] + crate::gcc::split_lines(rest));
            assert(crate::gcc::split_lines(suffix).drop_first() =~= crate::gcc::split_lines(rest));
        }
    }
    proof {
        reveal(crate::gcc::split_lines);
        assert(out@.skip(pos as int) =~= Seq::<u8>::empty());
        assert(crate::gcc::split_lines(Seq::<u8>::empty()) =~= Seq::<Seq<u8>>::empty());
    }
    Result::Err(ShellcheckError::NoVersion)
}

/// Scanning for a byte inside a window of the whole string agrees with
/// scanning the window.
proof fn lemma_find_byte_within(s: Seq<u8>, b: u8, from: int, to: int)
    requires
        0 <= from <= to <= s.len(),
    ensures
        crate::bytes::find_byte(s.subrange(from, to), b, 0) == (if crate::bytes::find_byte(
            s,
            b,
            from,
        ) <= to {
            crate::bytes::find_byte(s, b, from) - from
        } else {
            to - from
        }),
{
    crate::bytes::lemma_find_byte(s, b, from);
    crate::bytes::lemma_find_byte(s.subrange(from, to), b, 0);
    let w = s.subrange(from, to);
    let f = crate::bytes::find_byte(s, b, from);
    let g = crate::bytes::find_byte(w, b, 0);
    assert forall|k: int| 0 <= k < w.len() implies w[k] == s[from + k] by {}
    if f <= to {
        if g < f - from {
            assert(s[from + g] == b);
        }
        if f < to && f - from < g {
            assert(w[f - from] == b);
        }
    } else {
        if g < to - from {
            assert(s[from + g] == b);
        }
    }
}

/// What the orchestrator decided for one completed invocation.
#[derive(Debug)]
pub enum StepAction {
    /// Success: the output was merged into the document.
    Merged,
    /// Recoverable batch failure: run these singleton tasks instead.
    Split(Vec<Task>),
    /// Terminal per-file failure: the file and the captured stderr text.
    /// Nothing was merged for it.
    Report(Vec<u8>, Vec<u8>),
}

impl Shellcheck {
    /// Consume one completed invocation. Success is judged by the captured
    /// standard error alone, never the exit status: empty stderr merges
    /// the output into the document under the active schema (a schema
    /// mismatch is a fatal error and merges nothing); stderr text on a
    /// batch of several files builds one singleton task per file, same
    /// flags, and merges nothing; stderr text on a singleton reports the
    /// file with that text and merges nothing.
    pub fn handle_completion(
        &self,
        fmt: &mut ShellcheckFormatter,
        files: Vec<Vec<u8>>,
        stdout: &Vec<u8>,
        stderr: &Vec<u8>,
    ) -> (r: Result<StepAction, ShellcheckError>)
        requires
            old(fmt).wf(),
            files@.len() >= 1,
        ensures
            final(fmt).wf(),
            final(fmt).schema() == old(fmt).schema(),
            stderr@.len() == 0 ==> (match old(fmt).schema_parse(stdout@) {
                Option::Some(ms) => r matches Result::Ok(StepAction::Merged) && final(fmt)@ == old(
                    fmt,
                )@.union(ms.to_set()),
                Option::None => r matches Result::Err(e) && e == ShellcheckError::SchemaParse
                    && final(fmt)@ == old(fmt)@,
            }),
            stderr@.len() > 0 ==> final(fmt)@ == old(fmt)@,
            stderr@.len() > 0 && files@.len() > 1 ==> (r matches Result::Ok(StepAction::Split(ts))
                && ts@.len() == files@.len() && forall|i: int|
                0 <= i < ts@.len() ==> (#[trigger] ts@[i]).files@.len() == 1 && ts@[i].files@[0]@
                    == files@[i]@ && files_view(ts@[i].argv@) == argv_of(
                    *self,
                    seq![files@[i]@],
                )),
            stderr@.len() > 0 && files@.len() == 1 ==> (r matches Result::Ok(
                StepAction::Report(f, e),
            ) && f@ == files@[0]@ && e@ == stderr@),
    {
        if stderr.len() == 0 {
            match fmt.push_slice(stdout.as_slice()) {
                Result::Ok(_) => Result::Ok(StepAction::Merged),
                Result::Err(e) => Result::Err(e),
            }
        } else if files.len() > 1 {
            let n: usize = files.len();
            let mut ts: Vec<Task> = Vec::new();
            let mut i: usize = 0;
            while i < n
                invariant
                    i <= n,
                    n == files@.len(),
                    ts@.len() == i,
                    forall|k: int|
                        0 <= k < i ==> (#[trigger] ts@[k]).files@.len() == 1 && ts@[k].files@[0]@
                            == files@[k]@ && files_view(ts@[k].argv@) == argv_of(
                            *self,
                            seq![files@[k]@],
                        ),
                decreases n - i,
            {
                let mut one: Vec<u8> = Vec::new();
                crate::bytes::push_bytes(&mut one, &files[i]);
                let mut singleton: Vec<Vec<u8>> = Vec::new();
                singleton.push(one);
                proof {
                    assert(files_view(singleton@) =~= seq![files@[i as int]@]);
                }
                let t = self.check_files(singleton);
                ts.push(t);
                i = i + 1;
            }
            Result::Ok(StepAction::Split(ts))
        } else {
            let mut f: Vec<u8> = Vec::new();
            crate::bytes::push_bytes(&mut f, &files[0]);
            let mut e: Vec<u8> = Vec::new();
            crate::bytes::push_bytes(&mut e, stderr);
            Result::Ok(StepAction::Report(f, e))
        }
    }
}

} // verus!
