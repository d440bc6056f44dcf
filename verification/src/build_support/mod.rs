//! Compiling kernel files into fatbins: what a build script prints and which
//! command it runs, so that the compiler invocation, the architecture list and
//! the numeric flags live in one place.
//!
//! The environment is handed in as an [`Environment`]; running the compiler and
//! looking at files is the caller's.
pub mod names;

use crate::text::{
    chars_of, join_path, same_text, text_begins_with, trim, trimmed_parts, usize_string,
    word_stands_at,
};
pub use names::kernel_names_in;
use vstd::prelude::*;

verus! {

/// Portability targets: the architecture and the code of each. Machine code for
/// three generations and an intermediate image for 8.0, which a newer driver
/// compiles itself.
pub const DEFAULT_ARCHES: [(&'static str, &'static str); 4] = [
    ("compute_61", "sm_61"),
    ("compute_75", "sm_75"),
    ("compute_80", "sm_80"),
    ("compute_80", "compute_80"),
];

/// What a build script finds in its environment.
#[derive(Debug)]
pub struct Environment {
    /// Is `CARGO_FEATURE_CUDA` set?
    pub cuda: bool,
    /// `OUT_DIR`.
    pub out_dir: String,
    /// `NVCC`.
    pub nvcc: Option<String>,
    /// `LA_CUDA_ARCH`.
    pub arch: Option<String>,
    /// Is `LA_CUDA_LINEINFO` set?
    pub lineinfo: bool,
}

/// A run of the compiler. The output is removed before it: the compiler does not
/// reliably overwrite one that is there.
#[derive(Debug)]
pub struct Run {
    pub program: String,
    pub args: Vec<String>,
    /// The file that is written.
    pub output: String,
    /// The line that is printed before the run.
    pub notice: String,
}

/// What a build script does for one kernel file.
#[derive(Debug)]
pub struct Plan {
    /// The lines that are printed first.
    pub directives: Vec<String>,
    /// The run, none where the feature is off.
    pub run: Option<Run>,
}

/// One step of a plan.
#[derive(Debug, PartialEq, Eq)]
pub enum Step {
    /// A line is printed.
    Print(String),
    /// A file is removed, if it is there.
    Remove(String),
    /// The compiler runs.
    Start { program: String, args: Vec<String> },
}

/// What a step stands for.
pub ghost enum Act {
    Print(Seq<char>),
    Remove(Seq<char>),
    Start { program: Seq<char>, args: Seq<Seq<char>> },
}

impl Step {
    /// What the step stands for.
    pub open spec fn view(&self) -> Act {
        match *self {
            Step::Print(line) => Act::Print(line@),
            Step::Remove(path) => Act::Remove(path@),
            Step::Start { program, args } => Act::Start {
                program: program@,
                args: crate::text::texts(args@),
            },
        }
    }
}

/// What steps stand for.
pub open spec fn acts(steps: Seq<Step>) -> Seq<Act> {
    Seq::new(steps.len(), |i: int| steps[i]@)
}

/// The printing of lines.
pub open spec fn prints(lines: Seq<Seq<char>>) -> Seq<Act> {
    Seq::new(lines.len(), |i: int| Act::Print(lines[i]))
}

/// How a run ended.
#[derive(Debug)]
pub enum Outcome {
    /// It worked, and the output has this many bytes.
    Written(usize),
    /// It failed with this status.
    Failed(String),
    /// It could not be started, for this reason.
    NotRun(String),
}

/// The lines that are printed first.
pub open spec fn directives(src: Seq<char>) -> Seq<Seq<char>> {
    seq![
        "cargo:rerun-if-changed="@ + src,
        "cargo:rerun-if-env-changed=NVCC"@,
        "cargo:rerun-if-env-changed=LA_CUDA_ARCH"@,
        "cargo:rerun-if-env-changed=LA_CUDA_LINEINFO"@,
    ]
}

/// Do two parts of an architecture list make a pair, `compute_XY,code=sm_XY`?
pub open spec fn is_pair(parts: Seq<Seq<char>>, i: int) -> bool {
    i + 1 < parts.len() && crate::text::begins_with(parts[i], "compute_"@)
        && crate::text::begins_with(parts[i + 1], "code="@)
}

/// The flags for the parts of an architecture list from `i` on: one for a pair,
/// and one for any other part.
pub open spec fn arch_flags_from(parts: Seq<Seq<char>>, i: int) -> Seq<Seq<char>>
    decreases parts.len() - i,
{
    if !(0 <= i < parts.len()) {
        Seq::empty()
    } else if is_pair(parts, i) {
        seq!["--generate-code=arch="@ + parts[i] + ","@ + parts[i + 1]] + arch_flags_from(
            parts,
            i + 2,
        )
    } else {
        seq!["--generate-code="@ + parts[i]] + arch_flags_from(parts, i + 1)
    }
}

/// The flag of a default target.
pub open spec fn default_flag(arch: Seq<char>, code: Seq<char>) -> Seq<char> {
    "--generate-code=arch="@ + arch + ",code="@ + code
}

/// The flags of the default targets.
pub open spec fn default_flags() -> Seq<Seq<char>> {
    Seq::new(4, |i: int| default_flag(DEFAULT_ARCHES[i].0@, DEFAULT_ARCHES[i].1@))
}

/// The architecture flags: those of the list where one is given that is not
/// blank, otherwise those of the default targets.
pub open spec fn arch_flags(list: Option<Seq<char>>) -> Seq<Seq<char>> {
    match list {
        Some(l) => if crate::text::trimmed(l).len() > 0 {
            arch_flags_from(
                crate::text::comma_parts(l).map_values(|p: Seq<char>| crate::text::trimmed(p)),
                0,
            )
        } else {
            default_flags()
        },
        None => default_flags(),
    }
}

/// One `--entries` for each name, so that no name is split.
pub open spec fn entry_flags(entries: Seq<Seq<char>>) -> Seq<Seq<char>>
    decreases entries.len(),
{
    if entries.len() == 0 {
        Seq::empty()
    } else {
        entry_flags(entries.drop_last()).push("--entries"@).push(entries.last())
    }
}

/// The flags that keep the arithmetic exact: every kernel has a twin that it
/// must agree with.
pub open spec fn numeric_flags() -> Seq<Seq<char>> {
    seq!["--ftz=false"@, "--prec-div=true"@, "--prec-sqrt=true"@, "--fmad=true"@]
}

/// The texts of string slices.
pub open spec fn slice_texts(v: Seq<&str>) -> Seq<Seq<char>> {
    Seq::new(v.len(), |i: int| v[i]@)
}

/// The arguments of the compiler.
pub open spec fn compiler_args(
    src: Seq<char>,
    output: Seq<char>,
    entries: Option<Seq<Seq<char>>>,
    arch: Option<Seq<char>>,
    lineinfo: bool,
) -> Seq<Seq<char>> {
    seq!["-O3"@, "-std=c++17"@, "--fatbin"@] + arch_flags(arch) + (match entries {
        Some(names) => entry_flags(names),
        None => Seq::empty(),
    }) + numeric_flags() + (if lineinfo {
        seq!["-lineinfo"@]
    } else {
        Seq::empty()
    }) + seq!["-o"@, output, src]
}

/// Texts with a space between them.
pub open spec fn spaced(parts: Seq<Seq<char>>) -> Seq<char>
    decreases parts.len(),
{
    if parts.len() == 0 {
        Seq::empty()
    } else if parts.len() == 1 {
        parts[0]
    } else {
        spaced(parts.drop_last()) + " "@ + parts.last()
    }
}

impl Environment {
    /// The compiler, `nvcc` where none is named.
    pub open spec fn compiler(self) -> Seq<char> {
        match self.nvcc {
            Some(p) => p@,
            None => "nvcc"@,
        }
    }

    /// Where an output goes.
    pub open spec fn output(self, out_name: Seq<char>) -> Seq<char> {
        crate::text::path_join(self.out_dir@, out_name)
    }
}

impl Plan {
    /// The plan is that for a file.
    pub open spec fn is_for(
        self,
        src: Seq<char>,
        out_name: Seq<char>,
        entries: Option<Seq<Seq<char>>>,
        env: Environment,
    ) -> bool {
        let output = env.output(out_name);
        let args = compiler_args(src, output, entries, crate::text::optional(env.arch), env.lineinfo);
        &&& crate::text::texts(self.directives@) == directives(src)
        &&& match self.run {
            Some(run) => {
                &&& env.cuda
                &&& run.program@ == env.compiler()
                &&& crate::text::texts(run.args@) == args
                &&& run.output@ == output
                &&& run.notice@ == "cargo:warning=nvcc "@ + spaced(args)
            },
            None => !env.cuda,
        }
    }
}

impl Plan {
    /// What is done, in this order: the first lines are printed; then, where the
    /// compiler runs, the file that it writes is removed, the line before the run is
    /// printed, and the compiler runs.
    pub open spec fn acts(self) -> Seq<Act> {
        prints(crate::text::texts(self.directives@)) + (match self.run {
            Some(run) => seq![
                Act::Remove(run.output@),
                Act::Print(run.notice@),
                Act::Start { program: run.program@, args: crate::text::texts(run.args@) },
            ],
            None => Seq::empty(),
        })
    }

    /// What is done, in order.
    pub fn steps(&self) -> (r: Vec<Step>)
        ensures
            acts(r@) == self.acts(),
    {
        let mut v: Vec<Step> = Vec::new();
        let ghost lines = crate::text::texts(self.directives@);
        let mut i: usize = 0;
        while i < self.directives.len()
            invariant
                i <= lines.len(),
                lines == crate::text::texts(self.directives@),
                acts(v@) == prints(lines.take(i as int)),
            decreases lines.len() - i,
        {
            let ghost had = acts(v@);
            v.push(Step::Print(self.directives[i].as_str().to_owned()));
            assert(acts(v@) =~= had.push(Act::Print(lines[i as int])));
            assert(prints(lines.take(i + 1)) =~= prints(lines.take(i as int)).push(
                Act::Print(lines[i as int]),
            ));
            i += 1;
        }
        assert(lines.take(lines.len() as int) =~= lines);
        if let Some(run) = &self.run {
            v.push(Step::Remove(run.output.as_str().to_owned()));
            v.push(Step::Print(run.notice.as_str().to_owned()));
            let program = run.program.as_str().to_owned();
            v.push(Step::Start { program, args: copies(&run.args) });
        }
        assert(acts(v@) =~= self.acts());
        v
    }
}

/// Where the compiler runs, the file that it writes is removed before that, and
/// the compiler runs once, as the last thing: what is measured afterwards was
/// written by this run.
pub proof fn an_old_output_is_removed_first(
    plan: Plan,
    src: Seq<char>,
    out_name: Seq<char>,
    entries: Option<Seq<Seq<char>>>,
    env: Environment,
)
    requires
        plan.is_for(src, out_name, entries, env),
    ensures
        ({
            let steps = plan.acts();
            if env.cuda {
                &&& steps.len() >= 3
                &&& steps[steps.len() - 3] == Act::Remove(env.output(out_name))
                &&& steps.last() is Start
                &&& forall|i: int|
                    0 <= i < steps.len() - 1 ==> !((#[trigger] steps[i]) is Start)
            } else {
                forall|i: int| 0 <= i < steps.len() ==> (#[trigger] steps[i]) is Print
            }
        }),
{
}

/// Copies of texts.
fn copies(v: &Vec<String>) -> (r: Vec<String>)
    ensures
        crate::text::texts(r@) == crate::text::texts(v@),
{
    let ghost all = crate::text::texts(v@);
    let mut r: Vec<String> = Vec::new();
    let mut i: usize = 0;
    while i < v.len()
        invariant
            i <= all.len(),
            all == crate::text::texts(v@),
            crate::text::texts(r@) == all.take(i as int),
        decreases all.len() - i,
    {
        push_text(&mut r, v[i].as_str());
        i += 1;
        assert(crate::text::texts(r@) =~= all.take(i as int));
    }
    assert(all.take(all.len() as int) =~= all);
    r
}

/// A text behind another.
fn joined(a: &str, b: &str) -> (r: String)
    ensures
        r@ == a@ + b@,
{
    let mut r = a.to_owned();
    r.append(b);
    r
}

/// Appends a copy of a text.
fn push_text(v: &mut Vec<String>, s: &str)
    ensures
        crate::text::texts(final(v)@) == crate::text::texts(old(v)@).push(s@),
{
    let ghost before = crate::text::texts(v@);
    v.push(s.to_owned());
    assert(crate::text::texts(v@) =~= before.push(s@));
}

/// Appends the architecture flags.
fn push_arch_flags(v: &mut Vec<String>, list: &Option<String>)
    ensures
        crate::text::texts(final(v)@) == crate::text::texts(old(v)@) + arch_flags(crate::text::optional(*list)),
{
    let ghost before = crate::text::texts(v@);
    if let Some(l) = list {
        let chars = chars_of(l.as_str());
        let bare = chars_of(trim(&chars).as_str());
        if bare.len() > 0 {
            let parts = trimmed_parts(&chars);
            let ghost all = crate::text::texts(parts@);
            let mut i: usize = 0;
            assert(before + arch_flags_from(all, 0) =~= crate::text::texts(v@) + arch_flags_from(
                all,
                0,
            ));
            while i < parts.len()
                invariant
                    i <= all.len(),
                    all == crate::text::texts(parts@),
                    before + arch_flags_from(all, 0) == crate::text::texts(v@) + arch_flags_from(
                        all,
                        i as int,
                    ),
                decreases all.len() - i,
            {
                let ghost had = crate::text::texts(v@);
                if i + 1 < parts.len() && text_begins_with(parts[i].as_str(), "compute_")
                    && text_begins_with(parts[i + 1].as_str(), "code=") {
                    let mut flag = joined("--generate-code=arch=", parts[i].as_str());
                    flag.append(",");
                    flag.append(parts[i + 1].as_str());
                    push_text(v, flag.as_str());
                    assert(had.push(flag@) + arch_flags_from(all, i + 2) =~= had + (seq![flag@]
                        + arch_flags_from(all, i + 2)));
                    i += 2;
                } else {
                    let flag = joined("--generate-code=", parts[i].as_str());
                    push_text(v, flag.as_str());
                    assert(had.push(flag@) + arch_flags_from(all, i + 1) =~= had + (seq![flag@]
                        + arch_flags_from(all, i + 1)));
                    i += 1;
                }
            }
            assert(crate::text::texts(v@) + Seq::<Seq<char>>::empty() =~= crate::text::texts(v@));
            return ;
        }
    }
    let mut i: usize = 0;
    assert(before + default_flags().take(0) =~= before);
    while i < 4
        invariant
            i <= 4,
            crate::text::texts(v@) == before + default_flags().take(i as int),
        decreases 4 - i,
    {
        let (arch, code) = DEFAULT_ARCHES[i];
        let mut flag = joined("--generate-code=arch=", arch);
        flag.append(",code=");
        flag.append(code);
        push_text(v, flag.as_str());
        i += 1;
        assert(crate::text::texts(v@) =~= before + default_flags().take(i as int));
    }
    assert(default_flags().take(4) =~= default_flags());
}

/// Appends an `--entries` for each name.
fn push_entry_flags(v: &mut Vec<String>, entries: &Vec<&str>)
    ensures
        crate::text::texts(final(v)@) == crate::text::texts(old(v)@) + entry_flags(
            slice_texts(entries@),
        ),
{
    let ghost before = crate::text::texts(v@);
    let ghost all = slice_texts(entries@);
    let mut i: usize = 0;
    assert(before + entry_flags(all.take(0)) =~= before);
    while i < entries.len()
        invariant
            i <= all.len(),
            all == slice_texts(entries@),
            crate::text::texts(v@) == before + entry_flags(all.take(i as int)),
        decreases all.len() - i,
    {
        assert(all.take(i + 1).drop_last() =~= all.take(i as int));
        push_text(v, "--entries");
        push_text(v, entries[i]);
        i += 1;
        assert(crate::text::texts(v@) =~= before + entry_flags(all.take(i as int)));
    }
    assert(all.take(all.len() as int) =~= all);
}

/// Texts with a space between them.
fn spaced_string(parts: &Vec<String>) -> (r: String)
    ensures
        r@ == spaced(crate::text::texts(parts@)),
{
    let ghost all = crate::text::texts(parts@);
    let mut r = String::new();
    let mut i: usize = 0;
    while i < parts.len()
        invariant
            i <= all.len(),
            all == crate::text::texts(parts@),
            r@ == spaced(all.take(i as int)),
        decreases all.len() - i,
    {
        assert(all.take(i + 1).drop_last() =~= all.take(i as int));
        if i > 0 {
            r.append(" ");
            r.append(parts[i].as_str());
        } else {
            r.append(parts[i].as_str());
            assert(r@ =~= all[0]);
        }
        i += 1;
    }
    assert(all.take(all.len() as int) =~= all);
    r
}

/// The names of a list, if there is one.
pub open spec fn entry_texts(entries: Option<&Vec<&str>>) -> Option<Seq<Seq<char>>> {
    match entries {
        Some(names) => Some(slice_texts(names@)),
        None => None,
    }
}

/// What is done for one kernel file: the lines that are printed, and the run of
/// the compiler where the feature is on.
pub fn compile(src: &str, out_name: &str, entries: Option<&Vec<&str>>, env: &Environment) -> (r:
    Plan)
    ensures
        r.is_for(src@, out_name@, entry_texts(entries), *env),
{
    let mut lines: Vec<String> = Vec::new();
    let first = joined("cargo:rerun-if-changed=", src);
    push_text(&mut lines, first.as_str());
    push_text(&mut lines, "cargo:rerun-if-env-changed=NVCC");
    push_text(&mut lines, "cargo:rerun-if-env-changed=LA_CUDA_ARCH");
    push_text(&mut lines, "cargo:rerun-if-env-changed=LA_CUDA_LINEINFO");
    assert(crate::text::texts(lines@) =~= directives(src@));
    if !env.cuda {
        return Plan { directives: lines, run: None };
    }
    let output = join_path(env.out_dir.as_str(), out_name);
    let program = match &env.nvcc {
        Some(p) => p.as_str().to_owned(),
        None => "nvcc".to_owned(),
    };
    let mut args: Vec<String> = Vec::new();
    push_text(&mut args, "-O3");
    push_text(&mut args, "-std=c++17");
    push_text(&mut args, "--fatbin");
    assert(crate::text::texts(args@) =~= seq!["-O3"@, "-std=c++17"@, "--fatbin"@]);
    push_arch_flags(&mut args, &env.arch);
    let ghost part = crate::text::texts(args@);
    if let Some(names) = entries {
        push_entry_flags(&mut args, names);
    } else {
        assert(part + Seq::<Seq<char>>::empty() =~= part);
    }
    let ghost part = crate::text::texts(args@);
    push_text(&mut args, "--ftz=false");
    push_text(&mut args, "--prec-div=true");
    push_text(&mut args, "--prec-sqrt=true");
    push_text(&mut args, "--fmad=true");
    assert(crate::text::texts(args@) =~= part + numeric_flags());
    let ghost part = crate::text::texts(args@);
    if env.lineinfo {
        push_text(&mut args, "-lineinfo");
        assert(crate::text::texts(args@) =~= part + seq!["-lineinfo"@]);
    } else {
        assert(part + Seq::<Seq<char>>::empty() =~= part);
    }
    let ghost part = crate::text::texts(args@);
    push_text(&mut args, "-o");
    push_text(&mut args, output.as_str());
    push_text(&mut args, src);
    assert(crate::text::texts(args@) =~= part + seq!["-o"@, output@, src@]);
    let line = spaced_string(&args);
    let notice = joined("cargo:warning=nvcc ", line.as_str());
    Plan { directives: lines, run: Some(Run { program, args, output, notice }) }
}

/// What the embedded part of a file is called.
pub open spec fn extent(entries: Option<Seq<Seq<char>>>) -> Seq<char> {
    match entries {
        Some(names) => crate::text::decimal(names.len()) + " of the file's kernels"@,
        None => "all kernels"@,
    }
}

/// What comes of a run: the size of the output and the line that is printed, or
/// the message with which the build stops.
pub open spec fn outcome_of(
    out_name: Seq<char>,
    entries: Option<Seq<Seq<char>>>,
    program: Seq<char>,
    outcome: Outcome,
) -> Result<(nat, Seq<char>), Seq<char>> {
    match outcome {
        Outcome::Written(n) => Ok(
            (
                n as nat,
                "cargo:warning="@ + out_name + ": "@ + crate::text::decimal(n as nat) + " bytes ("@
                    + extent(entries) + ")"@,
            ),
        ),
        Outcome::Failed(status) => Err("nvcc failed with status "@ + status@),
        Outcome::NotRun(why) => Err(
            "could not run `"@ + program + "`: "@ + why@
                + " (set NVCC=/path/to/nvcc, or build with --no-default-features for the CPU-only path)"@,
        ),
    }
}

/// What comes of a run of the compiler.
pub fn finished(
    out_name: &str,
    entries: Option<&Vec<&str>>,
    program: &str,
    outcome: &Outcome,
) -> (r: Result<(usize, String), String>)
    ensures
        match r {
            Ok((n, line)) => outcome_of(out_name@, entry_texts(entries), program@, *outcome) == Ok::<
                (nat, Seq<char>),
                Seq<char>,
            >((n as nat, line@)),
            Err(e) => outcome_of(out_name@, entry_texts(entries), program@, *outcome) == Err::<
                (nat, Seq<char>),
                Seq<char>,
            >(e@),
        },
{
    match outcome {
        Outcome::Written(n) => {
            let mut line = joined("cargo:warning=", out_name);
            line.append(": ");
            let size = usize_string(*n);
            line.append(size.as_str());
            line.append(" bytes (");
            let what = match entries {
                Some(names) => {
                    let count = usize_string(names.len());
                    joined(count.as_str(), " of the file's kernels")
                },
                None => "all kernels".to_owned(),
            };
            line.append(what.as_str());
            line.append(")");
            Ok((*n, line))
        },
        Outcome::Failed(status) => Err(joined("nvcc failed with status ", status.as_str())),
        Outcome::NotRun(why) => {
            let mut e = joined("could not run `", program);
            e.append("`: ");
            e.append(why.as_str());
            e.append(
                " (set NVCC=/path/to/nvcc, or build with --no-default-features for the CPU-only path)",
            );
            Err(e)
        },
    }
}

/// Compiles every kernel of `src` into `out_name` below `OUT_DIR`.
pub fn fatbin(src: &str, out_name: &str, env: &Environment) -> (r: Plan)
    ensures
        r.is_for(src@, out_name@, None, *env),
{
    compile(src, out_name, None, env)
}

/// Compiles only `entries` into `out_name`. The list must not be empty: such a
/// fatbin would resolve no kernel, and fail when it is loaded and not here.
pub fn fatbin_entries(
    src: &str,
    out_name: &str,
    entries: &Vec<&str>,
    env: &Environment,
) -> (r: Plan)
    requires
        entries@.len() > 0,
    ensures
        r.is_for(src@, out_name@, Some(slice_texts(entries@)), *env),
{
    compile(src, out_name, Some(entries), env)
}

/// Compiles the kernel file that a crate has by convention.
pub fn default_fatbin(crate_dir: &str, env: &Environment) -> (r: Plan)
    ensures
        r.is_for(
            crate::text::path_join(crate_dir@, "cuda/kernels.cu"@),
            "la_kernels.fatbin"@,
            None,
            *env,
        ),
{
    let src = join_path(crate_dir, "cuda/kernels.cu");
    fatbin(src.as_str(), "la_kernels.fatbin", env)
}

/// One source file of several, each of which becomes a module of its own.
#[derive(Debug)]
pub struct Source<'a> {
    pub path: &'a str,
    /// The name of the fatbin below `OUT_DIR`.
    pub out_name: &'a str,
    /// The kernels to compile, all of them where there is no list.
    pub entries: Option<Vec<&'a str>>,
}

impl<'a> Source<'a> {
    /// The names of the list, if there is one.
    pub open spec fn names(self) -> Option<Seq<Seq<char>>> {
        match self.entries {
            Some(names) => Some(slice_texts(names@)),
            None => None,
        }
    }
}

/// What is done for one of several sources.
#[derive(Debug)]
pub struct ModulePlan {
    pub plan: Plan,
    /// Where the fatbin goes.
    pub path: String,
    /// The line that tells the crate where.
    pub line: String,
}

/// A name without the ending `.fatbin`, however often it has it.
pub open spec fn stem(s: Seq<char>) -> Seq<char>
    decreases s.len(),
{
    if s.len() >= 7 && s.skip(s.len() - 7) == ".fatbin"@ {
        stem(s.take(s.len() - 7))
    } else {
        s
    }
}

/// The character that stands for `c` in the name of a variable.
pub open spec fn key_char(c: char) -> char {
    if 'a' <= c <= 'z' {
        (c as int - 32) as char
    } else if 'A' <= c <= 'Z' || '0' <= c <= '9' {
        c
    } else {
        '_'
    }
}

/// The part of a variable's name that stands for a fatbin.
pub open spec fn key_of(out_name: Seq<char>) -> Seq<char> {
    stem(out_name).map_values(|c: char| key_char(c))
}

/// The part of a variable's name that stands for a fatbin: `swin.fatbin` is
/// `SWIN`.
pub fn env_key(out_name: &str) -> (r: String)
    ensures
        r@ == key_of(out_name@),
{
    let s = chars_of(out_name);
    let ending = chars_of(".fatbin");
    let mut end: usize = s.len();
    proof {
        reveal_strlit(".fatbin");
        assert(s@.take(s@.len() as int) =~= s@);
    }
    while end >= 7 && word_stands_at(&s, end - 7, &ending)
        invariant
            end <= s@.len(),
            s@ == out_name@,
            ending@ == ".fatbin"@,
            ending@.len() == 7,
            stem(out_name@) == stem(s@.take(end as int)),
        decreases end,
    {
        proof {
            let part = s@.take(end as int);
            assert(part.skip(end - 7) =~= s@.subrange(end - 7, end as int));
            assert(part.take(end - 7) =~= s@.take(end - 7));
        }
        end -= 7;
    }
    let ghost kept = s@.take(end as int);
    proof {
        if end >= 7 {
            assert(kept.skip(end - 7) =~= s@.subrange(end - 7, end as int));
        }
    }
    let mut r = String::new();
    let mut i: usize = 0;
    while i < end
        invariant
            i <= end <= s@.len(),
            kept == s@.take(end as int),
            r@ == kept.take(i as int).map_values(|c: char| key_char(c)),
        decreases end - i,
    {
        let c: char = s[i];
        let k: char = if 'a' <= c && c <= 'z' {
            ((c as u8) - 32) as char
        } else if ('A' <= c && c <= 'Z') || ('0' <= c && c <= '9') {
            c
        } else {
            '_'
        };
        r.push(k);
        i += 1;
        assert(r@ =~= kept.take(i as int).map_values(|c: char| key_char(c)));
    }
    assert(kept.take(end as int) =~= kept);
    r
}

/// The part of a variable's name for a fatbin is fit for one: capital letters,
/// digits and underscores, as many as the name has without its ending.
pub proof fn keys_are_variable_names(out_name: Seq<char>)
    ensures
        key_of(out_name).len() == stem(out_name).len(),
        forall|i: int|
            0 <= i < key_of(out_name).len() ==> {
                let c = #[trigger] key_of(out_name)[i];
                'A' <= c <= 'Z' || '0' <= c <= '9' || c == '_'
            },
{
}

/// What is done for several sources, each of them into a fatbin of its own: a
/// shared translation unit would keep every kernel, and separate modules are
/// separate namespaces.
pub fn fatbin_modules(sources: &Vec<Source>, env: &Environment) -> (r: Vec<ModulePlan>)
    requires
        sources@.len() > 0,
        forall|i: int|
            0 <= i < sources@.len() ==> ((#[trigger] sources@[i]).names() matches Some(names)
                ==> names.len() > 0),
    ensures
        r@.len() == sources@.len(),
        forall|i: int|
            0 <= i < sources@.len() ==> {
                let s = sources@[i];
                let m = #[trigger] r@[i];
                &&& m.plan.is_for(s.path@, s.out_name@, s.names(), *env)
                &&& m.path@ == env.output(s.out_name@)
                &&& m.line@ == "cargo:rustc-env=LIGHTGPU_FATBIN_"@ + key_of(s.out_name@) + "="@
                    + env.output(s.out_name@)
            },
{
    let mut out: Vec<ModulePlan> = Vec::new();
    let mut i: usize = 0;
    while i < sources.len()
        invariant
            i <= sources@.len(),
            out@.len() == i,
            forall|j: int|
                0 <= j < i ==> {
                    let s = sources@[j];
                    let m = #[trigger] out@[j];
                    &&& m.plan.is_for(s.path@, s.out_name@, s.names(), *env)
                    &&& m.path@ == env.output(s.out_name@)
                    &&& m.line@ == "cargo:rustc-env=LIGHTGPU_FATBIN_"@ + key_of(s.out_name@)
                        + "="@ + env.output(s.out_name@)
                },
        decreases sources@.len() - i,
    {
        let source = &sources[i];
        let plan = match &source.entries {
            Some(names) => compile(source.path, source.out_name, Some(names), env),
            None => compile(source.path, source.out_name, None, env),
        };
        let path = join_path(env.out_dir.as_str(), source.out_name);
        let key = env_key(source.out_name);
        let mut line = joined("cargo:rustc-env=LIGHTGPU_FATBIN_", key.as_str());
        line.append("=");
        line.append(path.as_str());
        out.push(ModulePlan { plan, path, line });
        i += 1;
    }
    out
}

/// Where the toolkit's kernel file may be, in the order in which the places are
/// tried: the directory that `LA_GPU_DIR` names, which overrides the rest, the path
/// that the toolkit's own build script exported, and directories near the crate that
/// asks.
pub open spec fn kernel_file_places(
    exported: Option<Seq<char>>,
    dir: Option<Seq<char>>,
    manifest: Option<Seq<char>>,
) -> Seq<Seq<char>> {
    (match dir {
        Some(d) => seq![crate::text::path_join(d, "cuda/kernels.cu"@)],
        None => Seq::empty(),
    }) + (match exported {
        Some(p) => seq![p],
        None => Seq::empty(),
    }) + (match manifest {
        Some(m) => seq![
            near(m, "../lightgpu"@),
            near(m, "../../lightgpu"@),
            near(m, "third_party/lightgpu"@),
        ],
        None => Seq::empty(),
    })
}

/// The kernel file in a directory near the manifest.
pub open spec fn near(manifest: Seq<char>, rel: Seq<char>) -> Seq<char> {
    crate::text::path_join(crate::text::path_join(manifest, rel), "cuda/kernels.cu"@)
}

/// The kernel file in a directory near the manifest.
fn near_path(manifest: &str, rel: &str) -> (r: String)
    ensures
        r@ == near(manifest@, rel@),
{
    let dir = join_path(manifest, rel);
    join_path(dir.as_str(), "cuda/kernels.cu")
}

/// The places where the toolkit's kernel file may be, the preferred first.
pub fn kernel_file_candidates(
    exported: Option<&str>,
    dir: Option<&str>,
    manifest: Option<&str>,
) -> (r: Vec<String>)
    ensures
        crate::text::texts(r@) == kernel_file_places(
            crate::text::optional_slice(exported),
            crate::text::optional_slice(dir),
            crate::text::optional_slice(manifest),
        ),
{
    let mut v: Vec<String> = Vec::new();
    if let Some(d) = dir {
        let p = join_path(d, "cuda/kernels.cu");
        push_text(&mut v, p.as_str());
    }
    if let Some(p) = exported {
        push_text(&mut v, p);
    }
    if let Some(m) = manifest {
        let a = near_path(m, "../lightgpu");
        push_text(&mut v, a.as_str());
        let b = near_path(m, "../../lightgpu");
        push_text(&mut v, b.as_str());
        let c = near_path(m, "third_party/lightgpu");
        push_text(&mut v, c.as_str());
    }
    assert(crate::text::texts(v@) =~= kernel_file_places(
        crate::text::optional_slice(exported),
        crate::text::optional_slice(dir),
        crate::text::optional_slice(manifest),
    ));
    v
}

/// The first of the places that holds a file.
pub open spec fn first_present(places: Seq<Seq<char>>, present: Seq<bool>) -> Option<Seq<char>>
    decreases places.len(),
{
    if places.len() == 0 || present.len() == 0 {
        None
    } else if present[0] {
        Some(places[0])
    } else {
        first_present(places.drop_first(), present.drop_first())
    }
}

/// The toolkit's kernel file: the first candidate that is a file, where
/// `present` says of each whether it is one.
pub fn toolkit_kernels_cu(
    exported: Option<&str>,
    dir: Option<&str>,
    manifest: Option<&str>,
    present: &Vec<bool>,
) -> (r: Option<String>)
    ensures
        ({
            let places = kernel_file_places(
                crate::text::optional_slice(exported),
                crate::text::optional_slice(dir),
                crate::text::optional_slice(manifest),
            );
            crate::text::optional(r) == first_present(places, present@)
        }),
{
    let places = kernel_file_candidates(exported, dir, manifest);
    let ghost all = crate::text::texts(places@);
    let mut i: usize = 0;
    assert(all.skip(0) =~= all);
    assert(present@.skip(0) =~= present@);
    while i < places.len() && i < present.len()
        invariant
            i <= all.len(),
            i <= present@.len(),
            all == crate::text::texts(places@),
            all == kernel_file_places(
                crate::text::optional_slice(exported),
                crate::text::optional_slice(dir),
                crate::text::optional_slice(manifest),
            ),
            first_present(all, present@) == first_present(
                all.skip(i as int),
                present@.skip(i as int),
            ),
        decreases all.len() - i,
    {
        assert(all.skip(i as int).drop_first() =~= all.skip(i + 1));
        assert(present@.skip(i as int).drop_first() =~= present@.skip(i + 1));
        if present[i] {
            return Some(places[i].as_str().to_owned());
        }
        i += 1;
    }
    None
}

/// The kernel names that the toolkit defines: those of its kernel file, none
/// where the file is not found.
pub fn toolkit_kernel_names(source: Option<&str>) -> (r: Vec<String>)
    ensures
        crate::text::texts(r@) == toolkit_names(crate::text::optional_slice(source)),
{
    match source {
        Some(text) => kernel_names_in(text),
        None => {
            let r: Vec<String> = Vec::new();
            assert(crate::text::texts(r@) =~= Seq::<Seq<char>>::empty());
            r
        },
    }
}

/// The kernel names of a kernel file, none where there is none.
pub open spec fn toolkit_names(source: Option<Seq<char>>) -> Seq<Seq<char>> {
    match source {
        Some(text) => crate::build_support::names::kernel_names(text),
        None => Seq::empty(),
    }
}

/// Does the toolkit define `name`?
pub fn known_kernel(name: &str, source: Option<&str>) -> (r: bool)
    ensures
        r == toolkit_names(crate::text::optional_slice(source)).contains(name@),
{
    let names = toolkit_kernel_names(source);
    let ghost all = crate::text::texts(names@);
    let mut i: usize = 0;
    while i < names.len()
        invariant
            i <= all.len(),
            all == crate::text::texts(names@),
            all == toolkit_names(crate::text::optional_slice(source)),
            forall|j: int| 0 <= j < i ==> all[j] != name@,
        decreases all.len() - i,
    {
        if same_text(names[i].as_str(), name) {
            assert(all[i as int] == name@);
            return true;
        }
        i += 1;
    }
    false
}

/// A build with a list of kernels tells the compiler of each of them, in a flag
/// of its own, and of no other.
pub proof fn every_entry_has_its_flag(entries: Seq<Seq<char>>, i: int)
    requires
        0 <= i < entries.len(),
    ensures
        entry_flags(entries).len() == 2 * entries.len(),
        entry_flags(entries)[2 * i] == "--entries"@,
        entry_flags(entries)[2 * i + 1] == entries[i],
    decreases entries.len(),
{
    if entries.len() > 1 {
        if i < entries.len() - 1 {
            every_entry_has_its_flag(entries.drop_last(), i);
        } else {
            every_entry_has_its_flag(entries.drop_last(), 0);
        }
    } else {
        assert(entry_flags(entries.drop_last()).len() == 0);
    }
}

/// The documented form of an architecture list, pairs of `compute_XY` and
/// `code=sm_XY`, gives one flag for each pair.
pub proof fn every_pair_has_its_flag(parts: Seq<Seq<char>>, i: int)
    requires
        parts.len() % 2 == 0,
        0 <= i <= parts.len(),
        i % 2 == 0,
        forall|k: int| 0 <= k < parts.len() && k % 2 == 0 ==> #[trigger] is_pair(parts, k),
    ensures
        arch_flags_from(parts, i).len() == (parts.len() - i) / 2,
        forall|k: int|
            0 <= k < arch_flags_from(parts, i).len() ==> #[trigger] arch_flags_from(parts, i)[k]
                == "--generate-code=arch="@ + parts[i + 2 * k] + ","@ + parts[i + 2 * k + 1],
    decreases parts.len() - i,
{
    if i < parts.len() {
        assert(is_pair(parts, i));
        every_pair_has_its_flag(parts, i + 2);
        let rest = arch_flags_from(parts, i + 2);
        assert forall|k: int| 0 <= k < arch_flags_from(parts, i).len() implies
            #[trigger] arch_flags_from(parts, i)[k] == "--generate-code=arch="@ + parts[i + 2 * k]
            + ","@ + parts[i + 2 * k + 1] by {
            if k > 0 {
                assert(arch_flags_from(parts, i)[k] == rest[k - 1]);
                assert(i + 2 + 2 * (k - 1) == i + 2 * k);
            }
        }
    }
}

/// Line tables are asked for only where the environment says so, and that is all
/// it changes: they would keep every kernel, whatever the list names.
pub proof fn line_tables_are_opt_in(
    src: Seq<char>,
    output: Seq<char>,
    entries: Option<Seq<Seq<char>>>,
    arch: Option<Seq<char>>,
)
    ensures
        ({
            let without = compiler_args(src, output, entries, arch, false);
            let place = without.len() - 3;
            compiler_args(src, output, entries, arch, true) == without.insert(
                place,
                "-lineinfo"@,
            )
        }),
{
    let without = compiler_args(src, output, entries, arch, false);
    assert(compiler_args(src, output, entries, arch, true) =~= without.insert(
        without.len() - 3,
        "-lineinfo"@,
    ));
}

/// A list of kernels adds its flags to the arguments of the build without one, in one
/// place, and changes nothing else.
pub proof fn lists_only_add_their_flags(
    src: Seq<char>,
    output: Seq<char>,
    names: Seq<Seq<char>>,
    arch: Option<Seq<char>>,
    lineinfo: bool,
) -> (at: int)
    ensures
        ({
            let without = compiler_args(src, output, None, arch, lineinfo);
            &&& 3 <= at <= without.len() - 3
            &&& compiler_args(src, output, Some(names), arch, lineinfo) == without.take(at)
                + entry_flags(names) + without.skip(at)
        }),
{
    let head = seq!["-O3"@, "-std=c++17"@, "--fatbin"@] + arch_flags(arch);
    let tail = numeric_flags() + (if lineinfo {
        seq!["-lineinfo"@]
    } else {
        Seq::empty()
    }) + seq!["-o"@, output, src];
    let without = compiler_args(src, output, None, arch, lineinfo);
    let with = compiler_args(src, output, Some(names), arch, lineinfo);
    let at = head.len() as int;
    assert(without =~= head + tail);
    assert(with =~= head + entry_flags(names) + tail);
    assert(without.take(at) =~= head);
    assert(without.skip(at) =~= tail);
    at
}

/// Does an argument set how exact the arithmetic is?
pub open spec fn sets_arithmetic(arg: Seq<char>) -> bool {
    crate::text::begins_with(arg, "--ftz="@) || crate::text::begins_with(arg, "--prec-div="@)
        || crate::text::begins_with(arg, "--prec-sqrt="@) || crate::text::begins_with(
        arg,
        "--fmad="@,
    )
}

/// Every build keeps the arithmetic exact, with a list of kernels or without: no flush
/// to zero, no approximate division or root, fused multiplication; and no argument but
/// these says anything of it, among those that are not the caller's own paths and names.
pub proof fn arithmetic_is_exact_in_every_build(
    src: Seq<char>,
    output: Seq<char>,
    entries: Option<Seq<Seq<char>>>,
    arch: Option<Seq<char>>,
    lineinfo: bool,
)
    ensures
        ({
            let args = compiler_args(src, output, entries, arch, lineinfo);
            let bare = compiler_args(src, output, None, arch, lineinfo);
            &&& args.contains("--ftz=false"@)
            &&& args.contains("--prec-div=true"@)
            &&& args.contains("--prec-sqrt=true"@)
            &&& args.contains("--fmad=true"@)
            &&& forall|i: int|
                0 <= i < bare.len() - 2 && sets_arithmetic(#[trigger] bare[i]) ==> bare[i]
                    == "--ftz=false"@ || bare[i] == "--prec-div=true"@ || bare[i]
                    == "--prec-sqrt=true"@ || bare[i] == "--fmad=true"@
        }),
{
    let args = compiler_args(src, output, entries, arch, lineinfo);
    let bare = compiler_args(src, output, None, arch, lineinfo);
    let flags = arch_flags(arch);
    let base = 3 + flags.len();
    let listed = match entries {
        Some(names) => entry_flags(names).len(),
        None => 0,
    };
    assert(args[(base + listed) as int] == "--ftz=false"@);
    assert(args[(base + listed + 1) as int] == "--prec-div=true"@);
    assert(args[(base + listed + 2) as int] == "--prec-sqrt=true"@);
    assert(args[(base + listed + 3) as int] == "--fmad=true"@);
    assert forall|i: int| 0 <= i < bare.len() - 2 && sets_arithmetic(#[trigger] bare[i]) implies
        bare[i] == "--ftz=false"@ || bare[i] == "--prec-div=true"@ || bare[i] == "--prec-sqrt=true"@
        || bare[i] == "--fmad=true"@ by {
        lemma_plain_arguments();
        if 3 <= i < base {
            assert(bare[i] == flags[i - 3]);
            architectures_have_flags_of_their_own(arch, i - 3);
            lemma_no_arithmetic(flags[i - 3]);
        }
    }
}

/// With a list of kernels too: an argument that says something of the arithmetic is one
/// of the four, or one of the names of the list, or one of the two paths.
pub proof fn lists_leave_the_arithmetic_alone(
    src: Seq<char>,
    output: Seq<char>,
    names: Seq<Seq<char>>,
    arch: Option<Seq<char>>,
    lineinfo: bool,
    i: int,
)
    requires
        ({
            let args = compiler_args(src, output, Some(names), arch, lineinfo);
            0 <= i < args.len() - 2 && sets_arithmetic(args[i]) && !names.contains(args[i])
        }),
    ensures
        ({
            let arg = compiler_args(src, output, Some(names), arch, lineinfo)[i];
            arg == "--ftz=false"@ || arg == "--prec-div=true"@ || arg == "--prec-sqrt=true"@ || arg
                == "--fmad=true"@
        }),
{
    let without = compiler_args(src, output, None, arch, lineinfo);
    let with = compiler_args(src, output, Some(names), arch, lineinfo);
    let flags = entry_flags(names);
    let at = lists_only_add_their_flags(src, output, names, arch, lineinfo);
    arithmetic_is_exact_in_every_build(src, output, None, arch, lineinfo);
    if i < at {
        assert(with[i] == without[i]);
    } else if i < at + flags.len() {
        let k = i - at;
        assert(with[i] == flags[k]);
        if names.len() == 0 {
            assert(flags.len() == 0);
        } else {
            every_entry_has_its_flag(names, 0);
            every_entry_has_its_flag(names, k / 2);
            if k % 2 == 0 {
                reveal_strlit("--entries");
                reveal_strlit("--ftz=");
                reveal_strlit("--prec-div=");
                reveal_strlit("--prec-sqrt=");
                reveal_strlit("--fmad=");
                assert("--entries"@.take(6)[2] != 'f');
                assert("--entries"@.take(7)[2] != 'f');
            } else {
                assert(names[k / 2] == with[i]);
            }
        }
    } else {
        assert(with[i] == without[i - flags.len()]);
    }
}

/// An architecture flag says nothing of the arithmetic.
proof fn lemma_no_arithmetic(arg: Seq<char>)
    requires
        crate::text::begins_with(arg, "--generate-code="@),
    ensures
        !sets_arithmetic(arg),
{
    reveal_strlit("--generate-code=");
    reveal_strlit("--ftz=");
    reveal_strlit("--prec-div=");
    reveal_strlit("--prec-sqrt=");
    reveal_strlit("--fmad=");
    assert(arg.take(16)[2] == 'g');
    assert(arg[2] == 'g');
    if crate::text::begins_with(arg, "--ftz="@) {
        assert(arg.take(6)[2] == 'f');
    }
    if crate::text::begins_with(arg, "--prec-div="@) {
        assert(arg.take(11)[2] == 'p');
    }
    if crate::text::begins_with(arg, "--prec-sqrt="@) {
        assert(arg.take(12)[2] == 'p');
    }
    if crate::text::begins_with(arg, "--fmad="@) {
        assert(arg.take(7)[2] == 'f');
    }
}

/// Nor do the plain arguments.
proof fn lemma_plain_arguments()
    ensures
        !sets_arithmetic("-O3"@),
        !sets_arithmetic("-std=c++17"@),
        !sets_arithmetic("--fatbin"@),
        !sets_arithmetic("-lineinfo"@),
        !sets_arithmetic("-o"@),
{
    reveal_strlit("-O3");
    reveal_strlit("-std=c++17");
    reveal_strlit("--fatbin");
    reveal_strlit("-lineinfo");
    reveal_strlit("-o");
    reveal_strlit("--ftz=");
    reveal_strlit("--prec-div=");
    reveal_strlit("--prec-sqrt=");
    reveal_strlit("--fmad=");
    assert("-std=c++17"@.take(6)[1] != '-');
    assert("-std=c++17"@.take(7)[1] != '-');
    assert("-lineinfo"@.take(6)[1] != '-');
    assert("-lineinfo"@.take(7)[1] != '-');
    assert("--fatbin"@.take(6)[3] != 't');
    assert("--fatbin"@.take(7)[3] != 'm');
}

/// Every build is optimised, makes a fatbin, and ends in the file that it writes and the
/// source, in this order.
pub proof fn builds_name_their_files_last(
    src: Seq<char>,
    output: Seq<char>,
    entries: Option<Seq<Seq<char>>>,
    arch: Option<Seq<char>>,
    lineinfo: bool,
)
    ensures
        ({
            let args = compiler_args(src, output, entries, arch, lineinfo);
            &&& args.len() > 6
            &&& args.last() == src
            &&& args[args.len() - 2] == output
            &&& args[args.len() - 3] == "-o"@
            &&& args[0] == "-O3"@
            &&& args[1] == "-std=c++17"@
            &&& args[2] == "--fatbin"@
        }),
{
}

/// Architectures have flags of their own, each of which asks for code.
pub proof fn architectures_have_flags_of_their_own(arch: Option<Seq<char>>, i: int)
    requires
        0 <= i < arch_flags(arch).len(),
    ensures
        crate::text::begins_with(arch_flags(arch)[i], "--generate-code="@),
{
    reveal_strlit("--generate-code=");
    reveal_strlit("--generate-code=arch=");
    let listed = match arch {
        Some(l) => crate::text::trimmed(l).len() > 0,
        None => false,
    };
    if listed {
        let parts = crate::text::comma_parts(arch.unwrap()).map_values(
            |p: Seq<char>| crate::text::trimmed(p),
        );
        lemma_flags_ask_for_code(parts, 0, i);
    } else {
        let flag = default_flags()[i];
        assert(flag.take(16) =~= "--generate-code="@);
    }
}

proof fn lemma_flags_ask_for_code(parts: Seq<Seq<char>>, from: int, i: int)
    requires
        0 <= from,
        0 <= i < arch_flags_from(parts, from).len(),
    ensures
        crate::text::begins_with(arch_flags_from(parts, from)[i], "--generate-code="@),
    decreases parts.len() - from,
{
    reveal_strlit("--generate-code=");
    reveal_strlit("--generate-code=arch=");
    let step: int = if is_pair(parts, from) {
        2
    } else {
        1
    };
    if i == 0 {
        assert(arch_flags_from(parts, from)[0].take(16) =~= "--generate-code="@);
    } else {
        assert(arch_flags_from(parts, from)[i] == arch_flags_from(parts, from + step)[i - 1]);
        lemma_flags_ask_for_code(parts, from + step, i - 1);
    }
}

/// A part of an architecture list that makes no pair with the next has a flag of its
/// own.
pub proof fn every_other_part_has_its_flag(parts: Seq<Seq<char>>, i: int)
    requires
        0 <= i <= parts.len(),
        forall|k: int| i <= k < parts.len() ==> !#[trigger] is_pair(parts, k),
    ensures
        arch_flags_from(parts, i).len() == parts.len() - i,
        forall|k: int|
            0 <= k < parts.len() - i ==> #[trigger] arch_flags_from(parts, i)[k]
                == "--generate-code="@ + parts[i + k],
    decreases parts.len() - i,
{
    if i < parts.len() {
        every_other_part_has_its_flag(parts, i + 1);
        assert(!is_pair(parts, i));
        let rest = arch_flags_from(parts, i + 1);
        assert forall|k: int| 0 <= k < parts.len() - i implies #[trigger] arch_flags_from(
            parts,
            i,
        )[k] == "--generate-code="@ + parts[i + k] by {
            if k > 0 {
                assert(arch_flags_from(parts, i)[k] == rest[k - 1]);
            }
        }
    }
}

/// Two parts make a pair if the first names an architecture and the second its code.
pub proof fn pairs_are_an_architecture_and_its_code(
    parts: Seq<Seq<char>>,
    i: int,
    x: Seq<char>,
    y: Seq<char>,
)
    requires
        0 <= i < parts.len() - 1,
    ensures
        parts[i] == "compute_"@ + x && parts[i + 1] == "code="@ + y ==> is_pair(parts, i),
        is_pair(parts, i) ==> parts[i].take(8) == "compute_"@ && parts[i + 1].take(5) == "code="@,
{
    reveal_strlit("compute_");
    reveal_strlit("code=");
    crate::text::texts_begin_with_their_beginnings(parts[i], "compute_"@, x);
    crate::text::texts_begin_with_their_beginnings(parts[i + 1], "code="@, y);
}

/// Where no architecture is named, or the list is blank, the build is for three
/// generations, and has an intermediate image for newer ones. Where one is, the flags
/// are those of the parts between the commas, without the white space round them.
pub proof fn architectures_default_to_three_generations(l: Seq<char>)
    ensures
        arch_flags(None) == seq![
            "--generate-code=arch=compute_61,code=sm_61"@,
            "--generate-code=arch=compute_75,code=sm_75"@,
            "--generate-code=arch=compute_80,code=sm_80"@,
            "--generate-code=arch=compute_80,code=compute_80"@,
        ],
        crate::text::trimmed(l).len() == 0 ==> arch_flags(Some(l)) == arch_flags(None),
        crate::text::trimmed(l).len() > 0 ==> arch_flags(Some(l)) == arch_flags_from(
            Seq::new(
                crate::text::comma_parts(l).len(),
                |i: int| crate::text::trimmed(crate::text::comma_parts(l)[i]),
            ),
            0,
        ),
{
    reveal_strlit("--generate-code=arch=");
    reveal_strlit(",code=");
    reveal_strlit("compute_61");
    reveal_strlit("compute_75");
    reveal_strlit("compute_80");
    reveal_strlit("sm_61");
    reveal_strlit("sm_75");
    reveal_strlit("sm_80");
    reveal_strlit("--generate-code=arch=compute_61,code=sm_61");
    reveal_strlit("--generate-code=arch=compute_75,code=sm_75");
    reveal_strlit("--generate-code=arch=compute_80,code=sm_80");
    reveal_strlit("--generate-code=arch=compute_80,code=compute_80");
    let d = default_flags();
    assert(d[0] =~= "--generate-code=arch=compute_61,code=sm_61"@);
    assert(d[1] =~= "--generate-code=arch=compute_75,code=sm_75"@);
    assert(d[2] =~= "--generate-code=arch=compute_80,code=sm_80"@);
    assert(d[3] =~= "--generate-code=arch=compute_80,code=compute_80"@);
    assert(d =~= seq![
        "--generate-code=arch=compute_61,code=sm_61"@,
        "--generate-code=arch=compute_75,code=sm_75"@,
        "--generate-code=arch=compute_80,code=sm_80"@,
        "--generate-code=arch=compute_80,code=compute_80"@,
    ]);
    assert(crate::text::comma_parts(l).map_values(|p: Seq<char>| crate::text::trimmed(p))
        =~= Seq::new(
        crate::text::comma_parts(l).len(),
        |i: int| crate::text::trimmed(crate::text::comma_parts(l)[i]),
    ));
}

/// A plan for a source with the feature on runs the compiler that is named, or `nvcc`,
/// with the arguments of the source, list, architectures and line tables, writes the
/// file below the directory for outputs, and says so; without the feature it runs none.
/// Either way the build is repeated when the source or a variable changes.
pub proof fn plans_run_the_compiler_on_their_source(
    plan: Plan,
    src: Seq<char>,
    out_name: Seq<char>,
    entries: Option<Seq<Seq<char>>>,
    env: Environment,
)
    requires
        plan.is_for(src, out_name, entries, env),
    ensures
        plan.run is Some <==> env.cuda,
        plan.directives@.len() == 4,
        plan.directives@[0]@ == "cargo:rerun-if-changed="@ + src,
        plan.directives@[1]@ == "cargo:rerun-if-env-changed=NVCC"@,
        plan.directives@[2]@ == "cargo:rerun-if-env-changed=LA_CUDA_ARCH"@,
        plan.directives@[3]@ == "cargo:rerun-if-env-changed=LA_CUDA_LINEINFO"@,
        plan.run matches Some(run) ==> {
            let args = compiler_args(
                src,
                run.output@,
                entries,
                crate::text::optional(env.arch),
                env.lineinfo,
            );
            &&& run.output@ == crate::text::path_join(env.out_dir@, out_name)
            &&& env.nvcc matches Some(p) ==> run.program@ == p@
            &&& env.nvcc is None ==> run.program@ == "nvcc"@
            &&& run.args@.len() == args.len()
            &&& forall|i: int| 0 <= i < args.len() ==> (#[trigger] run.args@[i])@ == args[i]
            &&& run.notice@ == "cargo:warning=nvcc "@ + spaced(args)
        },
{
    let lines = crate::text::texts(plan.directives@);
    assert(lines.len() == 4);
    assert(lines[0] == plan.directives@[0]@ && lines[1] == plan.directives@[1]@ && lines[2]
        == plan.directives@[2]@ && lines[3] == plan.directives@[3]@);
    if let Some(run) = plan.run {
        let args = crate::text::texts(run.args@);
        assert forall|i: int| 0 <= i < args.len() implies (#[trigger] run.args@[i])@ == args[i] by {
        }
    }
}

/// Texts with a space between them: one more goes behind a space.
pub proof fn spaced_texts_grow_at_the_end(parts: Seq<Seq<char>>, t: Seq<char>)
    ensures
        spaced(seq![t]) == t,
        parts.len() > 0 ==> spaced(parts.push(t)) == spaced(parts) + seq![' '] + t,
{
    reveal_strlit(" ");
    assert(" "@ =~= seq![' ']);
    assert(parts.push(t).drop_last() =~= parts);
}

/// A build is done if the compiler wrote its output, and its result is the length of
/// that; otherwise it stops with what the compiler or the system said.
pub proof fn outcomes_are_what_the_compiler_left(
    out_name: Seq<char>,
    entries: Option<Seq<Seq<char>>>,
    program: Seq<char>,
    outcome: Outcome,
)
    ensures
        match outcome_of(out_name, entries, program, outcome) {
            Ok((n, line)) => {
                let what = match entries {
                    Some(names) => crate::text::decimal(names.len()) + " of the file's kernels"@,
                    None => "all kernels"@,
                };
                &&& outcome matches Outcome::Written(k)
                &&& n == k
                &&& line == "cargo:warning="@ + out_name + ": "@ + crate::text::decimal(k as nat)
                    + " bytes ("@ + what + ")"@
            },
            Err(e) => match outcome {
                Outcome::Written(_) => false,
                Outcome::Failed(status) => e == "nvcc failed with status "@ + status@,
                Outcome::NotRun(why) => crate::text::begins_with(
                    e,
                    "could not run `"@ + program + "`: "@ + why@,
                ),
            },
        },
{
    if let Outcome::NotRun(why) = outcome {
        let head = "could not run `"@ + program + "`: "@ + why@;
        let e = outcome_of(out_name, entries, program, outcome)->Err_0;
        assert(e.take(head.len() as int) =~= head);
    }
}

/// The ending does not count for the variable of a fatbin, however often a name has it,
/// and a name without it is taken whole.
pub proof fn endings_are_left_out(s: Seq<char>)
    ensures
        stem(s + ".fatbin"@) == stem(s),
        key_of(s + ".fatbin"@) == key_of(s),
        (s.len() < 7 || s.skip(s.len() - 7) != ".fatbin"@) ==> stem(s) == s,
{
    reveal_strlit(".fatbin");
    let t = s + ".fatbin"@;
    assert(t.skip(t.len() - 7) =~= ".fatbin"@);
    assert(t.take(t.len() - 7) =~= s);
}

/// A variable's name has the letters of the fatbin as capitals, its digits as they are,
/// and an underscore for all else.
pub proof fn variables_are_capitals(c: char)
    ensures
        'a' <= c <= 'z' ==> key_char(c) as int - 'A' as int == c as int - 'a' as int,
        'A' <= c <= 'Z' || '0' <= c <= '9' ==> key_char(c) == c,
        !('a' <= c <= 'z' || 'A' <= c <= 'Z' || '0' <= c <= '9') ==> key_char(c) == '_',
{
}

/// The directory that is named comes before the path that was exported, and both come
/// before what is near the crate that asks; none is left out.
pub proof fn the_named_directory_comes_first(p: Seq<char>, d: Seq<char>, m: Seq<char>)
    ensures
        ({
            let file = "cuda/kernels.cu"@;
            let near_by = seq![
                crate::text::path_join(crate::text::path_join(m, "../lightgpu"@), file),
                crate::text::path_join(crate::text::path_join(m, "../../lightgpu"@), file),
                crate::text::path_join(crate::text::path_join(m, "third_party/lightgpu"@), file),
            ];
            let named = seq![crate::text::path_join(d, file)];
            &&& kernel_file_places(Some(p), Some(d), Some(m)) == named + seq![p] + near_by
            &&& kernel_file_places(None, Some(d), Some(m)) == named + near_by
            &&& kernel_file_places(Some(p), None, Some(m)) == seq![p] + near_by
            &&& kernel_file_places(None, None, Some(m)) == near_by
            &&& kernel_file_places(Some(p), Some(d), None) == named + seq![p]
            &&& kernel_file_places(Some(p), None, None) == seq![p]
            &&& kernel_file_places(None, Some(d), None) == named
            &&& kernel_file_places(None, None, None) == Seq::<Seq<char>>::empty()
        }),
{
    let file = "cuda/kernels.cu"@;
    let near_by = seq![
        crate::text::path_join(crate::text::path_join(m, "../lightgpu"@), file),
        crate::text::path_join(crate::text::path_join(m, "../../lightgpu"@), file),
        crate::text::path_join(crate::text::path_join(m, "third_party/lightgpu"@), file),
    ];
    let named = seq![crate::text::path_join(d, file)];
    assert(kernel_file_places(Some(p), Some(d), Some(m)) =~= named + seq![p] + near_by);
    assert(kernel_file_places(None, Some(d), Some(m)) =~= named + near_by);
    assert(kernel_file_places(Some(p), None, Some(m)) =~= seq![p] + near_by);
    assert(kernel_file_places(None, None, Some(m)) =~= near_by);
    assert(kernel_file_places(Some(p), Some(d), None) =~= named + seq![p]);
    assert(kernel_file_places(Some(p), None, None) =~= seq![p]);
    assert(kernel_file_places(None, Some(d), None) =~= named);
    assert(kernel_file_places(None, None, None) =~= Seq::<Seq<char>>::empty());
}

/// The place that is taken holds a file, and none before it does; where none is taken,
/// none holds one.
pub proof fn the_first_place_with_a_file_is_taken(places: Seq<Seq<char>>, present: Seq<bool>)
    requires
        places.len() == present.len(),
    ensures
        match first_present(places, present) {
            Some(p) => exists|i: int|
                #![trigger places[i]]
                0 <= i < places.len() && places[i] == p && present[i] && forall|j: int|
                    0 <= j < i ==> !#[trigger] present[j],
            None => forall|j: int| 0 <= j < places.len() ==> !#[trigger] present[j],
        },
    decreases places.len(),
{
    if places.len() > 0 {
        if present[0] {
            assert(places[0] == places[0]);
        } else {
            let (q, r) = (places.drop_first(), present.drop_first());
            the_first_place_with_a_file_is_taken(q, r);
            match first_present(q, r) {
                Some(p) => {
                    let i = choose|i: int|
                        #![trigger q[i]]
                        0 <= i < q.len() && q[i] == p && r[i] && forall|j: int|
                            0 <= j < i ==> !#[trigger] r[j];
                    assert(places[i + 1] == p);
                    assert forall|j: int| 0 <= j < i + 1 implies !#[trigger] present[j] by {
                        if j > 0 {
                            assert(!r[j - 1]);
                        }
                    }
                },
                None => {
                    assert forall|j: int| 0 <= j < places.len() implies !#[trigger] present[j] by {
                        if j > 0 {
                            assert(!r[j - 1]);
                        }
                    }
                },
            }
        }
    }
}

/// Lists of names are taken one by one, in their order.
pub proof fn names_are_taken_one_by_one(v: Seq<&str>, i: int)
    requires
        0 <= i < v.len(),
    ensures
        slice_texts(v).len() == v.len(),
        slice_texts(v)[i] == v[i]@,
{
}

/// A plan prints its lines in their order; then, where the compiler runs, the file that it
/// writes is removed, the line before the run is printed and the compiler is started.
pub proof fn plans_are_carried_out_in_order(plan: Plan, i: int)
    ensures
        ({
            let n = plan.directives@.len() as int;
            let done = plan.acts();
            &&& 0 <= i < n ==> done[i] == Act::Print(plan.directives@[i]@)
            &&& match plan.run {
                None => done.len() == n,
                Some(run) => {
                    &&& done.len() == n + 3
                    &&& done[n] == Act::Remove(run.output@)
                    &&& done[n + 1] == Act::Print(run.notice@)
                    &&& done[n + 2] matches Act::Start { program, args }
                    &&& program == run.program@
                    &&& args.len() == run.args@.len()
                    &&& 0 <= i < args.len() ==> args[i] == run.args@[i]@
                },
            }
        }),
{
}

/// Steps stand for what they do, one by one.
pub proof fn steps_stand_for_what_they_do(
    steps: Seq<Step>,
    line: String,
    program: String,
    args: Vec<String>,
    i: int,
)
    ensures
        acts(steps).len() == steps.len(),
        0 <= i < steps.len() ==> acts(steps)[i] == steps[i]@,
        Step::Print(line)@ == Act::Print(line@),
        Step::Remove(line)@ == Act::Remove(line@),
        (Step::Start { program, args })@ matches Act::Start { program: p, args: a } && p == program@
            && a.len() == args@.len() && (0 <= i < a.len() ==> a[i] == args@[i]@),
{
}

/// A variable's name stands for the name of the fatbin character by character.
pub proof fn variables_follow_the_name(out_name: Seq<char>, i: int)
    requires
        0 <= i < stem(out_name).len(),
    ensures
        key_of(out_name).len() == stem(out_name).len(),
        key_of(out_name)[i] == key_char(stem(out_name)[i]),
{
}

/// Outputs go below the directory for outputs, and a source has the list that is given.
pub proof fn sources_keep_their_lists(
    env: Environment,
    source: Source,
    names: Vec<&str>,
    out_name: Seq<char>,
    i: int,
)
    ensures
        env.output(out_name) == crate::text::path_join(env.out_dir@, out_name),
        source.names() is Some <==> source.entries is Some,
        source.entries matches Some(v) ==> source.names().unwrap().len() == v@.len() && (0 <= i
            < v@.len() ==> source.names().unwrap()[i] == v@[i]@),
        entry_texts(None) is None,
        entry_texts(Some(&names)) matches Some(t) && t.len() == names@.len() && (0 <= i
            < names@.len() ==> t[i] == names@[i]@),
{
}

/// A compiler that could not be started is named, with the reason and what to set.
pub proof fn a_missing_compiler_is_named(
    out_name: Seq<char>,
    entries: Option<Seq<Seq<char>>>,
    program: Seq<char>,
    why: String,
)
    ensures
        outcome_of(out_name, entries, program, Outcome::NotRun(why)) == Err::<
            (nat, Seq<char>),
            Seq<char>,
        >(
            "could not run `"@ + program + "`: "@ + why@
                + " (set NVCC=/path/to/nvcc, or build with --no-default-features for the CPU-only path)"@,
        ),
{
}

/// The kernels of the toolkit are those that its kernel file declares.
pub proof fn the_toolkit_has_what_its_file_declares(source: Option<Seq<char>>)
    ensures
        match source {
            Some(text) => toolkit_names(source) == crate::build_support::names::kernel_names(text),
            None => toolkit_names(source).len() == 0,
        },
{
}

} // verus!
