//! The transformation pipeline, as a state machine.  Every decision the
//! pipeline makes is verified here; the caller performs each requested
//! `Action` (directory creation, file reads and writes, the scaffold and
//! build subprocesses) and feeds the observed result back as an `Event`.
//! Control flow is strictly linear and every failure aborts the whole run.
//!
//! The source entry is overwritten unconditionally, whatever the scaffold
//! reported: the embedded module body is the single source of truth.  The
//! build tool's exit status is not inspected; a build that produced no
//! artifacts surfaces as `ArtifactMissing` when the outputs are read back.

use vstd::prelude::*;
use vstd::string::*;
use crate::tokens::{Delim, Tok, render_list, render_tokens};
use crate::reflow::{reflow_list, token_stream_to_toml};
use crate::extract::{body_index, body_index_from, module_name, extract_declaration};
use crate::config::TomlDoc;
use crate::parse::parse_doc;
use crate::manifest::{
    DepSpec, SpecDepValue, extract_deps_spec, extract_dependencies, synth_spec, synthesize_manifest,
};
use crate::config::ser_doc;
use crate::embed::{EmbedConvention, embed_text, embed_output};

verus! {

/// How the configuration payload is interpreted: structured tokens to be
/// re-serialized, or a quoted path to a configuration-fragment file.
#[derive(Clone, Copy, PartialEq, Eq, Structural)]
pub enum PayloadMode {
    Inline,
    FileReference,
}

/// The run's configuration: payload interpretation and embedding convention.
#[derive(Clone, Copy, PartialEq, Eq, Structural)]
pub struct PipelineConfig {
    pub payload: PayloadMode,
    pub embedding: EmbedConvention,
}

/// Why a run aborted.  Every failure is fatal.
pub enum PipelineError {
    /// The enclosing project root could not be determined.
    MissingEnvironment,
    /// A directory, read or write failed; carries the offending path.
    IoFailure(String),
    /// The manifest, fragment file or inline payload is not valid
    /// configuration syntax.
    ManifestParseFailure,
    /// The scaffold generator or build tool could not be launched.
    ToolchainInvocationFailure,
    /// An expected build output is absent; carries the missing path.
    ArtifactMissing(String),
}

/// One unit of outside work the caller must perform.
pub enum Action {
    /// Create the directory (and its parents) at the path.
    CreateDir(String),
    /// Read the file at the path as text.
    ReadTextFile(String),
    /// Run the scaffold generator in `dir` for a project called `name`.
    RunScaffold { dir: String, name: String },
    /// Write `content` to the file at `path`, replacing it whole.
    WriteFile { path: String, content: String },
    /// Run the build tool in `dir` with its fixed browser-target arguments.
    RunBuild { dir: String },
    /// Read the file at the path as raw bytes.
    ReadBinaryFile(String),
}

/// What the caller observed for the action it was asked to perform.
pub enum Event {
    /// Whether the directory now exists.
    DirCreated(bool),
    /// The text read, or `None` when the file could not be read.
    TextRead(Option<String>),
    /// Whether the scaffold generator could be launched at all; its exit
    /// status is deliberately not inspected (an existing project is the
    /// normal reuse case).
    ScaffoldRan(bool),
    /// Whether the write succeeded.
    FileWritten(bool),
    /// Whether the build tool could be launched at all.
    BuildRan(bool),
    /// The bytes read, or `None` when the file could not be read.
    BinaryRead(Option<Vec<u8>>),
}

/// What the machine asks for next.
pub enum Outcome {
    Do(Action),
    Done(String),
    Fail(PipelineError),
}

/// Where the run stands; the payload of `AwaitLoader` is the binary
/// artifact already read.
pub enum Phase {
    AwaitFragment(String),
    AwaitStagingDir,
    AwaitScaffold,
    AwaitSourceWrite,
    AwaitManifestRead,
    AwaitManifestWrite,
    AwaitBuild,
    AwaitBinary,
    AwaitLoader(Vec<u8>),
    Finished,
}

/// One pipeline run.
pub struct Pipeline {
    pub config: PipelineConfig,
    pub root: String,
    pub name: String,
    pub body_text: String,
    pub input: Vec<Tok>,
    pub deps: DepSpec,
    pub phase: Phase,
}

/// The staging root under the enclosing project.
pub open spec fn staging_dir_spec(root: Seq<char>) -> Seq<char> {
    root + "/.wasmir"@
}

/// The per-module sub-project directory.
pub open spec fn module_dir_spec(root: Seq<char>, name: Seq<char>) -> Seq<char> {
    staging_dir_spec(root) + "/"@ + name
}

/// The sub-project's manifest file.
pub open spec fn manifest_path_spec(root: Seq<char>, name: Seq<char>) -> Seq<char> {
    module_dir_spec(root, name) + "/Cargo.toml"@
}

/// The sub-project's source entry point.
pub open spec fn source_path_spec(root: Seq<char>, name: Seq<char>) -> Seq<char> {
    module_dir_spec(root, name) + "/src/lib.rs"@
}

/// The built binary artifact.
pub open spec fn binary_path_spec(root: Seq<char>, name: Seq<char>) -> Seq<char> {
    module_dir_spec(root, name) + "/pkg/"@ + name + "_bg.wasm"@
}

/// The built loader artifact.
pub open spec fn loader_path_spec(root: Seq<char>, name: Seq<char>) -> Seq<char> {
    module_dir_spec(root, name) + "/pkg/"@ + name + ".js"@
}

/// A fragment path from the payload, resolved under the project root.
pub open spec fn fragment_path_spec(root: Seq<char>, rel: Seq<char>) -> Seq<char> {
    root + "/"@ + rel
}

/// A quoted literal's contents.
pub open spec fn unquote(s: Seq<char>) -> Seq<char> {
    if s.len() >= 2 && s[0] == '"' && s[s.len() - 1] == '"' {
        s.subrange(1, s.len() - 1)
    } else {
        s
    }
}

/// The payload's fragment path: the single quoted literal, or nothing.
pub open spec fn fragment_rel(attr: Seq<Tok>) -> Option<Seq<char>> {
    if attr.len() == 1 {
        match attr[0] {
            Tok::Literal(s) => Option::Some(unquote(s@)),
            _ => Option::None,
        }
    } else {
        Option::None
    }
}

/// The dependency table named by configuration text: parse, then extract.
pub open spec fn text_payload_spec(t: Seq<char>) -> Option<Seq<(Seq<char>, SpecDepValue)>> {
    match parse_doc(t) {
        Option::None => Option::None,
        Option::Some(d) => extract_deps_spec(d),
    }
}

/// The dependency table of an inline payload: re-serialize the tokens to
/// configuration text, then parse that text.
pub open spec fn inline_payload_spec(attr: Seq<Tok>) -> Option<Seq<(Seq<char>, SpecDepValue)>> {
    text_payload_spec(reflow_list(attr, Option::None))
}

/// The module body's source text: the rendering of the body group's tokens.
pub open spec fn body_text_spec(input: Seq<Tok>) -> Seq<char> {
    match body_index(input) {
        Option::Some(i) => match input[i] {
            Tok::Group(_, ts) => render_list(ts@),
            _ => Seq::empty(),
        },
        Option::None => Seq::empty(),
    }
}

pub open spec fn fail_io(out: Outcome, path: Seq<char>) -> bool {
    out matches Outcome::Fail(PipelineError::IoFailure(p)) && p@ == path
}

pub open spec fn fail_artifact(out: Outcome, path: Seq<char>) -> bool {
    out matches Outcome::Fail(PipelineError::ArtifactMissing(p)) && p@ == path
}

pub open spec fn do_create_dir(out: Outcome, path: Seq<char>) -> bool {
    out matches Outcome::Do(Action::CreateDir(p)) && p@ == path
}

pub open spec fn do_read_text(out: Outcome, path: Seq<char>) -> bool {
    out matches Outcome::Do(Action::ReadTextFile(p)) && p@ == path
}

pub open spec fn do_read_binary(out: Outcome, path: Seq<char>) -> bool {
    out matches Outcome::Do(Action::ReadBinaryFile(p)) && p@ == path
}

pub open spec fn do_scaffold(out: Outcome, dir: Seq<char>, name: Seq<char>) -> bool {
    out matches Outcome::Do(Action::RunScaffold { dir: d, name: n }) && d@ == dir && n@ == name
}

pub open spec fn do_write(out: Outcome, path: Seq<char>, content: Seq<char>) -> bool {
    out matches Outcome::Do(Action::WriteFile { path: p, content: c }) && p@ == path && c@ == content
}

pub open spec fn do_build(out: Outcome, dir: Seq<char>) -> bool {
    out matches Outcome::Do(Action::RunBuild { dir: d }) && d@ == dir
}

pub open spec fn done_out(out: Outcome, text: Seq<char>) -> bool {
    out matches Outcome::Done(t) && t@ == text
}

/// The fields a step never changes.
pub open spec fn frame_rel(pre: Pipeline, post: Pipeline) -> bool {
    &&& post.config == pre.config
    &&& post.root == pre.root
    &&& post.name == pre.name
    &&& post.body_text == pre.body_text
    &&& post.input == pre.input
}

/// Which events a phase can consume.
pub open spec fn expects_spec(ph: Phase, e: Event) -> bool {
    match (ph, e) {
        (Phase::AwaitFragment(_), Event::TextRead(_)) => true,
        (Phase::AwaitStagingDir, Event::DirCreated(_)) => true,
        (Phase::AwaitScaffold, Event::ScaffoldRan(_)) => true,
        (Phase::AwaitSourceWrite, Event::FileWritten(_)) => true,
        (Phase::AwaitManifestRead, Event::TextRead(_)) => true,
        (Phase::AwaitManifestWrite, Event::FileWritten(_)) => true,
        (Phase::AwaitBuild, Event::BuildRan(_)) => true,
        (Phase::AwaitBinary, Event::BinaryRead(_)) => true,
        (Phase::AwaitLoader(_), Event::TextRead(_)) => true,
        _ => false,
    }
}

/// The transition relation of one step.
pub open spec fn step_rel(pre: Pipeline, e: Event, post: Pipeline, out: Outcome) -> bool {
    let root = pre.root@;
    let name = pre.name@;
    &&& frame_rel(pre, post)
    &&& (out matches Outcome::Fail(_) ==> post.phase is Finished)
    &&& match (pre.phase, e) {
        (Phase::AwaitFragment(fp), Event::TextRead(t)) => match t {
            Option::None => fail_io(out, fp@) && post.deps == pre.deps,
            Option::Some(text) => match text_payload_spec(text@) {
                Option::None => out matches Outcome::Fail(PipelineError::ManifestParseFailure),
                Option::Some(ds) => post.deps@ == ds && do_create_dir(out, staging_dir_spec(root))
                    && post.phase is AwaitStagingDir,
            },
        },
        (Phase::AwaitStagingDir, Event::DirCreated(ok)) => post.deps == pre.deps && if ok {
            do_scaffold(out, staging_dir_spec(root), name) && post.phase is AwaitScaffold
        } else {
            fail_io(out, staging_dir_spec(root))
        },
        (Phase::AwaitScaffold, Event::ScaffoldRan(launched)) => post.deps == pre.deps && if launched {
            do_write(out, source_path_spec(root, name), pre.body_text@) && post.phase is AwaitSourceWrite
        } else {
            out matches Outcome::Fail(PipelineError::ToolchainInvocationFailure)
        },
        (Phase::AwaitSourceWrite, Event::FileWritten(ok)) => post.deps == pre.deps && if ok {
            do_read_text(out, manifest_path_spec(root, name)) && post.phase is AwaitManifestRead
        } else {
            fail_io(out, source_path_spec(root, name))
        },
        (Phase::AwaitManifestRead, Event::TextRead(t)) => post.deps == pre.deps && match t {
            Option::None => fail_io(out, manifest_path_spec(root, name)),
            Option::Some(text) => match parse_doc(text@) {
                Option::None => out matches Outcome::Fail(PipelineError::ManifestParseFailure),
                Option::Some(d) => do_write(
                    out,
                    manifest_path_spec(root, name),
                    ser_doc(synth_spec(d, pre.deps@)),
                ) && post.phase is AwaitManifestWrite,
            },
        },
        (Phase::AwaitManifestWrite, Event::FileWritten(ok)) => post.deps == pre.deps && if ok {
            do_build(out, module_dir_spec(root, name)) && post.phase is AwaitBuild
        } else {
            fail_io(out, manifest_path_spec(root, name))
        },
        (Phase::AwaitBuild, Event::BuildRan(launched)) => post.deps == pre.deps && if launched {
            do_read_binary(out, binary_path_spec(root, name)) && post.phase is AwaitBinary
        } else {
            out matches Outcome::Fail(PipelineError::ToolchainInvocationFailure)
        },
        (Phase::AwaitBinary, Event::BinaryRead(b)) => post.deps == pre.deps && match b {
            Option::None => fail_artifact(out, binary_path_spec(root, name)),
            Option::Some(bytes) => do_read_text(out, loader_path_spec(root, name)) && (post.phase
                matches Phase::AwaitLoader(kept) && kept@ == bytes@),
        },
        (Phase::AwaitLoader(bin), Event::TextRead(t)) => post.deps == pre.deps && match t {
            Option::None => fail_artifact(out, loader_path_spec(root, name)),
            Option::Some(loader) => done_out(
                out,
                embed_text(pre.input@, bin@, loader@, pre.config.embedding),
            ) && post.phase is Finished,
        },
        _ => false,
    }
}

/// What starting a run promises.
pub open spec fn start_rel(
    root: Option<String>,
    attr: Seq<Tok>,
    input: Seq<Tok>,
    config: PipelineConfig,
    p: Pipeline,
    out: Outcome,
) -> bool {
    &&& p.config == config
    &&& p.input@ == input
    &&& (out matches Outcome::Fail(_) ==> p.phase is Finished)
    &&& match root {
        Option::None => out matches Outcome::Fail(PipelineError::MissingEnvironment),
        Option::Some(rt) => {
            &&& p.root@ == rt@
            &&& p.name@ == module_name(input)
            &&& p.body_text@ == body_text_spec(input)
            &&& match config.payload {
                PayloadMode::Inline => match inline_payload_spec(attr) {
                    Option::None => out matches Outcome::Fail(PipelineError::ManifestParseFailure),
                    Option::Some(ds) => p.deps@ == ds && do_create_dir(out, staging_dir_spec(rt@))
                        && p.phase is AwaitStagingDir,
                },
                PayloadMode::FileReference => match fragment_rel(attr) {
                    Option::None => out matches Outcome::Fail(PipelineError::ManifestParseFailure),
                    Option::Some(rel) => do_read_text(out, fragment_path_spec(rt@, rel)) && (p.phase
                        matches Phase::AwaitFragment(fp) && fp@ == fragment_path_spec(rt@, rel)),
                },
            }
        },
    }
}

/// LAW — a missing loader is reported: when the build stage is over and
/// the loader file cannot be read, the run fails with `ArtifactMissing`
/// naming the loader path; it never finishes with an empty binding.
pub proof fn lemma_missing_loader_reported(pre: Pipeline, post: Pipeline, out: Outcome)
    requires
        pre.phase is AwaitLoader,
        step_rel(pre, Event::TextRead(Option::None), post, out),
    ensures
        fail_artifact(out, loader_path_spec(pre.root@, pre.name@)),
        post.phase is Finished,
{
}

/// LAW — a missing fragment file aborts before any external process: a
/// file-referenced run's first action is the fragment read, and when that
/// read fails the run ends at once with `IoFailure`, before any scaffold
/// or build action has been requested.
pub proof fn lemma_fragment_failure_aborts(
    root: String,
    attr: Seq<Tok>,
    input: Seq<Tok>,
    config: PipelineConfig,
    p: Pipeline,
    out: Outcome,
    p2: Pipeline,
    out2: Outcome,
)
    requires
        config.payload == PayloadMode::FileReference,
        fragment_rel(attr) is Some,
        start_rel(Option::Some(root), attr, input, config, p, out),
        step_rel(p, Event::TextRead(Option::None), p2, out2),
    ensures
        do_read_text(out, fragment_path_spec(root@, fragment_rel(attr)->Some_0)),
        fail_io(out2, fragment_path_spec(root@, fragment_rel(attr)->Some_0)),
        p2.phase is Finished,
{
}

fn staging_dir_of(root: &str) -> (r: String)
    ensures
        r@ == staging_dir_spec(root@),
{
    let mut r = String::from_str(root);
    r.append("/.wasmir");
    r
}

fn module_dir_of(root: &str, name: &str) -> (r: String)
    ensures
        r@ == module_dir_spec(root@, name@),
{
    let mut r = staging_dir_of(root);
    r.append("/");
    r.append(name);
    proof {
        assert(r@ =~= module_dir_spec(root@, name@));
    }
    r
}

fn manifest_path_of(root: &str, name: &str) -> (r: String)
    ensures
        r@ == manifest_path_spec(root@, name@),
{
    let mut r = module_dir_of(root, name);
    r.append("/Cargo.toml");
    r
}

fn source_path_of(root: &str, name: &str) -> (r: String)
    ensures
        r@ == source_path_spec(root@, name@),
{
    let mut r = module_dir_of(root, name);
    r.append("/src/lib.rs");
    r
}

fn binary_path_of(root: &str, name: &str) -> (r: String)
    ensures
        r@ == binary_path_spec(root@, name@),
{
    let mut r = module_dir_of(root, name);
    r.append("/pkg/");
    r.append(name);
    r.append("_bg.wasm");
    proof {
        assert(r@ =~= binary_path_spec(root@, name@));
    }
    r
}

fn loader_path_of(root: &str, name: &str) -> (r: String)
    ensures
        r@ == loader_path_spec(root@, name@),
{
    let mut r = module_dir_of(root, name);
    r.append("/pkg/");
    r.append(name);
    r.append(".js");
    proof {
        assert(r@ =~= loader_path_spec(root@, name@));
    }
    r
}

fn unquote_string(s: &str) -> (r: String)
    ensures
        r@ == unquote(s@),
{
    let n = s.unicode_len();
    if n >= 2 && s.get_char(0) == '"' && s.get_char(n - 1) == '"' {
        let inner = s.substring_char(1, n - 1);
        String::from_str(inner)
    } else {
        String::from_str(s)
    }
}

/// Parse payload text into its dependency table.
fn payload_of_text(text: &str) -> (r: Option<DepSpec>)
    ensures
        match r {
            Option::Some(ds) => text_payload_spec(text@) == Option::Some(ds@),
            Option::None => text_payload_spec(text@) is None,
        },
{
    match TomlDoc::parse(text) {
        Option::None => Option::None,
        Option::Some(doc) => extract_dependencies(&doc),
    }
}

/// Start a run: check the environment, extract the declaration, and
/// interpret the payload.  The returned outcome is the first action (or the
/// first failure); feed each action's result to `step`.
pub fn wasmir(root: Option<String>, attr: Vec<Tok>, input: Vec<Tok>, config: PipelineConfig) -> (r: (
    Pipeline,
    Outcome,
))
    ensures
        start_rel(root, attr@, input@, config, r.0, r.1),
{
    let rt = match root {
        Option::Some(rt) => rt,
        Option::None => {
            return (
                Pipeline {
                    config,
                    root: String::new(),
                    name: String::new(),
                    body_text: String::new(),
                    input,
                    deps: DepSpec::new(),
                    phase: Phase::Finished,
                },
                Outcome::Fail(PipelineError::MissingEnvironment),
            );
        },
    };
    let (name, body_idx) = extract_declaration(&input);
    let body_text = match body_idx {
        Option::Some(i) => {
            proof {
                lemma_body_index_group(input@, i as int);
            }
            match &input[i] {
                Tok::Group(_, ts) => render_tokens(ts),
                _ => {
                    proof {
                        assert(false);
                    }
                    String::new()
                },
            }
        },
        Option::None => String::new(),
    };
    match config.payload {
        PayloadMode::Inline => {
            let text = token_stream_to_toml(&attr);
            match payload_of_text(text.as_str()) {
                Option::None => (
                    Pipeline {
                        config,
                        root: rt,
                        name,
                        body_text,
                        input,
                        deps: DepSpec::new(),
                        phase: Phase::Finished,
                    },
                    Outcome::Fail(PipelineError::ManifestParseFailure),
                ),
                Option::Some(ds) => {
                    let staging = staging_dir_of(rt.as_str());
                    (
                        Pipeline {
                            config,
                            root: rt,
                            name,
                            body_text,
                            input,
                            deps: ds,
                            phase: Phase::AwaitStagingDir,
                        },
                        Outcome::Do(Action::CreateDir(staging)),
                    )
                },
            }
        },
        PayloadMode::FileReference => {
            if attr.len() == 1 {
                let rel = match &attr[0] {
                    Tok::Literal(s) => Option::Some(unquote_string(s.as_str())),
                    _ => Option::None,
                };
                match rel {
                    Option::Some(rel) => {
                        let mut fp = String::from_str(rt.as_str());
                        fp.append("/");
                        fp.append(rel.as_str());
                        proof {
                            assert(fp@ =~= fragment_path_spec(rt@, unquote(attr@[0]->Literal_0@)));
                        }
                        let fp2 = fp.clone();
                        (
                            Pipeline {
                                config,
                                root: rt,
                                name,
                                body_text,
                                input,
                                deps: DepSpec::new(),
                                phase: Phase::AwaitFragment(fp),
                            },
                            Outcome::Do(Action::ReadTextFile(fp2)),
                        )
                    },
                    Option::None => (
                        Pipeline {
                            config,
                            root: rt,
                            name,
                            body_text,
                            input,
                            deps: DepSpec::new(),
                            phase: Phase::Finished,
                        },
                        Outcome::Fail(PipelineError::ManifestParseFailure),
                    ),
                }
            } else {
                (
                    Pipeline {
                        config,
                        root: rt,
                        name,
                        body_text,
                        input,
                        deps: DepSpec::new(),
                        phase: Phase::Finished,
                    },
                    Outcome::Fail(PipelineError::ManifestParseFailure),
                )
            }
        },
    }
}

/// The body position found by extraction is a brace-delimited group.
proof fn lemma_body_index_group(ts: Seq<Tok>, i: int)
    requires
        body_index(ts) == Option::Some(i),
    ensures
        0 <= i < ts.len(),
        ts[i] matches Tok::Group(d, _) && d is Brace,
{
    lemma_body_index_from_group(ts, 0, i);
}

proof fn lemma_body_index_from_group(ts: Seq<Tok>, start: int, i: int)
    requires
        0 <= start,
        body_index_from(ts, start) == Option::Some(i),
    ensures
        start <= i < ts.len(),
        ts[i] matches Tok::Group(d, _) && d is Brace,
    decreases ts.len() - start,
{
    if start < ts.len() && !(ts[start] matches Tok::Group(Delim::Brace, _)) {
        lemma_body_index_from_group(ts, start + 1, i);
    }
}

impl Pipeline {
    /// Whether the machine can consume this event now.
    pub fn expects(&self, e: &Event) -> (r: bool)
        ensures
            r == expects_spec(self.phase, *e),
    {
        match (&self.phase, e) {
            (Phase::AwaitFragment(_), Event::TextRead(_)) => true,
            (Phase::AwaitStagingDir, Event::DirCreated(_)) => true,
            (Phase::AwaitScaffold, Event::ScaffoldRan(_)) => true,
            (Phase::AwaitSourceWrite, Event::FileWritten(_)) => true,
            (Phase::AwaitManifestRead, Event::TextRead(_)) => true,
            (Phase::AwaitManifestWrite, Event::FileWritten(_)) => true,
            (Phase::AwaitBuild, Event::BuildRan(_)) => true,
            (Phase::AwaitBinary, Event::BinaryRead(_)) => true,
            (Phase::AwaitLoader(_), Event::TextRead(_)) => true,
            _ => false,
        }
    }

    /// Consume one event and decide the next action, the final output, or
    /// the failure that aborts the run.
    pub fn step(self, e: Event) -> (r: (Pipeline, Outcome))
        requires
            expects_spec(self.phase, e),
        ensures
            step_rel(self, e, r.0, r.1),
    {
        let Pipeline { config, root, name, body_text, input, deps, phase } = self;
        match (phase, e) {
            (Phase::AwaitFragment(fp), Event::TextRead(t)) => match t {
                Option::None => {
                    let out = Outcome::Fail(PipelineError::IoFailure(fp));
                    (
                        Pipeline { config, root, name, body_text, input, deps, phase: Phase::Finished },
                        out,
                    )
                },
                Option::Some(text) => match payload_of_text(text.as_str()) {
                    Option::None => (
                        Pipeline { config, root, name, body_text, input, deps, phase: Phase::Finished },
                        Outcome::Fail(PipelineError::ManifestParseFailure),
                    ),
                    Option::Some(ds) => {
                        let staging = staging_dir_of(root.as_str());
                        (
                            Pipeline {
                                config,
                                root,
                                name,
                                body_text,
                                input,
                                deps: ds,
                                phase: Phase::AwaitStagingDir,
                            },
                            Outcome::Do(Action::CreateDir(staging)),
                        )
                    },
                },
            },
            (Phase::AwaitStagingDir, Event::DirCreated(ok)) => {
                if ok {
                    let staging = staging_dir_of(root.as_str());
                    let sc_name = name.clone();
                    (
                        Pipeline {
                            config,
                            root,
                            name,
                            body_text,
                            input,
                            deps,
                            phase: Phase::AwaitScaffold,
                        },
                        Outcome::Do(Action::RunScaffold { dir: staging, name: sc_name }),
                    )
                } else {
                    let staging = staging_dir_of(root.as_str());
                    (
                        Pipeline { config, root, name, body_text, input, deps, phase: Phase::Finished },
                        Outcome::Fail(PipelineError::IoFailure(staging)),
                    )
                }
            },
            (Phase::AwaitScaffold, Event::ScaffoldRan(launched)) => {
                if launched {
                    let path = source_path_of(root.as_str(), name.as_str());
                    let content = body_text.clone();
                    (
                        Pipeline {
                            config,
                            root,
                            name,
                            body_text,
                            input,
                            deps,
                            phase: Phase::AwaitSourceWrite,
                        },
                        Outcome::Do(Action::WriteFile { path, content }),
                    )
                } else {
                    (
                        Pipeline { config, root, name, body_text, input, deps, phase: Phase::Finished },
                        Outcome::Fail(PipelineError::ToolchainInvocationFailure),
                    )
                }
            },
            (Phase::AwaitSourceWrite, Event::FileWritten(ok)) => {
                if ok {
                    let path = manifest_path_of(root.as_str(), name.as_str());
                    (
                        Pipeline {
                            config,
                            root,
                            name,
                            body_text,
                            input,
                            deps,
                            phase: Phase::AwaitManifestRead,
                        },
                        Outcome::Do(Action::ReadTextFile(path)),
                    )
                } else {
                    let path = source_path_of(root.as_str(), name.as_str());
                    (
                        Pipeline { config, root, name, body_text, input, deps, phase: Phase::Finished },
                        Outcome::Fail(PipelineError::IoFailure(path)),
                    )
                }
            },
            (Phase::AwaitManifestRead, Event::TextRead(t)) => match t {
                Option::None => {
                    let path = manifest_path_of(root.as_str(), name.as_str());
                    (
                        Pipeline { config, root, name, body_text, input, deps, phase: Phase::Finished },
                        Outcome::Fail(PipelineError::IoFailure(path)),
                    )
                },
                Option::Some(text) => match TomlDoc::parse(text.as_str()) {
                    Option::None => (
                        Pipeline { config, root, name, body_text, input, deps, phase: Phase::Finished },
                        Outcome::Fail(PipelineError::ManifestParseFailure),
                    ),
                    Option::Some(doc) => {
                        let synthesized = synthesize_manifest(doc, &deps);
                        let content = synthesized.serialize();
                        let path = manifest_path_of(root.as_str(), name.as_str());
                        (
                            Pipeline {
                                config,
                                root,
                                name,
                                body_text,
                                input,
                                deps,
                                phase: Phase::AwaitManifestWrite,
                            },
                            Outcome::Do(Action::WriteFile { path, content }),
                        )
                    },
                },
            },
            (Phase::AwaitManifestWrite, Event::FileWritten(ok)) => {
                if ok {
                    let dir = module_dir_of(root.as_str(), name.as_str());
                    (
                        Pipeline { config, root, name, body_text, input, deps, phase: Phase::AwaitBuild },
                        Outcome::Do(Action::RunBuild { dir }),
                    )
                } else {
                    let path = manifest_path_of(root.as_str(), name.as_str());
                    (
                        Pipeline { config, root, name, body_text, input, deps, phase: Phase::Finished },
                        Outcome::Fail(PipelineError::IoFailure(path)),
                    )
                }
            },
            (Phase::AwaitBuild, Event::BuildRan(launched)) => {
                if launched {
                    let path = binary_path_of(root.as_str(), name.as_str());
                    (
                        Pipeline {
                            config,
                            root,
                            name,
                            body_text,
                            input,
                            deps,
                            phase: Phase::AwaitBinary,
                        },
                        Outcome::Do(Action::ReadBinaryFile(path)),
                    )
                } else {
                    (
                        Pipeline { config, root, name, body_text, input, deps, phase: Phase::Finished },
                        Outcome::Fail(PipelineError::ToolchainInvocationFailure),
                    )
                }
            },
            (Phase::AwaitBinary, Event::BinaryRead(b)) => match b {
                Option::None => {
                    let path = binary_path_of(root.as_str(), name.as_str());
                    (
                        Pipeline { config, root, name, body_text, input, deps, phase: Phase::Finished },
                        Outcome::Fail(PipelineError::ArtifactMissing(path)),
                    )
                },
                Option::Some(bytes) => {
                    let path = loader_path_of(root.as_str(), name.as_str());
                    (
                        Pipeline {
                            config,
                            root,
                            name,
                            body_text,
                            input,
                            deps,
                            phase: Phase::AwaitLoader(bytes),
                        },
                        Outcome::Do(Action::ReadTextFile(path)),
                    )
                },
            },
            (Phase::AwaitLoader(bin), Event::TextRead(t)) => match t {
                Option::None => {
                    let path = loader_path_of(root.as_str(), name.as_str());
                    (
                        Pipeline { config, root, name, body_text, input, deps, phase: Phase::Finished },
                        Outcome::Fail(PipelineError::ArtifactMissing(path)),
                    )
                },
                Option::Some(loader) => {
                    let out_text = embed_output(&input, &bin, loader.as_str(), config.embedding);
                    (
                        Pipeline { config, root, name, body_text, input, deps, phase: Phase::Finished },
                        Outcome::Done(out_text),
                    )
                },
            },
            (phase, _) => {
                proof {
                    assert(false);
                }
                (
                    Pipeline { config, root, name, body_text, input, deps, phase },
                    Outcome::Fail(PipelineError::MissingEnvironment),
                )
            },
        }
    }
}

} // verus!
