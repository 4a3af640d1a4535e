use std::collections::HashMap;
use wasmir::tokens::{Delim, Tok};
use wasmir::embed::EmbedConvention;
use wasmir::pipeline::{
    Action, Event, Outcome, Pipeline, PipelineConfig, PipelineError, PayloadMode, wasmir,
};

fn ident(s: &str) -> Tok {
    Tok::Ident(String::from(s))
}

fn lit(s: &str) -> Tok {
    Tok::Literal(String::from(s))
}

fn demo_declaration(body: &str) -> Vec<Tok> {
    vec![ident("mod"), ident("demo"), Tok::Group(Delim::Brace, vec![ident(body)])]
}

fn inline_exported() -> PipelineConfig {
    PipelineConfig { payload: PayloadMode::Inline, embedding: EmbedConvention::Exported }
}

fn scaffold_manifest(name: &str) -> String {
    format!("[package]\nname = \"{}\"\nversion = \"0.1.0\"\nedition = \"2021\"\n\n[dependencies]\n", name)
}

/// A simulated project world: text files, binary files, and a record of
/// the external processes the pipeline asked for.
struct World {
    files: HashMap<String, String>,
    binaries: HashMap<String, Vec<u8>>,
    scaffolded: Vec<String>,
    built: Vec<String>,
    scaffold_launches: bool,
    build_launches: bool,
    build_makes_binary: bool,
    build_makes_loader: bool,
}

impl World {
    fn new() -> World {
        World {
            files: HashMap::new(),
            binaries: HashMap::new(),
            scaffolded: Vec::new(),
            built: Vec::new(),
            scaffold_launches: true,
            build_launches: true,
            build_makes_binary: true,
            build_makes_loader: true,
        }
    }

    fn perform(&mut self, action: Action) -> Event {
        match action {
            Action::CreateDir(_) => Event::DirCreated(true),
            Action::ReadTextFile(path) => Event::TextRead(self.files.get(&path).cloned()),
            Action::RunScaffold { dir, name } => {
                self.scaffolded.push(name.clone());
                let manifest = format!("{}/{}/Cargo.toml", dir, name);
                // a scaffold never overwrites an existing project
                self.files.entry(manifest).or_insert_with(|| scaffold_manifest(&name));
                Event::ScaffoldRan(self.scaffold_launches)
            }
            Action::WriteFile { path, content } => {
                self.files.insert(path, content);
                Event::FileWritten(true)
            }
            Action::RunBuild { dir } => {
                self.built.push(dir.clone());
                let name = dir.rsplit('/').next().unwrap().to_string();
                let source = self.files.get(&format!("{}/src/lib.rs", dir)).cloned().unwrap_or_default();
                if self.build_makes_binary {
                    self.binaries.insert(
                        format!("{}/pkg/{}_bg.wasm", dir, name),
                        source.as_bytes().to_vec(),
                    );
                }
                if self.build_makes_loader {
                    self.files.insert(format!("{}/pkg/{}.js", dir, name), format!("loader:{}", source));
                }
                Event::BuildRan(self.build_launches)
            }
            Action::ReadBinaryFile(path) => Event::BinaryRead(self.binaries.get(&path).cloned()),
        }
    }

    fn run(&mut self, root: &str, attr: Vec<Tok>, input: Vec<Tok>, config: PipelineConfig) -> Outcome {
        let (mut p, mut out) = wasmir(Some(String::from(root)), attr, input, config);
        let mut steps = 0;
        loop {
            match out {
                Outcome::Do(action) => {
                    let event = self.perform(action);
                    let next = p.step(event);
                    p = next.0;
                    out = next.1;
                }
                _ => return out,
            }
            steps += 1;
            assert!(steps < 64, "the pipeline must terminate");
        }
    }
}

#[test]
fn demo_module_run_embeds_artifacts() {
    let mut world = World::new();
    let out = world.run("/proj", vec![], demo_declaration("X"), inline_exported());
    // the source entry holds exactly the body text
    assert_eq!(world.files["/proj/.wasmir/demo/src/lib.rs"], "X");
    // the manifest carries the canonical artifact kind and the pinned
    // toolchain dependency
    let manifest = &world.files["/proj/.wasmir/demo/Cargo.toml"];
    assert!(manifest.contains("crate-type = [\"cdylib\"]"));
    assert!(manifest.contains("wasm-bindgen = \"*\""));
    // the output is the declaration plus the two constants, both non-empty
    match out {
        Outcome::Done(text) => {
            assert_eq!(
                text,
                "mod demo {X}\npub const wasm: [u8; 1] = [88];\npub const loader: &str = \"loader:X\";\n"
            );
        }
        _ => panic!("the run must succeed"),
    }
}

#[test]
fn internal_convention_names_js_loader() {
    let mut world = World::new();
    let config = PipelineConfig { payload: PayloadMode::Inline, embedding: EmbedConvention::Internal };
    let out = world.run("/proj", vec![], demo_declaration("X"), config);
    match out {
        Outcome::Done(text) => {
            assert!(text.contains("\nconst wasm: [u8; 1] = [88];"));
            assert!(text.contains("\nconst js_loader: &str = \"loader:X\";"));
            assert!(!text.contains("pub const"));
        }
        _ => panic!("the run must succeed"),
    }
}

#[test]
fn missing_environment_is_fatal_before_any_side_effect() {
    let (_p, out) = wasmir(None, vec![], demo_declaration("X"), inline_exported());
    assert!(matches!(out, Outcome::Fail(PipelineError::MissingEnvironment)));
}

#[test]
fn missing_loader_reports_artifact_missing() {
    let mut world = World::new();
    world.build_makes_loader = false;
    let out = world.run("/proj", vec![], demo_declaration("X"), inline_exported());
    match out {
        Outcome::Fail(PipelineError::ArtifactMissing(path)) => {
            assert_eq!(path, "/proj/.wasmir/demo/pkg/demo.js");
        }
        _ => panic!("a missing loader must surface as ArtifactMissing"),
    }
}

#[test]
fn missing_binary_reports_artifact_missing() {
    let mut world = World::new();
    world.build_makes_binary = false;
    let out = world.run("/proj", vec![], demo_declaration("X"), inline_exported());
    match out {
        Outcome::Fail(PipelineError::ArtifactMissing(path)) => {
            assert_eq!(path, "/proj/.wasmir/demo/pkg/demo_bg.wasm");
        }
        _ => panic!("a missing binary must surface as ArtifactMissing"),
    }
}

#[test]
fn missing_fragment_fails_before_any_external_process() {
    let mut world = World::new();
    let config = PipelineConfig { payload: PayloadMode::FileReference, embedding: EmbedConvention::Exported };
    let attr = vec![lit("\"missing.toml\"")];
    let out = world.run("/proj", attr, demo_declaration("X"), config);
    match out {
        Outcome::Fail(PipelineError::IoFailure(path)) => {
            assert_eq!(path, "/proj/missing.toml");
        }
        _ => panic!("a missing fragment file must surface as IoFailure"),
    }
    assert!(world.scaffolded.is_empty());
    assert!(world.built.is_empty());
}

#[test]
fn fragment_file_dependencies_reach_the_manifest() {
    let mut world = World::new();
    world.files.insert(
        String::from("/proj/wasm_deps.toml"),
        String::from("[dependencies]\nserde = \"1.0\"\n"),
    );
    let config = PipelineConfig { payload: PayloadMode::FileReference, embedding: EmbedConvention::Exported };
    let attr = vec![lit("\"wasm_deps.toml\"")];
    let out = world.run("/proj", attr, demo_declaration("X"), config);
    assert!(matches!(out, Outcome::Done(_)));
    let manifest = &world.files["/proj/.wasmir/demo/Cargo.toml"];
    assert!(manifest.contains("serde = \"1.0\""));
}

#[test]
fn unparsable_inline_payload_is_fatal() {
    let mut world = World::new();
    let attr = vec![ident("dependencies")];  // a bare word is not configuration syntax
    let out = world.run("/proj", attr, demo_declaration("X"), inline_exported());
    assert!(matches!(out, Outcome::Fail(PipelineError::ManifestParseFailure)));
    assert!(world.scaffolded.is_empty());
}

#[test]
fn build_tool_launch_failure_is_fatal() {
    let mut world = World::new();
    world.build_launches = false;
    let out = world.run("/proj", vec![], demo_declaration("X"), inline_exported());
    assert!(matches!(out, Outcome::Fail(PipelineError::ToolchainInvocationFailure)));
}

#[test]
fn scaffold_launch_failure_is_fatal() {
    let mut world = World::new();
    world.scaffold_launches = false;
    let out = world.run("/proj", vec![], demo_declaration("X"), inline_exported());
    assert!(matches!(out, Outcome::Fail(PipelineError::ToolchainInvocationFailure)));
}

#[test]
fn rerun_overwrites_source_and_rebuilds() {
    let mut world = World::new();
    let first = world.run("/proj", vec![], demo_declaration("X"), inline_exported());
    assert!(matches!(first, Outcome::Done(_)));
    // the staging directory is kept; the second run reuses the project
    let second = world.run("/proj", vec![], demo_declaration("Y"), inline_exported());
    assert_eq!(world.files["/proj/.wasmir/demo/src/lib.rs"], "Y");
    match second {
        Outcome::Done(text) => {
            // the artifacts reflect the second run's body text
            assert_eq!(
                text,
                "mod demo {Y}\npub const wasm: [u8; 1] = [89];\npub const loader: &str = \"loader:Y\";\n"
            );
        }
        _ => panic!("the second run must succeed"),
    }
    assert_eq!(world.scaffolded.len(), 2);
    assert_eq!(world.built.len(), 2);
}

fn toolchain_payload() -> Vec<Tok> {
    vec![
        Tok::Group(Delim::Bracket, vec![ident("dependencies")]),
        ident("wasm"),
        Tok::Punct(String::from("-")),
        ident("bindgen"),
        Tok::Punct(String::from("=")),
        lit("\"0.2\""),
    ]
}

#[test]
fn rerun_with_toolchain_payload_keeps_manifest_stable() {
    // the payload pins the toolchain dependency itself; a second run with
    // the same payload writes a byte-identical manifest
    let mut world = World::new();
    let first = world.run("/proj", toolchain_payload(), demo_declaration("X"), inline_exported());
    assert!(matches!(first, Outcome::Done(_)));
    let manifest_once = world.files["/proj/.wasmir/demo/Cargo.toml"].clone();
    assert!(manifest_once.contains("wasm-bindgen = \"0.2\""));
    let second = world.run("/proj", toolchain_payload(), demo_declaration("X"), inline_exported());
    assert!(matches!(second, Outcome::Done(_)));
    assert_eq!(world.files["/proj/.wasmir/demo/Cargo.toml"], manifest_once);
}

#[test]
fn pipeline_expects_tracks_the_phase() {
    let (p, out) = wasmir(Some(String::from("/proj")), vec![], demo_declaration("X"), inline_exported());
    assert!(matches!(out, Outcome::Do(Action::CreateDir(_))));
    assert!(p.expects(&Event::DirCreated(true)));
    assert!(!p.expects(&Event::BuildRan(true)));
}

#[test]
fn payload_sub_table_reaches_the_manifest() {
    let mut world = World::new();
    let attr = vec![
        Tok::Group(Delim::Bracket, vec![ident("dependencies")]),
        ident("wasm"),
        Tok::Punct(String::from("-")),
        ident("bindgen"),
        Tok::Punct(String::from("=")),
        lit("\"*\""),
        Tok::Group(
            Delim::Bracket,
            vec![
                ident("dependencies"),
                Tok::Punct(String::from(".")),
                ident("web"),
                Tok::Punct(String::from("-")),
                ident("sys"),
            ],
        ),
        ident("version"),
        Tok::Punct(String::from("=")),
        lit("\"*\""),
        ident("features"),
        Tok::Punct(String::from("=")),
        Tok::Group(Delim::Bracket, vec![lit("\"Document\"")]),
    ];
    let out = world.run("/proj", attr, demo_declaration("X"), inline_exported());
    assert!(matches!(out, Outcome::Done(_)));
    let manifest = &world.files["/proj/.wasmir/demo/Cargo.toml"];
    let parsed: toml::Table = toml::from_str(manifest).expect("synthesized manifest must be valid TOML");
    let deps = parsed["dependencies"].as_table().unwrap();
    assert_eq!(deps["wasm-bindgen"].as_str(), Some("*"));
    assert_eq!(deps["web-sys"]["version"].as_str(), Some("*"));
    assert_eq!(deps["web-sys"]["features"].as_array().map(|a| a.len()), Some(1));
}

#[test]
fn payload_dependencies_reach_the_manifest() {
    let mut world = World::new();
    let attr = vec![
        Tok::Group(Delim::Bracket, vec![ident("dependencies")]),
        ident("serde"),
        Tok::Punct(String::from("=")),
        lit("\"1.0\""),
    ];
    let out = world.run("/proj", attr, demo_declaration("X"), inline_exported());
    assert!(matches!(out, Outcome::Done(_)));
    let manifest = &world.files["/proj/.wasmir/demo/Cargo.toml"];
    assert!(manifest.contains("serde = \"1.0\""));
    assert!(manifest.contains("wasm-bindgen = \"*\""));
}
