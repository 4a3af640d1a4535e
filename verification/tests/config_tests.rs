use wasmir::config::TomlDoc;
use wasmir::manifest::{DepSpec, DepValue, extract_dependencies, synthesize_manifest};
use wasmir::config::Pair;

fn pair(k: &str, v: &str) -> Pair {
    Pair { key: String::from(k), val: String::from(v) }
}

fn scaffold_manifest(name: &str) -> String {
    format!(
        "[package]\nname = \"{}\"\nversion = \"0.1.0\"\nedition = \"2021\"\n\n# See more keys and their definitions elsewhere\n\n[dependencies]\n",
        name
    )
}

#[test]
fn parse_scaffold_manifest() {
    let doc = TomlDoc::parse(&scaffold_manifest("demo")).expect("scaffold manifest must parse");
    assert_eq!(doc.root.len(), 0);
    assert_eq!(doc.sections.len(), 2);
    assert_eq!(doc.sections[0].path, vec![String::from("package")]);
    assert_eq!(doc.sections[0].entries.len(), 3);
    assert_eq!(doc.sections[0].entries[0].key, "name");
    assert_eq!(doc.sections[0].entries[0].val, "\"demo\"");
    assert_eq!(doc.sections[1].path, vec![String::from("dependencies")]);
    assert_eq!(doc.sections[1].entries.len(), 0);
}

#[test]
fn parse_joins_multi_line_array_values() {
    let text = "[dependencies]\nfeatures=[\"a\"\n,\"b\"]\n";
    let doc = TomlDoc::parse(text).expect("a bracketed value across lines must parse");
    assert_eq!(doc.sections.len(), 1);
    assert_eq!(doc.sections[0].entries.len(), 1);
    assert_eq!(doc.sections[0].entries[0].key, "features");
    assert_eq!(doc.sections[0].entries[0].val, "[\"a\",\"b\"]");
}

#[test]
fn parse_rejects_line_without_separator() {
    assert!(TomlDoc::parse("not a valid manifest line").is_none());
}

#[test]
fn parse_rejects_empty_header_component() {
    assert!(TomlDoc::parse("[dependencies..web-sys]\n").is_none());
}

#[test]
fn serialize_then_parse_is_identity() {
    let text = "[package]\nname = \"demo\"\n\n[lib]\n\n[dependencies.web-sys]\nversion = \"*\"\n";
    let doc = TomlDoc::parse(text).expect("must parse");
    let canonical = doc.serialize();
    let doc2 = TomlDoc::parse(&canonical).expect("canonical text must parse");
    assert_eq!(canonical, doc2.serialize());
}

#[test]
fn synthesize_greeter_defaults() {
    // an empty dependency payload: only the canonical entries are added
    let doc = TomlDoc::parse(&scaffold_manifest("greeter")).expect("must parse");
    let out = synthesize_manifest(doc, &DepSpec::new());
    let text = out.serialize();
    let parsed: toml::Table = toml::from_str(&text).expect("synthesized manifest must be valid TOML");
    let lib = parsed["lib"].as_table().expect("lib section");
    assert_eq!(lib.len(), 1);
    let kinds = lib["crate-type"].as_array().expect("artifact kinds");
    assert_eq!(kinds.len(), 1);
    assert_eq!(kinds[0].as_str(), Some("cdylib"));
    let deps = parsed["dependencies"].as_table().expect("dependencies");
    assert_eq!(deps.len(), 1);
    assert_eq!(deps["wasm-bindgen"].as_str(), Some("*"));
}

#[test]
fn synthesize_twice_is_byte_identical() {
    let doc = TomlDoc::parse(&scaffold_manifest("greeter")).expect("must parse");
    let once = synthesize_manifest(doc, &DepSpec::new()).serialize();
    let reparsed = TomlDoc::parse(&once).expect("synthesized manifest must reparse");
    let twice = synthesize_manifest(reparsed, &DepSpec::new()).serialize();
    assert_eq!(once, twice);
}

#[test]
fn merge_overlapping_key_takes_second_value() {
    let manifest = "[dependencies]\nserde = \"1.0\"\nlog = \"0.4\"\n";
    let doc = TomlDoc::parse(manifest).expect("must parse");
    let payload = DepSpec {
        entries: vec![(String::from("serde"), DepValue::Simple(String::from("\"2.0\"")))],
    };
    let out = synthesize_manifest(doc, &payload);
    let parsed: toml::Table = toml::from_str(&out.serialize()).expect("valid TOML");
    let deps = parsed["dependencies"].as_table().unwrap();
    // overlapping key: the payload's value wins
    assert_eq!(deps["serde"].as_str(), Some("2.0"));
    // non-overlapping keys: the union is kept
    assert_eq!(deps["log"].as_str(), Some("0.4"));
    assert_eq!(deps["wasm-bindgen"].as_str(), Some("*"));
    assert_eq!(deps.len(), 3);
}

#[test]
fn merge_table_value_replaces_simple_entry() {
    let manifest = "[dependencies]\nweb-sys = \"0.2\"\n";
    let doc = TomlDoc::parse(manifest).expect("must parse");
    let payload = DepSpec {
        entries: vec![(
            String::from("web-sys"),
            DepValue::Table(vec![pair("version", "\"*\""), pair("features", "[\"Document\"]")]),
        )],
    };
    let out = synthesize_manifest(doc, &payload);
    let parsed: toml::Table = toml::from_str(&out.serialize()).expect("valid TOML");
    let deps = parsed["dependencies"].as_table().unwrap();
    let web_sys = deps["web-sys"].as_table().expect("web-sys became a table");
    assert_eq!(web_sys["version"].as_str(), Some("*"));
    assert_eq!(web_sys["features"].as_array().map(|a| a.len()), Some(1));
}

#[test]
fn extract_dependencies_from_payload_document() {
    let payload_text = "\n[dependencies]\nwasm-bindgen=\"*\"\n[dependencies.web-sys]\nversion=\"*\"\n";
    let doc = TomlDoc::parse(payload_text).expect("must parse");
    let spec = extract_dependencies(&doc).expect("payload shape supported");
    assert_eq!(spec.entries.len(), 2);
    assert_eq!(spec.entries[0].0, "wasm-bindgen");
    match &spec.entries[0].1 {
        DepValue::Simple(v) => assert_eq!(v, "\"*\""),
        DepValue::Table(_) => panic!("wasm-bindgen must be a simple entry"),
    }
    assert_eq!(spec.entries[1].0, "web-sys");
    match &spec.entries[1].1 {
        DepValue::Table(es) => {
            assert_eq!(es.len(), 1);
            assert_eq!(es[0].key, "version");
        }
        DepValue::Simple(_) => panic!("web-sys must be a sub-table"),
    }
}

#[test]
fn extract_dependencies_rejects_deep_nesting() {
    let doc = TomlDoc::parse("[dependencies.web-sys.extra]\nx = \"1\"\n").expect("must parse");
    assert!(extract_dependencies(&doc).is_none());
}
