use wasmir::tokens::{Delim, Tok};
use wasmir::extract::extract_declaration;
use wasmir::embed::{EmbedConvention, embed_output};

fn ident(s: &str) -> Tok {
    Tok::Ident(String::from(s))
}

#[test]
fn extract_name_and_body() {
    let input = vec![
        ident("pub"),
        ident("mod"),
        ident("my_module"),
        Tok::Group(Delim::Brace, vec![ident("contents")]),
        ident("ignored_after_body"),
    ];
    let (name, body) = extract_declaration(&input);
    assert_eq!(name, "my_module");
    assert_eq!(body, Some(3));
}

#[test]
fn extract_skips_attribute_like_groups() {
    // a non-brace group before the name is skipped; the body is the first
    // brace-delimited group
    let input = vec![
        Tok::Group(Delim::Bracket, vec![ident("derive")]),
        ident("mod"),
        ident("demo"),
        Tok::Group(Delim::Brace, vec![]),
    ];
    let (name, body) = extract_declaration(&input);
    assert_eq!(name, "demo");
    assert_eq!(body, Some(3));
}

#[test]
fn extract_without_identifier_gives_empty_name() {
    let input = vec![ident("mod"), Tok::Group(Delim::Brace, vec![ident("x")])];
    let (name, body) = extract_declaration(&input);
    assert_eq!(name, "");
    assert_eq!(body, Some(1));
}

#[test]
fn extract_without_body_gives_no_index() {
    let input = vec![ident("mod"), ident("demo")];
    let (name, body) = extract_declaration(&input);
    assert_eq!(name, "demo");
    assert_eq!(body, None);
}

#[test]
fn embed_exported_constants() {
    let input = vec![ident("mod"), ident("m"), Tok::Group(Delim::Brace, vec![])];
    let out = embed_output(&input, &vec![0u8, 255u8, 10u8], "hi", EmbedConvention::Exported);
    assert_eq!(
        out,
        "mod m {}\npub const wasm: [u8; 3] = [0,255,10];\npub const loader: &str = \"hi\";\n"
    );
}

#[test]
fn embed_escapes_loader_text() {
    let input = vec![ident("mod"), ident("m"), Tok::Group(Delim::Brace, vec![])];
    let out = embed_output(&input, &vec![7u8], "say \"hi\\now\"", EmbedConvention::Internal);
    assert_eq!(
        out,
        "mod m {}\nconst wasm: [u8; 1] = [7];\nconst js_loader: &str = \"say \\\"hi\\\\now\\\"\";\n"
    );
}

#[test]
fn embed_empty_binary_has_zero_length() {
    let input = vec![ident("mod"), ident("m"), Tok::Group(Delim::Brace, vec![])];
    let out = embed_output(&input, &vec![], "", EmbedConvention::Exported);
    assert_eq!(out, "mod m {}\npub const wasm: [u8; 0] = [];\npub const loader: &str = \"\";\n");
}
