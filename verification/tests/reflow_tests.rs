use wasmir::tokens::{Delim, Tok};
use wasmir::reflow::token_stream_to_toml;

fn ident(s: &str) -> Tok {
    Tok::Ident(String::from(s))
}

fn lit(s: &str) -> Tok {
    Tok::Literal(String::from(s))
}

fn punct(s: &str) -> Tok {
    Tok::Punct(String::from(s))
}

fn payload_tokens() -> Vec<Tok> {
    vec![
        Tok::Group(Delim::Bracket, vec![ident("dependencies")]),
        ident("wasm"),
        punct("-"),
        ident("bindgen"),
        punct("="),
        lit("\"*\""),
        Tok::Group(
            Delim::Bracket,
            vec![ident("dependencies"), punct("."), ident("web"), punct("-"), ident("sys")],
        ),
        ident("version"),
        punct("="),
        lit("\"*\""),
        ident("features"),
        punct("="),
        Tok::Group(
            Delim::Bracket,
            vec![lit("\"Document\""), punct(","), lit("\"Node\""), punct(","), lit("\"Element\"")],
        ),
    ]
}

#[test]
fn reflow_inline_payload_exact_text() {
    // inside the bracketed array, the comma after each literal starts a
    // new line; the parser's joining pass folds those lines back
    let text = token_stream_to_toml(&payload_tokens());
    assert_eq!(
        text,
        "\n[dependencies]\nwasm-bindgen=\"*\"\n[dependencies.web-sys]\nversion=\"*\"\nfeatures=[\"Document\"\n,\"Node\"\n,\"Element\"]"
    );
}

#[test]
fn reflow_breaks_after_literal() {
    // an identifier, literal or punctuation token right after a literal
    // starts a new line
    let toks = vec![lit("\"a\""), lit("\"b\""), punct(","), ident("x")];
    assert_eq!(token_stream_to_toml(&toks), "\"a\"\n\"b\"\n,x");
}

#[test]
fn reflow_newline_suppressed_after_punct() {
    // a group right after punctuation stays glued to it
    let toks = vec![ident("features"), punct("="), Tok::Group(Delim::Bracket, vec![lit("\"A\"")])];
    assert_eq!(token_stream_to_toml(&toks), "features=[\"A\"]");
}

#[test]
fn reflow_output_is_real_configuration_syntax() {
    // the re-serialized payload must be accepted by a real TOML parser,
    // with exactly the expected top-level dependency names
    let text = token_stream_to_toml(&payload_tokens());
    let parsed: toml::Table = toml::from_str(&text).expect("reflowed text must parse as TOML");
    let deps = parsed["dependencies"].as_table().expect("dependencies must be a table");
    let mut keys: Vec<&str> = deps.keys().map(|k| k.as_str()).collect();
    keys.sort();
    assert_eq!(keys, vec!["wasm-bindgen", "web-sys"]);
    assert_eq!(deps["wasm-bindgen"].as_str(), Some("*"));
    assert_eq!(
        deps["web-sys"]["features"].as_array().map(|a| a.len()),
        Some(3)
    );
}

#[test]
fn reflow_matches_host_token_stream() {
    // the same payload, tokenized by the host token library, reflows to
    // the same text
    let source = "[dependencies] wasm-bindgen = \"*\" [dependencies.web-sys] version = \"*\" features = [\"Document\",\"Node\",\"Element\"]";
    let stream: proc_macro2::TokenStream = source.parse().expect("payload must tokenize");
    let toks = convert_stream(stream);
    assert_eq!(token_stream_to_toml(&toks), token_stream_to_toml(&payload_tokens()));
}

fn convert_stream(stream: proc_macro2::TokenStream) -> Vec<Tok> {
    stream.into_iter().map(convert_tree).collect()
}

fn convert_tree(tree: proc_macro2::TokenTree) -> Tok {
    match tree {
        proc_macro2::TokenTree::Group(g) => {
            let delim = match g.delimiter() {
                proc_macro2::Delimiter::Brace => Delim::Brace,
                proc_macro2::Delimiter::Bracket => Delim::Bracket,
                proc_macro2::Delimiter::Parenthesis => Delim::Parens,
                proc_macro2::Delimiter::None => Delim::Plain,
            };
            Tok::Group(delim, convert_stream(g.stream()))
        }
        proc_macro2::TokenTree::Ident(i) => Tok::Ident(i.to_string()),
        proc_macro2::TokenTree::Literal(l) => Tok::Literal(l.to_string()),
        proc_macro2::TokenTree::Punct(p) => Tok::Punct(p.to_string()),
    }
}
