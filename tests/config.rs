use claudevil::config::{default_chunk_on, Config, ConfigError, LangConfig};

#[test]
fn default_config_has_three_languages() {
    let config = Config::default_config();
    assert_eq!(config.lang.len(), 3);
    assert!(config.lang.contains_key("go"));
    assert!(config.lang.contains_key("rust"));
    assert!(config.lang.contains_key("python"));
}

#[test]
fn extension_mapping_go() {
    let mut config = Config::default_config();
    // Resolve chunk_on
    config.resolve().unwrap();

    let (name, lang) = config.language_for_extension("go").unwrap();
    assert_eq!(name, "go");
    assert_eq!(lang.grammar, "tree-sitter-go");
}

#[test]
fn extension_mapping_rs() {
    let config = Config::default_config();
    let (name, lang) = config.language_for_extension("rs").unwrap();
    assert_eq!(name, "rust");
    assert_eq!(lang.grammar, "tree-sitter-rust");
}

#[test]
fn extension_mapping_py() {
    let config = Config::default_config();
    let (name, lang) = config.language_for_extension("py").unwrap();
    assert_eq!(name, "python");
    assert_eq!(lang.grammar, "tree-sitter-python");
}

#[test]
fn extension_mapping_unknown() {
    let config = Config::default_config();
    assert!(config.language_for_extension("js").is_none());
}

#[test]
fn default_chunk_on_go() {
    let kinds = default_chunk_on("go");
    assert!(kinds.contains(&"function_declaration".to_string()));
    assert!(kinds.contains(&"method_declaration".to_string()));
    assert!(kinds.contains(&"type_declaration".to_string()));
}

#[test]
fn default_chunk_on_rust() {
    let kinds = default_chunk_on("rust");
    assert!(kinds.contains(&"function_item".to_string()));
    assert!(kinds.contains(&"impl_item".to_string()));
    assert!(kinds.contains(&"struct_item".to_string()));
}

#[test]
fn default_chunk_on_python() {
    let kinds = default_chunk_on("python");
    assert!(kinds.contains(&"function_definition".to_string()));
    assert!(kinds.contains(&"class_definition".to_string()));
    assert!(kinds.contains(&"decorated_definition".to_string()));
}

#[test]
fn default_chunk_on_unknown() {
    let kinds = default_chunk_on("haskell");
    assert!(kinds.is_empty());
}

#[test]
fn language_names_sorted() {
    let config = Config::default_config();
    let names = config.language_names();
    assert_eq!(names, vec!["go", "python", "rust"]);
}

fn lang(exts: &[&str], grammar: &str, chunk_on: Option<&[&str]>) -> LangConfig {
    LangConfig {
        extensions: exts.iter().map(|e| e.to_string()).collect(),
        grammar: grammar.to_string(),
        chunk_on: chunk_on.map(|k| k.iter().map(|s| s.to_string()).collect()),
    }
}

#[test]
fn resolve_fills_builtin_chunk_on() {
    let mut config = Config::default_config();
    config.resolve().unwrap();
    let go = config.lang.get("go").unwrap();
    assert_eq!(go.chunk_on.as_ref().unwrap(), &default_chunk_on("go"));
    let py = config.lang.get("python").unwrap();
    assert_eq!(py.chunk_on.as_ref().unwrap().len(), 3);
}

#[test]
fn resolve_rejects_unknown_language_without_chunk_on() {
    let mut config = Config::default_config();
    config
        .lang
        .insert("haskell".to_string(), lang(&["hs"], "tree-sitter-go", None));
    assert_eq!(
        config.resolve(),
        Err(ConfigError::MissingChunkOn("haskell".to_string()))
    );
    // Nothing was filled in.
    assert!(config.lang.get("go").unwrap().chunk_on.is_none());
}

#[test]
fn resolve_rejects_unknown_grammar() {
    let mut config = Config::default_config();
    config.lang.insert(
        "zig".to_string(),
        lang(&["zig"], "tree-sitter-zig", Some(&["fn_decl"])),
    );
    assert_eq!(
        config.resolve(),
        Err(ConfigError::UnknownGrammar("zig".to_string()))
    );
}

#[test]
fn merge_overrides_per_language() {
    let mut config = Config::default_config();
    let mut user = Config { lang: claudevil::config::LangTable::new() };
    user.lang.insert(
        "go".to_string(),
        lang(&["go", "gotmpl"], "tree-sitter-go", Some(&["function_declaration"])),
    );
    user.lang.insert(
        "typescript".to_string(),
        lang(&["ts", "tsx"], "tree-sitter-go", Some(&["class_declaration"])),
    );
    config.merge(user);
    assert_eq!(config.language_names(), vec!["go", "python", "rust", "typescript"]);
    let (name, go) = config.language_for_extension("gotmpl").unwrap();
    assert_eq!(name, "go");
    assert_eq!(go.chunk_on.as_ref().unwrap(), &vec!["function_declaration".to_string()]);
    assert_eq!(config.language_for_extension("tsx").unwrap().0, "typescript");
    config.resolve().unwrap();
}

#[test]
fn insert_keeps_names_sorted() {
    let mut table = claudevil::config::LangTable::new();
    table.insert("rust".to_string(), lang(&["rs"], "tree-sitter-rust", None));
    table.insert("c".to_string(), lang(&["c"], "tree-sitter-go", None));
    table.insert("go".to_string(), lang(&["go"], "tree-sitter-go", None));
    table.insert("c".to_string(), lang(&["h"], "tree-sitter-go", None));
    assert_eq!(table.len(), 3);
    assert_eq!(table.entry(0).0, "c");
    assert_eq!(table.entry(0).1.extensions, vec!["h".to_string()]);
    assert_eq!(table.entry(1).0, "go");
    assert_eq!(table.entry(2).0, "rust");
}
