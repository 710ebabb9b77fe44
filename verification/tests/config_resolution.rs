use licensesnip::config::{load_config, Config, FileTypeConfig, PartialConfig};

fn b(s: &str) -> Vec<u8> {
    s.as_bytes().to_vec()
}

fn rule_with_prefix(before_line: &str) -> FileTypeConfig {
    FileTypeConfig {
        before_block: Vec::new(),
        after_block: Vec::new(),
        before_line: b(before_line),
        after_line: Vec::new(),
        enable: true,
        skip_shebang_line: true,
    }
}

fn lookup<'a>(table: &'a [(Vec<u8>, FileTypeConfig)], key: &str) -> Option<&'a FileTypeConfig> {
    table.iter().rev().find(|e| e.0 == b(key)).map(|e| &e.1)
}

#[test]
fn directory_layer_overrides_one_extension_only() {
    let base = PartialConfig {
        use_gitignore: None,
        file_types: Some(vec![
            (b("py"), rule_with_prefix("# ")),
            (b("js"), rule_with_prefix("// ")),
        ]),
    };
    let user = PartialConfig { use_gitignore: None, file_types: None };
    let directory = Some(PartialConfig {
        use_gitignore: None,
        file_types: Some(vec![(b("py"), rule_with_prefix("## "))]),
    });
    let effective = load_config(&base, &user, &directory);
    let table = effective.get_filetype_map();
    assert_eq!(lookup(&table, "py").expect("py rule").before_line, b("## "));
    assert_eq!(lookup(&table, "js").expect("js rule").before_line, b("// "));
}

#[test]
fn rightmost_layer_wins_per_field() {
    let base = PartialConfig { use_gitignore: Some(true), file_types: None };
    let user = PartialConfig { use_gitignore: Some(false), file_types: None };
    let effective = load_config(&base, &user, &None);
    assert!(!effective.use_gitignore);

    let directory = Some(PartialConfig { use_gitignore: Some(true), file_types: None });
    let effective = load_config(&base, &user, &directory);
    assert!(effective.use_gitignore);
}

#[test]
fn gitignore_defaults_to_true() {
    let empty = PartialConfig { use_gitignore: None, file_types: None };
    let other = PartialConfig { use_gitignore: None, file_types: None };
    let effective = load_config(&empty, &other, &None);
    assert!(effective.use_gitignore);
}

#[test]
fn comma_separated_keys_explode_per_extension() {
    let cfg = Config {
        use_gitignore: true,
        file_types: vec![(b("py,pyw"), rule_with_prefix("# "))],
    };
    let table = cfg.get_filetype_map();
    assert_eq!(table.len(), 2);
    assert_eq!(lookup(&table, "py").expect("py rule").before_line, b("# "));
    assert_eq!(lookup(&table, "pyw").expect("pyw rule").before_line, b("# "));
    assert!(lookup(&table, "py,pyw").is_none());
}

#[test]
fn later_single_extension_entry_overrides_comma_list() {
    let cfg = Config {
        use_gitignore: true,
        file_types: vec![
            (b("py,pyw"), rule_with_prefix("# ")),
            (b("py"), rule_with_prefix("## ")),
        ],
    };
    let table = cfg.get_filetype_map();
    assert_eq!(lookup(&table, "py").expect("py rule").before_line, b("## "));
    assert_eq!(lookup(&table, "pyw").expect("pyw rule").before_line, b("# "));
}

#[test]
fn assign_merges_partial_layers() {
    let target = PartialConfig {
        use_gitignore: Some(true),
        file_types: Some(vec![(b("py"), rule_with_prefix("# "))]),
    };
    let source = PartialConfig {
        use_gitignore: None,
        file_types: Some(vec![(b("js"), rule_with_prefix("// "))]),
    };
    let merged = PartialConfig::assign(&target, &source);
    assert_eq!(merged.use_gitignore, Some(true));
    let entries = merged.file_types.expect("entries kept");
    assert_eq!(entries.len(), 2);
    assert_eq!(entries[0].0, b("py"));
    assert_eq!(entries[1].0, b("js"));
}

#[test]
fn assign_partial_applies_layer_to_effective_config() {
    let base = Config { use_gitignore: true, file_types: Vec::new() };
    let layer = PartialConfig {
        use_gitignore: Some(false),
        file_types: Some(vec![(b("rs"), rule_with_prefix("// "))]),
    };
    let merged = Config::assign_partial(&base, &layer);
    assert!(!merged.use_gitignore);
    assert_eq!(merged.file_types.len(), 1);
    assert_eq!(merged.file_types[0].0, b("rs"));
}

#[test]
fn table_get_returns_last_entry_for_key() {
    let table = vec![
        (b("py"), rule_with_prefix("# ")),
        (b("py"), rule_with_prefix("## ")),
    ];
    let found = licensesnip::config::table_get(&table, &b("py")).expect("py rule");
    assert_eq!(found.before_line, b("## "));
    assert!(licensesnip::config::table_get(&table, &b("rs")).is_none());
}

#[test]
fn default_config_has_no_rules() {
    let d = Config::default();
    assert!(d.use_gitignore);
    assert!(d.file_types.is_empty());
}
