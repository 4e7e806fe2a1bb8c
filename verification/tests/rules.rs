use ename::alias::rules::{is_rules_file, CompiledRules, Rules, RulesError};

fn rule(alias: Option<&str>, patterns: &[&str]) -> Rules {
    Rules {
        alias: alias.map(|a| a.to_owned()),
        patterns: if patterns.is_empty() {
            vec!["*".to_owned()]
        } else {
            patterns.iter().map(|p| (*p).to_owned()).collect()
        },
    }
}

fn compiled(alias: Option<&str>, patterns: &[&str], dir: &str) -> CompiledRules {
    match CompiledRules::compile(rule(alias, patterns), dir) {
        Ok(rules) => rules,
        Err(err) => panic!("compiles: {}", err.describe()),
    }
}

#[test]
fn include_defaults_to_everything() {
    let rules = Rules::default();
    assert_eq!(rules.alias, None);
    assert_eq!(rules.patterns, ["*"]);
}

#[test]
fn stem_stops_at_the_first_dot() {
    let rules = compiled(Some("core::{stem}"), &[], "base/core");
    assert_eq!(rules.alias_for("base/core/airship.glb").as_deref(), Some("core::airship"));
    assert_eq!(rules.alias_for("base/core/terrain.height.png").as_deref(), Some("core::terrain"));
}

#[test]
fn the_path_placeholder_keeps_the_subdirectory() {
    let rules = compiled(Some("core::{path}"), &[], "base/core/props");
    assert_eq!(
        rules.alias_for("base/core/props/crates/barrel.png").as_deref(),
        Some("core::crates/barrel")
    );
    assert_eq!(rules.alias_for("base/core/props/barrel.png").as_deref(), Some("core::barrel"));
}

#[test]
fn a_stem_containing_literal_braces_is_not_rescanned_for_path() {
    let rules = compiled(Some("core::{stem}"), &[], "base/core");
    assert_eq!(
        rules.alias_for("base/core/weird{path}rest.png").as_deref(),
        Some("core::weird{path}rest")
    );
}

#[test]
fn alias_for_is_none_when_the_path_is_outside_the_rules_directory() {
    let rules = compiled(Some("core::{path}"), &[], "base/core");
    assert_eq!(rules.alias_for("base/other/airship.glb"), None);
}

#[test]
fn a_stem_rule_derives_nothing_outside_its_directory() {
    let rules = compiled(Some("core::{stem}"), &[], "base/core");
    assert_eq!(rules.alias_for("base/other/airship.glb"), None);
    assert_eq!(rules.alias_for("base/core/airship.glb").as_deref(), Some("core::airship"));
    assert_eq!(rules.alias_for("base/corelike/airship.glb"), None);
}

#[test]
fn an_unknown_placeholder_is_rejected() {
    let result = CompiledRules::compile(rule(Some("core::{stemm}"), &[]), "base/core");
    assert!(matches!(result, Err(RulesError::UnknownPlaceholder(name)) if name == "stemm"));
}

#[test]
fn an_unbalanced_brace_is_rejected() {
    let result = CompiledRules::compile(rule(Some("core::{stem"), &[]), "base/core");
    assert!(matches!(result, Err(RulesError::UnbalancedBrace(_))));
}

#[test]
fn include_patterns_match_the_file_name() {
    let rules = compiled(Some("core::{stem}"), &["*.png", "*.glb"], "base/core");
    assert!(rules.includes("airship.glb"));
    assert!(rules.includes("barrel.png"));
    assert!(!rules.includes("notes.txt"));
}

#[test]
fn a_bad_glob_pattern_is_rejected() {
    let result = CompiledRules::compile(rule(None, &["["]), "base/core");
    assert!(matches!(result, Err(RulesError::BadPattern { .. })));
}

#[test]
fn a_rule_with_no_template_derives_nothing() {
    let rules = compiled(None, &["*.glb"], "base/core");
    assert_eq!(rules.alias_for("base/core/airship.glb"), None);
}

#[test]
fn the_rules_file_is_matched_case_insensitively() {
    assert!(is_rules_file("_alias_rules.toml"));
    assert!(is_rules_file("_Alias_Rules.toml"));
    assert!(is_rules_file("_ALIAS_RULES.TOML"));
    assert!(!is_rules_file("alias_rules.toml"), "the leading underscore is part of the name");
    assert!(!is_rules_file("_alias_rules.tom"));
    assert!(
        !is_rules_file("_rules.toml"),
        "the old name is not a rule file, so an unmigrated one shows up as a stray asset \
         rather than silently half-working"
    );
}

#[test]
fn a_bad_pattern_is_described_with_the_pattern() {
    match CompiledRules::compile(rule(None, &["a[", "*"]), "base") {
        Err(err @ RulesError::BadPattern { .. }) => {
            let text = err.describe();
            assert!(text.contains("a["), "{text}");
        }
        _ => panic!("a pattern glob cannot read must be refused"),
    }
}

#[test]
fn an_unknown_placeholder_is_described_by_name() {
    let err = CompiledRules::compile(rule(Some("x::{nope}"), &[]), "d").err().unwrap();
    assert!(err.describe().contains("nope"));
}
