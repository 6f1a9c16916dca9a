use atlas::configuration::{MetaItem, Settings};
use atlas::inheritance::AttrItem;
use atlas::model::CfgStatus;
use atlas::syntax::{ancestor_cfg_attributes, cfg_attribute_texts, FileConfigurations, Node};

fn legacy_cfg(node: &Node) -> Vec<String> {
    ancestor_cfg_attributes(node)
}

fn assert_matches_legacy(text: &str, settings: &Settings) -> FileConfigurations {
    let root = Node::parse(text);
    let cache = FileConfigurations::new(&root, settings);
    let nodes = root.descendants();
    for (index, node) in nodes.iter().enumerate() {
        assert_eq!(
            cache.node_status(node),
            settings.node_status(node),
            "cfg status at node {index}"
        );
        assert_eq!(
            cache.has_attribute_macro(node),
            settings.has_attribute_macro(node),
            "macro availability at node {index}"
        );
        assert_eq!(cache.cfg(node), legacy_cfg(node));
    }
    assert_eq!(cache.node_visits, nodes.len());
    assert_eq!(cache.child_visits + 1, cache.node_visits);
    cache
}

fn selected(unknown_features: bool) -> Settings {
    let mut settings = Settings::default();
    settings.insert_feature("selected".into());
    settings.unknown_features = unknown_features;
    settings
}

#[test]
fn cached_inheritance_matches_legacy_for_cfg_attr_and_macro_combinations() {
    let text = r#"
#![cfg_attr(feature = "selected", allow(dead_code))]
#[cfg(unknown_outer)]
#[cfg_attr(feature = "selected", cfg(enabled), wrapper)]
mod outer {
    #![cfg_attr(enabled, cfg(not(test)))]
    #[cfg_attr(unknown_inner, cfg(enabled), another_wrapper)]
    #[cfg(feature = "selected")]
    fn event() {
        #[cfg(false)]
        { target(); }
        #[cfg_attr(feature = "absent", wrapper)]
        let local = || { leaf(); };
        #[cfg_attr(enabled, cfg(false), wrapper)]
        fn nested() { nested_target(); }
        #[unsafe(no_mangle)]
        fn safe_attribute() { target(); }
    }
}
#[cfg(false)]
#[custom_attribute]
fn inactive_macro() { target(); }
#[derive(Clone)]
struct Kept;
"#;
    for unknown_features in [false, true] {
        for enabled in [false, true] {
            let mut settings = selected(unknown_features);
            if enabled {
                settings.insert_cfg("enabled".into(), None);
            }
            assert_matches_legacy(text, &settings);
        }
    }
}

#[test]
fn incomplete_attributes_and_nested_unknowns_match_legacy() {
    for text in [
        "#[cfg()] fn event() { #[cfg_attr()] let local = 1; }",
        "#[cfg_attr(true, cfg(), unsafe())] fn event() {}",
        "#[cfg(unknown)] mod outer { #[cfg(false)] fn event() { target(); } }",
        "#[cfg_attr(false, wrapper)] mod outer { fn event() { target(); } }",
        "#[cfg_attr(unknown, allow(dead_code))] fn event() { target(); }",
    ] {
        assert_matches_legacy(text, &Settings::default());
    }
}

#[test]
fn flat_statement_and_sibling_item_scans_are_linear_and_default_cache_is_sparse() {
    let mut previous = None;
    for count in [32, 64, 128] {
        for body in [
            format!("fn event() {{ {} }}", "target();".repeat(count)),
            (0..count)
                .map(|index| format!("fn event_{index}() {{ target(); }}"))
                .collect::<String>(),
        ] {
            let cache = assert_matches_legacy(&body, &Settings::default());
            assert!(cache.nodes.is_empty());
            assert!(cache.cfg.is_empty());
            assert_eq!(cache.node_visits, cache.child_visits + 1);
        }
        let text = format!(
            "#[cfg(true)] fn event() {{ {} }}",
            "target();".repeat(count)
        );
        let cache = assert_matches_legacy(&text, &Settings::default());
        if let Some(visits) = previous {
            assert!(cache.child_visits <= visits * 2);
        }
        previous = Some(cache.child_visits);
    }
}

#[test]
fn deeply_nested_scopes_share_attribute_chains_without_repeated_child_scans() {
    let depth = 64;
    let text = format!(
        "{}fn event() {{ leaf(); }}{}",
        "#[cfg(true)] mod nested {".repeat(depth),
        "}".repeat(depth)
    );
    let cache = assert_matches_legacy(&text, &Settings::default());
    assert_eq!(cache.cfg.len(), depth);
    assert_eq!(
        cache
            .cfg
            .iter()
            .map(|entry| entry.attributes.len())
            .sum::<usize>(),
        depth
    );
}

#[test]
fn separate_file_and_configuration_caches_do_not_reuse_stale_status() {
    let text = "#[cfg(feature = \"selected\")] fn event() { target(); }";
    let with_feature = selected(false);
    let without = Settings::default();
    for settings in [&with_feature, &without, &with_feature] {
        assert_matches_legacy(text, settings);
    }
}

#[test]
fn plain_attribute_chains_give_status_macro_flag_and_cfg_texts() {
    let settings = Settings::default();
    assert_eq!(settings.metas_status(&vec![]), CfgStatus::Active);
    assert_eq!(settings.metas_status(&vec![MetaItem::Cfg(None)]), CfgStatus::Unknown);
    assert!(!settings.metas_hide_macro(&vec![MetaItem::Cfg(None)]));
    let plain = AttrItem { meta: None, name: None, text: "#[doc]".into() };
    assert_eq!(settings.item_status(&plain), CfgStatus::Unknown);
    let items = vec![
        AttrItem { meta: None, name: Some("cfg".into()), text: "#[cfg(test)]".into() },
        AttrItem { meta: None, name: Some("inline".into()), text: "#[inline]".into() },
        AttrItem { meta: None, name: Some("cfg_attr".into()), text: "#[cfg_attr(x, y)]".into() },
    ];
    assert_eq!(cfg_attribute_texts(&items), vec!["#[cfg(test)]".to_string(), "#[cfg_attr(x, y)]".to_string()]);
    let root = Node::parse("#[cfg(test)]\nmod m { #[cfg(unix)] fn f() {} }");
    let nodes = root.descendants();
    let deepest = nodes.last().unwrap();
    assert_eq!(ancestor_cfg_attributes(deepest), vec!["#[cfg(unix)]".to_string(), "#[cfg(test)]".to_string()]);
}
