use patcherd::types::{lookup, select_rules, PatchRuleSpec, Selector};

fn labels(pairs: &[(&str, &str)]) -> Vec<(String, String)> {
    pairs.iter().map(|(k, v)| (k.to_string(), v.to_string())).collect()
}

#[test]
fn selector_without_labels_matches_all() {
    let sel = Selector::default();
    assert!(sel.matches(&labels(&[])));
    assert!(sel.matches(&labels(&[("app", "x")])));
}

#[test]
fn selector_requires_each_label() {
    let sel = Selector { match_labels: Some(labels(&[("app", "web"), ("tier", "front")])) };
    assert!(sel.matches(&labels(&[("tier", "front"), ("app", "web"), ("x", "y")])));
    assert!(!sel.matches(&labels(&[("app", "web")])));
    assert!(!sel.matches(&labels(&[("app", "web"), ("tier", "back")])));
    let empty = Selector { match_labels: Some(vec![]) };
    assert!(empty.matches(&labels(&[])));
}

#[test]
fn lookup_finds_value() {
    let l = labels(&[("a", "1"), ("b", "2")]);
    assert_eq!(lookup(&l, &"b".to_string()), Some(&"2".to_string()));
    assert_eq!(lookup(&l, &"c".to_string()), None);
}

#[test]
fn select_rules_filters_in_order() {
    let mk = |img: &str, l: Option<Vec<(String, String)>>| PatchRuleSpec {
        selector: Selector { match_labels: l },
        patches: vec![],
        patcher_image: Some(img.to_string()),
    };
    let rules = vec![
        mk("1", None),
        mk("2", Some(labels(&[("app", "db")]))),
        mk("3", Some(labels(&[("app", "web")]))),
    ];
    let kept = select_rules(rules, &labels(&[("app", "web")]));
    let images: Vec<String> = kept.iter().map(|r| r.patcher_image.clone().unwrap()).collect();
    assert_eq!(images, vec!["1".to_string(), "3".to_string()]);
}
