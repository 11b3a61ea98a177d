use fase::labels::{
    same_labels, valid_label_key, valid_label_value, valid_name, LabelExpression, LabelOperator, LabelSelector,
    Labels,
};
use fase::strmap::StrMap;

fn labels(pairs: &[(&str, &str)]) -> Labels {
    let mut m: Labels = StrMap::new();
    for (k, v) in pairs {
        m.insert(k.to_string(), v.to_string());
    }
    m
}

#[test]
fn label_selector_uses_kubernetes_expression_semantics() {
    let selector = LabelSelector {
        match_labels: labels(&[("name", "package")]),
        match_expressions: vec![LabelExpression {
            key: "arch".into(),
            operator: LabelOperator::NotIn,
            values: vec!["arm64".into()],
        }],
    };
    selector.validate().unwrap();
    assert!(selector.matches(&labels(&[("name", "package")])));
    assert!(selector.matches(&labels(&[("name", "package"), ("arch", "amd64")])));
    assert!(!selector.matches(&labels(&[("name", "package"), ("arch", "arm64")])));
    assert!(valid_label_key("skyw.top/name"));
    assert!(!valid_label_key("bad_prefix/name"));
    assert!(!valid_label_key("Upper.example/name"));
}

#[test]
fn empty_selector_selects_everything() {
    let selector = LabelSelector { match_labels: labels(&[]), match_expressions: vec![] };
    assert!(selector.is_empty());
    assert!(selector.matches(&labels(&[])));
    assert!(selector.matches(&labels(&[("a", "b")])));
}

#[test]
fn exists_and_does_not_exist() {
    let exists = LabelSelector {
        match_labels: labels(&[]),
        match_expressions: vec![LabelExpression { key: "arch".into(), operator: LabelOperator::Exists, values: vec![] }],
    };
    assert!(exists.matches(&labels(&[("arch", "amd64")])));
    assert!(!exists.matches(&labels(&[("name", "x")])));
    let absent = LabelSelector {
        match_labels: labels(&[]),
        match_expressions: vec![LabelExpression {
            key: "arch".into(),
            operator: LabelOperator::DoesNotExist,
            values: vec![],
        }],
    };
    assert!(!absent.matches(&labels(&[("arch", "amd64")])));
    assert!(absent.matches(&labels(&[("name", "x")])));
}

#[test]
fn in_needs_the_key() {
    let selector = LabelSelector {
        match_labels: labels(&[]),
        match_expressions: vec![LabelExpression {
            key: "arch".into(),
            operator: LabelOperator::In,
            values: vec!["amd64".into()],
        }],
    };
    assert!(selector.matches(&labels(&[("arch", "amd64")])));
    assert!(!selector.matches(&labels(&[])));
    assert!(!selector.matches(&labels(&[("arch", "arm64")])));
}

#[test]
fn invalid_selector_is_refused() {
    let in_without_values = LabelSelector {
        match_labels: labels(&[]),
        match_expressions: vec![LabelExpression { key: "arch".into(), operator: LabelOperator::In, values: vec![] }],
    };
    assert!(in_without_values.validate().is_err());
    let exists_with_values = LabelSelector {
        match_labels: labels(&[]),
        match_expressions: vec![LabelExpression {
            key: "arch".into(),
            operator: LabelOperator::Exists,
            values: vec!["x".into()],
        }],
    };
    assert!(exists_with_values.validate().is_err());
    let bad_key = LabelSelector { match_labels: labels(&[("Bad Key", "x")]), match_expressions: vec![] };
    assert!(bad_key.validate().is_err());
}

#[test]
fn label_keys_values_and_names() {
    assert!(valid_label_key("name"));
    assert!(!valid_label_key(""));
    assert!(!valid_label_key("-name"));
    assert!(valid_label_value(""));
    assert!(valid_label_value("1.0"));
    assert!(!valid_label_value("a b"));
    assert!(valid_name("hello-source"));
    assert!(valid_name("Hello"));
    assert!(!valid_name("hello.source"));
    assert!(!valid_name(""));
}

#[test]
fn same_labels_ignores_insertion_order() {
    let a = labels(&[("a", "1"), ("b", "2")]);
    let b = labels(&[("b", "2"), ("a", "1")]);
    assert!(same_labels(&a, &b));
    assert!(!same_labels(&a, &labels(&[("a", "1")])));
}
