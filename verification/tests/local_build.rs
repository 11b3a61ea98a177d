use fase::content::{Act, ActMap, ActRef, Output, Step};
use fase::local_build::{
    bindings, expand, labels_match, labels_text, matrix_cases, needed_outputs, next_step, ready, segment, select_act,
};
use fase::strmap::StrMap;

fn labels(pairs: &[(&str, &str)]) -> StrMap<String> {
    let mut m: StrMap<String> = StrMap::new();
    for (k, v) in pairs {
        m.insert(k.to_string(), v.to_string());
    }
    m
}

fn act(labels_of: &[(&str, &str)]) -> Act<String> {
    Act { labels: labels(labels_of), inputs: Vec::new(), map: ActMap::Identity, matrix: StrMap::new(), outputs: vec![Output] }
}

fn step(id: &str, needs: &[&str]) -> Step<String> {
    Step {
        id: id.to_string(),
        act: ActRef(labels(&[("name", id)])),
        with: StrMap::new(),
        needs: needs.iter().map(|n| n.to_string()).collect(),
    }
}

#[test]
fn selector_entries_must_all_be_present() {
    let l = labels(&[("arch", "x86"), ("name", "kernel")]);
    assert!(labels_match(&l, &labels(&[("name", "kernel")])));
    assert!(labels_match(&l, &StrMap::new()));
    assert!(!labels_match(&l, &labels(&[("name", "other")])));
    assert!(!labels_match(&l, &labels(&[("os", "linux")])));
}

#[test]
fn one_act_must_match_the_selector() {
    let acts = vec![act(&[("name", "a")]), act(&[("name", "b"), ("tier", "x")]), act(&[("name", "c"), ("tier", "x")])];
    assert_eq!(select_act(&acts, &ActRef(labels(&[("name", "b")]))).unwrap(), 1);
    assert_eq!(
        select_act(&acts, &ActRef(labels(&[("name", "z")]))).unwrap_err(),
        "no Act matches selector name=z"
    );
    assert_eq!(
        select_act(&acts, &ActRef(labels(&[("tier", "x")]))).unwrap_err(),
        "multiple Acts match selector tier=x"
    );
    assert_eq!(labels_text(&labels(&[("b", "2"), ("a", "1")])), "a=1,b=2");
}

#[test]
fn steps_run_once_their_needs_are_done() {
    let steps = vec![step("fetch", &[]), step("build", &["fetch"]), step("pack", &["build", "fetch"])];
    let done: Vec<String> = Vec::new();
    assert!(ready(&steps[0], &done));
    assert!(!ready(&steps[1], &done));
    assert_eq!(next_step(&steps, &vec![2, 1, 0], &done).unwrap(), 2);
    let done = vec!["fetch".to_string()];
    assert_eq!(next_step(&steps, &vec![2, 1], &done).unwrap(), 1);
    let cyclic = vec![step("x", &["y"]), step("y", &["x"])];
    assert_eq!(
        next_step(&cyclic, &vec![0, 1], &Vec::new()).unwrap_err(),
        "build graph has missing or cyclic step dependencies"
    );
}

#[test]
fn step_bindings_override_the_matrix() {
    let with = labels(&[("arch", "arm"), ("name", "k")]);
    let case = labels(&[("arch", "x86"), ("os", "linux")]);
    let vars = bindings(&with, case);
    assert_eq!(vars.get("arch").map(|s| s.as_str()), Some("arm"));
    assert_eq!(vars.get("os").map(|s| s.as_str()), Some("linux"));
    assert_eq!(vars.get("name").map(|s| s.as_str()), Some("k"));
    assert_eq!(vars.len(), 3);
}

#[test]
fn templates_expand_their_bindings() {
    let vars = labels(&[("arch", "x86"), ("version", "6.1")]);
    assert_eq!(expand("linux-${version}-${arch}.tar", &vars).unwrap(), "linux-6.1-x86.tar");
    assert_eq!(expand("plain", &vars).unwrap(), "plain");
    assert_eq!(expand("${missing}", &vars).unwrap_err(), "missing binding for missing");
    assert_eq!(expand("a ${arch", &vars).unwrap_err(), "unclosed expression in a ${arch");
}

#[test]
fn file_names_keep_safe_characters() {
    assert_eq!(segment("a/b c.tar"), "a_b_c.tar");
    assert_eq!(segment(""), "_");
    assert_eq!(segment("ok-1_2.x"), "ok-1_2.x");
}

#[test]
fn matrix_cases_vary_the_first_dimension_slowest() {
    let mut matrix: StrMap<Vec<String>> = StrMap::new();
    matrix.insert("arch".to_string(), vec!["arm".to_string(), "x86".to_string()]);
    matrix.insert("os".to_string(), vec!["linux".to_string(), "bsd".to_string(), "mac".to_string()]);
    let cases = matrix_cases(&matrix);
    assert_eq!(cases.len(), 6);
    assert_eq!(cases[0].get("arch").map(|s| s.as_str()), Some("arm"));
    assert_eq!(cases[0].get("os").map(|s| s.as_str()), Some("linux"));
    assert_eq!(cases[2].get("os").map(|s| s.as_str()), Some("mac"));
    assert_eq!(cases[3].get("arch").map(|s| s.as_str()), Some("x86"));
    assert_eq!(cases[3].get("os").map(|s| s.as_str()), Some("linux"));
    assert_eq!(matrix_cases(&StrMap::new()).len(), 1);
    let mut empty: StrMap<Vec<String>> = StrMap::new();
    empty.insert("arch".to_string(), Vec::new());
    assert_eq!(matrix_cases(&empty).len(), 0);
}

#[test]
fn inputs_come_from_the_needed_steps_in_order() {
    let done = vec!["fetch".to_string(), "build".to_string(), "other".to_string()];
    let needs = vec!["build".to_string(), "missing".to_string(), "fetch".to_string()];
    assert_eq!(needed_outputs(&needs, &done), vec![1, 0]);
    assert!(needed_outputs(&Vec::new(), &done).is_empty());
}
