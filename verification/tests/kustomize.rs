use fase::content::Kustomize;
use fase::kustomize::{count_table, cycle_message, Parsed, Renderer, Step};
use fase::strmap::StrMap;

fn labels(pairs: &[(&str, &str)]) -> StrMap<String> {
    let mut m: StrMap<String> = StrMap::new();
    for (k, v) in pairs {
        m.insert(k.to_string(), v.to_string());
    }
    m
}

fn kustomize(resources: &[&str], layers: Vec<StrMap<String>>) -> Parsed<&'static str> {
    Parsed::Kustomize(Kustomize { resources: resources.iter().map(|r| r.to_string()).collect(), labels: layers })
}

fn read(renderer: &mut Renderer<&'static str>) -> fase::kustomize::Frame {
    match renderer.next() {
        Step::Read(frame) => frame,
        _ => panic!("expected a file to read"),
    }
}

fn emit(renderer: &mut Renderer<&'static str>) -> (&'static str, Vec<StrMap<String>>) {
    match renderer.next() {
        Step::Emit { resource, labels } => (resource, labels),
        _ => panic!("expected a resource"),
    }
}

#[test]
fn recursive_kustomize() {
    let mut renderer: Renderer<&'static str> = Renderer::new("/root/a");
    let a = read(&mut renderer);
    assert_eq!(a.path, "/root/a");
    assert_eq!(a.dir, "");
    assert!(cycle_message(&a.ancestors, "/root/a/kustomize.yaml").is_none());
    renderer.expand(&a.labels, &a.ancestors, "/root/a/kustomize.yaml", "/root/a", vec![kustomize(&["../b"], vec![])]);

    let b = read(&mut renderer);
    assert_eq!(b.dir, "/root/a");
    assert_eq!(b.path, "../b");
    assert_eq!(b.ancestors, vec!["/root/a/kustomize.yaml".to_string()]);
    assert!(cycle_message(&b.ancestors, "/root/b/kustomize.yaml").is_none());
    renderer.expand(&b.labels, &b.ancestors, "/root/b/kustomize.yaml", "/root/b", vec![kustomize(&["../a"], vec![])]);

    let again = read(&mut renderer);
    let error = cycle_message(&again.ancestors, "/root/a/kustomize.yaml").unwrap();
    assert!(error.contains("recursive kustomize resources"), "{error}");
    assert_eq!(
        error,
        "recursive kustomize resources: /root/a/kustomize.yaml -> /root/b/kustomize.yaml -> /root/a/kustomize.yaml"
    );
}

#[test]
fn cycle_names_the_chain_from_the_first_repeat() {
    let ancestors = vec!["/x".to_string(), "/y".to_string(), "/z".to_string()];
    assert_eq!(cycle_message(&ancestors, "/y").unwrap(), "recursive kustomize resources: /y -> /z -> /y");
    assert_eq!(cycle_message(&ancestors, "/z").unwrap(), "recursive kustomize resources: /z -> /z");
    assert!(cycle_message(&ancestors, "/w").is_none());
    assert!(cycle_message(&Vec::new(), "/w").is_none());
}

#[test]
fn documents_and_paths_come_out_in_order_with_their_layers() {
    let mut renderer: Renderer<&'static str> = Renderer::new("top");
    let top = read(&mut renderer);
    let outer = vec![labels(&[("team", "core")])];
    renderer.expand(
        &outer,
        &top.ancestors,
        "/t/top.yaml",
        "/t",
        vec![Parsed::Other("first"), kustomize(&["one", "two"], vec![labels(&[("tier", "db")])]), Parsed::Other("last")],
    );

    let (first, first_labels) = emit(&mut renderer);
    assert_eq!(first, "first");
    assert_eq!(first_labels.len(), 1);
    assert_eq!(first_labels[0].get("team").map(|s| s.as_str()), Some("core"));

    let one = read(&mut renderer);
    assert_eq!(one.path, "one");
    assert_eq!(one.dir, "/t");
    assert_eq!(one.labels.len(), 2);
    assert_eq!(one.labels[1].get("tier").map(|s| s.as_str()), Some("db"));
    assert_eq!(one.ancestors, vec!["/t/top.yaml".to_string()]);

    let two = read(&mut renderer);
    assert_eq!(two.path, "two");

    let (last, last_labels) = emit(&mut renderer);
    assert_eq!(last, "last");
    assert_eq!(last_labels.len(), 1);

    assert!(matches!(renderer.next(), Step::Done));
}

#[test]
fn count_table_groups_and_sorts() {
    let apis = vec![
        ("v1".to_string(), "Service".to_string()),
        ("apps/v1".to_string(), "Deployment".to_string()),
        ("v1".to_string(), "ConfigMap".to_string()),
        ("v1".to_string(), "Service".to_string()),
    ];
    assert_eq!(
        count_table(&apis),
        "apiVersion\tkind\tcount\napps/v1\tDeployment\t1\nv1\tConfigMap\t1\nv1\tService\t2\n"
    );
    assert_eq!(count_table(&Vec::new()), "apiVersion\tkind\tcount\n");
}
