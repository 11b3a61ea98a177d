use fase::generator::{dns_label, expand_matrix, latest_due, MAX_COMBINATIONS};
use fase::strmap::StrMap;

fn strings(values: &[&str]) -> Vec<String> {
    values.iter().map(|v| v.to_string()).collect()
}

#[test]
fn matrix_is_bounded_and_names_include_a_stable_identity() {
    let mut matrix: StrMap<Vec<String>> = StrMap::new();
    matrix.insert("a".to_owned(), strings(&["x", "y-z"]));
    matrix.insert("b".to_owned(), strings(&["1", "2"]));
    assert_eq!(expand_matrix(&matrix).unwrap().len(), 4);
    let large: Vec<String> = (0..20).map(|value: i32| value.to_string()).collect();
    let mut big: StrMap<Vec<String>> = StrMap::new();
    big.insert("a".into(), large.clone());
    big.insert("b".into(), large.clone());
    assert!(expand_matrix(&big).is_err());
    let first = dns_label("g-a-b-c");
    let second = dns_label("g-a-b-c-different");
    assert_ne!(first, second);
}

fn seconds(text: &str) -> i64 {
    chrono::DateTime::parse_from_rfc3339(text).unwrap().timestamp()
}

#[test]
fn cron_fires_once_for_a_minute() {
    let now = seconds("2026-09-24T02:00:32Z");
    let due = latest_due("0 2 * * *", now, None).unwrap().unwrap();
    assert_eq!(due, seconds("2026-09-24T02:00:00+00:00"));
    assert!(latest_due("0 2 * * *", now, Some("2026-09-24T02:00:00Z")).unwrap().is_none());
}

#[test]
fn matrix_rows_are_the_product_of_the_dimensions() {
    let mut matrix: StrMap<Vec<String>> = StrMap::new();
    matrix.insert("a".to_owned(), strings(&["x", "y", "z"]));
    matrix.insert("b".to_owned(), strings(&["1", "2"]));
    let rows = expand_matrix(&matrix).unwrap();
    assert_eq!(rows.len(), 6);
    for row in &rows {
        assert_eq!(row.len(), 2);
    }
}

#[test]
fn empty_matrix_has_one_empty_row() {
    let matrix: StrMap<Vec<String>> = StrMap::new();
    let rows = expand_matrix(&matrix).unwrap();
    assert_eq!(rows.len(), 1);
    assert!(rows[0].is_empty());
}

#[test]
fn matrix_dimension_without_values_is_refused() {
    let mut matrix: StrMap<Vec<String>> = StrMap::new();
    matrix.insert("a".to_owned(), Vec::new());
    assert!(expand_matrix(&matrix).is_err());
}

#[test]
fn matrix_of_the_limit_is_accepted() {
    let mut matrix: StrMap<Vec<String>> = StrMap::new();
    let values: Vec<String> = (0..16).map(|v: i32| v.to_string()).collect();
    matrix.insert("a".to_owned(), values.clone());
    matrix.insert("b".to_owned(), values);
    assert_eq!(expand_matrix(&matrix).unwrap().len(), MAX_COMBINATIONS);
}

#[test]
fn request_names_are_dns_labels_with_a_digest() {
    let name = dns_label("Hello_World");
    assert!(name.starts_with("hello-world-"));
    assert_eq!(name.len(), "hello-world-".len() + 16);
    assert_eq!(dns_label("Hello_World"), name);
}

#[test]
fn cron_with_a_bad_expression_is_an_error() {
    let now = seconds("2026-09-24T02:00:32Z");
    assert!(latest_due("not a schedule", now, None).is_err());
}

#[test]
fn cron_reports_the_latest_of_several_firings() {
    let now = seconds("2026-09-24T02:05:10Z");
    let due = latest_due("* * * * *", now, Some("2026-09-24T02:00:00Z")).unwrap().unwrap();
    assert_eq!(due, seconds("2026-09-24T02:05:00Z"));
}

use fase::api::{
    GeneratorSource, GeneratorTemplate, ObjectMeta, RequestGenerator, RequestGeneratorSpec, RequestSpec, Schedule,
};
use fase::generator::{error_status, generated_status, kernel_version, plan_requests, render_selector};
use fase::labels::{LabelExpression, LabelOperator, LabelSelector};

fn text_map(pairs: &[(&str, &str)]) -> StrMap<String> {
    let mut m: StrMap<String> = StrMap::new();
    for (k, v) in pairs {
        m.insert(k.to_string(), v.to_string());
    }
    m
}

fn kernel_source() -> GeneratorSource {
    GeneratorSource { source_type: "kernel-release".into(), selector: text_map(&[("latest", "true")]) }
}

fn generator(matrix: StrMap<Vec<String>>) -> RequestGenerator {
    RequestGenerator {
        metadata: ObjectMeta {
            name: "nightly".into(),
            namespace: Some("builds".into()),
            uid: Some("gen-uid".into()),
            generation: Some(1),
            resource_version: None,
            labels: None,
            deleting: false,
        },
        spec: RequestGeneratorSpec {
            schedule: Schedule { cron: "0 2 * * *".into() },
            template: GeneratorTemplate {
                request: RequestSpec {
                    artifact_selector: LabelSelector {
                        match_labels: text_map(&[("name", "kernel"), ("version", "{{ source.kernelVersion }}"), ("arch", "{{ matrix.arch }}")]),
                        match_expressions: vec![],
                    },
                    recipe_selector: None,
                    variables: text_map(&[("arch", "{{ matrix.arch }}"), ("flavor", "plain")]),
                    rerun: 0,
                },
            },
            matrix,
            source: kernel_source(),
        },
        status: None,
    }
}

#[test]
fn selectors_render_labels_and_expression_values() {
    let selector = LabelSelector {
        match_labels: text_map(&[("arch", "{{ matrix.arch }}")]),
        match_expressions: vec![LabelExpression {
            key: "version".into(),
            operator: LabelOperator::In,
            values: vec!["{{ source.kernelVersion }}".into(), "fixed".into()],
        }],
    };
    let row = text_map(&[("arch", "arm64")]);
    let rendered = render_selector(&selector, "6.9.1", &row).unwrap();
    assert_eq!(rendered.match_labels.get("arch").unwrap(), "arm64");
    assert_eq!(rendered.match_expressions[0].key, "version");
    assert_eq!(rendered.match_expressions[0].values, vec!["6.9.1".to_string(), "fixed".to_string()]);
    let unknown = LabelSelector { match_labels: text_map(&[("arch", "{{ matrix.cpu }}")]), match_expressions: vec![] };
    assert_eq!(render_selector(&unknown, "6.9.1", &row).unwrap_err(), "unknown matrix dimension cpu");
}

#[test]
fn kernel_versions_come_from_the_release_list() {
    let payload = "{\"latest_stable\":{\"version\":\"6.9.1\"}}";
    assert_eq!(kernel_version(&kernel_source(), payload).unwrap(), "6.9.1");
    assert_eq!(
        kernel_version(&kernel_source(), "{}").unwrap_err(),
        "kernel.org response omitted latest_stable.version"
    );
    let other = GeneratorSource { source_type: "git".into(), selector: text_map(&[]) };
    assert_eq!(
        kernel_version(&other, payload).unwrap_err(),
        "only source.type=kernel-release with selector.latest=true is supported"
    );
}

#[test]
fn a_firing_plans_one_request_per_row() {
    let mut matrix: StrMap<Vec<String>> = StrMap::new();
    matrix.insert("arch".into(), strings(&["amd64", "arm64"]));
    let planned = plan_requests(&generator(matrix), "6.9.1", seconds("2026-09-24T02:00:00Z")).unwrap();
    assert_eq!(planned.len(), 2);
    assert!(planned[0].name.starts_with("nightly-202609240200-amd64-"));
    assert!(planned[1].name.starts_with("nightly-202609240200-arm64-"));
    assert!(planned[0].name.len() <= 63);
    assert_eq!(planned[0].spec.variables.get("arch").unwrap(), "amd64");
    assert_eq!(planned[1].spec.variables.get("flavor").unwrap(), "plain");
    assert_eq!(planned[1].spec.artifact_selector.match_labels.get("version").unwrap(), "6.9.1");
    assert_eq!(planned[1].spec.artifact_selector.match_labels.get("arch").unwrap(), "arm64");
    assert_eq!(planned[0].spec.rerun, 0);
}

#[test]
fn a_firing_with_an_invalid_variable_name_plans_nothing() {
    let mut g = generator(StrMap::new());
    g.spec.template.request.variables.insert("bad name".into(), "x".into());
    assert_eq!(
        plan_requests(&g, "6.9.1", seconds("2026-09-24T02:00:00Z")).unwrap_err(),
        "generator template contains an invalid variable name"
    );
}

#[test]
fn statuses_record_firings_and_failures() {
    let status = generated_status(seconds("2026-09-24T02:00:00Z"), vec![], "2026-09-24T02:00:05Z");
    assert_eq!(status.last_schedule_time.as_deref(), Some("2026-09-24T02:00:00Z"));
    assert_eq!(status.conditions[0].message, "0 Requests were created");
    let failed = error_status(&None, "boom", "2026-09-24T02:00:05Z").unwrap();
    assert_eq!(failed.conditions[0].reason, "GenerationFailed");
    assert!(error_status(&Some(failed), "boom", "2026-09-24T02:00:05Z").is_none());
}

#[test]
fn a_firing_whose_rendered_selector_is_invalid_plans_nothing() {
    let mut matrix: StrMap<Vec<String>> = StrMap::new();
    matrix.insert("arch".into(), strings(&["amd64", "not valid"]));
    let g = generator(matrix);
    assert_eq!(
        plan_requests(&g, "6.9.1", seconds("2026-09-24T02:00:00Z")).unwrap_err(),
        "invalid matchLabels"
    );
    let mut one: StrMap<Vec<String>> = StrMap::new();
    one.insert("arch".into(), strings(&["amd64"]));
    let mut unknown = generator(one);
    unknown.spec.template.request.variables.insert("cpu".into(), "{{ matrix.cpu }}".into());
    assert_eq!(
        plan_requests(&unknown, "6.9.1", seconds("2026-09-24T02:00:00Z")).unwrap_err(),
        "unknown matrix dimension cpu"
    );
}

#[test]
fn cron_around_the_epoch() {
    let now = seconds("1969-12-31T23:59:30Z");
    assert_eq!(now, -30);
    // cron schedules begin in 1970, so nothing before it is due
    assert!(latest_due("* * * * *", now, None).unwrap().is_none());
    let due = latest_due("* * * * *", seconds("1970-01-01T00:00:30Z"), None).unwrap().unwrap();
    assert_eq!(due, 0);
}
