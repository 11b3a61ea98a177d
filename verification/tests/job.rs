use fase::job::{
    clip, dns_label, job_labels, job_name, label_value, storage_env, task_command, task_env, JobSettings, SettingsEnv,
};
use fase::strmap::StrMap;

fn env() -> SettingsEnv {
    SettingsEnv {
        helper_image: Some("helper:dev".into()),
        output_service_account: Some("fase-output".into()),
        s3_bucket: Some("fase".into()),
        s3_endpoint: Some("https://silo".into()),
        s3_region: None,
        s3_prefix: None,
        allow_insecure_s3: None,
        s3_anonymous: None,
        max_artifact_bytes: Some("1024".into()),
        task_timeout_seconds: Some("3600".into()),
        read_secret: Some("read".into()),
        write_secret: Some("write".into()),
    }
}

#[test]
fn settings_come_from_the_environment_with_defaults() {
    let settings = JobSettings::from_values(&env()).unwrap();
    assert_eq!(settings.s3_region, "us-east-1");
    assert_eq!(settings.s3_prefix, "");
    assert_eq!(settings.max_artifact_bytes, 1024);
    assert_eq!(settings.task_timeout_seconds, 3600);
    assert!(!settings.allow_insecure_s3);
}

#[test]
fn settings_refuse_plain_http_unless_allowed() {
    let mut values = env();
    values.s3_endpoint = Some("http://silo".into());
    assert_eq!(
        JobSettings::from_values(&values).unwrap_err(),
        "FASE_S3_ENDPOINT must use https unless FASE_ALLOW_INSECURE_S3=true"
    );
    values.allow_insecure_s3 = Some("true".into());
    assert!(JobSettings::from_values(&values).is_ok());
    values.s3_endpoint = Some("ftp://silo".into());
    assert_eq!(JobSettings::from_values(&values).unwrap_err(), "FASE_S3_ENDPOINT must use http or https");
}

#[test]
fn settings_need_the_helper_image_and_bounded_limits() {
    let mut values = env();
    values.helper_image = None;
    assert_eq!(JobSettings::from_values(&values).unwrap_err(), "FASE_HELPER_IMAGE is required");
    let mut values = env();
    values.max_artifact_bytes = Some("0".into());
    assert_eq!(
        JobSettings::from_values(&values).unwrap_err(),
        "FASE_MAX_ARTIFACT_BYTES must be between 1 and 8589934592"
    );
    let mut values = env();
    values.task_timeout_seconds = Some("soon".into());
    assert_eq!(
        JobSettings::from_values(&values).unwrap_err(),
        "FASE_STEP_TIMEOUT_SECONDS must be a positive integer"
    );
}

#[test]
fn dns_labels_and_label_values() {
    assert_eq!(dns_label("Hello World!"), "hello-world");
    assert_eq!(dns_label("---"), "request");
    assert_eq!(label_value(&"a".repeat(70)), "a".repeat(63));
    assert_eq!(clip("abc--def", 4), "abc");
}

#[test]
fn job_names_are_short_and_depend_on_the_identity() {
    let first = job_name("hello", "make", 0, b"[1]");
    let second = job_name("hello", "make", 0, b"[2]");
    assert_ne!(first, second);
    assert!(first.starts_with("hello-make-a0-"));
    assert_eq!(first.len(), "hello-make-a0-".len() + 12);
    let long = job_name(&"r".repeat(80), "make", 3, b"[1]");
    assert!(long.len() <= 63);
    assert!(long.contains("-a3-"));
}

#[test]
fn step_pod_receives_declared_settings_and_scoped_labels() {
    let settings = JobSettings::from_values(&env()).unwrap();
    let storage = storage_env(&settings);
    assert_eq!(storage.len(), 11);
    assert_eq!(storage[0].name, "FASE_S3_BUCKET");
    assert_eq!(storage[0].value, "fase");
    assert_eq!(storage[6].value, "1024");
    assert_eq!(storage[7].value, "3600");
    let mut variables: StrMap<String> = StrMap::new();
    variables.insert("FASE_VAR_VERSION".into(), "1.0".into());
    let task = task_env(&variables);
    assert_eq!(task.len(), 4);
    assert_eq!(task[3].name, "FASE_VAR_VERSION");
    assert_eq!(task[3].value, "1.0");
    let labels = job_labels("hello", "make");
    assert_eq!(labels[1].value, "hello");
    assert_eq!(labels[2].value, "make");
    let command = task_command(&vec!["sh".into()]).unwrap();
    assert_eq!(command, vec!["sh".to_string(), "/run/fase/config/entrypoint.sh".to_string()]);
    assert!(task_command(&vec![]).is_err());
}
