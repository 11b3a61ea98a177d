use fase::content::ActMap;
use fase::runtime::{fetched_name, join_path, plan, url_file_name, zstd_extension, zstd_path, Context, Input, MapPlan};

fn context(inputs: &[&str], dir: &str) -> Context {
    Context::new(inputs.iter().map(|i| Input::path(i)).collect(), dir)
}

#[test]
fn zstd_extension_follows_the_input_extension() {
    assert_eq!(zstd_extension(Some("txt")), "txt.zst");
    assert_eq!(zstd_extension(None), "zst");
}

#[test]
fn zstd_output_goes_to_the_output_directory() {
    assert_eq!(zstd_path("/in/hello.txt", "/out").unwrap(), "/out/hello.txt.zst");
    assert_eq!(zstd_path("/in/hello", "/out").unwrap(), "/out/hello.zst");
    assert_eq!(zstd_path("/in/a.tar.gz", "/out").unwrap(), "/out/a.tar.gz.zst");
    assert_eq!(zstd_path("/in/README", "/out").unwrap(), "/out/README.zst");
    assert_eq!(zstd_path("notes.md", "/out").unwrap(), "/out/notes.md.zst");
    assert_eq!(zstd_path("/in/.profile", "/out").unwrap(), "/out/.profile.zst");
    let error = zstd_path("/", "/out").unwrap_err();
    assert_eq!(error.message(), "input path has no file name: /");
    assert_eq!(error.kind(), fase::eval::ErrorKind::InvalidInput);
}

#[test]
fn identity_passes_inputs_through() {
    match plan(ActMap::Identity, &context(&["a", "b"], "/out")).unwrap() {
        MapPlan::Done(outputs) => {
            assert_eq!(outputs.len(), 2);
            assert_eq!(outputs[0].path(), "a");
            assert_eq!(outputs[1].path(), "b");
        },
        other => panic!("unexpected plan {other:?}"),
    }
}

#[test]
fn zstd_plans_one_compression_per_input() {
    match plan(ActMap::Zstd, &context(&["/in/hello.txt"], "/out").level(7)).unwrap() {
        MapPlan::Compress { files, level } => {
            assert_eq!(level, 7);
            assert_eq!(files.len(), 1);
            assert_eq!(files[0].input, "/in/hello.txt");
            assert_eq!(files[0].output, "/out/hello.txt.zst");
        },
        other => panic!("unexpected plan {other:?}"),
    }
}

#[test]
fn run_map_is_not_implemented() {
    let error = plan(ActMap::Run, &context(&["a"], "/out")).unwrap_err();
    assert_eq!(error.message(), "run map is not implemented");
}

#[test]
fn default_level_is_three() {
    assert_eq!(context(&[], "/out").zstd_level(), 3);
}

#[test]
fn fetched_files_are_named_by_the_last_path_segment() {
    assert_eq!(url_file_name("https://example.com/a/source.tar.gz"), "source.tar.gz");
    assert_eq!(url_file_name("https://example.com/a/"), "a");
    assert_eq!(url_file_name("https://example.com/"), "index");
    assert_eq!(fetched_name(&vec!["x".to_string(), "".to_string()]), "x");
    assert_eq!(fetched_name(&vec![]), "index");
}

#[test]
fn join_path_puts_one_slash_between() {
    assert_eq!(join_path("/out", "a.zst"), "/out/a.zst");
    assert_eq!(join_path("/out/", "a.zst"), "/out/a.zst");
    assert_eq!(join_path("", "a.zst"), "a.zst");
    assert_eq!(join_path("/out", "/abs/a.zst"), "/abs/a.zst");
    assert_eq!(join_path("out", "a.zst"), "out/a.zst");
}
