use fase::eval::{is_identifier, value_text, CelFailure, CelValue, ErrorKind, Evaluator};

#[test]
fn render() {
    let evaluator = Evaluator::with([("name", "source"), ("extension", "tar.gz")]);
    assert_eq!(
        evaluator.render("https://example.com/${name + \".\" + extension}").unwrap(),
        "https://example.com/source.tar.gz"
    );
}

#[test]
fn render_vars_map() {
    let evaluator = Evaluator::with([("source-url", "https://example.com/source.tar.gz")]);
    assert_eq!(evaluator.render("${vars[\"source-url\"]}").unwrap(), "https://example.com/source.tar.gz");
}

#[test]
fn render_literal() {
    assert_eq!(Evaluator::new().render("source.tar.gz").unwrap(), "source.tar.gz");
}

#[test]
fn render_without_expressions_gives_the_text_back() {
    let evaluator = Evaluator::with([("name", "source")]);
    assert_eq!(evaluator.render("plain $ text }").unwrap(), "plain $ text }");
}

#[test]
fn render_of_an_unclosed_expression_is_an_error() {
    let evaluator = Evaluator::with([("name", "source")]);
    let error = evaluator.render("https://${name").unwrap_err();
    assert_eq!(error.kind(), ErrorKind::InvalidInput);
    assert_eq!(error.message(), "unclosed expression in \"https://${name\"");
    let empty = evaluator.render("a ${  } b").unwrap_err();
    assert_eq!(empty.kind(), ErrorKind::InvalidInput);
    assert_eq!(empty.message(), "empty expression in \"a ${  } b\"");
}

#[test]
fn eval_of_a_binding() {
    let evaluator = Evaluator::new().bind("name", "source");
    assert_eq!(evaluator.eval("name").unwrap(), "source");
}

#[test]
fn eval_of_an_unknown_name_is_an_error() {
    let evaluator = Evaluator::new();
    let error = evaluator.eval("missing").unwrap_err();
    assert!(error.message().starts_with("failed to evaluate CEL expression \"missing\": "));
    assert_eq!(error.kind(), ErrorKind::InvalidInput);
}

#[test]
fn values_are_written_as_text() {
    assert_eq!(value_text("e", Ok(CelValue::Int(-42))).unwrap(), "-42");
    assert_eq!(value_text("e", Ok(CelValue::UInt(7))).unwrap(), "7");
    assert_eq!(value_text("e", Ok(CelValue::Bool(true))).unwrap(), "true");
    assert_eq!(value_text("e", Ok(CelValue::Null)).unwrap(), "");
    assert_eq!(value_text("e", Ok(CelValue::Bytes(b"hi".to_vec()))).unwrap(), "hi");
    let other = value_text("e", Ok(CelValue::Other("list".into()))).unwrap_err();
    assert_eq!(other.message(), "CEL expression returned list, expected scalar value");
    assert_eq!(other.kind(), ErrorKind::InvalidInput);
    let compile = value_text("1 +", Err(CelFailure::Compile("bad".into()))).unwrap_err();
    assert_eq!(compile.message(), "failed to compile CEL expression \"1 +\": bad");
    let run = value_text("2 /", Err(CelFailure::Execute("division by zero".into()))).unwrap_err();
    assert_eq!(run.message(), "failed to evaluate CEL expression \"2 /\": division by zero");
}

#[test]
fn eval_writes_scalars() {
    let evaluator = Evaluator::new();
    assert_eq!(evaluator.eval("1 + 2").unwrap(), "3");
    assert_eq!(evaluator.eval("1 == 1").unwrap(), "true");
    assert_eq!(evaluator.eval("null").unwrap(), "");
    assert!(evaluator.eval("[1]").unwrap_err().message().contains("expected scalar value"));
}

#[test]
fn later_binding_of_a_name_wins() {
    let evaluator = Evaluator::with([("name", "first"), ("name", "second")]);
    assert_eq!(evaluator.render("${name}").unwrap(), "second");
}

#[test]
fn identifiers() {
    assert!(is_identifier("name"));
    assert!(is_identifier("_x1"));
    assert!(!is_identifier("source-url"));
    assert!(!is_identifier("1x"));
    assert!(!is_identifier(""));
}

#[test]
fn evaluator_from_a_list_of_pairs() {
    let pairs = vec![("name".to_string(), "first".to_string()), ("name".to_string(), "second".to_string())];
    let evaluator = Evaluator::with_pairs(pairs);
    assert_eq!(evaluator.render("${name}").unwrap(), "second");
}

#[test]
fn binding_renders_as_the_pairs_with_it_appended() {
    let pairs = vec![("name".to_string(), "first".to_string()), ("arch".to_string(), "x86".to_string())];
    let bound = Evaluator::with_pairs(pairs.clone()).bind("name", "third");
    let mut appended = pairs;
    appended.push(("name".to_string(), "third".to_string()));
    let other = Evaluator::with_pairs(appended);
    assert_eq!(bound.render("${name}-${arch}").unwrap(), other.render("${name}-${arch}").unwrap());
    assert_eq!(bound.render("${name}-${arch}").unwrap(), "third-x86");
}
