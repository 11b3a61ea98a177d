use fase::content::{
    Act, ActMap, ActRef, Expr, HashContent, Input, Install, Kustomize, Output, Package, Realize, RealizeStep, ResourceKind,
    Sha, Var, VarError,
};
use fase::sha::ShaSum;
use fase::strmap::StrMap;

fn labels(pairs: &[(&str, &str)]) -> StrMap<String> {
    let mut m: StrMap<String> = StrMap::new();
    for (k, v) in pairs {
        m.insert(k.to_string(), v.to_string());
    }
    m
}

fn act(labels_of: &[(&str, &str)], map: ActMap) -> Act<Expr> {
    Act {
        labels: labels(labels_of),
        inputs: vec![Input::Http { url: Expr("https://example.com/${path}".into()) }],
        map,
        matrix: StrMap::new(),
        outputs: vec![Output],
    }
}

#[test]
fn act_labels_are_not_content() {
    let a = act(&[("name", "a")], ActMap::Http);
    let b = act(&[("name", "b")], ActMap::Http);
    assert_eq!(a.sha512(), b.sha512());
}

#[test]
fn act_map_is_content() {
    let a = act(&[("name", "a")], ActMap::Http);
    let b = act(&[("name", "a")], ActMap::Zstd);
    assert_ne!(a.sha512(), b.sha512());
}

#[test]
fn packages_share_one_hash() {
    let a = Package { labels: labels(&[("name", "a")]) };
    let b = Package { labels: labels(&[("name", "b"), ("version", "1")]) };
    assert_eq!(a.sha512(), b.sha512());
}

#[test]
fn install_selectors_are_content() {
    let a = Install { must: vec![labels(&[("name", "a")])], prefer: vec![] };
    let b = Install { must: vec![], prefer: vec![labels(&[("name", "a")])] };
    assert_ne!(a.sha512(), b.sha512());
}

#[test]
fn kustomize_resources_are_content() {
    let a = Kustomize { resources: vec!["a.yml".into()], labels: vec![] };
    let b = Kustomize { resources: vec!["b.yml".into()], labels: vec![] };
    assert_ne!(a.sha512(), b.sha512());
}

#[test]
fn text_is_framed_with_its_length() {
    let mut out: Vec<u8> = Vec::new();
    "ab".to_string().hash_content(&mut out);
    let mut expected: Vec<u8> = b"str".to_vec();
    expected.extend_from_slice(&2u64.to_be_bytes());
    expected.extend_from_slice(b"ab");
    assert_eq!(out, expected);
}

#[test]
fn act_ref_hashes_its_selector() {
    let mut a: Vec<u8> = Vec::new();
    ActRef(labels(&[("name", "x")])).hash_content(&mut a);
    let mut b: Vec<u8> = Vec::new();
    labels(&[("name", "x")]).hash_content(&mut b);
    assert_eq!(a, b);
}

#[test]
fn vars_are_dns_names() {
    assert_eq!(Var::new("hello.world-1").unwrap().as_str(), "hello.world-1");
    assert!(matches!(Var::new(""), Err(VarError::Empty)));
    assert!(matches!(Var::new("Hello"), Err(VarError::Format { .. })));
    assert!(matches!(Var::new("a..b"), Err(VarError::Format { .. })));
    assert!(matches!(Var::new("-a"), Err(VarError::Format { .. })));
    assert_eq!(Var::new("Hello").unwrap_err().message(), "Hello is not a valid value");
    assert_eq!(VarError::Empty.message(), "empty");
}

#[test]
fn sha_sums_print_as_hex() {
    let sum = ShaSum([0u8; 64]);
    assert_eq!(sum.to_string(), "0".repeat(128));
    assert_eq!(ShaSum::parse(&"ab".repeat(64)).unwrap(), ShaSum([0xab; 64]));
    assert_eq!(ShaSum::parse(&"AB".repeat(64)).unwrap().to_string(), "ab".repeat(64));
    assert_eq!(ShaSum::parse(&"ab".repeat(32)).unwrap_err().message(), "invalid sha512 sum: expected 128 hex digits");
    assert_eq!(ShaSum::parse(&"zz".repeat(64)).unwrap_err().message(), "invalid sha512 sum: invalid hex digit");
}

#[test]
fn shasum() {
    let package = Package { labels: labels(&[("name", "hello"), ("version", "1")]) };
    let reordered = Package { labels: labels(&[("version", "1"), ("name", "hello")]) };
    let other_labels = Package { labels: labels(&[("name", "other")]) };
    let package_sum = package.sha512();
    assert_eq!(package_sum, reordered.sha512());
    assert_eq!(package_sum, other_labels.sha512());
    assert_eq!(package_sum.to_string().len(), 128);
    assert!(package_sum.to_string().chars().all(|c| c.is_ascii_digit() || ('a'..='f').contains(&c)));
    assert_eq!(ShaSum::parse(&package_sum.to_string()).unwrap(), package_sum);
    let act = act(&[("name", "hello")], ActMap::Http);
    assert_ne!(package_sum, act.sha512());
    let relabeled_act = self::act(&[("name", "other")], ActMap::Http);
    assert_eq!(act.sha512(), relabeled_act.sha512());
}

#[test]
fn package() {
    assert_eq!(<Package as ResourceKind>::kind(), "Package");
    assert_eq!(<Install as ResourceKind>::kind(), "Install");
}

#[test]
fn install() {
    let a = Install { must: vec![labels(&[("name", "a")])], prefer: vec![labels(&[("arch", "x86")])] };
    let b = Install { must: vec![labels(&[("name", "a")])], prefer: vec![labels(&[("arch", "arm")])] };
    assert_ne!(a.sha512(), b.sha512());
    assert_eq!(a.sha512(), Install { must: a.must.clone(), prefer: a.prefer.clone() }.sha512());
}

#[test]
fn realize() {
    let step = |id: &str| RealizeStep { id: id.into(), act: ShaSum([1u8; 64]), with: StrMap::new(), needs: vec![] };
    let a = Realize { labels: labels(&[("name", "a")]), build: ShaSum([2u8; 64]), steps: vec![step("fetch")] };
    let b = Realize { labels: labels(&[("name", "b")]), build: ShaSum([2u8; 64]), steps: vec![step("fetch")] };
    let c = Realize { labels: labels(&[("name", "a")]), build: ShaSum([2u8; 64]), steps: vec![step("other")] };
    assert_eq!(<Realize as ResourceKind>::kind(), "Realize");
    assert_eq!(a.sha512(), b.sha512());
    assert_ne!(a.sha512(), c.sha512());
}

#[test]
fn expr() {
    let expr = Expr("https://example.com/${path}".into());
    assert_eq!(expr.as_str(), "https://example.com/${path}");
}
