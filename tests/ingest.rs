use kct::ingestor::{IngestError, Ingestor, Manifest};
use kct::json::Json;
use kct::order::class_for_kind;
use kct::path::{is_under, is_valid, Filter};
use kct::property::Name;

fn s(x: &str) -> String {
    x.to_string()
}

fn obj(members: Vec<(&str, Json)>) -> Json {
    Json::Object(members.into_iter().map(|(k, v)| (s(k), v)).collect())
}

fn manifest(kind: &str) -> Json {
    obj(vec![
        ("apiVersion", Json::Str(s("v1"))),
        ("kind", Json::Str(s(kind))),
        ("metadata", obj(vec![("name", Json::Str(s("x")))])),
    ])
}

fn path(p: &[&str]) -> Vec<String> {
    p.iter().map(|x| s(x)).collect()
}

fn everything() -> Ingestor {
    Ingestor::new(vec![], vec![])
}

fn paths(r: &[Manifest]) -> Vec<Vec<String>> {
    r.iter().map(|m| m.path.clone()).collect()
}

#[test]
fn name_all_lists_every_name_once() {
    assert_eq!(
        Name::all(),
        [Name::File, Name::Include, Name::Input, Name::Package, Name::Release]
    );
}

#[test]
fn name_as_str_gives_external_forms() {
    assert_eq!(Name::File.as_str(), "files");
    assert_eq!(Name::Include.as_str(), "include");
    assert_eq!(Name::Input.as_str(), "input");
    assert_eq!(Name::Package.as_str(), "package");
    assert_eq!(Name::Release.as_str(), "release");
}

#[test]
fn namespace_before_deployment_whatever_the_order() {
    let doc = obj(vec![("b", manifest("Deployment")), ("a", manifest("Namespace"))]);
    let r = everything().ingest(doc).unwrap();
    assert_eq!(paths(&r), vec![path(&["a"]), path(&["b"])]);
    assert_eq!(r[0].value, manifest("Namespace"));
    assert_eq!(r[1].value, manifest("Deployment"));

    let doc = obj(vec![("a", manifest("Namespace")), ("b", manifest("Deployment"))]);
    let r = everything().ingest(doc).unwrap();
    assert_eq!(paths(&r), vec![path(&["a"]), path(&["b"])]);
}

#[test]
fn invalid_key_is_a_path_error() {
    let doc = obj(vec![("ok", manifest("Service")), ("x/y", manifest("Service"))]);
    assert_eq!(everything().ingest(doc), Err(IngestError::Path(s("x/y"))));
}

#[test]
fn empty_key_is_a_path_error() {
    let doc = obj(vec![("", obj(vec![]))]);
    assert_eq!(everything().ingest(doc), Err(IngestError::Path(s(""))));
}

#[test]
fn scalar_in_place_of_object_fails_whole_call() {
    let doc = obj(vec![
        ("a", manifest("Namespace")),
        ("b", obj(vec![("c", Json::Number(s("3")))])),
    ]);
    assert_eq!(everything().ingest(doc), Err(IngestError::NotObject));
    let doc = obj(vec![("a", Json::Array(vec![manifest("Pod")]))]);
    assert_eq!(everything().ingest(doc), Err(IngestError::NotObject));
    assert_eq!(everything().ingest(Json::Null), Err(IngestError::NotObject));
}

#[test]
fn malformed_kind_names_the_manifest_path() {
    let bad = obj(vec![("apiVersion", Json::Str(s("v1"))), ("kind", Json::Bool(true))]);
    let doc = obj(vec![("outer", obj(vec![("inner", bad)]))]);
    assert_eq!(
        everything().ingest(doc),
        Err(IngestError::Manifest(path(&["outer", "inner"])))
    );
    let empty = obj(vec![("apiVersion", Json::Str(s("v1"))), ("kind", Json::Str(s("")))]);
    assert_eq!(
        everything().ingest(obj(vec![("e", empty)])),
        Err(IngestError::Manifest(path(&["e"])))
    );
}

#[test]
fn same_class_keeps_declaration_order() {
    let doc = obj(vec![
        ("z", manifest("Deployment")),
        ("m", obj(vec![("q", manifest("Deployment")), ("p", manifest("Deployment"))])),
        ("a", manifest("Deployment")),
    ]);
    let r = everything().ingest(doc).unwrap();
    assert_eq!(
        paths(&r),
        vec![path(&["z"]), path(&["m", "q"]), path(&["m", "p"]), path(&["a"])]
    );
}

#[test]
fn classes_order_across_depths() {
    let doc = obj(vec![
        ("app", obj(vec![("deploy", manifest("Deployment")), ("svc", manifest("Service"))])),
        ("ns", manifest("Namespace")),
        ("custom", manifest("Widget")),
        ("cm", manifest("ConfigMap")),
    ]);
    let r = everything().ingest(doc).unwrap();
    assert_eq!(
        paths(&r),
        vec![
            path(&["ns"]),
            path(&["cm"]),
            path(&["app", "svc"]),
            path(&["app", "deploy"]),
            path(&["custom"]),
        ]
    );
}

#[test]
fn manifests_are_leaves() {
    let outer = || {
        obj(vec![
            ("apiVersion", Json::Str(s("v1"))),
            ("kind", Json::Str(s("List"))),
            ("items", obj(vec![("inner", manifest("Pod"))])),
        ])
    };
    let doc = obj(vec![("list", outer())]);
    let r = everything().ingest(doc).unwrap();
    assert_eq!(r.len(), 1);
    assert_eq!(r[0].path, path(&["list"]));
    assert_eq!(r[0].value, outer());
}

#[test]
fn root_manifest_has_empty_path() {
    let r = everything().ingest(manifest("Pod")).unwrap();
    assert_eq!(r, vec![Manifest { path: vec![], value: manifest("Pod") }]);
}

#[test]
fn empty_document_gives_nothing() {
    assert_eq!(everything().ingest(obj(vec![])), Ok(vec![]));
}

fn sample() -> Json {
    obj(vec![
        ("a", obj(vec![("x", manifest("Service")), ("y", manifest("Pod"))])),
        ("b", obj(vec![("x", manifest("Secret"))])),
        ("c", manifest("Namespace")),
    ])
}

#[test]
fn only_keeps_paths_under_its_entries() {
    let r = Ingestor::new(vec![path(&["a"])], vec![]).ingest(sample()).unwrap();
    assert_eq!(paths(&r), vec![path(&["a", "x"]), path(&["a", "y"])]);
}

#[test]
fn except_drops_paths_under_its_entries() {
    let r = Ingestor::new(vec![], vec![path(&["a"])]).ingest(sample()).unwrap();
    assert_eq!(paths(&r), vec![path(&["c"]), path(&["b", "x"])]);
    let r = Ingestor::new(vec![path(&["a"])], vec![path(&["a", "y"])])
        .ingest(sample())
        .unwrap();
    assert_eq!(paths(&r), vec![path(&["a", "x"])]);
}

#[test]
fn filter_is_by_segments_not_text() {
    let doc = obj(vec![("ab", manifest("Pod")), ("a", manifest("Pod"))]);
    let r = Ingestor::new(vec![path(&["a"])], vec![]).ingest(doc).unwrap();
    assert_eq!(paths(&r), vec![path(&["a"])]);
}

#[test]
fn filtering_on_a_manifest_path_yields_it() {
    let all = everything().ingest(sample()).unwrap();
    for m in &all {
        let r = Ingestor::new(vec![m.path.clone()], vec![]).ingest(sample()).unwrap();
        assert_eq!(r.len(), 1);
        assert_eq!(r[0].path, m.path);
        assert_eq!(r[0].value, m.value);
    }
}

#[test]
fn filter_does_not_hide_errors() {
    let doc = obj(vec![("a", manifest("Pod")), ("b", Json::Bool(false))]);
    let r = Ingestor::new(vec![path(&["a"])], vec![]).ingest(doc);
    assert_eq!(r, Err(IngestError::NotObject));
}

#[test]
fn ingest_is_deterministic() {
    let first = everything().ingest(sample()).unwrap();
    let second = everything().ingest(sample()).unwrap();
    assert_eq!(first, second);
    assert_eq!(
        paths(&first),
        vec![path(&["c"]), path(&["b", "x"]), path(&["a", "x"]), path(&["a", "y"])]
    );
}

#[test]
fn install_classes() {
    assert_eq!(class_for_kind("Namespace"), 0);
    assert_eq!(class_for_kind("Secret"), 7);
    assert_eq!(class_for_kind("Deployment"), 27);
    assert_eq!(class_for_kind("APIService"), 34);
    assert_eq!(class_for_kind("Widget"), 35);
    assert_eq!(class_for_kind(""), 35);
}

#[test]
fn key_validity() {
    assert!(is_valid("web"));
    assert!(is_valid("a.b-c"));
    assert!(!is_valid(""));
    assert!(!is_valid("x/y"));
    assert!(!is_valid("/"));
}

#[test]
fn under_is_segment_prefix() {
    assert!(is_under(&path(&["a", "b"]), &path(&["a"])));
    assert!(is_under(&path(&["a", "b"]), &path(&["a", "b"])));
    assert!(is_under(&path(&["a"]), &path(&[])));
    assert!(!is_under(&path(&["a"]), &path(&["a", "b"])));
    assert!(!is_under(&path(&["ab"]), &path(&["a"])));
}

#[test]
fn filter_pass_rule() {
    let f = Filter { only: vec![], except: vec![] };
    assert!(f.pass(&path(&["any"])));
    let f = Filter { only: vec![path(&["a"]), path(&["b"])], except: vec![path(&["b", "x"])] };
    assert!(f.pass(&path(&["a", "q"])));
    assert!(f.pass(&path(&["b", "y"])));
    assert!(!f.pass(&path(&["b", "x", "z"])));
    assert!(!f.pass(&path(&["c"])));
}
