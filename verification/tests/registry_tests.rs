use build_deps::deps_file::recognize_deps;
use build_deps::registry::FileId;
use build_deps::registry::FileType;
use build_deps::registry::Registry;

#[test]
fn promotion_is_monotonic_and_order_independent() {
    let mut r = Registry::new();
    let a = r.assign_or_promote("src/x.c".to_string(), FileType::SourceFile);
    let b = r.assign_or_promote("src/x.c".to_string(), FileType::GeneratedFile);
    let c = r.assign_or_promote("src/x.c".to_string(), FileType::SourceFile);
    assert_eq!(a, b);
    assert_eq!(b, c);
    assert_eq!(r.len(), 1);
    assert_eq!(r.classification_of(a), Some(FileType::GeneratedFile));
}

#[test]
fn promote_to_never_demotes() {
    let mut t = FileType::OutputArtifact;
    t.promote_to(FileType::SourceFile);
    assert_eq!(t, FileType::OutputArtifact);
    let mut u = FileType::SourceFile;
    u.promote_to(FileType::GeneratedFile);
    assert_eq!(u, FileType::GeneratedFile);
    assert_eq!(FileType::default(), FileType::SourceFile);
}

#[test]
fn self_dependency_is_a_deterministic_self_loop() {
    let mut r = Registry::new();
    r.record_dependency("p".to_string(), "p".to_string());
    let id = r.lookup(&"p".to_string()).unwrap();
    assert!(r.has_edge(id, id));
    assert_eq!(r.edge_count(), 1);
    assert_eq!(r.len(), 1);
    // Repeating it changes nothing.
    r.record_dependency("p".to_string(), "p".to_string());
    assert_eq!(r.edge_count(), 1);
    assert_eq!(r.len(), 1);
}

#[test]
fn identities_are_stable_and_in_insertion_order() {
    let mut r = Registry::new();
    let a = r.assign_or_promote("a".to_string(), FileType::SourceFile);
    let b = r.assign_or_promote("b".to_string(), FileType::SourceFile);
    assert_eq!(a, FileId(0));
    assert_eq!(b, FileId(1));
    assert_eq!(r.lookup(&"a".to_string()), Some(FileId(0)));
    assert_eq!(r.lookup(&"b".to_string()), Some(FileId(1)));
    assert_eq!(r.lookup(&"c".to_string()), None);
    assert_eq!(r.path_at(FileId(0)).unwrap(), "a");
    assert_eq!(r.path_at(FileId(1)).unwrap(), "b");
    assert_eq!(r.path_at(FileId(2)), None);
}

#[test]
fn example_report_builds_expected_graph() {
    let text = "out/foo.o: #deps 3, deps mtime 123 (VALID)\n    src/foo.c\n    include/foo.h\n    include/common.h\n";
    let recs = recognize_deps(text).unwrap();
    assert_eq!(recs.len(), 1);
    let mut r = Registry::new();
    for rec in &recs {
        r.ingest(rec);
    }
    assert_eq!(r.len(), 4);
    let out = r.lookup(&"out/foo.o".to_string()).unwrap();
    let foo_c = r.lookup(&"src/foo.c".to_string()).unwrap();
    let foo_h = r.lookup(&"include/foo.h".to_string()).unwrap();
    let common_h = r.lookup(&"include/common.h".to_string()).unwrap();
    assert_eq!(r.classification_of(out), Some(FileType::GeneratedFile));
    assert_eq!(r.classification_of(foo_c), Some(FileType::SourceFile));
    assert_eq!(r.classification_of(foo_h), Some(FileType::SourceFile));
    assert_eq!(r.classification_of(common_h), Some(FileType::SourceFile));
    assert!(r.has_edge(out, foo_c));
    assert!(r.has_edge(out, foo_h));
    assert!(r.has_edge(out, common_h));
    assert!(!r.has_edge(foo_c, out));
    assert_eq!(r.edge_count(), 3);
}

#[test]
fn ingesting_twice_is_idempotent() {
    let text = "out/foo.o: #deps 3, deps mtime 123 (VALID)\n    src/foo.c\n    include/foo.h\n    include/common.h\n";
    let mut r = Registry::new();
    for _ in 0..2 {
        let recs = recognize_deps(text).unwrap();
        for rec in &recs {
            r.ingest(rec);
        }
    }
    assert_eq!(r.len(), 4);
    assert_eq!(r.edge_count(), 3);
    let out = r.lookup(&"out/foo.o".to_string()).unwrap();
    assert_eq!(r.classification_of(out), Some(FileType::GeneratedFile));
}

#[test]
fn edges_lists_every_edge_once() {
    let text = "out/foo.o: #deps 3, deps mtime 123 (VALID)\n    src/foo.c\n    include/foo.h\n    include/common.h\n";
    let mut r = Registry::new();
    for rec in &recognize_deps(text).unwrap() {
        r.ingest(rec);
    }
    let out = r.lookup(&"out/foo.o".to_string()).unwrap();
    let edges = r.edges();
    assert_eq!(edges.len(), 3);
    for want in ["src/foo.c", "include/foo.h", "include/common.h"] {
        let id = r.lookup(&want.to_string()).unwrap();
        assert!(edges.contains(&(out, id)));
    }
}

#[test]
fn produced_and_consumed_path_ends_up_generated() {
    let mut r = Registry::new();
    r.record_dependency("b.o".to_string(), "gen.c".to_string());
    let g = r.lookup(&"gen.c".to_string()).unwrap();
    assert_eq!(r.classification_of(g), Some(FileType::SourceFile));
    r.record_dependency("gen.c".to_string(), "tmpl.in".to_string());
    assert_eq!(r.classification_of(g), Some(FileType::GeneratedFile));
    assert_eq!(r.lookup(&"gen.c".to_string()), Some(g));
    assert_eq!(r.edge_count(), 2);
}
