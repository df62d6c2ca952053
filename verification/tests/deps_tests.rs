use build_deps::deps_file::output_line_suffix;
use build_deps::deps_file::recognize_dep;
use build_deps::deps_file::recognize_deps;
use build_deps::deps_file::recognize_output_line;

#[test]
fn test_output_line_suffix() {
    assert!(output_line_suffix(": #deps 318, deps mtime 1675791486835771571 (STALE)"));
    assert!(!output_line_suffix(" #deps 318, deps mtime 1675791486835771571 (STALE)"));
    assert!(!output_line_suffix(": #d"));
}

#[test]
fn test_output_line() {
    let line = "src/conformance/conformance_test/CMakeFiles/conformance_test.dir/__/framework/bitmask_to_string.cpp.o: #deps 318, deps mtime 1675791486835771571 (STALE)";
    assert!(recognize_output_line(line).is_some());
    assert_eq!(
        recognize_output_line(line).unwrap(),
        "src/conformance/conformance_test/CMakeFiles/conformance_test.dir/__/framework/bitmask_to_string.cpp.o"
    );
    assert!(recognize_output_line("\nasdf: #deps 318, deps mtime").is_none());
}

#[test]
fn test_dep() {
    assert!(recognize_dep(
        "    /home/ryan/src/openxr/src/conformance/framework/bitmask_to_string.cpp"
    )
    .is_some());
    assert!(recognize_dep(
        "    /home/ryan/src/openxr/src/conformance/framework/bitmask_to_string.cpp\n"
    )
    .is_none());
    assert!(recognize_dep(
        "     /home/ryan/src/openxr/src/conformance/framework/bitmask_to_string.cpp\n"
    )
    .is_none());
}

#[test]
fn header_path_ignores_suffix_content() {
    let r = recognize_output_line("out/foo.o: #deps 999999, deps mtime 0 (garbage here)").unwrap();
    assert_eq!(r, "out/foo.o");
    let r2 = recognize_output_line("out/foo.o: #depsanything at all").unwrap();
    assert_eq!(r2, "out/foo.o");
}

#[test]
fn line_without_marker_is_no_header() {
    assert!(recognize_output_line("out/foo.o: #dep 3, deps mtime 1 (VALID)").is_none());
    assert!(recognize_output_line("").is_none());
    assert!(recognize_output_line("no marker anywhere").is_none());
}

#[test]
fn empty_output_path_is_accepted() {
    let r = recognize_output_line(": #deps 0, deps mtime 0 (VALID)").unwrap();
    assert_eq!(r, "");
}

#[test]
fn dep_line_with_extra_indent_is_rejected() {
    assert!(recognize_dep("     five/spaces").is_none());
    assert!(recognize_dep("    ").is_none());
    assert!(recognize_dep("   three/spaces").is_none());
    assert_eq!(recognize_dep("    src/a.c").unwrap(), "src/a.c");
}

#[test]
fn final_dep_line_may_lack_terminator() {
    let with = recognize_deps("out/a.o: #deps 1, deps mtime 2 (VALID)\n    src/a.c\n").unwrap();
    let without = recognize_deps("out/a.o: #deps 1, deps mtime 2 (VALID)\n    src/a.c").unwrap();
    assert_eq!(with.len(), 1);
    assert_eq!(without.len(), 1);
    assert_eq!(with[0].output, without[0].output);
    assert_eq!(with[0].inputs, without[0].inputs);
    assert_eq!(without[0].inputs, vec!["src/a.c"]);
}

#[test]
fn stanza_with_zero_deps_has_empty_inputs() {
    let recs = recognize_deps("out/a.o: #deps 0, deps mtime 7 (STALE)\n").unwrap();
    assert_eq!(recs.len(), 1);
    assert_eq!(recs[0].output, "out/a.o");
    assert!(recs[0].inputs.is_empty());
}

#[test]
fn empty_report_has_no_stanzas() {
    assert_eq!(recognize_deps("").unwrap().len(), 0);
}

#[test]
fn two_stanzas_parse_in_order() {
    let text = "out/a.o: #deps 1, deps mtime 1 (VALID)\n    src/a.c\nout/b.o: #deps 1, deps mtime 1 (VALID)\n    src/b.c\n";
    let recs = recognize_deps(text).unwrap();
    assert_eq!(recs.len(), 2);
    assert_eq!(recs[0].output, "out/a.o");
    assert_eq!(recs[0].inputs, vec!["src/a.c"]);
    assert_eq!(recs[1].output, "out/b.o");
    assert_eq!(recs[1].inputs, vec!["src/b.c"]);
}

#[test]
fn malformed_line_fails_whole_report() {
    let e = recognize_deps("out/a.o: #deps 1, deps mtime 1 (VALID)\n    src/a.c\nnot a header\n")
        .unwrap_err();
    assert_eq!(e.line, 2);
    let e2 = recognize_deps("no marker at all\n").unwrap_err();
    assert_eq!(e2.line, 0);
}

#[test]
fn stray_carriage_return_fails() {
    assert!(recognize_deps("out/a.o: #deps\rbad\n").is_err());
    let ok = recognize_deps("out/a.o: #deps 1, deps mtime 2 (VALID)\r\n    src/a.c\r\n").unwrap();
    assert_eq!(ok[0].output, "out/a.o");
    assert_eq!(ok[0].inputs, vec!["src/a.c"]);
}

#[test]
fn into_owned_copies_paths() {
    let recs = recognize_deps("out/a.o: #deps 1, deps mtime 2 (VALID)\n    src/a.c\n").unwrap();
    let owned = recs[0].clone().into_owned();
    assert_eq!(owned.output, "out/a.o".to_string());
    assert_eq!(owned.inputs, vec!["src/a.c".to_string()]);
}
