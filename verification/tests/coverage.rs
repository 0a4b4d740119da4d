use kagura::coverage::{
    select_case_files, select_fragments,
    CaseHeader, CaseInput, Diagnostic, FragmentInput, Requirement, SpecDocument, check_anchor,
    check_case_text, check_spec_reference, find_duplicate_anchors, markdown_anchors,
    parse_fragment_text, valid_case_id, valid_requirement_id, validate_suite,
};
use kagura::report::CaseResult;

/// The fixture suite: one CPU case with id `case_id`, the fragment `a.toml` holding
/// `coverage`, and `cpu.md` holding one heading.
fn fixture(coverage: &str, case_id: &str) -> Vec<CaseResult> {
    let case_text = format!("format = \"kagura-conformance-case\"\nversion = 1\nid = \"{case_id}\"\n");
    let cases = vec![CaseInput::File {
        suite: "cpu".to_string(),
        source: "cases/cpu/example/case.toml".to_string(),
        text: case_text,
    }];
    let fragments = vec![FragmentInput::File {
        source: "coverage/a.toml".to_string(),
        text: coverage.to_string(),
    }];
    let documents = vec![SpecDocument {
        path: "cpu.md".to_string(),
        text: Ok("# 1. Architectural State\n".to_string()),
    }];
    validate_suite(&cases, &fragments, &documents, "")
}

fn has_message(results: &[CaseResult], needle: &str) -> bool {
    results
        .iter()
        .any(|result| result.message.as_deref().is_some_and(|message| message.contains(needle)))
}

#[test]
fn valid_requirement_id_is_strict() {
    assert!(valid_requirement_id("CPU-ADD-1"));
    assert!(!valid_requirement_id("cpu-ADD"));
    assert!(!valid_requirement_id("CPU--ADD"));
    assert!(!valid_requirement_id("CPU-ADD-"));
}

#[test]
fn markdown_anchor_algorithm_handles_atx_headings() {
    assert_eq!(markdown_anchors("## 3. ADD (arithmetic)\n"), vec!["3-add-arithmetic"]);
    assert_eq!(markdown_anchors("# Foo   bar ###\n"), vec!["foo---bar"]);
}

#[test]
fn missing_case_is_reported() {
    let results = fixture(
        "[[requirements]]\nid=\"CPU-A\"\nspec=\"cpu.md#1-architectural-state\"\nstatement=\"x\"\ncases=[\"MISSING\"]\n",
        "PRESENT",
    );
    assert!(has_message(&results, "missing case"));
}

#[test]
fn duplicate_case_reference_is_reported() {
    let results = fixture(
        "[[requirements]]\nid=\"CPU-A\"\nspec=\"cpu.md#1-architectural-state\"\nstatement=\"x\"\ncases=[\"PRESENT\", \"PRESENT\"]\n",
        "PRESENT",
    );
    assert!(has_message(&results, "duplicate case reference"));
}

#[test]
fn unknown_fragment_field_is_reported() {
    let results = fixture(
        "extra = true\n[[requirements]]\nid=\"CPU-A\"\nspec=\"cpu.md#1-architectural-state\"\nstatement=\"x\"\ncases=[\"PRESENT\"]\n",
        "PRESENT",
    );
    assert!(has_message(&results, "only top-level requirements"));
}

#[test]
fn invalid_requirement_id_and_whitespace_statement_are_reported() {
    let results = fixture(
        "[[requirements]]\nid=\"cpu-A\"\nspec=\"cpu.md#1-architectural-state\"\nstatement=\"   \"\ncases=[\"PRESENT\"]\n",
        "PRESENT",
    );
    assert!(has_message(&results, "invalid requirement id"));
    assert!(has_message(&results, "statement must not be empty"));
}

#[test]
fn uncovered_case_is_reported() {
    let results = fixture(
        "[[requirements]]\nid=\"CPU-A\"\nspec=\"cpu.md#1-architectural-state\"\nstatement=\"x\"\ncases=[\"MISSING\"]\n",
        "PRESENT",
    );
    assert!(has_message(&results, "not referenced by any requirement"));
}

#[test]
fn invalid_spec_path_and_anchor_are_reported() {
    let results = fixture(
        "[[requirements]]\nid=\"CPU-A\"\nspec=\"../cpu.md#missing\"\nstatement=\"x\"\ncases=[\"PRESENT\"]\n",
        "PRESENT",
    );
    assert!(has_message(&results, "invalid spec path"));
}

#[test]
fn valid_fixture_has_no_coverage_errors() {
    let results = fixture(
        "[[requirements]]\nid=\"CPU-A\"\nspec=\"cpu.md#1-architectural-state\"\nstatement=\"x\"\ncases=[\"PRESENT\"]\n",
        "PRESENT",
    );
    assert!(results.is_empty());
}

#[test]
fn coverage_errors_are_error_results_under_their_source() {
    let results = fixture(
        "[[requirements]]\nid=\"CPU-A\"\nspec=\"cpu.md#1-architectural-state\"\nstatement=\"x\"\ncases=[\"MISSING\"]\n",
        "PRESENT",
    );
    assert_eq!(results.len(), 2);
    assert_eq!(results[0].suite, "coverage");
    assert_eq!(results[0].result, "error");
    assert_eq!(results[0].source.as_deref(), Some("coverage/a.toml"));
    assert_eq!(results[0].message.as_deref(), Some("requirement CPU-A references missing case `MISSING`"));
    assert_eq!(results[1].source.as_deref(), Some("cases/cpu/example/case.toml"));
    assert_eq!(results[1].message.as_deref(), Some("case `PRESENT` is not referenced by any requirement"));
}

#[test]
fn duplicate_case_ids_name_the_previous_file() {
    let case = |id: &str| format!("format = \"kagura-bus-conformance-case\"\nversion = 1\nid = \"{id}\"\n");
    let cases = vec![
        CaseInput::File { suite: "bus".to_string(), source: "a".to_string(), text: case("X") },
        CaseInput::File { suite: "bus".to_string(), source: "b".to_string(), text: case("X") },
        CaseInput::File { suite: "bus".to_string(), source: "c".to_string(), text: case("X") },
    ];
    let fragments = vec![FragmentInput::File {
        source: "f.toml".to_string(),
        text: "[[requirements]]\nid=\"B\"\nspec=\"cpu.md#one\"\nstatement=\"s\"\ncases=[\"X\"]\n".to_string(),
    }];
    let documents = vec![SpecDocument { path: "cpu.md".to_string(), text: Ok("# One\n".to_string()) }];
    let results = validate_suite(&cases, &fragments, &documents, "");
    let messages: Vec<&str> = results.iter().filter_map(|r| r.message.as_deref()).collect();
    assert_eq!(messages, vec!["duplicate case id `X` (also in a)", "duplicate case id `X` (also in b)"]);
}

#[test]
fn invalid_case_header_is_reported() {
    let cases = vec![CaseInput::File {
        suite: "bus".to_string(),
        source: "cases/bus/example/case.toml".to_string(),
        text: "format=\"wrong\"\nversion=9\nid=\"bad id\"\n".to_string(),
    }];
    let results = validate_suite(&cases, &[], &[], "");
    assert!(has_message(&results, "invalid bus case format"));
    assert!(has_message(&results, "unsupported bus case version"));
    assert!(has_message(&results, "invalid bus case identifier `bad id`"));
}

#[test]
fn discovery_problems_are_kept_in_order() {
    let cases = vec![CaseInput::Problem(Diagnostic {
        source: Some("cases/cpu".to_string()),
        message: "cannot discover cpu cases: gone".to_string(),
    })];
    let fragments = vec![FragmentInput::Problem(Diagnostic {
        source: None,
        message: "coverage directory contains no .toml fragments".to_string(),
    })];
    let results = validate_suite(&cases, &fragments, &[], "root");
    assert_eq!(results.len(), 2);
    assert_eq!(results[0].source.as_deref(), Some("cases/cpu"));
    assert_eq!(results[1].source.as_deref(), Some("root"));
}

#[test]
fn spec_reference_forms() {
    assert_eq!(
        check_spec_reference("R", "cpu.md#a"),
        Ok(("cpu.md".to_string(), "a".to_string()))
    );
    assert_eq!(check_spec_reference("R", "cpu.md"), Err("requirement R spec must be path#anchor".to_string()));
    assert_eq!(check_spec_reference("R", "cpu.md#a#b"), Err("invalid spec reference `cpu.md#a#b`".to_string()));
    assert_eq!(check_spec_reference("R", "cpu.md#a?x"), Err("invalid spec reference `cpu.md#a?x`".to_string()));
    assert_eq!(check_spec_reference("R", "a\\b.md#a"), Err("invalid spec reference `a\\b.md#a`".to_string()));
    assert_eq!(check_spec_reference("R", "/cpu.md#a"), Err("invalid spec path `/cpu.md`".to_string()));
    assert_eq!(check_spec_reference("R", "./cpu.md#a"), Err("invalid spec path `./cpu.md`".to_string()));
    assert_eq!(check_spec_reference("R", "a/../cpu.md#a"), Err("invalid spec path `a/../cpu.md`".to_string()));
    assert_eq!(check_spec_reference("R", "cpu.txt#a"), Err("invalid spec path `cpu.txt`".to_string()));
    assert_eq!(check_spec_reference("R", ".md#a"), Err("invalid spec path `.md`".to_string()));
    assert_eq!(
        check_spec_reference("R", "v1/./cpu.md#a"),
        Ok(("v1/./cpu.md".to_string(), "a".to_string()))
    );
}

#[test]
fn duplicate_and_missing_anchors_are_reported() {
    assert_eq!(
        check_anchor("cpu.md", "same", "# Same\n# Same\n# Other\n# Other\n"),
        vec![
            "spec document `cpu.md` generates duplicate heading anchors: other, same".to_string(),
            "spec anchor `same` is missing or ambiguous in `cpu.md`".to_string(),
        ]
    );
    assert_eq!(
        check_anchor("cpu.md", "missing", "# Present\n"),
        vec!["spec anchor `missing` is missing or ambiguous in `cpu.md`".to_string()]
    );
    assert!(check_anchor("cpu.md", "present", "# Present\n").is_empty());
}

#[test]
fn duplicate_anchors_come_sorted_once() {
    let anchors: Vec<String> = ["b", "a", "b", "c", "a", "b"].iter().map(|s| s.to_string()).collect();
    assert_eq!(find_duplicate_anchors(&anchors), vec!["a".to_string(), "b".to_string()]);
}

#[test]
fn anchor_heading_rules() {
    assert_eq!(markdown_anchors("    # Indented code\n   # Three spaces\n"), vec!["three-spaces"]);
    assert_eq!(markdown_anchors("#NoSpace\n#\n# Keep_This-1!\n"), vec!["", "keep_this-1"]);
    assert_eq!(markdown_anchors("# Café ##  \n"), vec!["café"]);
    assert_eq!(markdown_anchors("# C#\n"), vec!["c"]);
}

#[test]
fn case_ids_are_printable_ascii() {
    assert!(valid_case_id("CPU-ADD-001"));
    assert!(!valid_case_id(""));
    assert!(!valid_case_id("a b"));
    assert!(!valid_case_id("a\tb"));
    assert!(!valid_case_id("é"));
}

/// A suite of the given case files, coverage fragments and specification documents.
fn suite(cases: &[(&str, &str, &str)], fragments: &[(&str, &str)], documents: &[(&str, Result<&str, &str>)]) -> Vec<CaseResult> {
    let cases: Vec<CaseInput> = cases
        .iter()
        .map(|(suite, source, text)| CaseInput::File {
            suite: suite.to_string(),
            source: source.to_string(),
            text: text.to_string(),
        })
        .collect();
    let fragments: Vec<FragmentInput> = fragments
        .iter()
        .map(|(source, text)| FragmentInput::File { source: source.to_string(), text: text.to_string() })
        .collect();
    let documents: Vec<SpecDocument> = documents
        .iter()
        .map(|(path, text)| SpecDocument {
            path: path.to_string(),
            text: text.map(str::to_string).map_err(str::to_string),
        })
        .collect();
    validate_suite(&cases, &fragments, &documents, "")
}

const PRESENT_CASE: (&str, &str, &str) = (
    "cpu",
    "cases/cpu/example/case.toml",
    "format = \"kagura-conformance-case\"\nversion = 1\nid = \"PRESENT\"\n",
);

#[test]
fn duplicate_requirement_id_and_unknown_requirement_field_are_reported() {
    let requirement = "[[requirements]]\nid=\"CPU-A\"\nspec=\"cpu.md#1-architectural-state\"\nstatement=\"x\"\ncases=[\"PRESENT\"]\n";
    let results = suite(
        &[PRESENT_CASE],
        &[
            ("coverage/a.toml", requirement),
            ("coverage/b.toml", requirement),
            (
                "coverage/c.toml",
                "[[requirements]]\nid=\"CPU-B\"\nspec=\"cpu.md#1-architectural-state\"\nstatement=\"x\"\nextra=\"unknown\"\ncases=[\"PRESENT\"]\n",
            ),
        ],
        &[("cpu.md", Ok("# 1. Architectural State\n"))],
    );
    assert!(has_message(&results, "duplicate requirement id"));
    assert!(has_message(&results, "exactly id, spec, statement, and cases"));
}

#[test]
fn missing_spec_file_missing_anchor_and_duplicate_anchor_are_reported() {
    let unresolved = suite(
        &[PRESENT_CASE],
        &[("coverage/a.toml", "[[requirements]]\nid=\"CPU-A\"\nspec=\"missing.md#missing\"\nstatement=\"x\"\ncases=[\"PRESENT\"]\n")],
        &[("missing.md", Err("spec path does not resolve to a file `missing.md`: not found"))],
    );
    assert!(has_message(&unresolved, "spec path does not resolve"));
    let missing_anchor = suite(
        &[PRESENT_CASE],
        &[("coverage/a.toml", "[[requirements]]\nid=\"CPU-A\"\nspec=\"cpu.md#missing\"\nstatement=\"x\"\ncases=[\"PRESENT\"]\n")],
        &[("cpu.md", Ok("# 1. Architectural State\n"))],
    );
    assert!(has_message(&missing_anchor, "spec anchor `missing`"));
    let duplicate_anchor = suite(
        &[PRESENT_CASE],
        &[("coverage/a.toml", "[[requirements]]\nid=\"CPU-A\"\nspec=\"cpu.md#same\"\nstatement=\"x\"\ncases=[\"PRESENT\"]\n")],
        &[("cpu.md", Ok("# Same\n# Same\n"))],
    );
    assert!(has_message(&duplicate_anchor, "duplicate heading anchors"));
}

#[test]
fn duplicate_case_id_and_invalid_case_header_are_reported() {
    let coverage = "[[requirements]]\nid=\"CPU-A\"\nspec=\"cpu.md#1-architectural-state\"\nstatement=\"x\"\ncases=[\"PRESENT\"]\n";
    let documents = [("cpu.md", Ok("# 1. Architectural State\n"))];
    let duplicate = suite(
        &[
            PRESENT_CASE,
            ("bus", "cases/bus/example/case.toml", "format=\"kagura-bus-conformance-case\"\nversion=1\nid=\"PRESENT\"\n"),
        ],
        &[("coverage/a.toml", coverage)],
        &documents,
    );
    assert!(has_message(&duplicate, "duplicate case id"));
    let invalid = suite(
        &[PRESENT_CASE, ("bus", "cases/bus/example/case.toml", "format=\"wrong\"\nversion=9\nid=\"bad id\"\n")],
        &[("coverage/a.toml", coverage)],
        &documents,
    );
    assert!(has_message(&invalid, "invalid bus case format"));
    assert!(has_message(&invalid, "unsupported bus case version"));
    assert!(has_message(&invalid, "invalid bus case identifier"));
}

#[test]
fn case_and_fragment_texts_are_parsed_before_they_are_checked() {
    let mut cases: Vec<CaseHeader> = Vec::new();
    let mut diagnostics: Vec<Diagnostic> = Vec::new();
    check_case_text(
        "cpu",
        "cases/cpu/a/case.toml",
        "format = \"kagura-conformance-case\"\nversion = 1\nid = \"A-1\"\n",
        &mut cases,
        &mut diagnostics,
    );
    assert!(diagnostics.is_empty());
    assert_eq!(cases.len(), 1);
    assert_eq!(cases[0].id, "A-1");
    check_case_text("cpu", "cases/cpu/b/case.toml", "format = [", &mut cases, &mut diagnostics);
    assert_eq!(cases.len(), 1);
    assert_eq!(diagnostics.len(), 1);
    assert_eq!(diagnostics[0].source.as_deref(), Some("cases/cpu/b/case.toml"));
    assert!(diagnostics[0].message.starts_with("invalid case TOML: "));

    let mut requirements: Vec<Requirement> = Vec::new();
    let mut diagnostics: Vec<Diagnostic> = Vec::new();
    parse_fragment_text(
        "coverage/a.toml",
        "[[requirements]]\nid=\"CPU-A\"\nspec=\"cpu.md#one\"\nstatement=\"x\"\ncases=[\"A-1\", \"A-2\"]\n",
        &mut requirements,
        &mut diagnostics,
    );
    assert!(diagnostics.is_empty());
    assert_eq!(requirements.len(), 1);
    assert_eq!(requirements[0].id, "CPU-A");
    assert_eq!(requirements[0].cases, vec!["A-1".to_string(), "A-2".to_string()]);
    parse_fragment_text("coverage/b.toml", "requirements = = 1", &mut requirements, &mut diagnostics);
    assert_eq!(requirements.len(), 1);
    assert_eq!(diagnostics.len(), 1);
    assert!(diagnostics[0].message.starts_with("invalid coverage TOML: "));
}

#[test]
fn invalid_toml_is_a_coverage_error_of_its_file() {
    let results = suite(&[("cpu", "cases/cpu/x/case.toml", "id = ")], &[], &[]);
    assert_eq!(results.len(), 1);
    assert_eq!(results[0].source.as_deref(), Some("cases/cpu/x/case.toml"));
    assert!(results[0].message.as_deref().unwrap().starts_with("invalid case TOML: "));
}

fn entry(source: &str, name: Option<&str>, file: bool) -> (String, Option<String>, bool) {
    (source.to_string(), name.map(str::to_string), file)
}

#[test]
fn fragments_are_the_toml_files_in_name_order() {
    let entries = vec![
        entry("coverage/b.toml", Some("b.toml"), true),
        entry("coverage/notes.md", Some("notes.md"), true),
        entry("coverage/sub.toml", Some("sub.toml"), false),
        entry("coverage", None, true),
        entry("coverage/a.toml", Some("a.toml"), true),
        entry("coverage/B.toml", Some("B.toml"), true),
    ];
    let (selected, problems) = select_fragments("coverage", &entries);
    let names: Vec<&str> = selected.iter().map(|(_, name)| name.as_str()).collect();
    assert_eq!(names, vec!["B.toml", "a.toml", "b.toml"]);
    assert_eq!(selected[1].0, "coverage/a.toml");
    assert_eq!(problems.len(), 1);
    assert_eq!(problems[0].message, "coverage fragment filename must be valid UTF-8");
    assert_eq!(problems[0].source.as_deref(), Some("coverage"));
}

#[test]
fn empty_fragment_directory_is_reported() {
    let (selected, problems) = select_fragments("coverage", &[entry("coverage/readme", Some("readme"), true)]);
    assert!(selected.is_empty());
    assert_eq!(problems.len(), 1);
    assert_eq!(problems[0].message, "coverage directory contains no .toml fragments");
    assert_eq!(problems[0].source.as_deref(), Some("coverage"));
}

#[test]
fn case_files_are_the_case_toml_files_in_source_order() {
    let entries = vec![
        entry("cases/cpu/b/case.toml", Some("case.toml"), true),
        entry("cases/cpu/a/program.bin", Some("program.bin"), true),
        entry("cases/cpu/a/case.toml", Some("case.toml"), true),
        entry("cases/cpu/c/case.toml", Some("case.toml"), false),
        entry("cases/cpu/d/CASE.toml", Some("CASE.toml"), true),
    ];
    assert_eq!(select_case_files(&entries), vec!["cases/cpu/a/case.toml".to_string(), "cases/cpu/b/case.toml".to_string()]);
}
