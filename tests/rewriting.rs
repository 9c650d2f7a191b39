use md_rel::{detect_type, extract, output_path, process_file, rewrite, LineType, MdError, MdResult};

fn run_rewrite(lt: LineType, provided: Vec<&str>) -> String {
    let string_form = provided.join("\n");
    match rewrite(lt, |_: &str| -> MdResult<String> { Ok(string_form.clone()) }) {
        Ok(out) => out,
        Err(_) => panic!(),
    }
}

fn grab_files(filename: &str) -> MdResult<String> {
    Ok(match filename {
        "a.rs" => vec!["ars", "// section a", "blue whale", "foo"].join("\n"),
        "b.rs" => vec!["fizz", "buzzl", "bar"].join("\n"),
        "c.rs" => vec!["ack", "it's a trap", "bar"].join("\n"),
        _ => vec!["foo"].join("\n"),
    })
}

fn run_test(lines: Vec<&'static str>) -> String {
    match process_file(&lines.join("\n"), grab_files) {
        Ok(out) => out,
        Err(_) => panic!(),
    }
}

#[test]
fn test_detect_type() {
    assert_eq!(
        detect_type("^code(abc.rs)"),
        Some(LineType::WholeFile("abc.rs".to_string())));
    assert_eq!(
        detect_type("^code(abc.rs,sec)"),
        Some(LineType::Section("abc.rs".to_string(), "sec".to_string())));
    assert_eq!(
        detect_type("^code(abc.rs,0,10)"),
        Some(LineType::Lines("abc.rs".to_string(), 0, 10)));
    assert_eq!(
        detect_type("^code(  abc.rs    )"),
        Some(LineType::WholeFile("abc.rs".to_string())));
    assert_eq!(
        detect_type("^code(    abc.rs  ,  sec   )"),
        Some(LineType::Section("abc.rs".to_string(), "sec".to_string())));
}

#[test]
fn test_rewrite() {
    assert_eq!(run_rewrite(LineType::WholeFile("a".to_string()), vec!["foo"]),
               "foo\n".to_string());
    assert_eq!(run_rewrite(LineType::WholeFile("a".to_string()),
                   vec!["foo", "bar", "baz"]),
               "foo\nbar\nbaz\n".to_string());

    assert_eq!(run_rewrite(LineType::Section("a".to_string(), "f".to_string()),
                    vec!["abc", "// section f", "foo", "bar"]),
               "foo\nbar\n".to_string());
    assert_eq!(run_rewrite(LineType::Section("a".to_string(), "f".to_string()),
                    vec!["abc", "// section f", "foo",
                         "bar", "// section baz", "go"]),
               "foo\nbar\n".to_string());
    assert_eq!(run_rewrite(LineType::Lines("a".to_string(), 1, 3),
                    vec!["abc", "bar", "foo",
                         "bar", "back", "go"]),
               "bar\nfoo\nbar\n".to_string());
}

#[test]
fn test_process_files() {
    assert_eq!(run_test(
        vec![ "a", "b", "^code(a.rs, a)" ]),
       "a\nb\n```rust\nblue whale\nfoo\n```\n".to_string());

    assert_eq!(run_test(
        vec![ "a", "b", "^code(a.rs, a)", "c" ]),
       "a\nb\n```rust\nblue whale\nfoo\n```\nc\n".to_string());

    assert_eq!(run_test(
        vec![ "a", "b", "^code(b.rs)", "c" ]),
       "a\nb\n```rust\nfizz\nbuzzl\nbar\n```\nc\n".to_string());

    assert_eq!(run_test(
        vec![ "a", "b", "^code(c.rs, 1, 2)", "c" ]),
       "a\nb\n```rust\nit's a trap\nbar\n```\nc\n".to_string());
}

fn section_x_files(filename: &str) -> MdResult<String> {
    match filename {
        "a.rs" => Ok(vec!["ars", "// section x", "blue whale", "foo"].join("\n")),
        _ => Err(MdError::OpenRead(std::io::Error::new(std::io::ErrorKind::NotFound, "missing"))),
    }
}

#[test]
fn plain_lines_pass_through() {
    let doc = "# Title\n\nsome text\n  indented";
    assert_eq!(process_file(doc, section_x_files).unwrap(), "# Title\n\nsome text\n  indented\n");
    assert_eq!(process_file("a\nb\n", section_x_files).unwrap(), "a\nb\n");
    assert_eq!(process_file("", section_x_files).unwrap(), "");
    assert_eq!(process_file("code(a.rs)\n^cod", section_x_files).unwrap(), "code(a.rs)\n^cod\n");
}

#[test]
fn whole_file_keeps_its_final_blank_line() {
    let lt = LineType::WholeFile("f".to_string());
    assert_eq!(extract(&lt, "foo\n"), "foo\n\n");
    assert_eq!(extract(&lt, ""), "\n");
}

#[test]
fn end_to_end_section() {
    let out = process_file("a\nb\n^code(a.rs, x)", section_x_files).unwrap();
    assert_eq!(out, "a\nb\n```rust\nblue whale\nfoo\n```\n");
}

#[test]
fn malformed_directive_is_dropped() {
    assert_eq!(detect_type("^code(bad syntax here)"), None);
    let out = process_file("a\n^code(bad syntax here)\nb", section_x_files).unwrap();
    assert_eq!(out, "a\nb\n");
    assert_eq!(process_file("^code", section_x_files).unwrap(), "");
}

#[test]
fn missing_section_gives_empty_block() {
    let out = process_file("^code(a.rs, nothere)", section_x_files).unwrap();
    assert_eq!(out, "```rust\n```\n");
    let lt = LineType::Section("a.rs".to_string(), "y".to_string());
    assert_eq!(extract(&lt, "abc\n// section x\nfoo"), "");
}

#[test]
fn section_marker_may_be_indented() {
    let lt = LineType::Section("a.rs".to_string(), "x".to_string());
    assert_eq!(extract(&lt, "abc\n    // section x  \nfoo\n  // section y\nbar"), "foo\n");
    assert_eq!(extract(&lt, "// section y\nno\n// section x\nyes\n"), "yes\n");
}

#[test]
fn line_range_edges() {
    let content = "l0\nl1\nl2";
    assert_eq!(extract(&LineType::Lines("f".to_string(), 1, 10), content), "l1\nl2\n");
    assert_eq!(extract(&LineType::Lines("f".to_string(), 5, 10), content), "");
    assert_eq!(extract(&LineType::Lines("f".to_string(), 2, 1), content), "");
    assert_eq!(extract(&LineType::Lines("f".to_string(), 0, 0), content), "l0\n");
    assert_eq!(extract(&LineType::Lines("f".to_string(), 0, usize::MAX), content), "l0\nl1\nl2\n");
}

#[test]
fn directive_grammar_edges() {
    assert_eq!(detect_type("^code(a.rs) trailing words"), Some(LineType::WholeFile("a.rs".to_string())));
    assert_eq!(detect_type("^code(a.rs, 1x)"), None);
    assert_eq!(detect_type("^code(a.rs, sec, 3)"), None);
    assert_eq!(detect_type("^code(a.rs, 1, 2, 3)"), None);
    assert_eq!(detect_type("^code(a.rs"), None);
    assert_eq!(detect_type("^code()"), None);
    assert_eq!(detect_type("^code( , sec)"), None);
    assert_eq!(detect_type("^code(a.rs, 99999999999999999999999, 1)"), None);
    assert_eq!(detect_type("^code(a.rs, 007 , 12 )"), Some(LineType::Lines("a.rs".to_string(), 7, 12)));
    assert_eq!(detect_type("x ^code(a.rs)"), None);
}

#[test]
fn language_from_extension() {
    assert_eq!(LineType::WholeFile("src/main.rs".to_string()).guess_language(), "rust");
    assert_eq!(LineType::Section("Cargo.toml".to_string(), "s".to_string()).guess_language(), "toml");
    assert_eq!(LineType::Lines("a.tar.gz".to_string(), 0, 1).guess_language(), "gz");
    assert_eq!(LineType::WholeFile("Makefile".to_string()).guess_language(), "");
    assert_eq!(LineType::WholeFile("a.rs~".to_string()).guess_language(), "rust");
    assert_eq!(LineType::WholeFile("x.py.".to_string()).guess_language(), "py");
}

#[test]
fn filename_of_each_kind() {
    assert_eq!(LineType::WholeFile("a.rs".to_string()).get_filename(), "a.rs");
    assert_eq!(LineType::Section("b.rs".to_string(), "s".to_string()).get_filename(), "b.rs");
    assert_eq!(LineType::Lines("c.rs".to_string(), 1, 2).get_filename(), "c.rs");
}

#[test]
fn fetch_failure_stops_the_rewrite() {
    match process_file("a\n^code(missing.rs)\nb", section_x_files) {
        Err(MdError::OpenRead(e)) => assert_eq!(e.kind(), std::io::ErrorKind::NotFound),
        _ => panic!(),
    }
    let failing = |_: &str| -> MdResult<String> {
        Err(MdError::Import(std::io::Error::new(std::io::ErrorKind::Other, "unreadable")))
    };
    assert!(matches!(rewrite(LineType::WholeFile("z".to_string()), failing), Err(MdError::Import(_))));
    assert!(matches!(process_file("^code(z, a)", failing), Err(MdError::Import(_))));
    assert_eq!(process_file("^code(bad name here)", failing).unwrap(), "");
}

#[test]
fn output_path_rules() {
    assert_eq!(output_path("notes.dev.md"), "notes.md");
    assert_eq!(output_path("dir/readme.md"), "dir/readme.md.md");
    assert_eq!(output_path("plain"), "plain.md");
    assert_eq!(output_path(".dev.md"), ".md");
}
