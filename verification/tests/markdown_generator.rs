use toak_rs::markdown_generator::{
    binary_types, default_file_exclusions, default_file_type_exclusions, has_entry,
    ignore_file_patterns, ocr_types, MarkdownGenerator, MarkdownGeneratorOptions,
};
use toak_rs::matching::{glob_match, glob_outcome, glob_to_regex, matches_any_pattern};

fn strings(items: &[&str]) -> Vec<String> {
    items.iter().map(|s| s.to_string()).collect()
}

fn options(dir: &str, types: &[&str], patterns: &[&str]) -> MarkdownGeneratorOptions {
    MarkdownGeneratorOptions {
        dir: dir.to_string(),
        output_file_path: "prompt.md".to_string(),
        file_type_exclusions: strings(types),
        file_exclusions: strings(patterns),
        verbose: false,
    }
}

#[test]
fn default_exclusions_are_complete() {
    assert_eq!(ocr_types(), vec![".jpg", ".jpeg", ".png", ".gif", ".bmp", ".webp", ".tiff", ".pdf"]);
    assert_eq!(binary_types().len(), 32);
    let without = default_file_type_exclusions(false);
    assert_eq!(without.len(), 40);
    assert_eq!(without[0], ".jpg");
    assert_eq!(without[7], ".pdf");
    assert_eq!(without[8], ".svg");
    assert_eq!(without[39], ".sqlite3");
    let with = default_file_type_exclusions(true);
    assert_eq!(with.len(), 32);
    assert_eq!(with[0], ".svg");
    assert!(!with.contains(&".png".to_string()));
    let patterns = default_file_exclusions();
    assert_eq!(patterns.len(), 59);
    assert_eq!(patterns[0], "**/.*rc");
    assert_eq!(patterns[58], "**/*.log");
}

#[test]
fn default_options_are_verbose_in_the_current_directory() {
    let options = MarkdownGeneratorOptions::default();
    assert_eq!(options.dir, ".");
    assert_eq!(options.output_file_path, "prompt.md");
    assert_eq!(options.file_type_exclusions, default_file_type_exclusions(false));
    assert_eq!(options.file_exclusions, default_file_exclusions());
    assert!(options.verbose);
    let with = MarkdownGeneratorOptions::for_platform(true);
    assert_eq!(with.file_type_exclusions, default_file_type_exclusions(true));
}

#[test]
fn new_generator_takes_the_exclusions_of_its_options() {
    let generator = MarkdownGenerator::new(options(".", &[".png"], &["*.md", "docs/*"]));
    assert!(!generator.is_initialized());
    assert_eq!(generator.file_exclusions(), &strings(&["*.md", "docs/*"]));
    assert_eq!(generator.get_options().file_type_exclusions, strings(&[".png"]));
}

#[test]
fn images_and_pdf_are_read_by_text_recognition() {
    assert!(MarkdownGenerator::is_ocr_file(".png"));
    assert!(MarkdownGenerator::is_ocr_file(".pdf"));
    assert!(MarkdownGenerator::is_ocr_file(".jpeg"));
    assert!(!MarkdownGenerator::is_ocr_file(".txt"));
    assert!(!MarkdownGenerator::is_ocr_file(".PNG"));
    assert!(!MarkdownGenerator::is_ocr_file("png"));
    assert!(!MarkdownGenerator::is_ocr_file(""));
}

#[test]
fn globs_become_regular_expressions() {
    assert_eq!(glob_to_regex("*.rs"), "^[^/]*.rs$");
    assert_eq!(glob_to_regex("a?c"), "^a[^/]c$");
    // the star that a double star leaves behind is replaced in turn
    assert_eq!(glob_to_regex("**/x"), "^.[^/]*/x$");
    assert_eq!(glob_to_regex("plain"), "^plain$");
    assert_eq!(glob_to_regex(""), "^$");
}

#[test]
fn globs_match_within_one_directory() {
    assert!(glob_match("*.rs", "main.rs"));
    assert!(!glob_match("*.rs", "src/main.rs"));
    assert!(glob_match("src/*.rs", "src/main.rs"));
    assert!(glob_match("?.txt", "a.txt"));
    assert!(!glob_match("?.txt", "ab.txt"));
    assert!(glob_match("**/*.log", "logs/app.log"));
    assert!(!glob_match("**/*.log", "app.log"));
    assert!(glob_match("file.txt", "fileXtxt"));
    assert!(!glob_match("main", "main.rs"));
}

#[test]
fn glob_that_is_no_regular_expression_matches_nothing() {
    assert!(!glob_match("[", "["));
    assert!(!glob_match("a(b", "a(b"));
    assert!(glob_outcome(Some(true)));
    assert!(!glob_outcome(Some(false)));
    assert!(!glob_outcome(None));
}

#[test]
fn any_pattern_may_match() {
    let patterns = strings(&["*.md", "docs/*"]);
    assert!(matches_any_pattern(&patterns, "README.md"));
    assert!(matches_any_pattern(&patterns, "docs/a.txt"));
    assert!(!matches_any_pattern(&patterns, "src/a.txt"));
    assert!(!matches_any_pattern(&Vec::new(), "README.md"));
}

#[test]
fn ignore_file_gives_its_patterns() {
    let content = "# comment\n\nfoo\n/abs\n**/x\n  bar  \n   \n#x\n*.tmp";
    assert_eq!(
        ignore_file_patterns("sub", content),
        strings(&["sub/foo", "/abs", "**/x", "sub/bar", "sub/*.tmp"])
    );
    assert!(ignore_file_patterns("sub", "").is_empty());
}

#[test]
fn loaded_patterns_are_sorted_and_kept_once() {
    let mut generator = MarkdownGenerator::new(options("/repo", &[], &["zeta", "*.md", "alpha"]));
    generator.load_ignore_file("sub", "foo\nalpha\n/abs\n");
    generator.load_ignore_file("sub", "foo\n");
    assert_eq!(
        generator.file_exclusions(),
        &strings(&["zeta", "*.md", "alpha", "sub/foo", "sub/alpha", "/abs", "sub/foo"])
    );
    assert!(!generator.is_initialized());
    generator.finish_loading();
    assert!(generator.is_initialized());
    assert_eq!(
        generator.file_exclusions(),
        &strings(&["*.md", "/abs", "alpha", "sub/alpha", "sub/foo", "zeta"])
    );
    assert!(generator.matches_exclusion_patterns("sub/foo"));
    assert!(generator.matches_exclusion_patterns("README.md"));
    assert!(!generator.matches_exclusion_patterns("src/main.rs"));
}

#[test]
fn tracked_files_pass_the_exclusions_in_force() {
    let mut generator = MarkdownGenerator::new(options("/repo", &[".png"], &["*.md"]));
    generator.load_ignore_file("gen", "*.out\n");
    generator.finish_loading();
    assert_eq!(
        generator.get_tracked_files("a.rs\n\nb.png\nREADME.md\ngen/x.out\ngen/y.rs\n"),
        strings(&["a.rs", "gen/y.rs"])
    );
    assert!(generator.glob_match("gen/*.out", "gen/x.out"));
}

#[test]
fn gitignore_gets_the_entries_it_lacks() {
    assert_eq!(MarkdownGenerator::update_gitignore(""), Some("prompt.md\ntodo\nembeddings.json\n".to_string()));
    assert_eq!(
        MarkdownGenerator::update_gitignore("node_modules"),
        Some("node_modules\nprompt.md\ntodo\nembeddings.json\n".to_string())
    );
    assert_eq!(
        MarkdownGenerator::update_gitignore("target/\n  todo  \n"),
        Some("target/\n  todo  \nprompt.md\nembeddings.json\n".to_string())
    );
    assert_eq!(MarkdownGenerator::update_gitignore("embeddings.json\nprompt.md"), Some("embeddings.json\nprompt.md\ntodo\n".to_string()));
    assert_eq!(MarkdownGenerator::update_gitignore("prompt.md\ntodo\nembeddings.json\n"), None);
    assert_eq!(MarkdownGenerator::update_gitignore("todo\r\nprompt.md\r\nembeddings.json"), None);
}

#[test]
fn entries_are_whole_lines() {
    assert!(has_entry("a\n todo \nb", "todo"));
    assert!(!has_entry("a\ntodos\nb", "todo"));
    assert!(!has_entry("", "todo"));
    assert!(has_entry("\n", ""));
    assert!(!has_entry("", ""));
}

#[test]
fn root_ignore_names_the_prompt() {
    assert_eq!(MarkdownGenerator::get_root_ignore(None), ("todo\nprompt.md\nembeddings.json".to_string(), true));
    assert_eq!(MarkdownGenerator::get_root_ignore(Some("x")), ("x\nprompt.md\n".to_string(), true));
    assert_eq!(MarkdownGenerator::get_root_ignore(Some("x\n")), ("x\nprompt.md\n".to_string(), true));
    assert_eq!(MarkdownGenerator::get_root_ignore(Some("")), ("prompt.md\n".to_string(), true));
    assert_eq!(MarkdownGenerator::get_root_ignore(Some("a\nprompt.md\n")), ("a\nprompt.md\n".to_string(), false));
}

#[test]
fn file_content_is_cleaned_for_the_document() {
    assert_eq!(MarkdownGenerator::read_file_content("let x = 1; // c\n\n"), "let x = 1;");
    assert_eq!(MarkdownGenerator::read_file_content("// nothing\n"), "");
}

#[test]
fn markdown_has_a_section_for_each_file_with_content() {
    let files = vec![
        ("a.rs".to_string(), Some("fn a() {}".to_string())),
        ("b.rs".to_string(), Some("  ".to_string())),
        ("c.rs".to_string(), None),
        ("d.rs".to_string(), Some(" x \n".to_string())),
    ];
    assert_eq!(
        MarkdownGenerator::generate_markdown(&files),
        "# Project Files\n\n## a.rs\n~~~\nfn a() {}\n~~~\n\n## d.rs\n~~~\nx\n~~~\n\n"
    );
    assert_eq!(MarkdownGenerator::generate_markdown(&Vec::new()), "# Project Files\n\n");
}

#[test]
fn document_joins_code_and_todos() {
    let (document, result) = MarkdownGenerator::create_markdown_document("# Project Files\n\n", "do it");
    assert_eq!(document, "# Project Files\n\n\n---\n\ndo it\n");
    assert!(result.success);
    assert_eq!(result.token_count, Some(6));
    assert_eq!(result.error, None);
}
