use toak_rs::cli::Args;

#[test]
fn arguments_default_to_the_current_directory_and_prompt_md() {
    let args = Args { dir: None, output_file_path: None, quiet: false, prompt: None };
    assert!(args.verbose());
    assert_eq!(args.dir(), ".");
    assert_eq!(args.output_file_path(), "prompt.md");
}

#[test]
fn given_arguments_win() {
    let args = Args {
        dir: Some("/repo".to_string()),
        output_file_path: Some("out/all.md".to_string()),
        quiet: true,
        prompt: Some("summary".to_string()),
    };
    assert!(!args.verbose());
    assert_eq!(args.dir(), "/repo");
    assert_eq!(args.output_file_path(), "out/all.md");
}
