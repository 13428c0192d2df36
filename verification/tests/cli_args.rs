use pdfspatial::cli::{parse, Config, ParseOutcome};
use pdfspatial::markdown::MarkdownOptions;
use std::path::PathBuf;

fn run(args: &[&str]) -> Config {
    let args: Vec<String> = args.iter().map(|s| s.to_string()).collect();
    match parse(&args).expect("expected successful parse") {
        ParseOutcome::Run(config) => config,
        _ => panic!("expected ParseOutcome::Run"),
    }
}

fn paths(v: &[String]) -> Vec<PathBuf> {
    v.iter().map(PathBuf::from).collect()
}

#[test]
fn no_args_is_help() {
    assert!(matches!(parse(&[]).unwrap(), ParseOutcome::Help));
}

#[test]
fn help_and_version_flags() {
    assert!(matches!(
        parse(&["--help".to_string()]).unwrap(),
        ParseOutcome::Help
    ));
    assert!(matches!(
        parse(&["--version".to_string()]).unwrap(),
        ParseOutcome::Version
    ));
}

#[test]
fn single_input_defaults() {
    let config = run(&["input.pdf"]);
    assert_eq!(paths(&config.inputs), vec![PathBuf::from("input.pdf")]);
    assert_eq!(config.out.map(PathBuf::from), None);
    assert_eq!(config.markdown, MarkdownOptions::default());
    assert_eq!(config.jobs, None);
    assert!(!config.quiet);
}

#[test]
fn out_flag_space_form() {
    let config = run(&["--out", "outdir", "a.pdf", "b.pdf"]);
    assert_eq!(config.out.clone().map(PathBuf::from), Some(PathBuf::from("outdir")));
    assert_eq!(
        paths(&config.inputs),
        vec![PathBuf::from("a.pdf"), PathBuf::from("b.pdf")]
    );
}

#[test]
fn out_flag_equals_form() {
    let config = run(&["--out=outdir", "a.pdf"]);
    assert_eq!(config.out.map(PathBuf::from), Some(PathBuf::from("outdir")));
}

#[test]
fn output_mode_flags() {
    let config = run(&["--no-page-breaks", "--no-image-placeholders", "a.pdf"]);
    assert!(!config.markdown.page_breaks);
    assert!(!config.markdown.image_placeholders);
}

#[test]
fn jobs_flag_both_forms() {
    assert_eq!(run(&["--jobs", "4", "a.pdf"]).jobs, Some(4));
    assert_eq!(run(&["--jobs=1", "a.pdf"]).jobs, Some(1));
}

#[test]
fn jobs_flag_rejects_zero() {
    let args: Vec<String> = ["--jobs", "0", "a.pdf"]
        .iter()
        .map(|s| s.to_string())
        .collect();
    let err = parse(&args).unwrap_err();
    assert!(err.contains("at least 1"), "unexpected error: {err}");
}

#[test]
fn jobs_flag_rejects_non_numeric() {
    let args: Vec<String> = ["--jobs", "many", "a.pdf"]
        .iter()
        .map(|s| s.to_string())
        .collect();
    let err = parse(&args).unwrap_err();
    assert!(err.contains("positive integer"), "unexpected error: {err}");
}

#[test]
fn quiet_flag() {
    assert!(run(&["--quiet", "a.pdf"]).quiet);
}

#[test]
fn out_requires_a_value() {
    let args: Vec<String> = ["--out"].iter().map(|s| s.to_string()).collect();
    let err = parse(&args).unwrap_err();
    assert!(err.contains("--out requires a value"), "{err}");
}

#[test]
fn unknown_flag_is_rejected() {
    let args: Vec<String> = ["--bogus", "a.pdf"].iter().map(|s| s.to_string()).collect();
    let err = parse(&args).unwrap_err();
    assert!(err.contains("unknown flag: --bogus"), "{err}");
}

#[test]
fn no_inputs_is_rejected() {
    let args: Vec<String> = ["--quiet"].iter().map(|s| s.to_string()).collect();
    let err = parse(&args).unwrap_err();
    assert!(err.contains("no input"), "{err}");
}

#[test]
fn directories_and_files_can_be_mixed() {
    let config = run(&["a.pdf", "some_dir", "b.pdf"]);
    assert_eq!(
        paths(&config.inputs),
        vec![
            PathBuf::from("a.pdf"),
            PathBuf::from("some_dir"),
            PathBuf::from("b.pdf"),
        ]
    );
}

// --- further cases of the flag grammar ---------------------------------------------

#[test]
fn short_help_and_version_flags_stop_parsing() {
    assert!(matches!(parse(&["-h".to_string(), "--bogus".to_string()]).unwrap(), ParseOutcome::Help));
    assert!(matches!(parse(&["-V".to_string()]).unwrap(), ParseOutcome::Version));
}

#[test]
fn lone_dash_is_an_input() {
    let config = run(&["-"]);
    assert_eq!(config.inputs, vec!["-".to_string()]);
}

#[test]
fn jobs_error_quotes_the_rejected_value() {
    let args: Vec<String> = ["--jobs=x1", "a.pdf"].iter().map(|s| s.to_string()).collect();
    let err = parse(&args).unwrap_err();
    assert_eq!(err, "--jobs value must be a positive integer, got \"x1\"");
}

#[test]
fn later_out_flag_wins_and_equals_value_may_be_empty() {
    let config = run(&["--out", "first", "--out=second", "a.pdf"]);
    assert_eq!(config.out, Some("second".to_string()));
    let config = run(&["--out=", "a.pdf"]);
    assert_eq!(config.out, Some(String::new()));
}

#[test]
fn equals_in_a_plain_input_does_not_split_it() {
    let config = run(&["a=b.pdf"]);
    assert_eq!(config.inputs, vec!["a=b.pdf".to_string()]);
}

#[test]
fn jobs_requires_a_value() {
    let args: Vec<String> = ["a.pdf", "--jobs"].iter().map(|s| s.to_string()).collect();
    assert_eq!(parse(&args).unwrap_err(), "--jobs requires a value");
}
