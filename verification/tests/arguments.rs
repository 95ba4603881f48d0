use playrite::cli::export_output;
use playrite::cli::{parse_args, Command};

fn parse(args: &[&str]) -> Result<Command, String> {
    parse_args(&args.iter().map(|a| a.to_string()).collect())
}

#[test]
fn help_version_and_defaults() {
    assert!(matches!(parse(&["--help"]), Ok(Command::Help)));
    assert!(matches!(parse(&["-h", "extra"]), Ok(Command::Help)));
    assert!(matches!(parse(&["-V"]), Ok(Command::Version)));
    match parse(&[]) {
        Ok(Command::Edit { path, demo }) => assert_eq!((path.as_str(), demo), ("story.playrite", false)),
        _ => panic!("expected the default story"),
    }
    match parse(&["demo"]) {
        Ok(Command::Edit { path, demo }) => assert_eq!((path.as_str(), demo), ("demo.playrite", true)),
        _ => panic!("expected the sample"),
    }
    match parse(&["demo", "mine.playrite"]) {
        Ok(Command::Edit { path, demo }) => assert_eq!((path.as_str(), demo), ("mine.playrite", true)),
        _ => panic!("expected the sample"),
    }
}

#[test]
fn unknown_arguments_are_refused() {
    let unknown = "Unknown argument. Run playrite --help for usage.";
    assert_eq!(parse(&["a", "b"]).err().unwrap(), unknown);
    assert_eq!(parse(&["--quiet"]).err().unwrap(), unknown);
    assert_eq!(parse(&["demo", "a", "b"]).err().unwrap(), unknown);
}

#[test]
fn export_options() {
    match parse(&["export", "s.playrite", "-o", "out.html", "--force"]) {
        Ok(Command::Export { input, output, force }) => {
            assert_eq!(input, "s.playrite");
            assert_eq!(output.as_deref(), Some("out.html"));
            assert!(force);
        }
        _ => panic!("expected an export"),
    }
    match parse(&["export", "s.playrite"]) {
        Ok(Command::Export { output, force, .. }) => {
            assert!(output.is_none());
            assert!(!force);
        }
        _ => panic!("expected an export"),
    }
    assert_eq!(
        parse(&["export"]).err().unwrap(),
        "Usage: playrite export STORY.playrite [-o OUT.html] [--force]"
    );
    assert_eq!(
        parse(&["export", "-o"]).err().unwrap(),
        "Usage: playrite export STORY.playrite [-o OUT.html] [--force]"
    );
    assert_eq!(
        parse(&["export", "s.playrite", "-o"]).err().unwrap(),
        "Missing output path after -o"
    );
    assert_eq!(
        parse(&["export", "s.playrite", "-o", "--force"]).err().unwrap(),
        "Missing output path after -o"
    );
    assert_eq!(
        parse(&["export", "s.playrite", "--pdf"]).err().unwrap(),
        "Unknown export argument: --pdf"
    );
}

#[test]
fn exports_default_to_the_input_with_an_html_extension() {
    assert_eq!(export_output(&"story.playrite".to_string(), &None), "story.html");
    assert_eq!(export_output(&"dir/notes".to_string(), &None), "dir/notes.html");
    assert_eq!(export_output(&"story.playrite".to_string(), &Some("out.htm".to_string())), "out.htm");
}

#[test]
fn the_default_export_name_replaces_only_the_last_extension() {
    assert_eq!(export_output(&"archive.tar.gz".to_string(), &None), "archive.tar.html");
    assert_eq!(export_output(&"dir.d/.hidden".to_string(), &None), "dir.d/.hidden.html");
    assert_eq!(export_output(&"a/b.".to_string(), &None), "a/b.html");
    assert_eq!(export_output(&"a/...".to_string(), &None), "a/...html");
    assert_eq!(export_output(&"..".to_string(), &None), "..");
    assert_eq!(export_output(&"".to_string(), &None), "");
}
