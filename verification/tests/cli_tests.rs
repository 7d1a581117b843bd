use creeper_cli::cli::{parse_command, CliCommand};

fn parse(a: &[&str]) -> CliCommand {
    parse_command(&a.iter().map(|s| s.to_string()).collect())
}

#[test]
fn commands_by_second_argument() {
    assert!(matches!(parse(&["creeper"]), CliCommand::Serve));
    assert!(matches!(parse(&[]), CliCommand::Serve));
    assert!(matches!(parse(&["creeper", "update"]), CliCommand::Update));
    assert!(matches!(parse(&["creeper", "init"]), CliCommand::Init));
    assert!(matches!(parse(&["creeper", "version", "extra"]), CliCommand::Version));
    assert!(matches!(parse(&["creeper", "pizza"]), CliCommand::Pizza));
    match parse(&["creeper", "Update"]) {
        CliCommand::Unknown(name) => assert_eq!(name, "Update"),
        _ => panic!("expected unknown"),
    }
}
