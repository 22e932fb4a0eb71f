use referral_list::cli::{
    cli_description, cli_option, help, keeps_running, menu_items, parse_cli_command, unknown_usage,
    CliCommand, CLI_OPTION_COUNT,
};

#[test]
fn arguments_name_commands() {
    assert_eq!(parse_cli_command("All Mission Weekly"), CliCommand::AllMissionWeekly);
    assert_eq!(parse_cli_command("Zone Daily"), CliCommand::ZoneDaily);
    assert_eq!(parse_cli_command("holly"), CliCommand::Holly);
    assert_eq!(parse_cli_command("settings"), CliCommand::Settings);
    assert_eq!(parse_cli_command("exit"), CliCommand::Exit);
    assert_eq!(parse_cli_command("help"), CliCommand::Help);
    assert_eq!(parse_cli_command("-h"), CliCommand::Help);
    assert_eq!(parse_cli_command("zone daily"), CliCommand::Unknown);
    assert_eq!(parse_cli_command(""), CliCommand::Unknown);
}

#[test]
fn menu_shown_again_after_reports() {
    assert!(keeps_running(CliCommand::AllMissionWeekly));
    assert!(keeps_running(CliCommand::ZoneDaily));
    assert!(keeps_running(CliCommand::Settings));
    assert!(!keeps_running(CliCommand::Holly));
    assert!(!keeps_running(CliCommand::Exit));
    assert!(!keeps_running(CliCommand::Help));
}

#[test]
fn menu_lists_each_command() {
    let items = menu_items();
    assert_eq!(items.len(), CLI_OPTION_COUNT);
    assert_eq!(items[0], "All Mission Weekly - All mission average response time, found referrals, and sacrament attendance");
    assert_eq!(items[4], "exit - Exits the program");
    for i in 0..CLI_OPTION_COUNT {
        assert_ne!(parse_cli_command(cli_option(i)), CliCommand::Unknown);
        assert!(items[i].ends_with(cli_description(i)));
    }
}

#[test]
fn help_lists_commands() {
    let text = help();
    assert!(text.starts_with("Referral List - a tool to get and parse a list of referrals from referral manager.\n"));
    assert!(text.contains("  Zone Daily - Each Zone's average response time and uncontacted referrals\n"));
    assert_eq!(text.lines().count(), 6);
}

#[test]
fn unknown_usage_message() {
    assert_eq!(unknown_usage("frobnicate"), "Unknown usage 'frobnicate' - run without arguments to see options");
}
