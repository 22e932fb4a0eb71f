//! The commands that the program offers, and what each one asks for.

use vstd::prelude::*;
use vstd::string::*;
use crate::text::str_eq;

verus! {

broadcast use vstd::string::group_string_axioms;

/// A command chosen from the menu or given as the program's argument.
#[derive(Clone, Copy, Debug, PartialEq, Eq, Structural)]
pub enum CliCommand {
    AllMissionWeekly,
    ZoneDaily,
    Holly,
    Settings,
    Exit,
    Help,
    Unknown,
}

/// How many commands the menu offers.
pub const CLI_OPTION_COUNT: usize = 5;

/// The name of the `i`-th menu command.
pub open spec fn option_name(i: int) -> Seq<char> {
    if i == 0 {
        "All Mission Weekly"@
    } else if i == 1 {
        "Zone Daily"@
    } else if i == 2 {
        "holly"@
    } else if i == 3 {
        "settings"@
    } else {
        "exit"@
    }
}

/// What the `i`-th menu command does.
pub open spec fn option_description(i: int) -> Seq<char> {
    if i == 0 {
        "All mission average response time, found referrals, and sacrament attendance"@
    } else if i == 1 {
        "Each Zone's average response time and uncontacted referrals"@
    } else if i == 2 {
        "Connects to Holly and responds to messages"@
    } else if i == 3 {
        "Change the settings for Holly"@
    } else {
        "Exits the program"@
    }
}

/// The name of the `i`-th menu command.
pub fn cli_option(i: usize) -> (name: &'static str)
    requires
        i < CLI_OPTION_COUNT,
    ensures
        name@ == option_name(i as int),
{
    if i == 0 {
        "All Mission Weekly"
    } else if i == 1 {
        "Zone Daily"
    } else if i == 2 {
        "holly"
    } else if i == 3 {
        "settings"
    } else {
        "exit"
    }
}

/// What the `i`-th menu command does.
pub fn cli_description(i: usize) -> (text: &'static str)
    requires
        i < CLI_OPTION_COUNT,
    ensures
        text@ == option_description(i as int),
{
    if i == 0 {
        "All mission average response time, found referrals, and sacrament attendance"
    } else if i == 1 {
        "Each Zone's average response time and uncontacted referrals"
    } else if i == 2 {
        "Connects to Holly and responds to messages"
    } else if i == 3 {
        "Change the settings for Holly"
    } else {
        "Exits the program"
    }
}

/// The command that an argument names; `help` and `-h` both ask for help.
pub open spec fn command_of(arg: Seq<char>) -> CliCommand {
    if arg == option_name(0) {
        CliCommand::AllMissionWeekly
    } else if arg == option_name(1) {
        CliCommand::ZoneDaily
    } else if arg == option_name(2) {
        CliCommand::Holly
    } else if arg == option_name(3) {
        CliCommand::Settings
    } else if arg == option_name(4) {
        CliCommand::Exit
    } else if arg == "help"@ || arg == "-h"@ {
        CliCommand::Help
    } else {
        CliCommand::Unknown
    }
}

/// Reads the command that an argument names.
pub fn parse_cli_command(arg: &str) -> (command: CliCommand)
    ensures
        command == command_of(arg@),
{
    if str_eq(arg, "All Mission Weekly") {
        CliCommand::AllMissionWeekly
    } else if str_eq(arg, "Zone Daily") {
        CliCommand::ZoneDaily
    } else if str_eq(arg, "holly") {
        CliCommand::Holly
    } else if str_eq(arg, "settings") {
        CliCommand::Settings
    } else if str_eq(arg, "exit") {
        CliCommand::Exit
    } else if str_eq(arg, "help") || str_eq(arg, "-h") {
        CliCommand::Help
    } else {
        CliCommand::Unknown
    }
}

/// Whether the menu is shown again after the command has run without error:
/// yes after a report or a change of settings, no after Holly, `exit` or help.
pub open spec fn spec_keeps_running(command: CliCommand) -> bool {
    match command {
        CliCommand::AllMissionWeekly | CliCommand::ZoneDaily | CliCommand::Settings => true,
        _ => false,
    }
}

/// Whether the menu is shown again after the command has run without error.
pub fn keeps_running(command: CliCommand) -> (again: bool)
    ensures
        again == spec_keeps_running(command),
{
    match command {
        CliCommand::AllMissionWeekly | CliCommand::ZoneDaily | CliCommand::Settings => true,
        _ => false,
    }
}

/// One menu entry: the command's name, ` - `, and what it does.
pub open spec fn menu_item(i: int) -> Seq<char> {
    option_name(i) + " - "@ + option_description(i)
}

/// The menu entries, one per command, in order.
pub fn menu_items() -> (items: Vec<String>)
    ensures
        items.deep_view() == Seq::new(CLI_OPTION_COUNT as nat, |i: int| menu_item(i)),
{
    let mut items: Vec<String> = Vec::new();
    let mut i: usize = 0;
    while i < CLI_OPTION_COUNT
        invariant
            i <= CLI_OPTION_COUNT,
            items.deep_view() == Seq::new(i as nat, |k: int| menu_item(k)),
        decreases CLI_OPTION_COUNT - i,
    {
        let mut item = String::new();
        item.append(cli_option(i));
        item.append(" - ");
        item.append(cli_description(i));
        let ghost before = items.deep_view();
        items.push(item);
        assert(items.deep_view() =~= Seq::new((i + 1) as nat, |k: int| menu_item(k))) by {
            assert(items.deep_view() =~= before.push(item@));
        }
        i = i + 1;
    }
    items
}

/// The help text: a line saying what the program is, then one indented line
/// per command.
pub open spec fn help_text(n: nat) -> Seq<char>
    decreases n,
{
    if n == 0 {
        "Referral List - a tool to get and parse a list of referrals from referral manager.\n"@
    } else {
        help_text((n - 1) as nat) + "  "@ + menu_item(n - 1) + "\n"@
    }
}

/// The help text that lists every command.
pub fn help() -> (text: String)
    ensures
        text@ == help_text(CLI_OPTION_COUNT as nat),
{
    let mut text = String::new();
    text.append("Referral List - a tool to get and parse a list of referrals from referral manager.\n");
    let mut i: usize = 0;
    while i < CLI_OPTION_COUNT
        invariant
            i <= CLI_OPTION_COUNT,
            text@ == help_text(i as nat),
        decreases CLI_OPTION_COUNT - i,
    {
        text.append("  ");
        text.append(cli_option(i));
        text.append(" - ");
        text.append(cli_description(i));
        text.append("\n");
        i = i + 1;
    }
    text
}

/// The error for an argument that names no command.
pub fn unknown_usage(arg: &str) -> (message: String)
    ensures
        message@ == "Unknown usage '"@ + arg@ + "' - run without arguments to see options"@,
{
    let mut message = String::new();
    message.append("Unknown usage '");
    message.append(arg);
    message.append("' - run without arguments to see options");
    message
}

/// The command that the `i`-th menu entry names.
pub open spec fn menu_command(i: int) -> CliCommand {
    if i == 0 {
        CliCommand::AllMissionWeekly
    } else if i == 1 {
        CliCommand::ZoneDaily
    } else if i == 2 {
        CliCommand::Holly
    } else if i == 3 {
        CliCommand::Settings
    } else {
        CliCommand::Exit
    }
}

/// Each menu entry, passed back as an argument, runs the command it names;
/// none of them is unknown, and none asks for help.
pub proof fn law_menu_options_are_commands(i: int)
    requires
        0 <= i < CLI_OPTION_COUNT,
    ensures
        command_of(option_name(i)) == menu_command(i),
        command_of(option_name(i)) != CliCommand::Unknown,
        command_of(option_name(i)) != CliCommand::Help,
{
    reveal_strlit("All Mission Weekly");
    reveal_strlit("Zone Daily");
    reveal_strlit("holly");
    reveal_strlit("settings");
    reveal_strlit("exit");
    reveal_strlit("help");
    reveal_strlit("-h");
    assert(option_name(0).len() == 18);
    assert(option_name(1).len() == 10);
    assert(option_name(2).len() == 5);
    assert(option_name(3).len() == 8);
    assert(option_name(4).len() == 4);
    assert("help"@.len() == 4 && "-h"@.len() == 2);
    assert(option_name(4)[0] != "help"@[0]);
}

} // verus!
