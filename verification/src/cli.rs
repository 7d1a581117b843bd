//! Choosing what the program does from its command line.
use vstd::prelude::*;
use crate::text::same_text;

verus! {

/// What the program was asked to do.
pub enum CliCommand {
    /// No command: run the sync server.
    Serve,
    Update,
    Init,
    Version,
    Pizza,
    /// A command that does not exist, by its name.
    Unknown(String),
}

/// The command's number (0 serve, 1 update, 2 init, 3 version, 4 pizza, 5 unknown) and,
/// for an unknown command, its name.
pub open spec fn command_view(c: CliCommand) -> (int, Seq<char>) {
    match c {
        CliCommand::Serve => (0, seq![]),
        CliCommand::Update => (1, seq![]),
        CliCommand::Init => (2, seq![]),
        CliCommand::Version => (3, seq![]),
        CliCommand::Pizza => (4, seq![]),
        CliCommand::Unknown(name) => (5, name@),
    }
}

/// The command for the arguments (the program's name first): without a further
/// argument the server runs; otherwise the second argument names the command.
pub open spec fn command_spec(args: Seq<Seq<char>>) -> (int, Seq<char>) {
    if args.len() <= 1 {
        (0, seq![])
    } else if args[1] == "update"@ {
        (1, seq![])
    } else if args[1] == "init"@ {
        (2, seq![])
    } else if args[1] == "version"@ {
        (3, seq![])
    } else if args[1] == "pizza"@ {
        (4, seq![])
    } else {
        (5, args[1])
    }
}

pub open spec fn arg_texts(args: Seq<String>) -> Seq<Seq<char>> {
    Seq::new(args.len(), |i: int| args[i]@)
}

/// The command the arguments ask for (see `command_spec`).
pub fn parse_command(args: &Vec<String>) -> (r: CliCommand)
    ensures
        command_view(r) == command_spec(arg_texts(args@)),
{
    if args.len() <= 1 {
        return CliCommand::Serve;
    }
    let name = args[1].as_str();
    assert(arg_texts(args@)[1] == name@);
    if same_text(name, "update") {
        CliCommand::Update
    } else if same_text(name, "init") {
        CliCommand::Init
    } else if same_text(name, "version") {
        CliCommand::Version
    } else if same_text(name, "pizza") {
        CliCommand::Pizza
    } else {
        CliCommand::Unknown(args[1].clone())
    }
}

} // verus!
