//! How the process of a session is started: through the system's shell,
//! with the port it is to listen on in its environment.

use vstd::prelude::*;

verus! {

/// The decimal digits, in order.
pub open spec fn digits() -> Seq<char> {
    "0123456789"@
}

/// The decimal notation of `n`, without leading zeros.
pub open spec fn decimal(n: nat) -> Seq<char>
    decreases n,
{
    if n < 10 {
        seq![digits()[n as int]]
    } else {
        decimal(n / 10).push(digits()[(n % 10) as int])
    }
}

/// The name of the environment variable that tells a process its port.
pub open spec fn port_variable() -> Seq<char> {
    "PORT"@
}

/// The program that runs a command line: the command interpreter of the
/// system.
pub open spec fn shell_program(windows: bool) -> Seq<char> {
    if windows {
        "cmd"@
    } else {
        "sh"@
    }
}

/// The arguments that make the shell run `command`.
pub open spec fn shell_arguments(command: Seq<char>, windows: bool) -> Seq<Seq<char>> {
    if windows {
        seq!["/C"@, command]
    } else {
        seq!["-c"@, command]
    }
}

/// What is to be executed to start the process of a session.
#[derive(Debug)]
pub struct Launch {
    /// The program to run.
    pub program: String,
    /// Its arguments.
    pub arguments: Vec<String>,
    /// The name of the environment variable to set.
    pub variable: String,
    /// The value to set it to.
    pub value: String,
}

/// The decimal notation of `n`.
pub fn decimal_text(n: u16) -> (text: String)
    ensures
        text@ == decimal(n as nat),
    decreases n,
{
    let all: &str = "0123456789";
    proof {
        reveal_strlit("0123456789");
    }
    if n < 10 {
        let start = n as usize;
        let mut text = String::new();
        text.append(all.substring_ascii(start, start + 1));
        assert(text@ =~= seq![digits()[n as int]]);
        text
    } else {
        let start = (n % 10) as usize;
        let mut text = decimal_text(n / 10);
        text.append(all.substring_ascii(start, start + 1));
        assert(text@ =~= decimal((n / 10) as nat).push(digits()[(n % 10) as int]));
        text
    }
}

/// What is to be executed to run `command` as the process of a session on
/// `port`: the shell with the command as its argument, and the port in
/// the environment variable `PORT`. `windows` says which of the two kinds
/// of shell the system has.
pub fn launch_plan(command: &str, port: u16, windows: bool) -> (launch: Launch)
    ensures
        launch.program@ == shell_program(windows),
        launch.arguments@.len() == 2,
        launch.arguments@[0]@ == shell_arguments(command@, windows)[0],
        launch.arguments@[1]@ == shell_arguments(command@, windows)[1],
        launch.variable@ == port_variable(),
        launch.value@ == decimal(port as nat),
{
    let mut arguments: Vec<String> = Vec::new();
    let program = if windows {
        arguments.push("/C".to_owned());
        "cmd".to_owned()
    } else {
        arguments.push("-c".to_owned());
        "sh".to_owned()
    };
    arguments.push(command.to_owned());
    Launch { program, arguments, variable: "PORT".to_owned(), value: decimal_text(port) }
}

} // verus!
