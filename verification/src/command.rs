//! What can be asked for on the command line.
use vstd::prelude::*;
use crate::seqs::{opt_view, views};

verus! {

/// What `claim` is given.
#[derive(Debug, PartialEq, Eq)]
pub struct ClaimCommand {
    /// `[RESOURCE] TIMEOUT [COMMENT]...`.
    pub args: Vec<String>,
    /// A timeout that is shown but does not remove the claim.
    pub soft_timeout: Option<String>,
    pub exclusive: bool,
    pub shared: bool,
    /// Claim even where the board is in use or cannot be enforced.
    pub force: bool,
}

#[verifier::ext_equal]
pub struct ClaimCommandModel {
    pub args: Seq<Seq<char>>,
    pub soft_timeout: Option<Seq<char>>,
    pub exclusive: bool,
    pub shared: bool,
    pub force: bool,
}

impl View for ClaimCommand {
    type V = ClaimCommandModel;

    open spec fn view(&self) -> ClaimCommandModel {
        ClaimCommandModel {
            args: views(self.args@),
            soft_timeout: opt_view(self.soft_timeout),
            exclusive: self.exclusive,
            shared: self.shared,
            force: self.force,
        }
    }
}

/// A command, with the arguments that decide something.
#[allow(inconsistent_fields)]
#[derive(Debug, PartialEq, Eq)]
pub enum Commands {
    Status { verbose: bool },
    Claim { claim: ClaimCommand },
    Release { resources: Vec<String> },
    List,
    Discover { write: bool },
    Check { resources: String },
    Hog { users: Vec<String>, force: bool },
    Post { message: Vec<String> },
    Users,
    Disable,
    Enable,
    Maintenance,
}

/// The commands that change the host or its state.
pub open spec fn changes_the_host(command: Commands) -> bool {
    match command {
        Commands::Claim { .. } => true,
        Commands::Release { .. } => true,
        Commands::Hog { .. } => true,
        Commands::Disable => true,
        Commands::Enable => true,
        Commands::Maintenance => true,
        Commands::Discover { write } => write,
        Commands::Status { .. } => false,
        Commands::List => false,
        Commands::Post { .. } => false,
        Commands::Users => false,
        Commands::Check { .. } => false,
    }
}

/// Commands that change the host are refused up front without root, instead of failing at the
/// very end after half their work.
pub fn needs_root(command: &Commands) -> (yes: bool)
    ensures
        yes == changes_the_host(*command),
{
    match command {
        Commands::Claim { .. }
        | Commands::Release { .. }
        | Commands::Hog { .. }
        | Commands::Disable
        | Commands::Enable
        | Commands::Maintenance => true,
        Commands::Discover { write } => *write,
        Commands::Status { .. }
        | Commands::List
        | Commands::Post { .. }
        | Commands::Users
        | Commands::Check { .. } => false,
    }
}

pub open spec fn root_message(prog: Seq<char>, command: Seq<char>) -> Seq<char> {
    "`"@ + prog + " "@ + command + "` changes the host, so it must run as root: sudo "@ + prog
        + " "@ + command + " ..."@
}

/// What is said when `command` is refused for want of root.
pub fn root_refusal(prog: &str, command: &str) -> (out: String)
    ensures
        out@ == root_message(prog@, command@),
{
    let mut out = "`".to_string();
    out.append(prog);
    out.append(" ");
    out.append(command);
    out.append("` changes the host, so it must run as root: sudo ");
    out.append(prog);
    out.append(" ");
    out.append(command);
    out.append(" ...");
    out
}

} // verus!
