//! The command line of the administration tool, and what it prints.

use vstd::prelude::*;
use crate::server::admin_service::StatusResponse;
use crate::server::args::{arg_after, get_arg, given, texts};
use crate::server::http::{lossy_text, to_text};
use crate::text::{decimal, decimal_text, joined, law_number_round_trip, number_of, parse_u64};
use crate::words::same;

verus! {

/// What the tool is asked to do.
#[derive(Debug, PartialEq, Eq)]
pub enum AdminCommand {
    Put { key: String, value: String },
    Get { key: String },
    Delete { key: String },
    Status,
    Transfer { target: u64 },
}

/// Why a command line is not understood.
#[derive(Debug, PartialEq, Eq)]
pub enum CommandError {
    /// There is no command, or an unknown one.
    Usage,
    /// An argument is missing; the message says how the command is used.
    Missing(String),
    /// The target of a transfer is not a number.
    NotANumber,
}

/// A command is what a command line says, or the error is what it lacks.
pub open spec fn understood(args: Seq<Seq<char>>, r: Result<AdminCommand, CommandError>) -> bool {
    if args.len() < 2 {
        r matches Err(CommandError::Usage)
    } else if args[1] == "put"@ {
        if args.len() < 4 {
            r matches Err(CommandError::Missing(m)) && m@
                == "Usage: raft-admin put <key> <value>"@
        } else {
            r matches Ok(AdminCommand::Put { key, value }) && key@ == args[2] && value@ == args[3]
        }
    } else if args[1] == "get"@ {
        if args.len() < 3 {
            r matches Err(CommandError::Missing(m)) && m@ == "Usage: raft-admin get <key>"@
        } else {
            r matches Ok(AdminCommand::Get { key }) && key@ == args[2]
        }
    } else if args[1] == "delete"@ {
        if args.len() < 3 {
            r matches Err(CommandError::Missing(m)) && m@ == "Usage: raft-admin delete <key>"@
        } else {
            r matches Ok(AdminCommand::Delete { key }) && key@ == args[2]
        }
    } else if args[1] == "status"@ {
        r matches Ok(AdminCommand::Status)
    } else if args[1] == "transfer"@ {
        if args.len() < 3 {
            r matches Err(CommandError::Missing(m)) && m@
                == "Usage: raft-admin transfer <target_node_id>"@
        } else {
            match number_of(args[2]) {
                Some(id) => r matches Ok(AdminCommand::Transfer { target }) && target == id,
                None => r matches Err(CommandError::NotANumber),
            }
        }
    } else {
        r matches Err(CommandError::Usage)
    }
}

/// Reads the command of a command line.
pub fn parse_command(args: &Vec<String>) -> (r: Result<AdminCommand, CommandError>)
    ensures
        understood(texts(args@), r),
{
    if args.len() < 2 {
        return Err(CommandError::Usage);
    }
    let command: &str = args[1].as_str();
    if same(command, "put") {
        if args.len() < 4 {
            return Err(CommandError::Missing("Usage: raft-admin put <key> <value>".to_string()));
        }
        Ok(AdminCommand::Put { key: args[2].clone(), value: args[3].clone() })
    } else if same(command, "get") {
        if args.len() < 3 {
            return Err(CommandError::Missing("Usage: raft-admin get <key>".to_string()));
        }
        Ok(AdminCommand::Get { key: args[2].clone() })
    } else if same(command, "delete") {
        if args.len() < 3 {
            return Err(CommandError::Missing("Usage: raft-admin delete <key>".to_string()));
        }
        Ok(AdminCommand::Delete { key: args[2].clone() })
    } else if same(command, "status") {
        Ok(AdminCommand::Status)
    } else if same(command, "transfer") {
        if args.len() < 3 {
            return Err(
                CommandError::Missing("Usage: raft-admin transfer <target_node_id>".to_string()),
            );
        }
        match parse_u64(args[2].as_str()) {
            Some(target) => Ok(AdminCommand::Transfer { target }),
            None => Err(CommandError::NotANumber),
        }
    } else {
        Err(CommandError::Usage)
    }
}

/// The address of the server that a command goes to.
pub fn server_address(args: &Vec<String>) -> (r: String)
    ensures
        r@ == given(arg_after(texts(args@), "--addr"@, 0), "http://127.0.0.1:5001"@),
{
    match get_arg(args, "--addr") {
        Some(address) => address,
        None => "http://127.0.0.1:5001".to_string(),
    }
}

/// What is printed after a write.
pub fn put_line(revision: u64) -> (r: String)
    ensures
        r@ == "OK (revision: "@ + decimal(revision as nat) + ")"@,
{
    joined("OK (revision: ", decimal_text(revision).as_str()).concat(")")
}

/// What is printed of a value that was read.
pub open spec fn found_line(value: Seq<char>, revision: u64) -> Seq<char> {
    value + " (revision: "@ + decimal(revision as nat) + ")"@
}

/// What is printed after a read; a key without a value has revision zero.
pub fn get_line(value: &[u8], revision: u64) -> (r: String)
    ensures
        r@ == if revision == 0 && value@.len() == 0 {
            "(not found)"@
        } else {
            found_line(lossy_text(value@), revision)
        },
{
    if revision == 0 && value.len() == 0 {
        "(not found)".to_string()
    } else {
        value_line(to_text(value).as_str(), revision)
    }
}

/// What is printed of a value that reads as the given text.
pub fn value_line(value: &str, revision: u64) -> (r: String)
    ensures
        r@ == found_line(value@, revision),
{
    joined(value, " (revision: ").concat(decimal_text(revision).as_str()).concat(")")
}

/// What is printed after a deletion.
pub fn delete_line(deleted: bool, revision: u64) -> (r: String)
    ensures
        r@ == if deleted {
            "Deleted (revision: "@ + decimal(revision as nat) + ")"@
        } else {
            "Key not found"@
        },
{
    if deleted {
        joined("Deleted (revision: ", decimal_text(revision).as_str()).concat(")")
    } else {
        "Key not found".to_string()
    }
}

/// What is printed after a transfer was asked for.
pub fn transfer_line(success: bool, target: u64) -> (r: String)
    ensures
        r@ == if success {
            "Leadership transfer initiated to node "@ + decimal(target as nat)
        } else {
            "Transfer failed"@
        },
{
    if success {
        joined("Leadership transfer initiated to node ", decimal_text(target).as_str())
    } else {
        "Transfer failed".to_string()
    }
}

/// What is printed of a node's status.
pub fn status_text(s: &StatusResponse) -> (r: String)
    ensures
        r@ == "Node ID:      "@ + decimal(s.node_id as nat) + "\nRole:         "@ + s.role@
            + "\nTerm:         "@ + decimal(s.term as nat) + "\nLeader:       "@ + (if s.leader_id
            > 0 {
            decimal(s.leader_id as nat)
        } else {
            "none"@
        }) + "\nCommit Index: "@ + decimal(s.commit_index as nat) + "\nApplied:      "@ + decimal(
            s.applied_index as nat,
        ) + "\nCluster Size: "@ + decimal(s.cluster_size as nat),
{
    let leader: String = if s.leader_id > 0 {
        decimal_text(s.leader_id)
    } else {
        "none".to_string()
    };
    joined("Node ID:      ", decimal_text(s.node_id).as_str()).concat("\nRole:         ").concat(
        s.role.as_str(),
    ).concat("\nTerm:         ").concat(decimal_text(s.term).as_str()).concat(
        "\nLeader:       ",
    ).concat(leader.as_str()).concat("\nCommit Index: ").concat(
        decimal_text(s.commit_index).as_str(),
    ).concat("\nApplied:      ").concat(decimal_text(s.applied_index).as_str()).concat(
        "\nCluster Size: ",
    ).concat(decimal_text(s.cluster_size).as_str())
}

/// Each command of the tool takes the words that follow it, in order; a command
/// without the words that it needs, and one that is not known, is refused.
pub proof fn law_words_become_commands(args: Seq<Seq<char>>, r: Result<AdminCommand, CommandError>)
    requires
        understood(args, r),
        args.len() >= 2,
    ensures
        args[1] == "put"@ && args.len() >= 4 ==> (r matches Ok(AdminCommand::Put { key, value })
            && key@ == args[2] && value@ == args[3]),
        args[1] == "get"@ && args.len() >= 3 ==> (r matches Ok(AdminCommand::Get { key }) && key@
            == args[2]),
        args[1] == "delete"@ && args.len() >= 3 ==> (r matches Ok(AdminCommand::Delete { key })
            && key@ == args[2]),
        args[1] == "status"@ ==> r matches Ok(AdminCommand::Status),
        args[1] == "transfer"@ && args.len() >= 3 ==> forall|id: u64|
            args[2] == #[trigger] decimal(id as nat) ==> (r matches Ok(
                AdminCommand::Transfer { target },
            ) && target == id),
        args.len() == 2 && args[1] != "status"@ ==> r is Err,
{
    reveal_strlit("put");
    reveal_strlit("get");
    reveal_strlit("delete");
    reveal_strlit("status");
    reveal_strlit("transfer");
    assert("put"@[0] == 'p' && "get"@[0] == 'g' && "delete"@[0] == 'd' && "status"@[0] == 's'
        && "transfer"@[0] == 't');
    assert forall|id: u64| args.len() >= 3 && args[2] == #[trigger] decimal(id as nat) implies number_of(
        args[2],
    ) == Some(id) by {
        law_number_round_trip(id);
    }
}

} // verus!
