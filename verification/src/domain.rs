//! The records a vault holds.
use vstd::prelude::*;
use vstd::std_specs::cmp::PartialEqSpecImpl;

verus! {

/// One entry of a vault.
#[derive(Debug)]
pub enum Record {
    Credentials { domain: String, username: String, password: String },
    Command { name: String, command_line: String },
}

/// What a [`Record`] stands for: the same two variants over character
/// sequences.
pub enum Entry {
    Credentials { domain: Seq<char>, username: Seq<char>, password: Seq<char> },
    Command { name: Seq<char>, command_line: Seq<char> },
}

impl Entry {
    /// The name an entry is stored and found under: the domain of
    /// credentials, the name of a command.
    pub open spec fn name(self) -> Seq<char> {
        match self {
            Entry::Credentials { domain, .. } => domain,
            Entry::Command { name, .. } => name,
        }
    }

    /// Both entries are credentials, or both are commands.
    pub open spec fn same_kind(self, other: Entry) -> bool {
        (self is Credentials) == (other is Credentials)
    }

    /// Two entries compete for one slot of a vault: same kind, same name.
    pub open spec fn collides_with(self, other: Entry) -> bool {
        self.same_kind(other) && self.name() == other.name()
    }
}

impl View for Record {
    type V = Entry;

    open spec fn view(&self) -> Entry {
        match *self {
            Record::Credentials { domain, username, password } => Entry::Credentials {
                domain: domain@,
                username: username@,
                password: password@,
            },
            Record::Command { name, command_line } => Entry::Command {
                name: name@,
                command_line: command_line@,
            },
        }
    }
}

impl DeepView for Record {
    type V = Entry;

    open spec fn deep_view(&self) -> Entry {
        self@
    }
}

impl Clone for Record {
    fn clone(&self) -> (copy: Record)
        ensures
            copy@ == self@,
    {
        match self {
            Record::Credentials { domain, username, password } => Record::Credentials {
                domain: domain.clone(),
                username: username.clone(),
                password: password.clone(),
            },
            Record::Command { name, command_line } => Record::Command {
                name: name.clone(),
                command_line: command_line.clone(),
            },
        }
    }
}

impl PartialEq for Record {
    fn eq(&self, other: &Record) -> (equal: bool) {
        match (self, other) {
            (
                Record::Credentials { domain, username, password },
                Record::Credentials {
                    domain: other_domain,
                    username: other_username,
                    password: other_password,
                },
            ) => *domain == *other_domain && *username == *other_username && *password
                == *other_password,
            (
                Record::Command { name, command_line },
                Record::Command { name: other_name, command_line: other_command_line },
            ) => *name == *other_name && *command_line == *other_command_line,
            _ => false,
        }
    }
}

impl PartialEqSpecImpl for Record {
    open spec fn obeys_eq_spec() -> bool {
        true
    }

    open spec fn eq_spec(&self, other: &Record) -> bool {
        self@ == other@
    }
}

impl Record {
    /// The name the record is stored and found under.
    pub fn get_name(&self) -> (name: String)
        ensures
            name@ == self@.name(),
    {
        match self {
            Record::Credentials { domain, .. } => domain.clone(),
            Record::Command { name, .. } => name.clone(),
        }
    }

    /// Whether both records are of one kind.
    pub fn is_same_case(&self, other: &Record) -> (same: bool)
        ensures
            same == self@.same_kind(other@),
    {
        match (self, other) {
            (Record::Credentials { .. }, Record::Credentials { .. }) => true,
            (Record::Command { .. }, Record::Command { .. }) => true,
            _ => false,
        }
    }

    /// Whether the record holds credentials.
    pub fn is_credentials(&self) -> (yes: bool)
        ensures
            yes == (self@ is Credentials),
    {
        match self {
            Record::Credentials { .. } => true,
            _ => false,
        }
    }
}

/// Pushing a record onto a vector pushes its entry onto what the vector
/// stands for.
pub proof fn lemma_deep_view_push(before: Vec<Record>, after: Vec<Record>, last: Record)
    requires
        after@ == before@.push(last),
    ensures
        after.deep_view() == before.deep_view().push(last@),
{
    assert(after.deep_view() =~= before.deep_view().push(last@));
}

} // verus!
