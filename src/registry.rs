//! The decisions of a registry that keeps one planner per craft: at most one
//! build in flight per key, reads only of finished planners.
use vstd::prelude::*;

verus! {

/// Where a key stands in the registry.
#[derive(Clone, Copy, Debug, PartialEq, Eq, Structural)]
pub enum Entry {
    Absent,
    Building,
    Ready,
}

/// What a caller asks of the registry for one key.
#[derive(Clone, Copy, Debug, PartialEq, Eq, Structural)]
pub enum Command {
    /// Reserve the key to build a planner for it.
    Create,
    /// Hand the finished planner over.
    Finish,
    /// Query the planner.
    Read,
    /// Drop the planner.
    Destroy,
}

/// Why the registry turned a command down.
#[derive(Clone, Copy, Debug, PartialEq, Eq, Structural)]
pub enum RegistryError {
    AlreadyExists,
    StillBuilding,
    NotPrepared,
    NotExists,
}

/// The text each refusal is reported with.
pub open spec fn message_of(e: RegistryError) -> Seq<char> {
    match e {
        RegistryError::AlreadyExists => "solver already exists"@,
        RegistryError::StillBuilding => "solver is creating"@,
        RegistryError::NotPrepared => "solver not prepared"@,
        RegistryError::NotExists => "solver not exists"@,
    }
}

impl RegistryError {
    pub fn message(&self) -> (r: &'static str)
        ensures
            r@ == message_of(*self),
    {
        match self {
            RegistryError::AlreadyExists => "solver already exists",
            RegistryError::StillBuilding => "solver is creating",
            RegistryError::NotPrepared => "solver not prepared",
            RegistryError::NotExists => "solver not exists",
        }
    }
}

/// The outcome of `cmd` on a key in state `e`: the answer, and the key's next
/// state.
pub open spec fn step(e: Entry, cmd: Command) -> (Result<(), RegistryError>, Entry) {
    match (cmd, e) {
        (Command::Create, Entry::Absent) => (Ok(()), Entry::Building),
        (Command::Create, Entry::Building) => (Err(RegistryError::StillBuilding), e),
        (Command::Create, Entry::Ready) => (Err(RegistryError::AlreadyExists), e),
        (Command::Finish, Entry::Absent) => (Err(RegistryError::NotExists), e),
        (Command::Finish, _) => (Ok(()), Entry::Ready),
        (Command::Read, Entry::Absent) => (Err(RegistryError::NotExists), e),
        (Command::Read, Entry::Building) => (Err(RegistryError::NotPrepared), e),
        (Command::Read, Entry::Ready) => (Ok(()), e),
        (Command::Destroy, Entry::Absent) => (Err(RegistryError::NotExists), e),
        (Command::Destroy, Entry::Building) => (Err(RegistryError::StillBuilding), e),
        (Command::Destroy, Entry::Ready) => (Ok(()), Entry::Absent),
    }
}

pub fn decide(e: Entry, cmd: Command) -> (r: (Result<(), RegistryError>, Entry))
    ensures
        r == step(e, cmd),
{
    match cmd {
        Command::Create => match e {
            Entry::Absent => (Ok(()), Entry::Building),
            Entry::Building => (Err(RegistryError::StillBuilding), e),
            Entry::Ready => (Err(RegistryError::AlreadyExists), e),
        },
        Command::Finish => match e {
            Entry::Absent => (Err(RegistryError::NotExists), e),
            _ => (Ok(()), Entry::Ready),
        },
        Command::Read => match e {
            Entry::Absent => (Err(RegistryError::NotExists), e),
            Entry::Building => (Err(RegistryError::NotPrepared), e),
            Entry::Ready => (Ok(()), e),
        },
        Command::Destroy => match e {
            Entry::Absent => (Err(RegistryError::NotExists), e),
            Entry::Building => (Err(RegistryError::StillBuilding), e),
            Entry::Ready => (Ok(()), Entry::Absent),
        },
    }
}

/// A refused command leaves the key as it was, and a key being built can be
/// neither built again, read nor dropped until it is finished.
pub proof fn lemma_building_is_exclusive(cmd: Command)
    ensures
        step(Entry::Building, cmd).0 is Err ==> step(Entry::Building, cmd).1 == Entry::Building,
        cmd != Command::Finish ==> step(Entry::Building, cmd).0 is Err,
{
}

} // verus!
