//! What a front end says to the service that hands out DPUs.

use vstd::prelude::*;

verus! {

#[derive(Clone, Copy, Debug, PartialEq, Eq, Structural)]
pub enum Command {
    Register,
    Unregister,
    Configuration,
    Allocate,
    Free,
}

/// A request that is answered with a `Response`.
pub trait Request<Response> {
    /// The command that the request stands for.
    spec fn names(&self) -> Command;

    fn command(&self) -> (command: Command)
        ensures
            command == self.names(),
    ;
}

#[derive(Clone, Copy, Debug, PartialEq, Eq, Structural)]
pub struct RegisterRequest;

#[derive(Clone, Copy, Debug, PartialEq, Eq, Structural)]
pub struct RegisterResponse(pub u32);

impl Request<RegisterResponse> for RegisterRequest {
    open spec fn names(&self) -> Command {
        Command::Register
    }

    fn command(&self) -> (command: Command) {
        Command::Register
    }
}

} // verus!
