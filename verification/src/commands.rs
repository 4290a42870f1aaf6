//! What the commands on preimage files do, step by step.

use vstd::prelude::*;

verus! {

/// The orders that were asked for.
#[derive(Clone, Copy, Debug, PartialEq, Eq)]
pub struct OrderArgs {
    pub plain: bool,
    pub eip7748: bool,
}

/// An order of listing the state.
#[derive(Clone, Copy, Debug, PartialEq, Eq)]
pub enum Order {
    /// By address and slot.
    Plain,
    /// By the digests of address and slot.
    Eip7748,
}

/// One step of a command.
#[derive(Clone, Copy, Debug, PartialEq, Eq)]
pub enum Action {
    /// Tell this.
    Announce(&'static str),
    /// Read the tables and bring the addresses and slots into the order of their digests, with a
    /// progress display over plain addresses.
    OrderByHash,
    /// Write the preimage file from a listing in this order, with a progress display over plain
    /// addresses, or over hashed ones.
    Generate { order: Order, hashed_progress: bool },
    /// Hold the preimage file against a listing in this order, with a progress display over plain
    /// addresses, or over hashed ones.
    Verify { order: Order, hashed_progress: bool },
}

/// The steps of writing a preimage file. Plain order wins where both orders were asked for; with
/// none there is nothing to do but complain.
pub fn generate_cmd(order: OrderArgs) -> (steps: Result<Vec<Action>, &'static str>)
    ensures
        if order.plain {
            &&& steps matches Ok(steps)
            &&& steps@ == seq![
                Action::Announce("[1/1] Generating preimage file..."),
                Action::Generate { order: Order::Plain, hashed_progress: false },
            ]
        } else if order.eip7748 {
            &&& steps matches Ok(steps)
            &&& steps@ == seq![
                Action::Announce("[1/2] Ordering account addresses by hash..."),
                Action::OrderByHash,
                Action::Announce("[2/2] Generating preimage file..."),
                Action::Generate { order: Order::Eip7748, hashed_progress: true },
            ]
        } else {
            steps matches Err(message) && message == "No ordering specified"
        },
{
    if order.plain {
        let steps: Vec<Action> = vec![
            Action::Announce("[1/1] Generating preimage file..."),
            Action::Generate { order: Order::Plain, hashed_progress: false },
        ];
        Ok(steps)
    } else if order.eip7748 {
        let steps: Vec<Action> = vec![
            Action::Announce("[1/2] Ordering account addresses by hash..."),
            Action::OrderByHash,
            Action::Announce("[2/2] Generating preimage file..."),
            Action::Generate { order: Order::Eip7748, hashed_progress: true },
        ];
        Ok(steps)
    } else {
        Err("No ordering specified")
    }
}

/// The steps of holding a preimage file against the state. Plain order wins where both orders
/// were asked for; with none there is nothing to do but complain.
pub fn verify_cmd(order: OrderArgs) -> (steps: Result<Vec<Action>, &'static str>)
    ensures
        if order.plain {
            &&& steps matches Ok(steps)
            &&& steps@ == seq![
                Action::Announce("[1/2] Verifying provided preimage file..."),
                Action::Verify { order: Order::Plain, hashed_progress: false },
                Action::Announce("[2/2] The preimage file is valid!"),
            ]
        } else if order.eip7748 {
            &&& steps matches Ok(steps)
            &&& steps@ == seq![
                Action::Announce("[1/3] Ordering account addresses by hash..."),
                Action::OrderByHash,
                Action::Announce("[2/3] Verifying provided preimage file..."),
                Action::Verify { order: Order::Eip7748, hashed_progress: true },
                Action::Announce("[3/3] The preimage file is valid!"),
            ]
        } else {
            steps matches Err(message) && message == "No ordering specified"
        },
{
    if order.plain {
        let steps: Vec<Action> = vec![
            Action::Announce("[1/2] Verifying provided preimage file..."),
            Action::Verify { order: Order::Plain, hashed_progress: false },
            Action::Announce("[2/2] The preimage file is valid!"),
        ];
        Ok(steps)
    } else if order.eip7748 {
        let steps: Vec<Action> = vec![
            Action::Announce("[1/3] Ordering account addresses by hash..."),
            Action::OrderByHash,
            Action::Announce("[2/3] Verifying provided preimage file..."),
            Action::Verify { order: Order::Eip7748, hashed_progress: true },
            Action::Announce("[3/3] The preimage file is valid!"),
        ];
        Ok(steps)
    } else {
        Err("No ordering specified")
    }
}

} // verus!
