//! `/exit`: interactive front-ends quit.

use vstd::prelude::*;

use crate::commands;
use crate::commands::SlashResult;

verus! {

pub const SUMMARY: &'static str = "quit kloop";

/// Asks interactive front-ends to quit.
pub fn run() -> (r: SlashResult)
    ensures
        r@ == (commands::SlashView { quit: true, ..commands::shows("bye"@) }),
{
    SlashResult::quit("bye".to_owned())
}

} // verus!
