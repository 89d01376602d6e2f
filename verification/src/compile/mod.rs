pub mod sourcemap;
pub mod types;

use vstd::prelude::*;
use crate::ir::{forest_size, script_count, Tree};
use crate::text::{decimal, decimal_of, push_str};

verus! {

/// The counts a build reports: `N instances, M scripts`.
pub fn stats(tree: &Tree) -> (r: String)
    ensures
        r@ == decimal(crate::patch::saturated(forest_size(tree@.children))) + " instances, "@ + decimal(
            crate::patch::saturated(script_count(tree@)),
        ) + " scripts"@,
{
    let mut out = decimal_of(tree.root.descendants());
    push_str(&mut out, " instances, ");
    push_str(&mut out, decimal_of(tree.root.scripts()).as_str());
    push_str(&mut out, " scripts");
    out
}

} // verus!
