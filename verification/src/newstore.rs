use vstd::prelude::*;

verus! {

/// Name under which the storage-API debug command is registered.
pub fn name() -> (r: &'static str)
    ensures
        r@ == "debugnewstore"@,
{
    "debugnewstore"
}

/// One-line description of the storage-API debug command.
pub fn doc() -> (r: &'static str)
    ensures
        r@ == "test newstore storage api"@,
{
    "test newstore storage api"
}

} // verus!
