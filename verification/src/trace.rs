//! How much detail the observability events carry.

use vstd::prelude::*;

verus! {

/// Bounds on what a dump of one inference holds.
#[derive(Copy, Clone, Debug, PartialEq, Eq, Structural)]
pub struct DebugCfg {
    /// How many of the likeliest tokens to attach.
    pub topk: usize,
    /// Also dump the whole logit row, on fires and while generating.
    pub full_logits: bool,
}

impl Default for DebugCfg {
    fn default() -> (d: Self)
        ensures
            d == (DebugCfg { topk: 64, full_logits: false }),
    {
        DebugCfg { topk: 64, full_logits: false }
    }
}

} // verus!
