//! Material-constrained start times.

use vstd::prelude::*;

verus! {

/// The start of an operation that needs both its machine and its material: the
/// later of the two availability times.
pub fn calculate_material_constrained_start(base_start_ms: i64, material_available_ms: i64) -> (s: i64)
    ensures
        s == if base_start_ms >= material_available_ms { base_start_ms } else { material_available_ms },
{
    if base_start_ms >= material_available_ms { base_start_ms } else { material_available_ms }
}

/// The constrained start waits for both resources, and is one of them.
pub proof fn law_constrained_start_waits_for_both(base: i64, material: i64, s: i64)
    requires
        s == if base >= material { base } else { material },
    ensures
        s >= base,
        s >= material,
        s == base || s == material,
{
}

} // verus!
