//! Material records.

use vstd::prelude::*;

verus! {

/// The lighting-model tag of a material: the override that the source
/// supplies, or the standard tag `Pbr` where it supplies none.
pub open spec fn lighting_model_of(model: Option<String>) -> Seq<char> {
    match model {
        Some(tag) => tag@,
        None => "Pbr"@,
    }
}

/// Chooses the lighting-model tag of a material.
pub fn lighting_model(model: Option<String>) -> (tag: String)
    ensures
        tag@ == lighting_model_of(model),
{
    match model {
        Some(tag) => tag,
        None => "Pbr".to_owned(),
    }
}

} // verus!
