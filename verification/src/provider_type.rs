//! Known `type_prestataire` codes found in the dataset.

use vstd::prelude::*;

verus! {

/// Independent freelance developer or designer.
pub const FREELANCE: &'static str = "freelance";

/// Web agency, priced from a published rate card / guide.
pub const AGENCE_GUIDE: &'static str = "agence_guide";

/// SaaS website builder (Wix, Webflow, Shopify, etc.).
pub const BUILDER_SAAS: &'static str = "builder_saas";

} // verus!
