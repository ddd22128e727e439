//! Known `categorie_prestation` codes found in the dataset.

use vstd::prelude::*;

verus! {

/// Showcase / brochure website (`vitrine`).
pub const VITRINE: &'static str = "vitrine";

/// Online store (`ecommerce`).
pub const ECOMMERCE: &'static str = "ecommerce";

/// Blog / editorial website (`blog`).
pub const BLOG: &'static str = "blog";

/// Redesign of an existing website (`refonte`).
pub const REFONTE: &'static str = "refonte";

/// Recurring monthly SEO service (`seo_mensuel`).
pub const SEO_MENSUEL: &'static str = "seo_mensuel";

/// Fully custom / bespoke development (`sur_mesure`).
pub const SUR_MESURE: &'static str = "sur_mesure";

} // verus!
