//! Recipes as they stand in the recipe tree.

use crate::monitor::{text_of, upstream_of, RecipeMonitor};
use vstd::prelude::*;

verus! {

/// Where a recipe says its upstream can be watched.
#[derive(Clone, Debug, PartialEq, Eq)]
pub struct Monitoring {
    /// The id of the upstream project at the release monitor.
    pub upstream_id: Option<u32>,
    /// The address of the upstream's feed.
    pub rss_url: Option<String>,
}

/// Source recipe details.
#[derive(Clone, Debug, PartialEq, Eq)]
pub struct Recipe {
    /// Name of the recipe source.
    pub name: String,
    /// Version of the recipe.
    pub version: String,
    /// Monitoring data.
    pub monitoring: Option<Monitoring>,
}

/// The upstream id that a recipe names.
pub open spec fn id_of(monitoring: Option<Monitoring>) -> Option<u32> {
    match monitoring {
        Some(m) => m.upstream_id,
        None => None,
    }
}

/// The feed address that a recipe names.
pub open spec fn feed_of(monitoring: Option<Monitoring>) -> Option<Seq<char>> {
    match monitoring {
        Some(m) => text_of(m.rss_url),
        None => None,
    }
}

impl Recipe {
    /// What the cache needs to know of the recipe: its name, its version,
    /// and where its upstream is looked up.
    pub fn monitor(&self) -> (r: RecipeMonitor)
        ensures
            r@.recipe_name == self.name@,
            r@.current_version == self.version@,
            r@.upstream == upstream_of(id_of(self.monitoring), feed_of(self.monitoring)),
    {
        let (id, url) = match &self.monitoring {
            Some(m) => (
                m.upstream_id,
                match &m.rss_url {
                    Some(u) => Some(u.clone()),
                    None => None,
                },
            ),
            None => (None, None),
        };
        RecipeMonitor::new(self.name.clone(), self.version.clone(), id, url)
    }
}

} // verus!
