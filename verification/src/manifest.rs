//! The template manifest, `Inherit.toml`.

use vstd::prelude::*;
use crate::vars::Variables;

verus! {

/// What `Inherit.toml` declares.
#[derive(Debug)]
pub struct Manifest {
    pub template: TemplateInfo,
    /// Declared variables: name -> description shown to the user.
    pub variables: Variables,
    pub hooks: Hooks,
}

/// The `[template]` table.
#[derive(Debug)]
pub struct TemplateInfo {
    pub name: Option<String>,
    pub description: Option<String>,
}

/// The `[hooks]` table.
#[derive(Debug)]
pub struct Hooks {
    /// Commands run in the generated project, in order.
    pub post_create: Vec<String>,
}

impl Default for TemplateInfo {
    fn default() -> (r: Self)
        ensures
            r.name is None,
            r.description is None,
    {
        TemplateInfo { name: None, description: None }
    }
}

impl Default for Hooks {
    fn default() -> (r: Self)
        ensures
            r.post_create@.len() == 0,
    {
        Hooks { post_create: Vec::new() }
    }
}

impl Default for Manifest {
    fn default() -> (r: Self)
        ensures
            r.template.name is None,
            r.template.description is None,
            r.variables@ == Map::<Seq<char>, Seq<char>>::empty(),
            r.hooks.post_create@.len() == 0,
    {
        Manifest { template: TemplateInfo::default(), variables: Variables::new(), hooks: Hooks::default() }
    }
}

} // verus!
