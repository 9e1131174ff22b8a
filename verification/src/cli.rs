//! The choices that the command line's subcommands make before touching the project.

use vstd::prelude::*;

use crate::nickel::strings_view;

verus! {

/// The filter of target names that a list of names gives: none (every target) when the list
/// is empty, else the listed names.
pub open spec fn names_filter(names: Seq<Seq<char>>) -> Option<Seq<Seq<char>>> {
    if names.len() == 0 {
        None
    } else {
        Some(names)
    }
}

/// A copy of a list of strings.
fn copy_strings(v: &Vec<String>) -> (res: Vec<String>)
    ensures
        strings_view(res@) == strings_view(v@),
{
    let mut res: Vec<String> = Vec::new();
    let mut k: usize = 0;
    while k < v.len()
        invariant
            k <= v@.len(),
            strings_view(res@) == strings_view(v@.take(k as int)),
        decreases v@.len() - k,
    {
        let ghost before = res@;
        let item = v[k].clone();
        res.push(item);
        assert(res@ == before.push(item));
        assert(v@.take(k + 1) =~= v@.take(k as int).push(v@[k as int]));
        assert(strings_view(res@) =~= strings_view(before).push(item@));
        assert(strings_view(v@.take(k + 1)) =~= strings_view(v@.take(k as int)).push(v@[k as int]@));
        k = k + 1;
    }
    assert(v@.take(k as int) =~= v@);
    res
}

/// The filter (see `names_filter`) of a list of names.
fn filter_of(names: &Vec<String>) -> (res: Option<Vec<String>>)
    ensures
        match names_filter(strings_view(names@)) {
            Some(f) => res matches Some(v) && strings_view(v@) == f,
            None => res is None,
        },
{
    if names.len() == 0 {
        None
    } else {
        Some(copy_strings(names))
    }
}

/// Checks that generated outputs are up to date.
#[derive(Debug)]
pub struct CheckCommand {
    /// Targets to check; every target when empty.
    pub targets: Vec<String>,
}

impl CheckCommand {
    /// The targets to check: every target when none is named.
    pub fn targets_filter(&self) -> (res: Option<Vec<String>>)
        ensures
            match names_filter(strings_view(self.targets@)) {
                Some(f) => res matches Some(v) && strings_view(v@) == f,
                None => res is None,
            },
    {
        filter_of(&self.targets)
    }
}

/// Generates outputs.
#[derive(Debug)]
pub struct GenerateCommand {
    /// Show what would be generated instead of writing it.
    pub preview: bool,
    /// Targets to generate; every target when empty.
    pub targets: Vec<String>,
}

impl GenerateCommand {
    /// The targets to generate: every target when none is named.
    pub fn targets_filter(&self) -> (res: Option<Vec<String>>)
        ensures
            match names_filter(strings_view(self.targets@)) {
                Some(f) => res matches Some(v) && strings_view(v@) == f,
                None => res is None,
            },
    {
        filter_of(&self.targets)
    }
}

/// Evaluates and shows one target, or one field of it.
#[derive(Debug)]
pub struct DebugCommand {
    /// The target to evaluate.
    pub target: String,
    /// The field to evaluate; the whole target when absent.
    pub field: Option<String>,
}

impl DebugCommand {
    /// The targets to resolve: only the one evaluated.
    pub fn targets_filter(&self) -> (res: Vec<String>)
        ensures
            strings_view(res@) == seq![self.target@],
    {
        let mut v: Vec<String> = Vec::new();
        v.push(self.target.clone());
        assert(strings_view(v@) =~= seq![self.target@]);
        v
    }
}

} // verus!
