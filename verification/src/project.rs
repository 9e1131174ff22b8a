//! A project: its configuration, the targets resolved from it, and the building of their
//! outputs from what `nickel export` prints.

use vstd::prelude::*;

use crate::nickel::{
    eval_args, eval_args_spec, export_args, export_args_spec, json_string_record, opt_view,
    parse_string_record, strings_view,
};
use crate::names::{lemma_text_lt_transitive, names_sorted, text_less, text_lt};
use crate::outputs::{
    built_from, first_output_problem, named_outputs_view, output_names, outputs_map, OutputFileView, OutputPathError, ProjectOutputs,
    TargetOutputs, TargetOutputsView,
};
use crate::paths::{join, path_join, path_lt};
use crate::pathset::{groups_union, groups_view, lemma_sorted_unique, paths_sorted, PathSet};

verus! {

/// A glob pattern, relative to the project root.
#[derive(Debug)]
pub struct GlobPattern(pub String);

/// The configuration of one target.
#[derive(Debug)]
pub struct ConfigTarget {
    /// Patterns of the files merged in the evaluation for this target.
    pub inputs: Vec<GlobPattern>,
    /// Patterns of the files left out of `inputs` matches.
    pub inputs_exclude: Vec<GlobPattern>,
    /// The field of the evaluation that holds this target's outputs; empty for the whole
    /// evaluation.
    pub outputs_field: String,
    /// Where this target's outputs go, relative to the project root.
    pub outputs_dir: String,
}

/// A project's configuration.
#[derive(Debug)]
pub struct Config {
    /// Patterns of the files merged in the evaluation of every target.
    pub common_inputs: Vec<GlobPattern>,
    /// Patterns of the files left out of `common_inputs` matches.
    pub common_inputs_exclude: Vec<GlobPattern>,
    /// Patterns of the import directories of every target.
    pub import_dirs: Vec<GlobPattern>,
    /// Patterns of the directories left out of `import_dirs` matches.
    pub import_dirs_exclude: Vec<GlobPattern>,
    /// Patterns of the contracts applied to the whole evaluation of every target.
    pub eval_contracts: Vec<GlobPattern>,
    /// Patterns of the files left out of `eval_contracts` matches.
    pub eval_contracts_exclude: Vec<GlobPattern>,
    /// The targets, by name.
    pub targets: Vec<(String, ConfigTarget)>,
}

/// What some patterns and their exclusions matched: one list of paths per pattern.
#[derive(Debug)]
pub struct GlobMatches {
    pub included: Vec<Vec<String>>,
    pub excluded: Vec<Vec<String>>,
}

/// The paths matched by some included pattern and by no excluded one.
pub open spec fn matched_paths(m: &GlobMatches) -> Set<Seq<char>> {
    groups_union(groups_view(m.included@)).difference(groups_union(groups_view(m.excluded@)))
}

/// What every pattern of a project matched: the common patterns, then, for each selected
/// target in order, its input patterns.
#[derive(Debug)]
pub struct ProjectMatches {
    pub common_inputs: GlobMatches,
    pub import_dirs: GlobMatches,
    pub eval_contracts: GlobMatches,
    pub targets: Vec<GlobMatches>,
}

/// The field named by a configured field name: none when the name is empty.
pub open spec fn field_of(name: Seq<char>) -> Option<Seq<char>> {
    if name.len() == 0 {
        None
    } else {
        Some(name)
    }
}

/// A target ready for evaluation.
#[derive(Debug)]
pub struct ProjectTarget {
    common_inputs: PathSet,
    import_dirs: PathSet,
    eval_contracts: PathSet,
    inputs: PathSet,
    outputs_field: Option<String>,
    outputs_dir: String,
}

/// A target as the specification sees it.
pub struct ProjectTargetView {
    pub common_inputs: Seq<Seq<char>>,
    pub import_dirs: Seq<Seq<char>>,
    pub eval_contracts: Seq<Seq<char>>,
    pub inputs: Seq<Seq<char>>,
    pub outputs_field: Option<Seq<char>>,
    pub outputs_dir: Seq<char>,
}

impl View for ProjectTarget {
    type V = ProjectTargetView;

    closed spec fn view(&self) -> ProjectTargetView {
        ProjectTargetView {
            common_inputs: self.common_inputs@,
            import_dirs: self.import_dirs@,
            eval_contracts: self.eval_contracts@,
            inputs: self.inputs@,
            outputs_field: match self.outputs_field {
                Some(f) => Some(f@),
                None => None,
            },
            outputs_dir: self.outputs_dir@,
        }
    }
}

/// Whether a target is the one resolved under `root` from its configuration, the paths its
/// own patterns matched, and the shared sets of common inputs, import directories and
/// contracts. Path sets are in path order.
pub open spec fn target_resolved(
    t: ProjectTargetView,
    root: Seq<char>,
    common_inputs: Set<Seq<char>>,
    import_dirs: Set<Seq<char>>,
    eval_contracts: Set<Seq<char>>,
    config: &ConfigTarget,
    matches: &GlobMatches,
) -> bool {
    &&& t.common_inputs.to_set() == common_inputs && paths_sorted(t.common_inputs)
    &&& t.import_dirs.to_set() == import_dirs && paths_sorted(t.import_dirs)
    &&& t.eval_contracts.to_set() == eval_contracts && paths_sorted(t.eval_contracts)
    &&& t.inputs.to_set() == matched_paths(matches) && paths_sorted(t.inputs)
    &&& t.outputs_field == field_of(config.outputs_field@)
    &&& t.outputs_dir == path_join(root, config.outputs_dir@)
}

/// The inputs of a target's evaluation: the common inputs, then its own.
pub open spec fn target_inputs(t: ProjectTargetView) -> Seq<Seq<char>> {
    t.common_inputs + t.inputs
}

/// Why building a target's outputs failed.
#[derive(Debug)]
pub enum TargetBuildError {
    /// What `nickel export` printed is not a record of strings.
    Parse(serde_json::Error),
    /// A path of the record cannot name an output.
    OutputPath(OutputPathError),
}

/// Whether `res` is what building a target's outputs from the printed `bytes` gives: a parse
/// failure when they hold no record of strings; else the first output path problem if any;
/// else outputs in the target's outputs directory built from the record's entries.
pub open spec fn target_build_result(
    t: ProjectTargetView,
    bytes: Seq<u8>,
    res: Result<TargetOutputs, TargetBuildError>,
) -> bool {
    match json_string_record(bytes) {
        None => res matches Err(TargetBuildError::Parse(_)),
        Some(raw) => match first_output_problem(raw) {
            Some((path, problem)) => res matches Err(TargetBuildError::OutputPath(e)) && e.path@
                == path && e.problem == problem,
            None => res matches Ok(o) && o@.outputs_dir == t.outputs_dir && built_from(
                o@.files,
                raw,
            ),
        },
    }
}

/// Whether building a target's outputs from the printed `bytes` succeeds.
pub open spec fn target_build_ok(bytes: Seq<u8>) -> bool {
    match json_string_record(bytes) {
        Some(raw) => first_output_problem(raw) is None,
        None => false,
    }
}

impl ProjectTarget {
    /// Resolves a target under the project root: its inputs are the paths its patterns
    /// matched less those its exclusions matched, its outputs field is absent when configured
    /// empty, and its outputs directory is the configured one joined to the root.
    pub fn resolve(
        project_root: &str,
        common_inputs: &PathSet,
        import_dirs: &PathSet,
        eval_contracts: &PathSet,
        config: &ConfigTarget,
        matches: &GlobMatches,
    ) -> (res: ProjectTarget)
        ensures
            res@.common_inputs == common_inputs@,
            res@.import_dirs == import_dirs@,
            res@.eval_contracts == eval_contracts@,
            res@.inputs.to_set() == matched_paths(matches),
            paths_sorted(res@.inputs),
            res@.outputs_field == field_of(config.outputs_field@),
            res@.outputs_dir == path_join(project_root@, config.outputs_dir@),
    {
        let inputs = PathSet::resolve(&matches.included, &matches.excluded);
        let outputs_field = if config.outputs_field.unicode_len() == 0 {
            None
        } else {
            Some(config.outputs_field.clone())
        };
        ProjectTarget {
            common_inputs: common_inputs.duplicate(),
            import_dirs: import_dirs.duplicate(),
            eval_contracts: eval_contracts.duplicate(),
            inputs,
            outputs_field,
            outputs_dir: join(project_root, config.outputs_dir.as_str()),
        }
    }

    /// The outputs directory.
    pub fn outputs_dir(&self) -> (res: &String)
        ensures
            res@ == self@.outputs_dir,
    {
        &self.outputs_dir
    }

    /// The inputs of this target's evaluation: the common inputs, then its own.
    pub fn eval_inputs(&self) -> (res: Vec<String>)
        ensures
            strings_view(res@) == target_inputs(self@),
    {
        let mut res = self.common_inputs.to_vec();
        let mut own = self.inputs.to_vec();
        let ghost a = res@;
        let ghost b = own@;
        res.append(&mut own);
        assert(strings_view(res@) =~= strings_view(a) + strings_view(b));
        res
    }

    /// The `nickel eval` arguments that check this target's evaluation against the contracts
    /// before its outputs are exported; none when there are no contracts.
    pub fn eval_args(&self) -> (res: Option<Vec<String>>)
        ensures
            self@.eval_contracts.len() == 0 ==> res is None,
            self@.eval_contracts.len() > 0 ==> (res matches Some(a) && strings_view(a@)
                == eval_args_spec(
                self@.import_dirs,
                target_inputs(self@),
                self@.eval_contracts,
                None,
            )),
    {
        if self.eval_contracts.is_empty() {
            None
        } else {
            let inputs = self.eval_inputs();
            Some(eval_args(&self.import_dirs, &inputs, &self.eval_contracts, None))
        }
    }

    /// The `nickel export` arguments that print this target's outputs.
    pub fn export_args(&self) -> (res: Vec<String>)
        ensures
            strings_view(res@) == export_args_spec(
                self@.import_dirs,
                target_inputs(self@),
                self@.outputs_field,
            ),
    {
        let inputs = self.eval_inputs();
        match &self.outputs_field {
            Some(f) => export_args(&self.import_dirs, &inputs, Some(f.as_str())),
            None => export_args(&self.import_dirs, &inputs, None),
        }
    }

    /// The `nickel eval` arguments that show this target's evaluation, or one field of it.
    pub fn debug_eval_args(&self, field: Option<&str>) -> (res: Vec<String>)
        ensures
            strings_view(res@) == eval_args_spec(
                self@.import_dirs,
                target_inputs(self@),
                Seq::<Seq<char>>::empty(),
                opt_view(field),
            ),
    {
        let inputs = self.eval_inputs();
        let none = PathSet::new();
        eval_args(&self.import_dirs, &inputs, &none, field)
    }

    /// Builds this target's outputs from what `nickel export` printed (see
    /// `target_build_result`).
    pub fn build_outputs(&self, exported: &[u8]) -> (res: Result<TargetOutputs, TargetBuildError>)
        ensures
            target_build_result(self@, exported@, res),
    {
        match parse_string_record(exported) {
            Err(e) => Err(TargetBuildError::Parse(e)),
            Ok(entries) => match TargetOutputs::build(self.outputs_dir.clone(), entries) {
                Ok(o) => Ok(o),
                Err(e) => Err(TargetBuildError::OutputPath(e)),
            },
        }
    }
}

/// Which run of `nickel` for a target ended.
#[derive(Debug, Clone, Copy, PartialEq, Eq, Structural)]
pub enum RunKind {
    /// The check of the evaluation against the contracts (`nickel eval`).
    Eval,
    /// The export of the outputs (`nickel export`).
    Export,
}

/// What to do next for a target: run `nickel eval` or `nickel export` with these arguments,
/// or stop with what the export printed or the failure that ended the runs.
#[derive(Debug)]
pub enum RunStep<E> {
    Eval(Vec<String>),
    Export(Vec<String>),
    Done(Result<Vec<u8>, E>),
}

impl ProjectTarget {
    /// The step after the last run of `nickel` for this target and its result (`None` before
    /// the first run). With contracts, their check runs first, and when it fails the runs end
    /// with its failure and nothing is exported; once it passed, or at once without contracts,
    /// the export runs, and its result ends the runs.
    pub fn next_step<E>(&self, last: Option<(RunKind, Result<Vec<u8>, E>)>) -> (res: RunStep<E>)
        ensures
            match last {
                None => if self@.eval_contracts.len() > 0 {
                    res matches RunStep::Eval(a) && strings_view(a@) == eval_args_spec(
                        self@.import_dirs,
                        target_inputs(self@),
                        self@.eval_contracts,
                        None,
                    )
                } else {
                    res matches RunStep::Export(a) && strings_view(a@) == export_args_spec(
                        self@.import_dirs,
                        target_inputs(self@),
                        self@.outputs_field,
                    )
                },
                Some((RunKind::Eval, Ok(_))) => res matches RunStep::Export(a) && strings_view(a@)
                    == export_args_spec(self@.import_dirs, target_inputs(self@), self@.outputs_field),
                Some((RunKind::Eval, Err(e))) => res == RunStep::<E>::Done(Err(e)),
                Some((RunKind::Export, r)) => res == RunStep::<E>::Done(r),
            },
    {
        match last {
            None => match self.eval_args() {
                Some(a) => RunStep::Eval(a),
                None => RunStep::Export(self.export_args()),
            },
            Some((RunKind::Eval, Ok(_))) => RunStep::Export(self.export_args()),
            Some((RunKind::Eval, Err(e))) => RunStep::Done(Err(e)),
            Some((RunKind::Export, r)) => RunStep::Done(r),
        }
    }
}

/// Whether a target is kept by a filter of target names; no filter keeps every target.
pub open spec fn target_selected(filter: Option<Seq<Seq<char>>>, name: Seq<char>) -> bool {
    match filter {
        Some(names) => names.contains(name),
        None => true,
    }
}

/// Positions of the names that a filter keeps, in order.
pub open spec fn selected_indices(names: Seq<Seq<char>>, filter: Option<Seq<Seq<char>>>) -> Seq<int>
    decreases names.len(),
{
    if names.len() == 0 {
        seq![]
    } else {
        let rest = selected_indices(names.drop_last(), filter);
        if target_selected(filter, names.last()) {
            rest.push(names.len() - 1)
        } else {
            rest
        }
    }
}

/// The names of configured targets.
pub open spec fn config_names(targets: Seq<(String, ConfigTarget)>) -> Seq<Seq<char>> {
    targets.map_values(|e: (String, ConfigTarget)| e.0@)
}

/// The view of an optional list of names.
pub open spec fn filter_view(filter: Option<&Vec<String>>) -> Option<Seq<Seq<char>>> {
    match filter {
        Some(v) => Some(strings_view(v@)),
        None => None,
    }
}

impl Config {
    /// Whether the targets are in text order of their names, each name once, as a table of
    /// targets keyed by name gives them.
    pub fn targets_in_order(&self) -> (res: bool)
        ensures
            res == names_sorted(config_names(self.targets@)),
    {
        let ghost names = config_names(self.targets@);
        let mut k: usize = 1;
        while k < self.targets.len()
            invariant
                names == config_names(self.targets@),
                1 <= k,
                forall|a: int, b: int| 0 <= a < b < k && b < names.len() ==> text_lt(#[trigger] names[a], #[trigger] names[b]),
            decreases self.targets@.len() - k,
        {
            assert(names[k - 1] == self.targets@[k - 1].0@);
            assert(names[k as int] == self.targets@[k as int].0@);
            if !text_less(self.targets[k - 1].0.as_str(), self.targets[k].0.as_str()) {
                return false;
            }
            assert forall|a: int, b: int| 0 <= a < b < k + 1 && b < names.len() implies text_lt(
                #[trigger] names[a],
                #[trigger] names[b],
            ) by {
                if b == k && a < k - 1 {
                    lemma_text_lt_transitive(names[a], names[k - 1], names[b]);
                }
            }
            k = k + 1;
        }
        true
    }

    /// Positions, in `targets`, of the targets that a filter of names keeps, in order; no
    /// filter keeps every target.
    pub fn selected_targets(&self, targets_filter: Option<&Vec<String>>) -> (res: Vec<usize>)
        ensures
            res@.map_values(|i: usize| i as int) == selected_indices(
                config_names(self.targets@),
                filter_view(targets_filter),
            ),
    {
        let ghost names = config_names(self.targets@);
        let ghost fv = filter_view(targets_filter);
        let mut res: Vec<usize> = Vec::new();
        let mut k: usize = 0;
        assert(names.take(0) =~= Seq::<Seq<char>>::empty());
        while k < self.targets.len()
            invariant
                names == config_names(self.targets@),
                fv == filter_view(targets_filter),
                k <= self.targets@.len(),
                res@.map_values(|i: usize| i as int) == selected_indices(names.take(k as int), fv),
            decreases self.targets@.len() - k,
        {
            assert(names.take(k + 1).drop_last() =~= names.take(k as int));
            assert(names.take(k + 1).last() == self.targets@[k as int].0@);
            let name = &self.targets[k].0;
            let keep = match targets_filter {
                None => true,
                Some(f) => contains_string(f, name),
            };
            if keep {
                let ghost before = res@;
                res.push(k);
                assert(res@.map_values(|i: usize| i as int) =~= before.map_values(|i: usize| i as int).push(k as int));
            }
            k = k + 1;
        }
        assert(names.take(k as int) =~= names);
        res
    }
}

/// Whether a list of strings holds a string.
pub fn contains_string(v: &Vec<String>, s: &String) -> (res: bool)
    ensures
        res == strings_view(v@).contains(s@),
{
    let mut i: usize = 0;
    while i < v.len()
        invariant
            i <= v@.len(),
            forall|j: int| 0 <= j < i ==> v@[j]@ != s@,
        decreases v@.len() - i,
    {
        if v[i] == *s {
            assert(strings_view(v@)[i as int] == s@);
            return true;
        }
        i = i + 1;
    }
    proof {
        if strings_view(v@).contains(s@) {
            let j = choose|j: int| 0 <= j < v@.len() && strings_view(v@)[j] == s@;
            assert(v@[j]@ == s@);
        }
    }
    false
}

/// Texts joined by a separator.
pub open spec fn seq_join(items: Seq<Seq<char>>, sep: Seq<char>) -> Seq<char>
    decreases items.len(),
{
    if items.len() == 0 {
        seq![]
    } else if items.len() == 1 {
        items[0]
    } else {
        seq_join(items.drop_last(), sep) + sep + items.last()
    }
}

/// Joins texts by a separator (see `seq_join`).
pub fn join_strings(items: &Vec<String>, sep: &str) -> (res: String)
    ensures
        res@ == seq_join(strings_view(items@), sep@),
{
    let ghost iv = strings_view(items@);
    let mut res = String::new();
    let mut k: usize = 0;
    assert(iv.take(0) =~= Seq::<Seq<char>>::empty());
    while k < items.len()
        invariant
            iv == strings_view(items@),
            k <= items@.len(),
            res@ == seq_join(iv.take(k as int), sep@),
        decreases items@.len() - k,
    {
        if k > 0 {
            res.append(sep);
        }
        res.append(items[k].as_str());
        proof {
            assert(iv.take(k + 1).drop_last() =~= iv.take(k as int));
            if k == 0 {
                assert(res@ =~= seq_join(iv.take(1), sep@));
            } else {
                assert(res@ =~= seq_join(iv.take(k + 1), sep@));
            }
        }
        k = k + 1;
    }
    assert(iv.take(k as int) =~= iv);
    res
}

/// A project: its import directories and its targets, by name, in configuration order.
#[derive(Debug)]
pub struct Project {
    import_dirs: PathSet,
    targets: Vec<(String, ProjectTarget)>,
}

/// A project as the specification sees it.
pub struct ProjectView {
    pub import_dirs: Seq<Seq<char>>,
    pub targets: Seq<(Seq<char>, ProjectTargetView)>,
}

/// Views of named targets.
pub open spec fn named_targets_view(v: Seq<(String, ProjectTarget)>) -> Seq<(Seq<char>, ProjectTargetView)> {
    v.map_values(|e: (String, ProjectTarget)| (e.0@, e.1@))
}

impl View for Project {
    type V = ProjectView;

    closed spec fn view(&self) -> ProjectView {
        ProjectView { import_dirs: self.import_dirs@, targets: named_targets_view(self.targets@) }
    }
}

/// Whether a project is the one resolved under `root` from a configuration, a filter of target
/// names and what the patterns matched.
pub open spec fn project_resolved(
    p: ProjectView,
    root: Seq<char>,
    config: &Config,
    targets_filter: Option<Seq<Seq<char>>>,
    matches: &ProjectMatches,
) -> bool {
    let selected = selected_indices(config_names(config.targets@), targets_filter);
    &&& p.import_dirs.to_set() == matched_paths(&matches.import_dirs)
    &&& paths_sorted(p.import_dirs)
    &&& p.targets.len() == selected.len()
    &&& forall|k: int|
        0 <= k < selected.len() ==> {
            &&& #[trigger] p.targets[k].0 == config.targets@[selected[k]].0@
            &&& target_resolved(
                p.targets[k].1,
                root,
                matched_paths(&matches.common_inputs),
                matched_paths(&matches.import_dirs),
                matched_paths(&matches.eval_contracts),
                &config.targets@[selected[k]].1,
                &matches.targets@[k],
            )
        }
}

/// Facts about the positions a filter keeps.
pub proof fn lemma_selected_indices(names: Seq<Seq<char>>, filter: Option<Seq<Seq<char>>>)
    ensures
        forall|k: int|
            0 <= k < selected_indices(names, filter).len() ==> 0 <= #[trigger] selected_indices(
                names,
                filter,
            )[k] < names.len(),
    decreases names.len(),
{
    if names.len() > 0 {
        lemma_selected_indices(names.drop_last(), filter);
        let rest = selected_indices(names.drop_last(), filter);
        assert forall|k: int| 0 <= k < selected_indices(names, filter).len() implies 0
            <= #[trigger] selected_indices(names, filter)[k] < names.len() by {
            if k < rest.len() {
                assert(selected_indices(names, filter)[k] == rest[k]);
            }
        }
    }
}

impl Project {
    /// Targets are kept by name, in text order, each name once.
    #[verifier::type_invariant]
    spec fn inv(&self) -> bool {
        names_sorted(target_names(named_targets_view(self.targets@)))
    }

    /// Resolves a project under its root from its configuration, an optional filter of target
    /// names, and what each pattern matched (the common patterns, then those of each kept
    /// target, in order): the common inputs, import directories and contracts are the paths
    /// their patterns matched less those their exclusions matched, shared by every kept target.
    pub fn resolve(
        project_root: &str,
        config: &Config,
        targets_filter: Option<&Vec<String>>,
        matches: &ProjectMatches,
    ) -> (res: Project)
        requires
            names_sorted(config_names(config.targets@)),
            matches.targets@.len() == selected_indices(
                config_names(config.targets@),
                filter_view(targets_filter),
            ).len(),
        ensures
            project_resolved(res@, project_root@, config, filter_view(targets_filter), matches),
    {
        let common_inputs = PathSet::resolve(&matches.common_inputs.included, &matches.common_inputs.excluded);
        let import_dirs = PathSet::resolve(&matches.import_dirs.included, &matches.import_dirs.excluded);
        let eval_contracts = PathSet::resolve(&matches.eval_contracts.included, &matches.eval_contracts.excluded);
        let selected = config.selected_targets(targets_filter);
        let ghost sel = selected_indices(config_names(config.targets@), filter_view(targets_filter));
        proof {
            lemma_selected_indices(config_names(config.targets@), filter_view(targets_filter));
            assert(selected@.len() == sel.len());
        }
        let mut targets: Vec<(String, ProjectTarget)> = Vec::new();
        let mut k: usize = 0;
        while k < selected.len()
            invariant
                sel == selected_indices(config_names(config.targets@), filter_view(targets_filter)),
                selected@.map_values(|i: usize| i as int) == sel,
                forall|j: int| 0 <= j < sel.len() ==> 0 <= #[trigger] sel[j] < config.targets@.len(),
                matches.targets@.len() == sel.len(),
                k <= selected@.len(),
                targets@.len() == k,
                paths_sorted(common_inputs@),
                common_inputs@.to_set() == matched_paths(&matches.common_inputs),
                paths_sorted(import_dirs@),
                import_dirs@.to_set() == matched_paths(&matches.import_dirs),
                paths_sorted(eval_contracts@),
                eval_contracts@.to_set() == matched_paths(&matches.eval_contracts),
                forall|j: int|
                    0 <= j < k ==> {
                        &&& #[trigger] named_targets_view(targets@)[j].0 == config.targets@[sel[j]].0@
                        &&& target_resolved(
                            named_targets_view(targets@)[j].1,
                            project_root@,
                            matched_paths(&matches.common_inputs),
                            matched_paths(&matches.import_dirs),
                            matched_paths(&matches.eval_contracts),
                            &config.targets@[sel[j]].1,
                            &matches.targets@[j],
                        )
                    },
            decreases selected@.len() - k,
        {
            let idx = selected[k];
            assert(sel[k as int] == idx as int);
            let entry = &config.targets[idx];
            let target = ProjectTarget::resolve(
                project_root,
                &common_inputs,
                &import_dirs,
                &eval_contracts,
                &entry.1,
                &matches.targets[k],
            );
            let ghost before = targets@;
            targets.push((entry.0.clone(), target));
            assert(named_targets_view(targets@) =~= named_targets_view(before).push((entry.0@, target@)));
            k = k + 1;
        }
        proof {
            lemma_selected_targets(config_names(config.targets@), filter_view(targets_filter));
            let cn = config_names(config.targets@);
            let names = target_names(named_targets_view(targets@));
            assert forall|a: int, b: int| 0 <= a < b < names.len() implies text_lt(
                #[trigger] names[a],
                #[trigger] names[b],
            ) by {
                assert(names[a] == named_targets_view(targets@)[a].0);
                assert(names[b] == named_targets_view(targets@)[b].0);
                assert(sel[a] < sel[b]);
                assert(cn[sel[a]] == config.targets@[sel[a]].0@);
                assert(cn[sel[b]] == config.targets@[sel[b]].0@);
            }
        }
        let res = Project { import_dirs, targets };
        assert(res@.targets == named_targets_view(targets@));
        assert(res@.targets.len() == sel.len());
        assert forall|j: int| 0 <= j < sel.len() implies {
            &&& #[trigger] res@.targets[j].0 == config.targets@[sel[j]].0@
            &&& target_resolved(
                res@.targets[j].1,
                project_root@,
                matched_paths(&matches.common_inputs),
                matched_paths(&matches.import_dirs),
                matched_paths(&matches.eval_contracts),
                &config.targets@[sel[j]].1,
                &matches.targets@[j],
            )
        } by {
            assert(named_targets_view(targets@)[j].0 == config.targets@[sel[j]].0@);
        }
        res
    }

    /// The import directories, in path order.
    pub fn get_import_dirs(&self) -> (res: &PathSet)
        ensures
            res@ == self@.import_dirs,
    {
        &self.import_dirs
    }

    /// The names of the targets, in order.
    pub fn get_targets(&self) -> (res: Vec<String>)
        ensures
            strings_view(res@) == self@.targets.map_values(|e: (Seq<char>, ProjectTargetView)| e.0),
    {
        let ghost tv = self@.targets;
        let mut res: Vec<String> = Vec::new();
        let mut k: usize = 0;
        while k < self.targets.len()
            invariant
                tv == self@.targets,
                tv == named_targets_view(self.targets@),
                k <= tv.len(),
                strings_view(res@) == tv.take(k as int).map_values(|e: (Seq<char>, ProjectTargetView)| e.0),
            decreases tv.len() - k,
        {
            let ghost before = res@;
            let name = self.targets[k].0.clone();
            assert(name@ == tv[k as int].0);
            res.push(name);
            assert(tv.take(k + 1) =~= tv.take(k as int).push(tv[k as int]));
            assert(strings_view(res@) =~= strings_view(before).push(name@));
            assert(strings_view(res@) =~= tv.take(k + 1).map_values(|e: (Seq<char>, ProjectTargetView)| e.0));
            k = k + 1;
        }
        assert(tv.take(k as int) =~= tv);
        res
    }

    /// The first target with the given name, if any.
    pub fn target(&self, name: &str) -> (res: Option<&ProjectTarget>)
        ensures
            match res {
                Some(t) => exists|i: int|
                    0 <= i < self@.targets.len() && self@.targets[i].0 == name@ && #[trigger] self@.targets[i].1
                        == t@ && forall|j: int| 0 <= j < i ==> self@.targets[j].0 != name@,
                None => forall|i: int| 0 <= i < self@.targets.len() ==> #[trigger] self@.targets[i].0 != name@,
            },
    {
        let ghost tv = self@.targets;
        let wanted = String::from_str(name);
        let mut k: usize = 0;
        while k < self.targets.len()
            invariant
                tv == self@.targets,
                tv == named_targets_view(self.targets@),
                wanted@ == name@,
                k <= tv.len(),
                forall|j: int| 0 <= j < k ==> #[trigger] tv[j].0 != name@,
            decreases tv.len() - k,
        {
            if self.targets[k].0 == wanted {
                assert(tv[k as int].1 == self.targets@[k as int].1@);
                return Some(&self.targets[k].1);
            }
            k = k + 1;
        }
        None
    }

    /// Builds every target's outputs from the results of running `nickel` for it (see
    /// `ProjectOutputs::build`).
    pub fn build_outputs<E>(&self, exports: Vec<Result<Vec<u8>, E>>) -> (res: Result<
        ProjectOutputs,
        BuildFailure<E>,
    >)
        requires
            exports@.len() <= self@.targets.len(),
            exports@.len() < self@.targets.len() ==> exports@.len() > 0 && exports@.last() is Err,
        ensures
            outputs_build_result(self@.targets, exports_view(exports@), res),
    {
        proof {
            use_type_invariant(self);
        }
        ProjectOutputs::build(&self.targets, exports)
    }

    /// The import directories joined by `:`, as the `NICKEL_IMPORT_PATH` variable takes them.
    pub fn import_dirs_list(&self) -> (res: String)
        ensures
            res@ == seq_join(self@.import_dirs, ":"@),
    {
        let dirs = self.import_dirs.to_vec();
        join_strings(&dirs, ":")
    }

    /// The target names joined by `, `.
    pub fn targets_list(&self) -> (res: String)
        ensures
            res@ == seq_join(self@.targets.map_values(|e: (Seq<char>, ProjectTargetView)| e.0), ", "@),
    {
        let names = self.get_targets();
        join_strings(&names, ", ")
    }

    /// The number of targets.
    pub fn len(&self) -> (res: usize)
        ensures
            res == self@.targets.len(),
    {
        self.targets.len()
    }

    /// The name and the target at a position.
    pub fn get(&self, i: usize) -> (res: (&String, &ProjectTarget))
        requires
            i < self@.targets.len(),
        ensures
            res.0@ == self@.targets[i as int].0,
            res.1@ == self@.targets[i as int].1,
    {
        (&self.targets[i].0, &self.targets[i].1)
    }
}

/// Why building a project's outputs failed.
#[derive(Debug)]
pub enum BuildFailure<E> {
    /// Running `nickel` for this target failed.
    Run { target: String, error: E },
    /// Building this target's outputs from what `nickel export` printed failed.
    Build { target: String, problem: TargetBuildError },
}

/// The bytes of successful runs.
pub open spec fn exports_view<E>(exports: Seq<Result<Vec<u8>, E>>) -> Seq<Result<Seq<u8>, E>> {
    exports.map_values(
        |e: Result<Vec<u8>, E>|
            match e {
                Ok(b) => Ok(b@),
                Err(x) => Err(x),
            },
    )
}

/// Whether a run succeeded and its printed outputs build.
pub open spec fn export_ok<E>(e: Result<Seq<u8>, E>) -> bool {
    match e {
        Ok(b) => target_build_ok(b),
        Err(_) => false,
    }
}

/// Position of the first target whose run failed or whose outputs do not build.
pub open spec fn first_build_failure<E>(exports: Seq<Result<Seq<u8>, E>>) -> Option<int>
    decreases exports.len(),
{
    if exports.len() == 0 {
        None
    } else if !export_ok(exports[0]) {
        Some(0)
    } else {
        match first_build_failure(exports.drop_first()) {
            Some(i) => Some(i + 1),
            None => None,
        }
    }
}

/// Facts about the first failure.
pub proof fn lemma_first_build_failure<E>(exports: Seq<Result<Seq<u8>, E>>)
    ensures
        match first_build_failure(exports) {
            Some(i) => 0 <= i < exports.len() && !export_ok(exports[i]) && forall|j: int|
                0 <= j < i ==> export_ok(#[trigger] exports[j]),
            None => forall|j: int| 0 <= j < exports.len() ==> export_ok(#[trigger] exports[j]),
        },
    decreases exports.len(),
{
    if exports.len() > 0 {
        lemma_first_build_failure(exports.drop_first());
        if export_ok(exports[0]) {
            assert forall|j: int| 0 < j < exports.len() implies #[trigger] exports[j]
                == exports.drop_first()[j - 1] by {}
        }
    }
}

/// A failure at `i` after successes is the first failure.
pub proof fn lemma_first_failure_at<E>(exports: Seq<Result<Seq<u8>, E>>, i: int)
    requires
        0 <= i < exports.len(),
        !export_ok(exports[i]),
        forall|j: int| 0 <= j < i ==> export_ok(#[trigger] exports[j]),
    ensures
        first_build_failure(exports) == Some(i),
    decreases i,
{
    if i > 0 {
        assert(export_ok(exports[0]));
        assert forall|j: int| 0 <= j < i - 1 implies export_ok(#[trigger] exports.drop_first()[j]) by {
            assert(exports.drop_first()[j] == exports[j + 1]);
        }
        lemma_first_failure_at(exports.drop_first(), i - 1);
    }
}

/// Whether a failure is the one reported for the target `name` whose run gave `e`.
pub open spec fn failure_reported<E>(
    f: BuildFailure<E>,
    name: Seq<char>,
    t: ProjectTargetView,
    e: Result<Seq<u8>, E>,
) -> bool {
    match e {
        Err(x) => f matches BuildFailure::Run { target, error } && target@ == name && error == x,
        Ok(b) => f matches BuildFailure::Build { target, problem } && target@ == name
            && target_build_result(t, b, Err(problem)),
    }
}

/// Whether project outputs are those built, target by target, from successful runs.
pub open spec fn outputs_built<E>(
    po: Seq<(Seq<char>, TargetOutputsView)>,
    targets: Seq<(Seq<char>, ProjectTargetView)>,
    exports: Seq<Result<Seq<u8>, E>>,
) -> bool {
    &&& po.len() == targets.len()
    &&& forall|i: int|
        0 <= i < po.len() ==> {
            &&& #[trigger] po[i].0 == targets[i].0
            &&& po[i].1.outputs_dir == targets[i].1.outputs_dir
            &&& built_from(po[i].1.files, json_string_record(exports[i]->Ok_0)->0)
        }
}

/// Whether `res` is what building the outputs of the named targets from the results of their
/// runs gives: the first target whose run failed or whose printed outputs do not build is
/// reported; otherwise every target's outputs are built, in order.
pub open spec fn outputs_build_result<E>(
    targets: Seq<(Seq<char>, ProjectTargetView)>,
    exports: Seq<Result<Seq<u8>, E>>,
    res: Result<ProjectOutputs, BuildFailure<E>>,
) -> bool {
    match first_build_failure(exports) {
        Some(i) => res matches Err(f) && failure_reported(f, targets[i].0, targets[i].1, exports[i]),
        None => res matches Ok(po) && outputs_built(po@, targets, exports),
    }
}

/// The names of targets, in order.
pub open spec fn target_names(targets: Seq<(Seq<char>, ProjectTargetView)>) -> Seq<Seq<char>> {
    targets.map_values(|e: (Seq<char>, ProjectTargetView)| e.0)
}

/// The bytes of a successful run.
pub open spec fn export_view<E>(e: Result<Vec<u8>, E>) -> Result<Seq<u8>, E> {
    match e {
        Ok(b) => Ok(b@),
        Err(x) => Err(x),
    }
}

impl ProjectOutputs {
    /// Adds the outputs of the next target, built from the result of running `nickel` for it:
    /// a failed run, or printed outputs that do not build, is reported for that target and
    /// nothing is added. The target's name must follow every name already there.
    pub fn add_target<E>(&mut self, name: &String, target: &ProjectTarget, export: Result<Vec<u8>, E>) -> (res:
        Result<(), BuildFailure<E>>)
        requires
            old(self)@.len() > 0 ==> text_lt(old(self)@.last().0, name@),
        ensures
            export_ok(export_view(export)) ==> res is Ok && final(self)@.len() == old(self)@.len() + 1
                && final(self)@.drop_last() == old(self)@ && final(self)@.last().0 == name@
                && final(self)@.last().1.outputs_dir == target@.outputs_dir && built_from(
                final(self)@.last().1.files,
                json_string_record(export_view(export)->Ok_0)->0,
            ),
            !export_ok(export_view(export)) ==> final(self)@ == old(self)@ && (res matches Err(f)
                && failure_reported(f, name@, target@, export_view(export))),
    {
        match export {
            Err(error) => Err(BuildFailure::Run { target: name.clone(), error }),
            Ok(bytes) => match target.build_outputs(bytes.as_slice()) {
                Err(problem) => Err(BuildFailure::Build { target: name.clone(), problem }),
                Ok(o) => {
                    let ghost before = self@;
                    let ghost ov = o@;
                    self.push(name.clone(), o);
                    assert(self@.drop_last() =~= before);
                    assert(self@.last() == (name@, ov));
                    Ok(())
                },
            },
        }
    }

    /// Builds every target's outputs, in target order, from the results of running `nickel`
    /// for it: the first target whose run failed or whose printed outputs do not build is
    /// reported. Runs stop at the first failure, so the results cover every target or end with
    /// a failed run.
    #[verifier::spinoff_prover]
    #[verifier::rlimit(40)]
    pub fn build<E>(targets: &Vec<(String, ProjectTarget)>, exports: Vec<Result<Vec<u8>, E>>) -> (res:
        Result<ProjectOutputs, BuildFailure<E>>)
        requires
            names_sorted(target_names(named_targets_view(targets@))),
            exports@.len() <= targets@.len(),
            exports@.len() < targets@.len() ==> exports@.len() > 0 && exports@.last() is Err,
        ensures
            outputs_build_result(named_targets_view(targets@), exports_view(exports@), res),
    {
        let ghost ev = exports_view(exports@);
        let ghost tv = named_targets_view(targets@);
        let ghost all = exports@;
        let n = exports.len();
        let mut rest = exports;
        let mut built: Vec<(String, TargetOutputs)> = Vec::new();
        let mut i: usize = 0;
        assert(all.skip(0) =~= all);
        while i < n
            invariant
                all == exports@,
                ev == exports_view(all),
                tv == named_targets_view(targets@),
                n == all.len(),
                n <= targets@.len(),
                i <= n,
                rest@ == all.skip(i as int),
                built@.len() == i,
                forall|j: int| 0 <= j < i ==> export_ok(#[trigger] ev[j]),
                forall|j: int|
                    0 <= j < i ==> {
                        &&& #[trigger] named_outputs_view(built@)[j].0 == tv[j].0
                        &&& named_outputs_view(built@)[j].1.outputs_dir == tv[j].1.outputs_dir
                        &&& built_from(
                            named_outputs_view(built@)[j].1.files,
                            json_string_record(ev[j]->Ok_0)->0,
                        )
                    },
            decreases n - i,
        {
            let item = rest.remove(0);
            assert(item == all[i as int]);
            assert(rest@ =~= all.skip(i + 1));
            assert(tv[i as int] == (targets@[i as int].0@, targets@[i as int].1@));
            proof {
                lemma_first_build_failure(ev);
            }
            match item {
                Err(error) => {
                    proof {
                        assert(ev[i as int] == Err::<Seq<u8>, E>(error));
                        assert(!export_ok(ev[i as int]));
                        lemma_first_failure_at(ev, i as int);
                    }
                    let target = targets[i].0.clone();
                    let r: Result<ProjectOutputs, BuildFailure<E>> = Err(
                        BuildFailure::Run { target, error },
                    );
                    assert(r matches Err(f) && failure_reported(
                        f,
                        targets@[i as int].0@,
                        targets@[i as int].1@,
                        ev[i as int],
                    ));
                    assert(first_build_failure(exports_view(all)) == Some(i as int));
                    assert(all == exports@);
                    return r;
                },
                Ok(bytes) => {
                    assert(ev[i as int] == Ok::<Seq<u8>, E>(bytes@));
                    match targets[i].1.build_outputs(bytes.as_slice()) {
                        Err(error) => {
                            proof {
                                assert(!export_ok(ev[i as int]));
                                lemma_first_failure_at(ev, i as int);
                            }
                            let target = targets[i].0.clone();
                            let r: Result<ProjectOutputs, BuildFailure<E>> = Err(
                                BuildFailure::Build { target, problem: error },
                            );
                            assert(r matches Err(f) && failure_reported(
                                f,
                                targets@[i as int].0@,
                                targets@[i as int].1@,
                                ev[i as int],
                            ));
                            assert(first_build_failure(exports_view(all)) == Some(i as int));
                            assert(all == exports@);
                            return r;
                        },
                        Ok(o) => {
                            let ghost before = built@;
                            built.push((targets[i].0.clone(), o));
                            assert(named_outputs_view(built@) =~= named_outputs_view(before).push(
                                (targets@[i as int].0@, o@),
                            ));
                        },
                    }
                },
            }
            i = i + 1;
        }
        proof {
            lemma_first_build_failure(ev);
        }
        proof {
            lemma_first_build_failure(ev);
            if n < targets@.len() {
                assert(all.last() is Err);
                assert(ev[n - 1] is Err);
                assert(export_ok(ev[n - 1]));
            }
            let names = output_names(named_outputs_view(built@));
            let tn = target_names(tv);
            assert forall|a: int, b: int| 0 <= a < b < names.len() implies text_lt(
                #[trigger] names[a],
                #[trigger] names[b],
            ) by {
                assert(names[a] == named_outputs_view(built@)[a].0);
                assert(names[b] == named_outputs_view(built@)[b].0);
                assert(tn[a] == tv[a].0 && tn[b] == tv[b].0);
            }
        }
        Ok(ProjectOutputs::new(built))
    }
}

} // verus!

verus! {

/// The check of the contracts evaluates the same inputs, with the same import paths, as the
/// export of the outputs: both name the import directories, then the common inputs and the
/// target's own inputs; the check then names the contracts and the export names the outputs
/// field, only when one is configured.
pub proof fn lemma_eval_and_export_share_inputs(t: ProjectTargetView)
    ensures
        ({
            let shared = flagged_imports(t) + target_inputs(t);
            &&& eval_args_spec(t.import_dirs, target_inputs(t), t.eval_contracts, None) == seq![
                "eval"@,
            ] + shared + crate::nickel::flagged("--apply-contract"@, t.eval_contracts)
            &&& export_args_spec(t.import_dirs, target_inputs(t), t.outputs_field) == seq![
                "export"@,
            ] + shared + crate::nickel::field_args(t.outputs_field)
            &&& t.outputs_field is None ==> export_args_spec(
                t.import_dirs,
                target_inputs(t),
                t.outputs_field,
            ) == seq!["export"@] + shared
        }),
{
    let shared = flagged_imports(t) + target_inputs(t);
    assert(eval_args_spec(t.import_dirs, target_inputs(t), t.eval_contracts, None) =~= seq![
        "eval"@,
    ] + shared + crate::nickel::flagged("--apply-contract"@, t.eval_contracts));
    assert(export_args_spec(t.import_dirs, target_inputs(t), t.outputs_field) =~= seq![
        "export"@,
    ] + shared + crate::nickel::field_args(t.outputs_field));
    if t.outputs_field is None {
        assert(seq!["export"@] + shared + crate::nickel::field_args(t.outputs_field) =~= seq![
            "export"@,
        ] + shared);
    }
}

/// The import directories of a target, each after `--import-path`.
pub open spec fn flagged_imports(t: ProjectTargetView) -> Seq<Seq<char>> {
    crate::nickel::flagged("--import-path"@, t.import_dirs)
}

/// Without a filter every target is kept, in order; with one, exactly the targets it names
/// are kept, in order.
pub proof fn lemma_selected_targets(names: Seq<Seq<char>>, filter: Option<Seq<Seq<char>>>)
    ensures
        filter is None ==> selected_indices(names, filter) == Seq::new(names.len(), |i: int| i),
        forall|k: int|
            0 <= k < selected_indices(names, filter).len() ==> target_selected(
                filter,
                names[#[trigger] selected_indices(names, filter)[k]],
            ),
        forall|i: int|
            0 <= i < names.len() && target_selected(filter, names[i]) ==> #[trigger] selected_indices(
                names,
                filter,
            ).contains(i),
        forall|a: int, b: int|
            0 <= a < b < selected_indices(names, filter).len() ==> #[trigger] selected_indices(
                names,
                filter,
            )[a] < #[trigger] selected_indices(names, filter)[b],
    decreases names.len(),
{
    lemma_selected_indices(names, filter);
    if names.len() > 0 {
        let init = names.drop_last();
        lemma_selected_targets(init, filter);
        lemma_selected_indices(init, filter);
        let rest = selected_indices(init, filter);
        let all = selected_indices(names, filter);
        let n = names.len() - 1;
        assert forall|i: int| 0 <= i < n implies #[trigger] names[i] == init[i] by {}
        if filter is None {
            assert(all =~= Seq::new(names.len(), |i: int| i));
        }
        assert forall|k: int| 0 <= k < all.len() implies target_selected(filter, names[#[trigger] all[k]]) by {
            if k < rest.len() {
                assert(all[k] == rest[k]);
                assert(names[rest[k]] == init[rest[k]]);
            }
        }
        assert forall|i: int| 0 <= i < names.len() && target_selected(filter, names[i]) implies #[trigger] all.contains(i) by {
            if i < n {
                assert(rest.contains(i));
                let k = choose|k: int| 0 <= k < rest.len() && rest[k] == i;
                assert(all[k] == i);
            } else {
                assert(all.last() == i);
                assert(all[all.len() - 1] == i);
            }
        }
        assert forall|a: int, b: int| 0 <= a < b < all.len() implies #[trigger] all[a] < #[trigger] all[b] by {
            if b < rest.len() {
                assert(all[a] == rest[a] && all[b] == rest[b]);
            } else {
                assert(all[a] == rest[a]);
                assert(all[b] == n);
            }
        }
    }
}

/// Outputs built from the same entries are the same: in path order, the files are fixed by the
/// entries.
pub proof fn lemma_built_from_unique(
    f1: Seq<OutputFileView>,
    f2: Seq<OutputFileView>,
    raw: Seq<(Seq<char>, Seq<char>)>,
)
    requires
        built_from(f1, raw),
        built_from(f2, raw),
    ensures
        f1 == f2,
{
    let m = outputs_map(raw);
    let p1 = f1.map_values(|f: OutputFileView| f.path);
    let p2 = f2.map_values(|f: OutputFileView| f.path);
    assert forall|i: int, j: int| 0 <= i < j < p1.len() implies path_lt(#[trigger] p1[i], #[trigger] p1[j]) by {
        assert(p1[i] == f1[i].path && p1[j] == f1[j].path);
    }
    assert forall|i: int, j: int| 0 <= i < j < p2.len() implies path_lt(#[trigger] p2[i], #[trigger] p2[j]) by {
        assert(p2[i] == f2[i].path && p2[j] == f2[j].path);
    }
    assert forall|x: Seq<char>| p1.to_set().contains(x) <==> p2.to_set().contains(x) by {
        if p1.to_set().contains(x) {
            let i = choose|i: int| 0 <= i < p1.len() && p1[i] == x;
            assert(p1[i] == f1[i].path);
            assert(m.contains_key(f1[i].path));
            let j = choose|j: int| 0 <= j < f2.len() && f2[j].path == x;
            assert(p2[j] == x);
        }
        if p2.to_set().contains(x) {
            let i = choose|i: int| 0 <= i < p2.len() && p2[i] == x;
            assert(p2[i] == f2[i].path);
            assert(m.contains_key(f2[i].path));
            let j = choose|j: int| 0 <= j < f1.len() && f1[j].path == x;
            assert(p1[j] == x);
        }
    }
    assert(p1.to_set() =~= p2.to_set());
    lemma_sorted_unique(p1, p2);
    assert(f1.len() == f2.len());
    assert forall|i: int| 0 <= i < f1.len() implies f1[i] == f2[i] by {
        assert(p1[i] == f1[i].path && p2[i] == f2[i].path);
        assert(m.contains_key(f1[i].path) && m[f1[i].path] == (f1[i].source, f1[i].content));
        assert(m.contains_key(f2[i].path) && m[f2[i].path] == (f2[i].source, f2[i].content));
    }
    assert(f1 =~= f2);
}

/// Whether two failures to build are the same: for the same target, a failed run with the same
/// error, or printed outputs that are no record of strings, or that hold the same path with the
/// same problem.
pub open spec fn same_failure<E>(a: BuildFailure<E>, b: BuildFailure<E>) -> bool {
    match (a, b) {
        (BuildFailure::Run { target: t1, error: e1 }, BuildFailure::Run { target: t2, error: e2 }) => t1@
            == t2@ && e1 == e2,
        (
            BuildFailure::Build { target: t1, problem: p1 },
            BuildFailure::Build { target: t2, problem: p2 },
        ) => t1@ == t2@ && match (p1, p2) {
            (TargetBuildError::Parse(_), TargetBuildError::Parse(_)) => true,
            (TargetBuildError::OutputPath(x), TargetBuildError::OutputPath(y)) => x.path@ == y.path@
                && x.problem == y.problem,
            _ => false,
        },
        _ => false,
    }
}

/// Building a project's outputs is determined by its targets and the results of their runs:
/// `Project::build_outputs` and `ProjectOutputs::build` over the same targets and runs both
/// succeed with the same outputs, or both report the same failure.
pub proof fn lemma_outputs_build_determined<E>(
    targets: Seq<(Seq<char>, ProjectTargetView)>,
    exports: Seq<Result<Seq<u8>, E>>,
    r1: Result<ProjectOutputs, BuildFailure<E>>,
    r2: Result<ProjectOutputs, BuildFailure<E>>,
)
    requires
        outputs_build_result(targets, exports, r1),
        outputs_build_result(targets, exports, r2),
    ensures
        r1 is Ok <==> r2 is Ok,
        r1 is Ok ==> r1->Ok_0@ == r2->Ok_0@,
        r1 is Err ==> same_failure(r1->Err_0, r2->Err_0),
{
    match first_build_failure(exports) {
        Some(i) => {},
        None => {
            let po1 = r1->Ok_0@;
            let po2 = r2->Ok_0@;
            assert forall|i: int| 0 <= i < po1.len() implies po1[i] == po2[i] by {
                assert(po1[i].0 == targets[i].0 && po2[i].0 == targets[i].0);
                lemma_built_from_unique(
                    po1[i].1.files,
                    po2[i].1.files,
                    json_string_record(exports[i]->Ok_0)->0,
                );
            }
            assert(po1 =~= po2);
        },
    }
}

/// Building step by step agrees with building at once. When outputs hold, for each of the
/// first `k` targets, its outputs built from its run, adding the outputs built from the
/// successful run of target `k` (as `ProjectOutputs::add_target` does) gives outputs that hold
/// the first `k + 1`.
pub proof fn lemma_add_target_builds<E>(
    po: Seq<(Seq<char>, TargetOutputsView)>,
    o: TargetOutputsView,
    targets: Seq<(Seq<char>, ProjectTargetView)>,
    exports: Seq<Result<Seq<u8>, E>>,
)
    requires
        po.len() < exports.len() <= targets.len(),
        outputs_built(po, targets.take(po.len() as int), exports.take(po.len() as int)),
        export_ok(exports[po.len() as int]),
        o.outputs_dir == targets[po.len() as int].1.outputs_dir,
        built_from(o.files, json_string_record(exports[po.len() as int]->Ok_0)->0),
    ensures
        outputs_built(
            po.push((targets[po.len() as int].0, o)),
            targets.take(po.len() as int + 1),
            exports.take(po.len() as int + 1),
        ),
{
    let k = po.len() as int;
    let next = po.push((targets[k].0, o));
    assert forall|i: int| 0 <= i < next.len() implies {
        &&& #[trigger] next[i].0 == targets.take(k + 1)[i].0
        &&& next[i].1.outputs_dir == targets.take(k + 1)[i].1.outputs_dir
        &&& built_from(next[i].1.files, json_string_record(exports.take(k + 1)[i]->Ok_0)->0)
    } by {
        if i < k {
            assert(next[i] == po[i]);
            assert(targets.take(k + 1)[i] == targets.take(k)[i]);
            assert(exports.take(k + 1)[i] == exports.take(k)[i]);
        }
    }
}

/// Once every target's run succeeded and its outputs were added, the outputs are what building
/// them all at once gives.
pub proof fn lemma_all_added_is_built<E>(
    po: ProjectOutputs,
    targets: Seq<(Seq<char>, ProjectTargetView)>,
    exports: Seq<Result<Seq<u8>, E>>,
)
    requires
        exports.len() == targets.len(),
        forall|j: int| 0 <= j < exports.len() ==> export_ok(#[trigger] exports[j]),
        outputs_built(po@, targets.take(targets.len() as int), exports.take(exports.len() as int)),
    ensures
        outputs_build_result(targets, exports, Ok(po)),
{
    lemma_first_build_failure(exports);
    assert(targets.take(targets.len() as int) =~= targets);
    assert(exports.take(exports.len() as int) =~= exports);
}

/// With a filter, a target is selected exactly when its name is one of the filter's names
/// (equal to it, not merely beginning with it), and the selected positions come in increasing
/// order; without a filter every position is selected, in order.
pub proof fn lemma_filter_selects_named(names: Seq<Seq<char>>, filter: Option<Seq<Seq<char>>>)
    ensures
        forall|i: int|
            0 <= i < names.len() ==> (#[trigger] selected_indices(names, filter).contains(i) <==> match filter {
                Some(f) => f.contains(names[i]),
                None => true,
            }),
        forall|k: int|
            0 <= k < selected_indices(names, filter).len() ==> 0 <= #[trigger] selected_indices(names, filter)[k]
                < names.len(),
        forall|a: int, b: int|
            0 <= a < b < selected_indices(names, filter).len() ==> #[trigger] selected_indices(names, filter)[a]
                < #[trigger] selected_indices(names, filter)[b],
        filter is None ==> selected_indices(names, filter) == Seq::new(names.len(), |i: int| i),
{
    lemma_selected_targets(names, filter);
    lemma_selected_indices(names, filter);
    let sel = selected_indices(names, filter);
    assert forall|i: int| 0 <= i < names.len() implies (#[trigger] sel.contains(i) <==> match filter {
        Some(f) => f.contains(names[i]),
        None => true,
    }) by {
        if sel.contains(i) {
            let k = choose|k: int| 0 <= k < sel.len() && sel[k] == i;
            assert(target_selected(filter, names[sel[k]]));
        }
    }
}

} // verus!
