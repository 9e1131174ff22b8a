use nclgen::cli::{CheckCommand, DebugCommand, GenerateCommand};
use nclgen::nickel::{nickel_program, nickel_status, NickelFailure};
use nclgen::outputs::ProjectOutputs;
use nclgen::paths::OutputPathProblem;
use nclgen::names::text_less;
use nclgen::project::{
    join_strings, BuildFailure, Config, ConfigTarget, GlobMatches, GlobPattern, Project,
    ProjectMatches, ProjectTarget, RunKind, RunStep, TargetBuildError,
};

fn s(x: &str) -> String {
    x.to_string()
}

fn globs(included: &[&[&str]], excluded: &[&[&str]]) -> GlobMatches {
    GlobMatches {
        included: included.iter().map(|g| g.iter().map(|p| s(p)).collect()).collect(),
        excluded: excluded.iter().map(|g| g.iter().map(|p| s(p)).collect()).collect(),
    }
}

fn target_config(field: &str, dir: &str) -> ConfigTarget {
    ConfigTarget {
        inputs: vec![GlobPattern(s("t/*.ncl"))],
        inputs_exclude: vec![],
        outputs_field: s(field),
        outputs_dir: s(dir),
    }
}

fn config() -> Config {
    Config {
        common_inputs: vec![GlobPattern(s("common/*.ncl"))],
        common_inputs_exclude: vec![GlobPattern(s("common/skip.ncl"))],
        import_dirs: vec![GlobPattern(s("lib"))],
        import_dirs_exclude: vec![],
        eval_contracts: vec![GlobPattern(s("contracts/*.ncl"))],
        eval_contracts_exclude: vec![],
        targets: vec![
            (s("docs"), target_config("", "out/docs")),
            (s("k8s"), target_config("manifests", "/abs/k8s")),
            (s("web"), target_config("", "out/web")),
        ],
    }
}

fn matches(targets: usize) -> ProjectMatches {
    ProjectMatches {
        common_inputs: globs(
            &[&["/p/common/b.ncl", "/p/common/a.ncl", "/p/common/skip.ncl"]],
            &[&["/p/common/skip.ncl"]],
        ),
        import_dirs: globs(&[&["/p/lib"]], &[]),
        eval_contracts: globs(&[&["/p/contracts/c.ncl"]], &[]),
        targets: (0..targets).map(|_| globs(&[&["/p/t/x.ncl"]], &[])).collect(),
    }
}

fn project() -> Project {
    Project::resolve("/p", &config(), None, &matches(3))
}

#[test]
fn resolve_keeps_all_targets_without_filter() {
    let p = project();
    assert_eq!(p.get_targets(), vec!["docs", "k8s", "web"]);
    assert_eq!(p.targets_list(), "docs, k8s, web");
    assert_eq!(p.get_import_dirs().to_vec(), vec!["/p/lib"]);
    assert_eq!(p.import_dirs_list(), "/p/lib");
}

#[test]
fn selected_targets_follow_filter() {
    let c = config();
    let filter = vec![s("web"), s("docs"), s("absent")];
    assert_eq!(c.selected_targets(Some(&filter)), vec![0, 2]);
    assert_eq!(c.selected_targets(None), vec![0, 1, 2]);
}

#[test]
fn resolve_with_filter_keeps_named_targets() {
    let filter = vec![s("k8s")];
    let p = Project::resolve("/p", &config(), Some(&filter), &matches(1));
    assert_eq!(p.get_targets(), vec!["k8s"]);
    assert!(p.target("docs").is_none());
    let t = p.target("k8s").unwrap();
    assert_eq!(t.outputs_dir(), "/abs/k8s");
}

#[test]
fn target_outputs_dir_is_joined_to_root() {
    let p = project();
    assert_eq!(p.target("docs").unwrap().outputs_dir(), "/p/out/docs");
}

#[test]
fn export_args_name_imports_inputs_and_field() {
    let p = project();
    let docs = p.target("docs").unwrap();
    assert_eq!(
        docs.export_args(),
        vec![
            "export",
            "--import-path",
            "/p/lib",
            "/p/common/a.ncl",
            "/p/common/b.ncl",
            "/p/t/x.ncl"
        ]
    );
    let k8s = p.target("k8s").unwrap();
    assert_eq!(
        k8s.export_args(),
        vec![
            "export",
            "--import-path",
            "/p/lib",
            "/p/common/a.ncl",
            "/p/common/b.ncl",
            "/p/t/x.ncl",
            "--field",
            "manifests"
        ]
    );
}

#[test]
fn eval_args_apply_contracts() {
    let p = project();
    let docs = p.target("docs").unwrap();
    assert_eq!(
        docs.eval_args().unwrap(),
        vec![
            "eval",
            "--import-path",
            "/p/lib",
            "/p/common/a.ncl",
            "/p/common/b.ncl",
            "/p/t/x.ncl",
            "--apply-contract",
            "/p/contracts/c.ncl"
        ]
    );
    assert_eq!(
        docs.debug_eval_args(Some("x.y")),
        vec![
            "eval",
            "--import-path",
            "/p/lib",
            "/p/common/a.ncl",
            "/p/common/b.ncl",
            "/p/t/x.ncl",
            "--field",
            "x.y"
        ]
    );
}

#[test]
fn no_contracts_means_no_eval() {
    let mut m = matches(3);
    m.eval_contracts = globs(&[], &[]);
    let p = Project::resolve("/p", &config(), None, &m);
    assert!(p.target("web").unwrap().eval_args().is_none());
}

#[test]
fn target_inputs_subtract_excludes() {
    let shared = nclgen::pathset::PathSet::new();
    let t = ProjectTarget::resolve(
        "/p",
        &shared,
        &shared,
        &shared,
        &target_config("", "o"),
        &globs(&[&["/p/t/a.ncl", "/p/t/b.ncl"]], &[&["/p/t/a.ncl"]]),
    );
    assert_eq!(t.eval_inputs(), vec!["/p/t/b.ncl"]);
}

#[test]
fn build_outputs_reads_record_of_strings() {
    let p = project();
    let docs = p.target("docs").unwrap();
    let out = docs
        .build_outputs(br##"{"index.md": "# hi\n", "sub/page.md": "page"}"##)
        .unwrap();
    assert_eq!(out.outputs_dir(), "/p/out/docs");
    assert_eq!(
        out.print(),
        vec![
            (s("/p/out/docs/index.md"), s("# hi\n")),
            (s("/p/out/docs/sub/page.md"), s("page"))
        ]
    );
}

#[test]
fn build_outputs_refuses_non_string_record() {
    let p = project();
    let docs = p.target("docs").unwrap();
    assert!(matches!(
        docs.build_outputs(br#"{"a": 1}"#),
        Err(TargetBuildError::Parse(_))
    ));
    assert!(matches!(
        docs.build_outputs(b"not json"),
        Err(TargetBuildError::Parse(_))
    ));
}

#[test]
fn build_outputs_refuses_escaping_path() {
    let p = project();
    let docs = p.target("docs").unwrap();
    match docs.build_outputs(br#"{"../x": "1"}"#) {
        Err(TargetBuildError::OutputPath(e)) => {
            assert_eq!(e.path, "../x");
            assert_eq!(e.problem, OutputPathProblem::ParentDir);
        }
        other => panic!("unexpected {:?}", other),
    }
}

#[test]
fn project_build_outputs_in_target_order() {
    let p = project();
    let exports: Vec<Result<Vec<u8>, String>> = vec![
        Ok(br#"{"a": "1"}"#.to_vec()),
        Ok(br#"{"b": "2"}"#.to_vec()),
        Ok(br#"{}"#.to_vec()),
    ];
    let po: ProjectOutputs = p.build_outputs(exports).unwrap();
    assert_eq!(po.len(), 3);
    assert_eq!(po.get(0).0, "docs");
    assert_eq!(po.get(1).1.outputs_dir(), "/abs/k8s");
    assert_eq!(po.get(2).1.len(), 0);
}

#[test]
fn project_build_outputs_reports_first_failure() {
    let p = project();
    let exports: Vec<Result<Vec<u8>, String>> = vec![
        Ok(br#"{"a": "1"}"#.to_vec()),
        Ok(br#"{"/abs": "2"}"#.to_vec()),
        Err(s("nickel failed")),
    ];
    match p.build_outputs(exports) {
        Err(BuildFailure::Build { target, problem: TargetBuildError::OutputPath(e) }) => {
            assert_eq!(target, "k8s");
            assert_eq!(e.problem, OutputPathProblem::NotRelative);
        }
        other => panic!("unexpected {:?}", other),
    }
    let exports: Vec<Result<Vec<u8>, String>> = vec![Ok(b"{}".to_vec()), Err(s("exit 2"))];
    match p.build_outputs(exports) {
        Err(BuildFailure::Run { target, error }) => {
            assert_eq!(target, "k8s");
            assert_eq!(error, "exit 2");
        }
        other => panic!("unexpected {:?}", other),
    }
}

#[test]
fn join_strings_with_separator() {
    assert_eq!(join_strings(&vec![], ":"), "");
    assert_eq!(join_strings(&vec![s("a")], ":"), "a");
    assert_eq!(join_strings(&vec![s("a"), s("b"), s("c")], ":"), "a:b:c");
}

#[test]
fn nickel_status_judges_exit() {
    assert_eq!(nickel_status(true, Some(0)), Ok(()));
    assert_eq!(nickel_status(false, Some(3)), Err(NickelFailure::ExitCode(3)));
    assert_eq!(nickel_status(false, None), Err(NickelFailure::NoExitCode));
}

#[test]
fn nickel_program_from_environment() {
    assert_eq!(nickel_program(None), "nickel");
    assert_eq!(nickel_program(Some(s("/opt/nickel"))), "/opt/nickel");
}

#[test]
fn empty_target_list_means_every_target() {
    assert!(CheckCommand { targets: vec![] }.targets_filter().is_none());
    assert_eq!(
        CheckCommand { targets: vec![s("a"), s("b")] }.targets_filter().unwrap(),
        vec!["a", "b"]
    );
    assert!(GenerateCommand { preview: true, targets: vec![] }.targets_filter().is_none());
    assert_eq!(
        DebugCommand { target: s("t"), field: None }.targets_filter(),
        vec!["t"]
    );
}

#[test]
fn build_outputs_merges_paths_equal_as_paths() {
    let p = project();
    let docs = p.target("docs").unwrap();
    // equal as paths: one file, the later value, shown under the first name
    let out = docs.build_outputs(br#"{"x/y": "1", "x//y": "2"}"#).unwrap();
    assert_eq!(out.len(), 1);
    assert_eq!(out.print(), vec![(s("/p/out/docs/x/y"), s("2"))]);
}

#[test]
fn runs_check_contracts_before_export() {
    let p = project();
    let docs = p.target("docs").unwrap();
    match docs.next_step::<String>(None) {
        RunStep::Eval(args) => assert_eq!(args, docs.eval_args().unwrap()),
        other => panic!("unexpected {:?}", other),
    }
    match docs.next_step::<String>(Some((RunKind::Eval, Ok(b"{}".to_vec())))) {
        RunStep::Export(args) => assert_eq!(args, docs.export_args()),
        other => panic!("unexpected {:?}", other),
    }
    match docs.next_step::<String>(Some((RunKind::Export, Ok(b"{}".to_vec())))) {
        RunStep::Done(Ok(bytes)) => assert_eq!(bytes, b"{}".to_vec()),
        other => panic!("unexpected {:?}", other),
    }
}

#[test]
fn failed_check_skips_export() {
    let p = project();
    let docs = p.target("docs").unwrap();
    match docs.next_step::<String>(Some((RunKind::Eval, Err(s("contract broken"))))) {
        RunStep::Done(Err(e)) => assert_eq!(e, "contract broken"),
        other => panic!("unexpected {:?}", other),
    }
    match docs.next_step::<String>(Some((RunKind::Export, Err(s("exit 1"))))) {
        RunStep::Done(Err(e)) => assert_eq!(e, "exit 1"),
        other => panic!("unexpected {:?}", other),
    }
}

#[test]
fn without_contracts_export_runs_first() {
    let mut m = matches(3);
    m.eval_contracts = globs(&[], &[]);
    let p = Project::resolve("/p", &config(), None, &m);
    let web = p.target("web").unwrap();
    match web.next_step::<String>(None) {
        RunStep::Export(args) => assert_eq!(args, web.export_args()),
        other => panic!("unexpected {:?}", other),
    }
}

#[test]
fn add_target_stops_at_bad_record() {
    let p = project();
    let mut po = ProjectOutputs::new(Vec::new());
    let (name, docs) = p.get(0);
    assert!(po.add_target::<String>(name, docs, Ok(br#"{"a": "1"}"#.to_vec())).is_ok());
    let (name, k8s) = p.get(1);
    match po.add_target::<String>(name, k8s, Ok(br#"{"b": 2}"#.to_vec())) {
        Err(BuildFailure::Build { target, problem: TargetBuildError::Parse(_) }) => assert_eq!(target, "k8s"),
        other => panic!("unexpected {:?}", other),
    }
    match po.add_target::<String>(name, k8s, Err(s("exit 3"))) {
        Err(BuildFailure::Run { target, error }) => {
            assert_eq!(target, "k8s");
            assert_eq!(error, "exit 3");
        }
        other => panic!("unexpected {:?}", other),
    }
    assert_eq!(po.len(), 1);
    assert_eq!(po.get(0).0, "docs");
}

#[test]
fn target_names_in_text_order() {
    assert!(config().targets_in_order());
    let mut c = config();
    c.targets.swap(0, 1);
    assert!(!c.targets_in_order());
    let mut c = config();
    c.targets[1].0 = s("docs");
    assert!(!c.targets_in_order());
    assert!(text_less("a-b", "a/b"));
    assert!(text_less("ab", "abc"));
    assert!(!text_less("b", "a"));
    assert!(!text_less("a", "a"));
}

#[test]
fn step_by_step_build_matches_whole_build() {
    let shared = nclgen::pathset::PathSet::new();
    let resolve = |dir: &str| {
        ProjectTarget::resolve(
            "/p",
            &shared,
            &shared,
            &shared,
            &target_config("", dir),
            &globs(&[&["/p/t/x.ncl"]], &[]),
        )
    };
    let targets = vec![(s("a"), resolve("out/a")), (s("b"), resolve("out/b"))];
    let printed = [br#"{"x": "1", "y/z": "2"}"#.to_vec(), br#"{"w": "3"}"#.to_vec()];
    let exports: Vec<Result<Vec<u8>, String>> = printed.iter().map(|b| Ok(b.clone())).collect();
    let whole = ProjectOutputs::build(&targets, exports).unwrap();
    let mut stepwise = ProjectOutputs::new(Vec::new());
    for (i, (name, target)) in targets.iter().enumerate() {
        stepwise.add_target::<String>(name, target, Ok(printed[i].clone())).unwrap();
    }
    assert_eq!(whole.print(), stepwise.print());
    assert_eq!(
        whole.print(),
        vec![
            (s("/p/out/a/x"), s("1")),
            (s("/p/out/a/y/z"), s("2")),
            (s("/p/out/b/w"), s("3"))
        ]
    );
}
