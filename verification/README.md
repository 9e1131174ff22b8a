# nclgen

`nclgen` generates files from Nickel evaluations. A project root holds an `ncl.gen`
directory with a `config.toml` that names targets; each target evaluates some Nickel inputs
with `nickel export`, which must print a record of strings: every field is an output path,
relative to the target's outputs directory, and its value is the file's content.

Layout:

- `src/` is the verified library.
  - `paths.rs`: paths as text: parts, normal form, joining, parents, ancestors, the path
    order (the separator sorts first, as paths sort by component), and the check that an
    output path is relative, non-empty and free of `.` and `..` parts.
  - `names.rs`: the text order of target names, in which targets are kept, each name once.
  - `pathset.rs`: sets of paths kept in path order, and the resolution of glob matches less
    their exclusions.
  - `outputs.rs`: a target's outputs built from the evaluation's record; the two-step
    up-to-date check against a walk of the outputs directory; the filesystem steps that write
    outputs and what a preview shows; the verdict over all targets.
  - `written.rs`: a model of the files that writing leaves behind, and the proofs that a
    check right after generating finds a target's outputs, and a whole project's whose
    outputs directories lie apart, up to date.
  - `nickel.rs`: the arguments of `nickel eval` and `nickel export`, the judgement of how a
    run ended, and the reading of the printed record.
  - `project.rs`: configuration, target selection, project and target resolution, the steps
    of running `nickel` for a target (the contracts' check first, no export after it fails),
    and the building of every target's outputs, stopping at the first target that fails.
  - `cli.rs`: which targets each subcommand works on.
- `app/main.rs` is the program: command line, configuration file, globbing, the working
  directory, running `nickel`, walking, reading and writing files.
- `tests/` exercise the library on concrete values.
