//! Invocations of the `nickel` command: their arguments, how their exit is judged, and the
//! reading of the record of strings that `nickel export` prints.

use vstd::prelude::*;

use crate::pathset::PathSet;

verus! {

/// Each value preceded by the flag.
pub open spec fn flagged(flag: Seq<char>, values: Seq<Seq<char>>) -> Seq<Seq<char>>
    decreases values.len(),
{
    if values.len() == 0 {
        seq![]
    } else {
        flagged(flag, values.drop_last()) + seq![flag, values.last()]
    }
}

/// Every value is immediately preceded by its own flag: the flagged list is twice as long as the
/// values, with the flag at each even position and the `i`-th value right after the `i`-th flag.
pub proof fn lemma_flagged(flag: Seq<char>, values: Seq<Seq<char>>)
    ensures
        flagged(flag, values).len() == 2 * values.len(),
        forall|i: int|
            #![trigger values[i]]
            #![trigger flagged(flag, values)[2 * i]]
            0 <= i < values.len() ==> flagged(flag, values)[2 * i] == flag && flagged(flag, values)[2 * i
                + 1] == values[i],
    decreases values.len(),
{
    if values.len() > 0 {
        let init = values.drop_last();
        lemma_flagged(flag, init);
        let a = flagged(flag, init);
        let all = flagged(flag, values);
        assert(all == a + seq![flag, values.last()]);
        assert forall|i: int| 0 <= i < values.len() implies all[2 * i] == flag && all[2 * i + 1]
            == #[trigger] values[i] by {
            if i < init.len() {
                assert(init[i] == values[i]);
                assert(a[2 * i] == flag);
                assert(a[2 * i + 1] == init[i]);
                assert(init[i] == values[i]);
                assert(all[2 * i] == a[2 * i]);
                assert(all[2 * i + 1] == a[2 * i + 1]);
            } else {
                assert(i == init.len());
                assert(2 * i == a.len());
                assert(all[2 * i] == seq![flag, values.last()][0]);
                assert(all[2 * i + 1] == seq![flag, values.last()][1]);
            }
        }
    }
}

/// One value of a flagged list and its flag.
proof fn lemma_flagged_at(flag: Seq<char>, values: Seq<Seq<char>>, i: int)
    requires
        0 <= i < values.len(),
    ensures
        flagged(flag, values).len() == 2 * values.len(),
        flagged(flag, values)[2 * i] == flag,
        flagged(flag, values)[2 * i + 1] == values[i],
{
    lemma_flagged(flag, values);
    assert(values[i] == values[i]);
}

/// The `--field` flag and its value, if a field is given.
pub open spec fn field_args(field: Option<Seq<char>>) -> Seq<Seq<char>> {
    match field {
        Some(f) => seq!["--field"@, f],
        None => seq![],
    }
}

/// Arguments of `nickel eval`: import paths, inputs, contracts applied to the whole
/// evaluation, and the field to evaluate.
pub open spec fn eval_args_spec(
    import_paths: Seq<Seq<char>>,
    inputs: Seq<Seq<char>>,
    contracts: Seq<Seq<char>>,
    field: Option<Seq<char>>,
) -> Seq<Seq<char>> {
    seq!["eval"@] + flagged("--import-path"@, import_paths) + inputs + flagged(
        "--apply-contract"@,
        contracts,
    ) + field_args(field)
}

/// Arguments of `nickel export`: import paths, inputs, and the field to export.
pub open spec fn export_args_spec(
    import_paths: Seq<Seq<char>>,
    inputs: Seq<Seq<char>>,
    field: Option<Seq<char>>,
) -> Seq<Seq<char>> {
    seq!["export"@] + flagged("--import-path"@, import_paths) + inputs + field_args(field)
}

/// Layout of the `nickel export` arguments: `export`, then each import path right after its own
/// `--import-path`, then the inputs in order, then `--field` and the field when one is given.
pub proof fn lemma_export_args_layout(
    import_paths: Seq<Seq<char>>,
    inputs: Seq<Seq<char>>,
    field: Option<Seq<char>>,
)
    ensures
        ({
            let a = export_args_spec(import_paths, inputs, field);
            let n = import_paths.len() as int;
            let m = inputs.len() as int;
            &&& a[0] == "export"@
            &&& forall|i: int|
                0 <= i < n ==> #[trigger] a[1 + 2 * i] == "--import-path"@ && a[2 + 2 * i] == import_paths[i]
            &&& forall|j: int| 0 <= j < m ==> #[trigger] a[1 + 2 * n + j] == inputs[j]
            &&& match field {
                Some(f) => a.len() == 3 + 2 * n + m && a[1 + 2 * n + m] == "--field"@ && a[2 + 2 * n + m] == f,
                None => a.len() == 1 + 2 * n + m,
            }
        }),
{
    let a = export_args_spec(import_paths, inputs, field);
    let fl = flagged("--import-path"@, import_paths);
    lemma_flagged("--import-path"@, import_paths);
    let n = import_paths.len() as int;
    let m = inputs.len() as int;
    assert(a == seq!["export"@] + fl + inputs + field_args(field));
    assert forall|i: int| 0 <= i < n implies #[trigger] a[1 + 2 * i] == "--import-path"@ && a[2 + 2 * i]
        == import_paths[i] by {
        lemma_flagged_at("--import-path"@, import_paths, i);
    }
    assert forall|j: int| 0 <= j < m implies #[trigger] a[1 + 2 * n + j] == inputs[j] by {}
}

/// Layout of the `nickel eval` arguments: `eval`, then each import path right after its own
/// `--import-path`, then the inputs in order, then each contract right after its own
/// `--apply-contract`, then `--field` and the field when one is given.
pub proof fn lemma_eval_args_layout(
    import_paths: Seq<Seq<char>>,
    inputs: Seq<Seq<char>>,
    contracts: Seq<Seq<char>>,
    field: Option<Seq<char>>,
)
    ensures
        ({
            let a = eval_args_spec(import_paths, inputs, contracts, field);
            let n = import_paths.len() as int;
            let m = inputs.len() as int;
            let c = contracts.len() as int;
            &&& a[0] == "eval"@
            &&& forall|i: int|
                0 <= i < n ==> #[trigger] a[1 + 2 * i] == "--import-path"@ && a[2 + 2 * i] == import_paths[i]
            &&& forall|j: int| 0 <= j < m ==> #[trigger] a[1 + 2 * n + j] == inputs[j]
            &&& forall|k: int|
                0 <= k < c ==> #[trigger] a[1 + 2 * n + m + 2 * k] == "--apply-contract"@ && a[2 + 2 * n + m + 2
                    * k] == contracts[k]
            &&& match field {
                Some(f) => a.len() == 3 + 2 * n + m + 2 * c && a[1 + 2 * n + m + 2 * c] == "--field"@ && a[2
                    + 2 * n + m + 2 * c] == f,
                None => a.len() == 1 + 2 * n + m + 2 * c,
            }
        }),
{
    let a = eval_args_spec(import_paths, inputs, contracts, field);
    let fl = flagged("--import-path"@, import_paths);
    let fc = flagged("--apply-contract"@, contracts);
    lemma_flagged("--import-path"@, import_paths);
    lemma_flagged("--apply-contract"@, contracts);
    let n = import_paths.len() as int;
    let m = inputs.len() as int;
    assert(a == seq!["eval"@] + fl + inputs + fc + field_args(field));
    assert forall|i: int| 0 <= i < n implies #[trigger] a[1 + 2 * i] == "--import-path"@ && a[2 + 2 * i]
        == import_paths[i] by {
        lemma_flagged_at("--import-path"@, import_paths, i);
    }
    assert forall|j: int| 0 <= j < m implies #[trigger] a[1 + 2 * n + j] == inputs[j] by {}
    assert forall|k: int| 0 <= k < contracts.len() implies #[trigger] a[1 + 2 * n + m + 2 * k]
        == "--apply-contract"@ && a[2 + 2 * n + m + 2 * k] == contracts[k] by {
        lemma_flagged_at("--apply-contract"@, contracts, k);
        let pre = seq!["eval"@] + fl + inputs;
        assert(pre.len() == 1 + 2 * n + m);
        assert((pre + fc)[1 + 2 * n + m + 2 * k] == fc[2 * k]);
        assert((pre + fc)[2 + 2 * n + m + 2 * k] == fc[2 * k + 1]);
    }
    match field {
        Some(f) => {
            assert(field_args(field) == seq!["--field"@, f]);
        },
        None => {},
    }
}

/// Views of a list of strings.
pub open spec fn strings_view(v: Seq<String>) -> Seq<Seq<char>> {
    v.map_values(|s: String| s@)
}

/// The view of an optional string.
pub open spec fn opt_view(o: Option<&str>) -> Option<Seq<char>> {
    match o {
        Some(s) => Some(s@),
        None => None,
    }
}

/// Appends each value, preceded by the flag.
fn push_flagged(args: &mut Vec<String>, flag: &str, values: &PathSet)
    ensures
        strings_view(final(args)@) == strings_view(old(args)@) + flagged(flag@, values@),
{
    let ghost start = strings_view(args@);
    let mut k: usize = 0;
    assert(values@.take(0) =~= Seq::<Seq<char>>::empty());
    assert(start + flagged(flag@, values@.take(0)) =~= start);
    while k < values.len()
        invariant
            k <= values@.len(),
            strings_view(args@) == start + flagged(flag@, values@.take(k as int)),
        decreases values@.len() - k,
    {
        let ghost before = args@;
        args.push(String::from_str(flag));
        let v = values.get(k).clone();
        args.push(v);
        proof {
            assert(values@.take(k + 1).drop_last() =~= values@.take(k as int));
            assert(values@.take(k + 1).last() == values@[k as int]);
            assert(strings_view(args@) =~= strings_view(before) + seq![flag@, values@[k as int]]);
        }
        k = k + 1;
    }
    assert(values@.take(k as int) =~= values@);
}

/// Appends each value.
fn push_all(args: &mut Vec<String>, values: &Vec<String>)
    ensures
        strings_view(final(args)@) == strings_view(old(args)@) + strings_view(values@),
{
    let ghost start = strings_view(args@);
    let mut k: usize = 0;
    while k < values.len()
        invariant
            k <= values@.len(),
            strings_view(args@) == start + strings_view(values@.take(k as int)),
        decreases values@.len() - k,
    {
        let ghost before = args@;
        args.push(values[k].clone());
        proof {
            assert(strings_view(values@.take(k + 1)) =~= strings_view(values@.take(k as int)).push(values@[k as int]@));
            assert(strings_view(args@) =~= strings_view(before).push(values@[k as int]@));
        }
        k = k + 1;
    }
    assert(values@.take(k as int) =~= values@);
}

/// Appends the `--field` flag and its value, if a field is given.
fn push_field(args: &mut Vec<String>, field: Option<&str>)
    ensures
        strings_view(final(args)@) == strings_view(old(args)@) + field_args(opt_view(field)),
{
    let ghost start = strings_view(args@);
    match field {
        Some(f) => {
            args.push(String::from_str("--field"));
            args.push(String::from_str(f));
            assert(strings_view(args@) =~= start + field_args(opt_view(field)));
        },
        None => {
            assert(strings_view(args@) =~= start + field_args(opt_view(field)));
        },
    }
}

/// The arguments of `nickel eval` (see `eval_args_spec`).
pub fn eval_args(
    import_paths: &PathSet,
    inputs: &Vec<String>,
    contracts: &PathSet,
    field: Option<&str>,
) -> (res: Vec<String>)
    ensures
        strings_view(res@) == eval_args_spec(import_paths@, strings_view(inputs@), contracts@, opt_view(field)),
{
    let mut args: Vec<String> = Vec::new();
    args.push(String::from_str("eval"));
    assert(strings_view(args@) =~= seq!["eval"@]);
    push_flagged(&mut args, "--import-path", import_paths);
    push_all(&mut args, inputs);
    push_flagged(&mut args, "--apply-contract", contracts);
    push_field(&mut args, field);
    args
}

/// The arguments of `nickel export` (see `export_args_spec`).
pub fn export_args(import_paths: &PathSet, inputs: &Vec<String>, field: Option<&str>) -> (res: Vec<String>)
    ensures
        strings_view(res@) == export_args_spec(import_paths@, strings_view(inputs@), opt_view(field)),
{
    let mut args: Vec<String> = Vec::new();
    args.push(String::from_str("export"));
    assert(strings_view(args@) =~= seq!["export"@]);
    push_flagged(&mut args, "--import-path", import_paths);
    push_all(&mut args, inputs);
    push_field(&mut args, field);
    args
}

/// The program to run for `nickel`: the one the environment names, else `nickel`.
pub fn nickel_program(from_env: Option<String>) -> (res: String)
    ensures
        res@ == match from_env {
            Some(p) => p@,
            None => "nickel"@,
        },
{
    match from_env {
        Some(p) => p,
        None => String::from_str("nickel"),
    }
}

/// Why a `nickel` run failed.
#[derive(Debug, PartialEq, Eq, Structural)]
pub enum NickelFailure {
    /// The run ended with a failing exit code.
    ExitCode(i32),
    /// The run ended without an exit code (killed by a signal).
    NoExitCode,
}

/// Judges how a `nickel` run ended: success, or the failure with its exit code if it has one.
pub fn nickel_status(success: bool, code: Option<i32>) -> (res: Result<(), NickelFailure>)
    ensures
        success ==> res is Ok,
        !success ==> match code {
            Some(c) => res == Err::<(), NickelFailure>(NickelFailure::ExitCode(c)),
            None => res == Err::<(), NickelFailure>(NickelFailure::NoExitCode),
        },
{
    if success {
        Ok(())
    } else {
        match code {
            Some(c) => Err(NickelFailure::ExitCode(c)),
            None => Err(NickelFailure::NoExitCode),
        }
    }
}

/// Lets `serde_json::Error` stand in signatures and fields; its contents stay hidden.
#[verifier::external_type_specification]
#[verifier::external_body]
pub struct ExJsonError(serde_json::Error);

/// The entries of the JSON object whose values are all strings that `bytes` holds, keyed by
/// path: fields whose names are the same path are one entry, with the name as first written
/// and the value written last, and entries come in path order; none when `bytes` hold no such
/// object. This names the result of `serde_json::from_slice` into a
/// `BTreeMap<PathBuf, String>`, whose keys are taken back as text.
pub uninterp spec fn json_string_record(bytes: Seq<u8>) -> Option<Seq<(Seq<char>, Seq<char>)>>;

/// Reads the record of strings that `nickel export` prints, by
/// `serde_json::from_slice::<BTreeMap<PathBuf, String>>`; each key, parsed from a JSON string,
/// is turned back into its text. The contract claims only that the call succeeds exactly when
/// `json_string_record` of the bytes exists, and that its entries, taken in the map's order,
/// are that record.
#[verifier::external_body]
pub(crate) fn parse_string_record(bytes: &[u8]) -> (res: Result<Vec<(String, String)>, serde_json::Error>)
    ensures
        match json_string_record(bytes@) {
            Some(entries) => res matches Ok(v) && v@.map_values(|e: (String, String)| (e.0@, e.1@))
                == entries,
            None => res is Err,
        },
{
    serde_json::from_slice::<std::collections::BTreeMap<std::path::PathBuf, String>>(bytes).map(
        |m| m.into_iter().map(|(k, v)| (k.to_string_lossy().into_owned(), v)).collect(),
    )
}

} // verus!
