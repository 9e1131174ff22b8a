//! What writing outputs leaves behind, on a model of the filesystem in which a file is known
//! by the parts of its path and directories exist implicitly; and that `check` accepts it.

use vstd::prelude::*;

use crate::outputs::{
    built_from, lemma_write_steps, file_write_steps, files_write_steps, first_output_problem, first_symlink,
    lemma_files_in_all, lemma_first_output_problem, lemma_no_symlink, lemma_outputs_map, outputs_current, outputs_map, files_to_read,
    listed_files, generated_paths, target_write_steps, EntryKind, ListedEntryView,
    OutputFileView, TargetOutputsView, WriteStepView, first_err, lemma_first_err, lemma_stale_names,
    output_names, project_write_steps, stale_names,
};
use crate::paths::{
    first_part_problem, join_parts, lemma_normal_output_path, lemma_path_join_parts,
    normal_path, output_path_problem, path_join, path_parent, path_parts,
};
use vstd::utf8::encode_utf8;

verus! {

/// Files by the parts of their paths, with their contents.
pub type FileTree = Map<Seq<Seq<char>>, Seq<char>>;

/// Whether a file lies strictly below a directory.
pub open spec fn lies_under(dir: Seq<Seq<char>>, p: Seq<Seq<char>>) -> bool {
    p.len() > dir.len() && p.take(dir.len() as int) == dir
}

/// The files after one write step: clearing a directory removes every file below it, writing
/// a file sets its content, and creating directories changes no file.
pub open spec fn apply_step(fs: FileTree, step: WriteStepView) -> FileTree {
    match step {
        WriteStepView::ClearDir(d) => Map::new(
            |p: Seq<Seq<char>>| fs.contains_key(p) && !lies_under(path_parts(d), p),
            |p: Seq<Seq<char>>| fs[p],
        ),
        WriteStepView::CreateDir(_) => fs,
        WriteStepView::EnsureDir(_) => fs,
        WriteStepView::WriteFile(f, c) => fs.insert(path_parts(f), c),
    }
}

/// The files after write steps, taken in order.
pub open spec fn apply_steps(fs: FileTree, steps: Seq<WriteStepView>) -> FileTree
    decreases steps.len(),
{
    if steps.len() == 0 {
        fs
    } else {
        apply_step(apply_steps(fs, steps.drop_last()), steps.last())
    }
}

/// Steps taken one list after another.
pub proof fn lemma_apply_steps_concat(fs: FileTree, a: Seq<WriteStepView>, b: Seq<WriteStepView>)
    ensures
        apply_steps(fs, a + b) == apply_steps(apply_steps(fs, a), b),
    decreases b.len(),
{
    if b.len() == 0 {
        assert(a + b =~= a);
    } else {
        lemma_apply_steps_concat(fs, a, b.drop_last());
        assert((a + b).drop_last() =~= a + b.drop_last());
        assert((a + b).last() == b.last());
    }
}

/// The files of built outputs have paths that can name outputs, whose parts are those of the
/// paths as given, and distinct parts.
pub proof fn lemma_built_files(files: Seq<OutputFileView>, raw: Seq<(Seq<char>, Seq<char>)>)
    requires
        built_from(files, raw),
        first_output_problem(raw) is None,
    ensures
        forall|j: int|
            0 <= j < files.len() ==> {
                &&& output_path_problem((#[trigger] files[j]).source) is None
                &&& normal_path(files[j].source) == files[j].path
                &&& path_parts(files[j].path) == path_parts(files[j].source)
                &&& files[j].path == join_parts(path_parts(files[j].path))
            },
        forall|a: int, b: int|
            0 <= a < files.len() && 0 <= b < files.len() && a != b ==> path_parts(
                (#[trigger] files[a]).path,
            ) != path_parts((#[trigger] files[b]).path),
{
    lemma_outputs_map(raw);
    lemma_first_output_problem(raw);
    let m = outputs_map(raw);
    assert forall|j: int| 0 <= j < files.len() implies {
        &&& output_path_problem((#[trigger] files[j]).source) is None
        &&& normal_path(files[j].source) == files[j].path
        &&& path_parts(files[j].path) == path_parts(files[j].source)
        &&& files[j].path == join_parts(path_parts(files[j].path))
    } by {
        assert(m.contains_key(files[j].path));
        let i = choose|i: int|
            0 <= i < raw.len() && #[trigger] raw[i].0 == m[files[j].path].0 && forall|k: int|
                0 <= k < i ==> normal_path(#[trigger] raw[k].0) != files[j].path;
        assert(output_path_problem(raw[i].0) is None);
        lemma_normal_output_path(files[j].source);
    }
    assert forall|a: int, b: int|
        0 <= a < files.len() && 0 <= b < files.len() && a != b implies path_parts(
        (#[trigger] files[a]).path,
    ) != path_parts((#[trigger] files[b]).path) by {
        if a < b {
            assert(crate::paths::path_lt(files[a].path, files[b].path));
        } else {
            assert(crate::paths::path_lt(files[b].path, files[a].path));
        }
        if path_parts(files[a].path) == path_parts(files[b].path) {
            crate::paths::lemma_path_lt_irreflexive(files[a].path);
        }
    }
}

/// The files left by writing files below a directory that held none: exactly the written
/// files, each at the directory's parts followed by its path's parts, with its content.
pub proof fn lemma_files_written(fs: FileTree, dir: Seq<char>, files: Seq<OutputFileView>)
    requires
        forall|p: Seq<Seq<char>>| #[trigger] fs.contains_key(p) ==> !lies_under(path_parts(dir), p),
        forall|j: int|
            0 <= j < files.len() ==> {
                &&& output_path_problem((#[trigger] files[j]).source) is None
                &&& path_parts(files[j].path) == path_parts(files[j].source)
            },
        forall|a: int, b: int|
            0 <= a < files.len() && 0 <= b < files.len() && a != b ==> path_parts(
                (#[trigger] files[a]).path,
            ) != path_parts((#[trigger] files[b]).path),
    ensures
        ({
            let out = apply_steps(fs, files_write_steps(dir, files));
            &&& forall|p: Seq<Seq<char>>|
                lies_under(path_parts(dir), p) ==> (#[trigger] out.contains_key(p) <==> exists|j: int|
                    0 <= j < files.len() && p == path_parts(dir) + path_parts(
                        (#[trigger] files[j]).path,
                    ))
            &&& forall|j: int|
                0 <= j < files.len() ==> out.contains_key(path_parts(dir) + path_parts((#[trigger] files[j]).path))
                    && out[path_parts(dir) + path_parts(files[j].path)] == files[j].content
        }),
    decreases files.len(),
{
    let d = path_parts(dir);
    if files.len() == 0 {
        assert(files_write_steps(dir, files) =~= Seq::<WriteStepView>::empty());
    } else {
        let init = files.drop_last();
        let n = files.len() - 1;
        let f = files[n];
        assert(files.last() == f);
        assert forall|j: int| 0 <= j < n implies #[trigger] init[j] == files[j] by {}
        lemma_files_written(fs, dir, init);
        let before = apply_steps(fs, files_write_steps(dir, init));
        let steps = file_write_steps(dir, f);
        lemma_apply_steps_concat(fs, files_write_steps(dir, init), steps);
        assert(files_write_steps(dir, files) == files_write_steps(dir, init) + steps);
        let full = path_join(dir, f.source);
        lemma_normal_output_path(f.source);
        lemma_path_join_parts(dir, f.source);
        assert(path_parts(full) == d + path_parts(f.path));
        let out = apply_steps(fs, files_write_steps(dir, files));
        assert(out == before.insert(d + path_parts(f.path), f.content)) by {
            match path_parent(full) {
                Some(p) => {
                    let s2 = seq![WriteStepView::EnsureDir(p), WriteStepView::WriteFile(full, f.content)];
                    assert(steps == s2);
                    assert(s2.drop_last() =~= seq![WriteStepView::EnsureDir(p)]);
                    let one = seq![WriteStepView::EnsureDir(p)];
                    assert(one.drop_last() =~= Seq::<WriteStepView>::empty());
                    assert(apply_steps(before, one.drop_last()) == before);
                    assert(one.last() == WriteStepView::EnsureDir(p));
                    assert(apply_steps(before, one) == apply_step(before, WriteStepView::EnsureDir(p)));
                    assert(apply_steps(before, one) == before);
                    assert(s2.last() == WriteStepView::WriteFile(full, f.content));
                },
                None => {
                    let s1 = seq![WriteStepView::WriteFile(full, f.content)];
                    assert(steps == s1);
                    assert(s1.drop_last() =~= Seq::<WriteStepView>::empty());
                },
            }
        }
        let key = d + path_parts(f.path);
        assert(lies_under(d, key)) by {
            assert(path_parts(f.path).len() > 0);
            assert(key.take(d.len() as int) =~= d);
        }
        assert forall|p: Seq<Seq<char>>| lies_under(d, p) implies (#[trigger] out.contains_key(p)
            <==> exists|j: int| 0 <= j < files.len() && p == d + path_parts((#[trigger] files[j]).path)) by {
            if out.contains_key(p) && p != key {
                assert(before.contains_key(p));
                let j = choose|j: int| 0 <= j < init.len() && p == d + path_parts((#[trigger] init[j]).path);
                assert(files[j] == init[j]);
            }
            if exists|j: int| 0 <= j < files.len() && p == d + path_parts((#[trigger] files[j]).path) {
                let j = choose|j: int| 0 <= j < files.len() && p == d + path_parts((#[trigger] files[j]).path);
                if j < n {
                    assert(init[j] == files[j]);
                    assert(before.contains_key(d + path_parts(init[j].path)));
                }
            }
        }
        assert forall|j: int| 0 <= j < files.len() implies out.contains_key(d + path_parts((#[trigger] files[j]).path))
            && out[d + path_parts(files[j].path)] == files[j].content by {
            if j < n {
                assert(init[j] == files[j]);
                assert(path_parts(files[j].path) != path_parts(f.path));
                if d + path_parts(files[j].path) == key {
                    assert((d + path_parts(files[j].path)).skip(d.len() as int) =~= path_parts(files[j].path));
                    assert(key.skip(d.len() as int) =~= path_parts(f.path));
                }
            }
        }
    }
}

/// Whether a walk of a directory finds exactly its files in a file tree, each by its path
/// relative to the directory, and no symbolic link.
pub open spec fn walk_of(fs: FileTree, dir: Seq<char>, listing: Seq<ListedEntryView>) -> bool {
    let d = path_parts(dir);
    &&& forall|i: int| 0 <= i < listing.len() ==> (#[trigger] listing[i]).kind != EntryKind::Symlink
    &&& forall|i: int|
        0 <= i < listing.len() && (#[trigger] listing[i]).kind == EntryKind::File ==> path_parts(listing[i].path).len() > 0
            && fs.contains_key(d + path_parts(listing[i].path))
    &&& forall|p: Seq<Seq<char>>|
        #[trigger] fs.contains_key(p) && lies_under(d, p) ==> exists|i: int|
            0 <= i < listing.len() && listing[i].kind == EntryKind::File && p == d + path_parts(
                (#[trigger] listing[i]).path,
            )
}

/// Outputs that were generated are found up to date: starting from any files, writing a
/// target's outputs and then walking its outputs directory gives no symbolic link, asks to read
/// every generated file, and, with what reading them gives, the verdict "up to date".
pub proof fn lemma_generate_then_check(
    t: TargetOutputsView,
    raw: Seq<(Seq<char>, Seq<char>)>,
    before: FileTree,
    listing: Seq<ListedEntryView>,
    contents: Seq<Option<Seq<u8>>>,
)
    requires
        built_from(t.files, raw),
        first_output_problem(raw) is None,
        walk_of(apply_steps(before, target_write_steps(t)), t.outputs_dir, listing),
        contents.len() == files_to_read(t, listing).len(),
        forall|k: int|
            0 <= k < contents.len() ==> #[trigger] contents[k] == Some(
                encode_utf8(
                    apply_steps(before, target_write_steps(t))[path_parts(t.outputs_dir) + path_parts(
                        files_to_read(t, listing)[k].path,
                    )],
                ),
            ),
    ensures
        first_symlink(listing) is None,
        files_to_read(t, listing) == t.files,
        outputs_current(t, listing, contents),
        forall|j: int|
            0 <= j < t.files.len() ==> lies_under(
                path_parts(t.outputs_dir),
                path_parts(t.outputs_dir) + path_parts((#[trigger] t.files[j]).path),
            ) && apply_steps(before, target_write_steps(t)).contains_key(
                path_parts(t.outputs_dir) + path_parts(t.files[j].path),
            ),
{
    lemma_no_symlink(listing);
    let dir = t.outputs_dir;
    let d = path_parts(dir);
    let files = t.files;
    lemma_built_files(files, raw);
    let head = seq![WriteStepView::ClearDir(dir), WriteStepView::CreateDir(dir)];
    lemma_apply_steps_concat(before, head, files_write_steps(dir, files));
    let cleared = apply_steps(before, head);
    assert(cleared == apply_step(apply_step(before, WriteStepView::ClearDir(dir)), WriteStepView::CreateDir(dir))) by {
        let one = seq![WriteStepView::ClearDir(dir)];
        assert(head.drop_last() =~= one);
        assert(head.last() == WriteStepView::CreateDir(dir));
        assert(one.drop_last() =~= Seq::<WriteStepView>::empty());
        assert(apply_steps(before, one.drop_last()) == before);
        assert(one.last() == WriteStepView::ClearDir(dir));
        assert(apply_steps(before, one) == apply_step(before, WriteStepView::ClearDir(dir)));
    }
    lemma_files_written(cleared, dir, files);
    let after = apply_steps(before, target_write_steps(t));
    assert(after == apply_steps(cleared, files_write_steps(dir, files)));
    // the files the walk finds are the generated ones
    let ex = listed_files(listing);
    let gen = generated_paths(files);
    let ps = files.map_values(|f: OutputFileView| f.path);
    assert forall|q: Seq<char>| ex.contains(q) <==> gen.contains(q) by {
        if ex.contains(q) {
            let i = choose|i: int|
                0 <= i < listing.len() && listing[i].kind == EntryKind::File && normal_path(
                    #[trigger] listing[i].path,
                ) == q;
            let rel = path_parts(listing[i].path);
            assert(after.contains_key(d + rel));
            assert(lies_under(d, d + rel)) by {
                assert((d + rel).take(d.len() as int) =~= d);
            }
            let j = choose|j: int| 0 <= j < files.len() && d + rel == d + path_parts((#[trigger] files[j]).path);
            assert(rel =~= (d + rel).skip(d.len() as int));
            assert(path_parts(files[j].path) =~= (d + path_parts(files[j].path)).skip(d.len() as int));
            assert(q == join_parts(rel));
            assert(ps[j] == q);
        }
        if gen.contains(q) {
            let j = choose|j: int| 0 <= j < ps.len() && #[trigger] ps[j] == q;
            assert(ps[j] == files[j].path);
            let key = d + path_parts(files[j].path);
            assert(after.contains_key(key));
            assert(lies_under(d, key)) by {
                assert(key.take(d.len() as int) =~= d);
            }
            let i = choose|i: int|
                0 <= i < listing.len() && listing[i].kind == EntryKind::File && key == d + path_parts(
                    (#[trigger] listing[i]).path,
                );
            assert(path_parts(listing[i].path) =~= key.skip(d.len() as int));
            assert(path_parts(files[j].path) =~= key.skip(d.len() as int));
            assert(normal_path(listing[i].path) == q);
        }
    }
    assert(ex =~= gen);
    assert forall|j: int| 0 <= j < files.len() implies ex.contains(#[trigger] files[j].path) by {
        assert(ps[j] == files[j].path);
        assert(gen.contains(ps[j]));
    }
    lemma_files_in_all(files, ex);
    assert(files_to_read(t, listing) == files);
    assert forall|j: int| 0 <= j < files.len() implies lies_under(d, d + path_parts((#[trigger] files[j]).path))
        && after.contains_key(d + path_parts(files[j].path)) by {
        lemma_normal_output_path(files[j].source);
        assert((d + path_parts(files[j].path)).take(d.len() as int) =~= d);
    }
}

/// A path with no `.` or `..` problem has no `.` or `..` part.
pub proof fn lemma_no_dot_parts(ps: Seq<Seq<char>>)
    requires
        first_part_problem(ps) is None,
    ensures
        forall|i: int| 0 <= i < ps.len() ==> #[trigger] ps[i] != seq!['.'] && ps[i] != seq!['.', '.'],
    decreases ps.len(),
{
    if ps.len() > 0 {
        lemma_no_dot_parts(ps.drop_first());
        assert forall|i: int| 0 < i < ps.len() implies #[trigger] ps[i] == ps.drop_first()[i - 1] by {}
    }
}

/// Writing outputs never reaches outside the outputs directory: every file written lies
/// strictly below it, and the parts below it are never `.` or `..`.
pub proof fn lemma_writes_stay_inside(t: TargetOutputsView, raw: Seq<(Seq<char>, Seq<char>)>)
    requires
        built_from(t.files, raw),
        first_output_problem(raw) is None,
    ensures
        forall|k: int|
            0 <= k < target_write_steps(t).len() ==> match #[trigger] target_write_steps(t)[k] {
                WriteStepView::WriteFile(f, _) => {
                    &&& lies_under(path_parts(t.outputs_dir), path_parts(f))
                    &&& forall|i: int|
                        path_parts(t.outputs_dir).len() <= i < path_parts(f).len() ==> #[trigger] path_parts(f)[i]
                            != seq!['.'] && path_parts(f)[i] != seq!['.', '.']
                },
                _ => true,
            },
{
    let d = path_parts(t.outputs_dir);
    lemma_write_steps(t);
    lemma_built_files(t.files, raw);
    let steps = target_write_steps(t);
    assert forall|k: int| 0 <= k < steps.len() implies match #[trigger] steps[k] {
        WriteStepView::WriteFile(f, _) => {
            &&& lies_under(d, path_parts(f))
            &&& forall|i: int|
                d.len() <= i < path_parts(f).len() ==> #[trigger] path_parts(f)[i] != seq!['.']
                    && path_parts(f)[i] != seq!['.', '.']
        },
        _ => true,
    } by {
        if let WriteStepView::WriteFile(f, c) = steps[k] {
            let j = choose|j: int|
                0 <= j < t.files.len() && steps[k] == WriteStepView::WriteFile(
                    path_join(t.outputs_dir, (#[trigger] t.files[j]).source),
                    t.files[j].content,
                );
            let src = t.files[j].source;
            lemma_normal_output_path(src);
            lemma_path_join_parts(t.outputs_dir, src);
            let rel = path_parts(src);
            assert(path_parts(f) == d + rel);
            assert((d + rel).take(d.len() as int) =~= d);
            lemma_no_dot_parts(rel);
            assert forall|i: int| d.len() <= i < path_parts(f).len() implies #[trigger] path_parts(f)[i]
                != seq!['.'] && path_parts(f)[i] != seq!['.', '.'] by {
                assert(path_parts(f)[i] == rel[i - d.len()]);
            }
        }
    }
}

/// Whether two file trees hold the same files, with the same contents, strictly below a
/// directory.
pub open spec fn agree_under(a: FileTree, b: FileTree, d: Seq<Seq<char>>) -> bool {
    forall|p: Seq<Seq<char>>|
        #![trigger a.contains_key(p)]
        #![trigger b.contains_key(p)]
        lies_under(d, p) ==> (a.contains_key(p) <==> b.contains_key(p)) && (a.contains_key(p) ==> a[p]
            == b[p])
}

/// Whether neither of two directories (by their parts) is the other or lies within it.
pub open spec fn dirs_apart(x: Seq<Seq<char>>, y: Seq<Seq<char>>) -> bool {
    &&& !(x.len() <= y.len() && y.take(x.len() as int) == x)
    &&& !(y.len() <= x.len() && x.take(y.len() as int) == y)
}

/// No file lies below two directories that lie apart.
proof fn lemma_apart_disjoint(x: Seq<Seq<char>>, y: Seq<Seq<char>>, p: Seq<Seq<char>>)
    requires
        dirs_apart(x, y),
        lies_under(x, p),
    ensures
        !lies_under(y, p),
{
    if lies_under(y, p) {
        if x.len() <= y.len() {
            assert(y.take(x.len() as int) =~= p.take(x.len() as int));
        } else {
            assert(x.take(y.len() as int) =~= p.take(y.len() as int));
        }
    }
}

/// Whether write steps never clear a directory that holds or lies within `d`, and never write
/// a file below `d`.
pub open spec fn steps_outside(steps: Seq<WriteStepView>, d: Seq<Seq<char>>) -> bool {
    forall|i: int|
        0 <= i < steps.len() ==> match #[trigger] steps[i] {
            WriteStepView::ClearDir(x) => dirs_apart(path_parts(x), d),
            WriteStepView::WriteFile(f, _) => !lies_under(d, path_parts(f)),
            _ => true,
        }
}

/// Steps that stay outside a directory leave the files below it as they were.
proof fn lemma_steps_outside(fs: FileTree, steps: Seq<WriteStepView>, d: Seq<Seq<char>>)
    requires
        steps_outside(steps, d),
    ensures
        agree_under(fs, apply_steps(fs, steps), d),
    decreases steps.len(),
{
    if steps.len() > 0 {
        let init = steps.drop_last();
        assert forall|i: int| 0 <= i < init.len() implies match #[trigger] init[i] {
            WriteStepView::ClearDir(x) => dirs_apart(path_parts(x), d),
            WriteStepView::WriteFile(f, _) => !lies_under(d, path_parts(f)),
            _ => true,
        } by {
            assert(init[i] == steps[i]);
        }
        lemma_steps_outside(fs, init, d);
        let prev = apply_steps(fs, init);
        let out = apply_steps(fs, steps);
        assert(out == apply_step(prev, steps.last()));
        assert(steps.last() == steps[steps.len() - 1]);
        assert forall|p: Seq<Seq<char>>| lies_under(d, p) implies (#[trigger] prev.contains_key(p)
            <==> out.contains_key(p)) && (prev.contains_key(p) ==> prev[p] == out[p]) by {
            match steps.last() {
                WriteStepView::ClearDir(x) => {
                    lemma_apart_disjoint(d, path_parts(x), p);
                },
                WriteStepView::WriteFile(f, c) => {},
                _ => {},
            }
        }
        assert forall|p: Seq<Seq<char>>| lies_under(d, p) implies (#[trigger] fs.contains_key(p)
            <==> out.contains_key(p)) && (fs.contains_key(p) ==> fs[p] == out[p]) by {
            assert(fs.contains_key(p) <==> prev.contains_key(p));
        }
    }
}

/// The steps that write files never clear a directory.
proof fn lemma_files_write_steps_clear_nothing(dir: Seq<char>, files: Seq<OutputFileView>)
    ensures
        forall|k: int|
            0 <= k < files_write_steps(dir, files).len() ==> !((#[trigger] files_write_steps(
                dir,
                files,
            )[k]) is ClearDir),
    decreases files.len(),
{
    if files.len() > 0 {
        lemma_files_write_steps_clear_nothing(dir, files.drop_last());
        let a = files_write_steps(dir, files.drop_last());
        let b = file_write_steps(dir, files.last());
        assert(files_write_steps(dir, files) == a + b);
        assert forall|k: int| 0 <= k < (a + b).len() implies !((#[trigger] (a + b)[k]) is ClearDir) by {
            if k >= a.len() {
                assert((a + b)[k] == b[k - a.len()]);
            } else {
                assert((a + b)[k] == a[k]);
            }
        }
    }
}

/// Writing a target's outputs stays outside every directory that lies apart from its outputs
/// directory.
proof fn lemma_target_steps_outside(
    t: TargetOutputsView,
    raw: Seq<(Seq<char>, Seq<char>)>,
    d: Seq<Seq<char>>,
)
    requires
        built_from(t.files, raw),
        first_output_problem(raw) is None,
        dirs_apart(path_parts(t.outputs_dir), d),
    ensures
        steps_outside(target_write_steps(t), d),
{
    let steps = target_write_steps(t);
    let own = path_parts(t.outputs_dir);
    lemma_writes_stay_inside(t, raw);
    lemma_files_write_steps_clear_nothing(t.outputs_dir, t.files);
    let head = seq![WriteStepView::ClearDir(t.outputs_dir), WriteStepView::CreateDir(t.outputs_dir)];
    let body = files_write_steps(t.outputs_dir, t.files);
    assert(steps == head + body);
    assert forall|i: int| 0 <= i < steps.len() implies match #[trigger] steps[i] {
        WriteStepView::ClearDir(x) => dirs_apart(path_parts(x), d),
        WriteStepView::WriteFile(f, _) => !lies_under(d, path_parts(f)),
        _ => true,
    } by {
        if i >= 2 {
            assert(steps[i] == body[i - 2]);
        }
        match steps[i] {
            WriteStepView::WriteFile(f, _) => {
                lemma_apart_disjoint(own, d, path_parts(f));
            },
            _ => {},
        }
    }
}

/// The steps that write the first `j + 1` targets are those of the first `j`, then those of
/// target `j`.
proof fn lemma_project_steps_take(po: Seq<(Seq<char>, TargetOutputsView)>, j: int)
    requires
        0 <= j < po.len(),
    ensures
        project_write_steps(po.take(j + 1)) == project_write_steps(po.take(j)) + target_write_steps(
            po[j].1,
        ),
{
    assert(po.take(j + 1).drop_last() =~= po.take(j));
    assert(po.take(j + 1).last() == po[j]);
}

/// Writing the targets after target `k`, whose outputs directories lie apart from its own,
/// leaves the files below its outputs directory as writing up to target `k` left them.
proof fn lemma_later_targets_outside(
    po: Seq<(Seq<char>, TargetOutputsView)>,
    raws: Seq<Seq<(Seq<char>, Seq<char>)>>,
    before: FileTree,
    k: int,
    j: int,
)
    requires
        raws.len() == po.len(),
        forall|i: int|
            0 <= i < po.len() ==> built_from((#[trigger] po[i]).1.files, raws[i])
                && first_output_problem(raws[i]) is None,
        forall|a: int, b: int|
            0 <= a < b < po.len() ==> dirs_apart(
                path_parts((#[trigger] po[a]).1.outputs_dir),
                path_parts((#[trigger] po[b]).1.outputs_dir),
            ),
        0 <= k < j <= po.len(),
    ensures
        agree_under(
            apply_steps(before, project_write_steps(po.take(k + 1))),
            apply_steps(before, project_write_steps(po.take(j))),
            path_parts(po[k].1.outputs_dir),
        ),
    decreases j - k,
{
    let d = path_parts(po[k].1.outputs_dir);
    if j > k + 1 {
        lemma_later_targets_outside(po, raws, before, k, j - 1);
        lemma_project_steps_take(po, j - 1);
        let mid = apply_steps(before, project_write_steps(po.take(j - 1)));
        lemma_apply_steps_concat(before, project_write_steps(po.take(j - 1)), target_write_steps(po[j - 1].1));
        assert(dirs_apart(path_parts(po[k].1.outputs_dir), path_parts(po[j - 1].1.outputs_dir)));
        lemma_target_steps_outside(po[j - 1].1, raws[j - 1], d);
        lemma_steps_outside(mid, target_write_steps(po[j - 1].1), d);
    }
}

/// A walk of a directory in one file tree is a walk of it in any tree that agrees below it.
proof fn lemma_walk_agree(a: FileTree, b: FileTree, dir: Seq<char>, listing: Seq<ListedEntryView>)
    requires
        agree_under(a, b, path_parts(dir)),
        walk_of(b, dir, listing),
    ensures
        walk_of(a, dir, listing),
{
    let d = path_parts(dir);
    assert forall|i: int|
        0 <= i < listing.len() && (#[trigger] listing[i]).kind == EntryKind::File implies path_parts(
        listing[i].path,
    ).len() > 0 && a.contains_key(d + path_parts(listing[i].path)) by {
        assert((d + path_parts(listing[i].path)).take(d.len() as int) =~= d);
        assert(b.contains_key(d + path_parts(listing[i].path)));
    }
    assert forall|p: Seq<Seq<char>>| #[trigger] a.contains_key(p) && lies_under(d, p) implies exists|i: int|
        0 <= i < listing.len() && listing[i].kind == EntryKind::File && p == d + path_parts(
            (#[trigger] listing[i]).path,
        ) by {
        assert(b.contains_key(p));
    }
}

/// Generating a whole project and then checking it finds every target up to date, when the
/// targets' outputs directories lie apart (none is another's or lies within it): starting from
/// any files, writing every target's outputs, target after target (each outputs directory
/// created anew), and then walking each target's outputs directory finds no symbolic link, asks
/// to read every generated file, and, with what reading them gives, the verdict "up to date";
/// so, with these verdicts, no check failed and no target is stale.
pub proof fn lemma_generate_then_check_project<E>(
    po: Seq<(Seq<char>, TargetOutputsView)>,
    raws: Seq<Seq<(Seq<char>, Seq<char>)>>,
    before: FileTree,
    listings: Seq<Seq<ListedEntryView>>,
    contents: Seq<Seq<Option<Seq<u8>>>>,
    verdicts: Seq<Result<bool, E>>,
)
    requires
        raws.len() == po.len(),
        listings.len() == po.len(),
        contents.len() == po.len(),
        verdicts.len() == po.len(),
        forall|i: int|
            0 <= i < po.len() ==> built_from((#[trigger] po[i]).1.files, raws[i])
                && first_output_problem(raws[i]) is None,
        forall|a: int, b: int|
            0 <= a < b < po.len() ==> dirs_apart(
                path_parts((#[trigger] po[a]).1.outputs_dir),
                path_parts((#[trigger] po[b]).1.outputs_dir),
            ),
        forall|k: int|
            0 <= k < po.len() ==> walk_of(
                apply_steps(before, project_write_steps(po)),
                (#[trigger] po[k]).1.outputs_dir,
                listings[k],
            ),
        forall|k: int|
            0 <= k < po.len() ==> (#[trigger] contents[k]).len() == files_to_read(po[k].1, listings[k]).len(),
        forall|k: int, i: int|
            0 <= k < po.len() && 0 <= i < contents[k].len() ==> #[trigger] contents[k][i] == Some(
                encode_utf8(
                    apply_steps(before, project_write_steps(po))[path_parts(po[k].1.outputs_dir)
                        + path_parts(files_to_read(po[k].1, listings[k])[i].path)],
                ),
            ),
        forall|k: int|
            0 <= k < po.len() ==> #[trigger] verdicts[k] == Ok::<bool, E>(
                outputs_current(po[k].1, listings[k], contents[k]),
            ),
    ensures
        forall|k: int|
            0 <= k < po.len() ==> {
                &&& first_symlink(#[trigger] listings[k]) is None
                &&& files_to_read(po[k].1, listings[k]) == po[k].1.files
                &&& outputs_current(po[k].1, listings[k], contents[k])
            },
        first_err(verdicts) is None,
        stale_names(output_names(po), verdicts).len() == 0,
{
    let after = apply_steps(before, project_write_steps(po));
    assert(po.take(po.len() as int) =~= po);
    assert forall|k: int| 0 <= k < po.len() implies {
        &&& first_symlink(#[trigger] listings[k]) is None
        &&& files_to_read(po[k].1, listings[k]) == po[k].1.files
        &&& outputs_current(po[k].1, listings[k], contents[k])
    } by {
        let t = po[k].1;
        let d = path_parts(t.outputs_dir);
        let pre = apply_steps(before, project_write_steps(po.take(k)));
        lemma_project_steps_take(po, k);
        lemma_apply_steps_concat(before, project_write_steps(po.take(k)), target_write_steps(t));
        let after_k = apply_steps(pre, target_write_steps(t));
        assert(after_k == apply_steps(before, project_write_steps(po.take(k + 1))));
        lemma_later_targets_outside(po, raws, before, k, po.len() as int);
        assert(agree_under(after_k, after, d));
        lemma_walk_agree(after_k, after, t.outputs_dir, listings[k]);
        let rd = files_to_read(t, listings[k]);
        let c2 = Seq::new(
            rd.len(),
            |i: int| Some(encode_utf8(after_k[d + path_parts(rd[i].path)])),
        );
        lemma_generate_then_check(t, raws[k], pre, listings[k], c2);
        assert forall|i: int| 0 <= i < rd.len() implies #[trigger] c2[i] == contents[k][i] by {
            assert(rd[i] == t.files[i]);
            assert(lies_under(d, d + path_parts(t.files[i].path)));
            assert(after_k.contains_key(d + path_parts(t.files[i].path)));
        }
        assert(c2 =~= contents[k]);
    }
    lemma_first_err(verdicts);
    lemma_stale_names(output_names(po), verdicts);
    assert forall|i: int| 0 <= i < verdicts.len() implies #[trigger] verdicts[i] == Ok::<bool, E>(true) by {
        assert(outputs_current(po[i].1, listings[i], contents[i]));
    }
}

} // verus!
