//! Generated outputs: validation of output paths, the up-to-date check, and the steps that
//! write or show them.

use vstd::prelude::*;

use crate::paths::{
    check_output_path, chars_less, chars_of, join, lemma_path_lt_irreflexive,
    lemma_path_lt_total, lemma_path_lt_transitive, normal_path, normalize, output_path_problem,
    parent, path_join, path_lt, path_parent, OutputPathProblem,
};
use crate::names::{lemma_names_sorted_push, names_sorted, text_lt};
use crate::pathset::PathSet;
use vstd::utf8::encode_utf8;

verus! {

/// A generated file as the specification sees it.
pub struct OutputFileView {
    /// The output path in normal form.
    pub path: Seq<char>,
    /// The output path as the evaluation gave it.
    pub source: Seq<char>,
    /// The file's contents.
    pub content: Seq<char>,
}

/// The first entry whose path cannot name an output, with its problem.
pub open spec fn first_output_problem(raw: Seq<(Seq<char>, Seq<char>)>) -> Option<
    (Seq<char>, OutputPathProblem),
>
    decreases raw.len(),
{
    if raw.len() == 0 {
        None
    } else if output_path_problem(raw[0].0) is Some {
        Some((raw[0].0, output_path_problem(raw[0].0)->0))
    } else {
        first_output_problem(raw.drop_first())
    }
}

/// The outputs that a list of (path, content) entries describes, keyed by normal path:
/// entries are taken in order; a later entry with the same normal path replaces the content
/// and keeps the path as first given.
pub open spec fn outputs_map(raw: Seq<(Seq<char>, Seq<char>)>) -> Map<
    Seq<char>,
    (Seq<char>, Seq<char>),
>
    decreases raw.len(),
{
    if raw.len() == 0 {
        Map::empty()
    } else {
        let m = outputs_map(raw.drop_last());
        let key = raw.last().0;
        let content = raw.last().1;
        let p = normal_path(key);
        if m.contains_key(p) {
            m.insert(p, (m[p].0, content))
        } else {
            m.insert(p, (key, content))
        }
    }
}

/// Files in strictly increasing path order.
pub open spec fn files_sorted(files: Seq<OutputFileView>) -> bool {
    forall|i: int, j: int|
        0 <= i < j < files.len() ==> path_lt(#[trigger] files[i].path, #[trigger] files[j].path)
}

/// The files are exactly the entries of the map.
pub open spec fn files_match(files: Seq<OutputFileView>, m: Map<Seq<char>, (Seq<char>, Seq<char>)>) -> bool {
    &&& forall|i: int|
        0 <= i < files.len() ==> #[trigger] m.contains_key(files[i].path) && m[files[i].path] == (
        files[i].source,
        files[i].content,
    )
    &&& forall|p: Seq<char>| #[trigger] m.contains_key(p) ==> exists|i: int| 0 <= i < files.len() && files[i].path == p
}

/// Views of (path, content) entries.
pub open spec fn entries_view(raw: Seq<(String, String)>) -> Seq<(Seq<char>, Seq<char>)> {
    raw.map_values(|e: (String, String)| (e.0@, e.1@))
}

/// A generated file.
#[derive(Debug)]
pub struct OutputFile {
    path: String,
    source: String,
    content: String,
}

impl View for OutputFile {
    type V = OutputFileView;

    closed spec fn view(&self) -> OutputFileView {
        OutputFileView { path: self.path@, source: self.source@, content: self.content@ }
    }
}

/// Views of generated files.
pub open spec fn files_view(files: Seq<OutputFile>) -> Seq<OutputFileView> {
    files.map_values(|f: OutputFile| f@)
}

/// A path that cannot name a generated output.
#[derive(Debug)]
pub struct OutputPathError {
    /// The path as given.
    pub path: String,
    /// What is wrong with it.
    pub problem: OutputPathProblem,
}

/// The outputs of one target, to be placed under `outputs_dir`.
#[derive(Debug)]
pub struct TargetOutputs {
    outputs_dir: String,
    files: Vec<OutputFile>,
}

/// A target's outputs as the specification sees them.
pub struct TargetOutputsView {
    pub outputs_dir: Seq<char>,
    pub files: Seq<OutputFileView>,
}

impl View for TargetOutputs {
    type V = TargetOutputsView;

    closed spec fn view(&self) -> TargetOutputsView {
        TargetOutputsView { outputs_dir: self.outputs_dir@, files: files_view(self.files@) }
    }
}

/// Whether the files are the outputs that the entries describe, in path order.
pub open spec fn built_from(files: Seq<OutputFileView>, raw: Seq<(Seq<char>, Seq<char>)>) -> bool {
    files_sorted(files) && files_match(files, outputs_map(raw))
}

impl TargetOutputs {
    #[verifier::type_invariant]
    spec fn inv(&self) -> bool {
        files_sorted(files_view(self.files@))
    }

    /// Builds a target's outputs from the (path, content) entries of its evaluation.
    ///
    /// Every path must be relative, have at least one part and have no `.` or `..` part;
    /// otherwise the first entry that breaks this is reported.
    pub fn build(outputs_dir: String, outputs: Vec<(String, String)>) -> (res: Result<
        TargetOutputs,
        OutputPathError,
    >)
        ensures
            match first_output_problem(entries_view(outputs@)) {
                Some((path, problem)) => res matches Err(e) && e.path@ == path && e.problem
                    == problem,
                None => res matches Ok(t) && t@.outputs_dir == outputs_dir@ && built_from(
                    t@.files,
                    entries_view(outputs@),
                ),
            },
    {
        let ghost raw = entries_view(outputs@);
        let n = outputs.len();
        let mut normals: Vec<String> = Vec::new();
        let mut k: usize = 0;
        assert(raw.skip(0) =~= raw);
        while k < n
            invariant
                n == outputs@.len(),
                raw == entries_view(outputs@),
                k <= n,
                normals@.len() == k,
                forall|j: int| 0 <= j < k ==> output_path_problem(#[trigger] raw[j].0) is None,
                forall|j: int| 0 <= j < k ==> #[trigger] normals@[j]@ == normal_path(raw[j].0),
                first_output_problem(raw) == first_output_problem(raw.skip(k as int)),
            decreases n - k,
        {
            let key = &outputs[k].0;
            assert(raw[k as int].0 == key@);
            assert(raw.skip(k as int)[0] == raw[k as int]);
            assert(raw.skip(k as int).drop_first() =~= raw.skip(k + 1));
            match check_output_path(key.as_str()) {
                Ok(normal) => {
                    normals.push(normal);
                },
                Err(problem) => {
                    return Err(OutputPathError { path: key.clone(), problem });
                },
            }
            k = k + 1;
        }
        assert(raw.skip(n as int) =~= Seq::<(Seq<char>, Seq<char>)>::empty());
        let mut files: Vec<OutputFile> = Vec::new();
        let mut k: usize = 0;
        assert(raw.take(0) =~= Seq::<(Seq<char>, Seq<char>)>::empty());
        assert(outputs_map(raw.take(0)) =~= Map::<Seq<char>, (Seq<char>, Seq<char>)>::empty());
        while k < n
            invariant
                n == outputs@.len(),
                raw == entries_view(outputs@),
                normals@.len() == n,
                forall|j: int| 0 <= j < n ==> #[trigger] normals@[j]@ == normal_path(raw[j].0),
                k <= n,
                built_from(files_view(files@), raw.take(k as int)),
            decreases n - k,
        {
            let key = outputs[k].0.clone();
            let content = outputs[k].1.clone();
            let path = normals[k].clone();
            assert(raw.take(k + 1).drop_last() =~= raw.take(k as int));
            assert(raw.take(k + 1).last() == raw[k as int]);
            insert_output(&mut files, path, key, content);
            k = k + 1;
        }
        assert(raw.take(n as int) =~= raw);
        Ok(TargetOutputs { outputs_dir, files })
    }
}

/// What a walk of an outputs directory found at a path.
#[derive(Debug, Clone, Copy, PartialEq, Eq, Structural)]
pub enum EntryKind {
    /// A regular file.
    File,
    /// A symbolic link.
    Symlink,
    /// A directory or anything else.
    Other,
}

/// One entry of a walk of an outputs directory.
#[derive(Debug)]
pub struct ListedEntry {
    /// The entry's path relative to the outputs directory.
    pub path: String,
    /// What the entry is.
    pub kind: EntryKind,
}

/// A listed entry as the specification sees it.
pub struct ListedEntryView {
    pub path: Seq<char>,
    pub kind: EntryKind,
}

/// Views of listed entries.
pub open spec fn listing_view(listing: Seq<ListedEntry>) -> Seq<ListedEntryView> {
    listing.map_values(|e: ListedEntry| ListedEntryView { path: e.path@, kind: e.kind })
}

/// The first symbolic link of a listing, if any.
pub open spec fn first_symlink(listing: Seq<ListedEntryView>) -> Option<Seq<char>>
    decreases listing.len(),
{
    if listing.len() == 0 {
        None
    } else if listing[0].kind == EntryKind::Symlink {
        Some(listing[0].path)
    } else {
        first_symlink(listing.drop_first())
    }
}

/// The regular files of a listing, by normal path.
pub open spec fn listed_files(listing: Seq<ListedEntryView>) -> Set<Seq<char>> {
    Set::new(
        |p: Seq<char>|
            exists|i: int|
                0 <= i < listing.len() && listing[i].kind == EntryKind::File && normal_path(
                    #[trigger] listing[i].path,
                ) == p,
    )
}

/// The normal paths of generated files.
pub open spec fn generated_paths(files: Seq<OutputFileView>) -> Set<Seq<char>> {
    files.map_values(|f: OutputFileView| f.path).to_set()
}

/// The generated files that also exist, in order.
pub open spec fn files_in(files: Seq<OutputFileView>, existing: Set<Seq<char>>) -> Seq<OutputFileView>
    decreases files.len(),
{
    if files.len() == 0 {
        seq![]
    } else {
        let rest = files_in(files.drop_last(), existing);
        if existing.contains(files.last().path) {
            rest.push(files.last())
        } else {
            rest
        }
    }
}

/// The generated files whose existing copies must be read to compare contents.
pub open spec fn files_to_read(t: TargetOutputsView, listing: Seq<ListedEntryView>) -> Seq<OutputFileView> {
    files_in(t.files, listed_files(listing))
}

/// Whether the outputs directory holds exactly the generated files with the generated
/// contents: no extra file, no missing file, and each read content (`None` where the file
/// was gone when read) equal to the UTF-8 encoding of the generated content.
pub open spec fn outputs_current(
    t: TargetOutputsView,
    listing: Seq<ListedEntryView>,
    contents: Seq<Option<Seq<u8>>>,
) -> bool {
    &&& listed_files(listing) == generated_paths(t.files)
    &&& forall|k: int|
        0 <= k < files_to_read(t, listing).len() ==> #[trigger] contents[k] == Some(
            encode_utf8(files_to_read(t, listing)[k].content),
        )
}

/// The contents of files that were read (`None` where the file was gone).
pub open spec fn contents_view(contents: Seq<Option<Vec<u8>>>) -> Seq<Option<Seq<u8>>> {
    contents.map_values(
        |c: Option<Vec<u8>>|
            match c {
                Some(v) => Some(v@),
                None => None,
            },
    )
}

/// Byte-wise equality.
fn bytes_equal(a: &Vec<u8>, b: &[u8]) -> (res: bool)
    ensures
        res == (a@ == b@),
{
    if a.len() != b.len() {
        return false;
    }
    let mut i: usize = 0;
    while i < a.len()
        invariant
            a@.len() == b@.len(),
            i <= a.len(),
            forall|j: int| 0 <= j < i ==> a@[j] == b@[j],
        decreases a.len() - i,
    {
        if a[i] != b[i] {
            return false;
        }
        i = i + 1;
    }
    assert(a@ =~= b@);
    true
}

/// The normal paths of a listing's regular files.
fn listed_file_set(listing: &Vec<ListedEntry>) -> (res: PathSet)
    ensures
        res@.to_set() == listed_files(listing_view(listing@)),
{
    let ghost lv = listing_view(listing@);
    let mut res = PathSet::new();
    let mut i: usize = 0;
    while i < listing.len()
        invariant
            lv == listing_view(listing@),
            i <= listing.len(),
            res@.to_set() == listed_files(lv.take(i as int)),
        decreases listing.len() - i,
    {
        assert(lv[i as int].path == listing[i as int].path@);
        assert(lv.take(i + 1).drop_last() =~= lv.take(i as int));
        let ghost before = res@.to_set();
        if listing[i].kind == EntryKind::File {
            let p = normalize(listing[i].path.as_str());
            res.insert(p);
            proof {
                let lt = lv.take(i + 1);
                assert forall|q: Seq<char>| #[trigger] listed_files(lt).contains(q) <==> before.insert(
                    normal_path(lv[i as int].path),
                ).contains(q) by {
                    if listed_files(lt).contains(q) {
                        let j = choose|j: int|
                            0 <= j < lt.len() && lt[j].kind == EntryKind::File && normal_path(
                                #[trigger] lt[j].path,
                            ) == q;
                        if j < i {
                            assert(lv.take(i as int)[j] == lt[j]);
                            assert(listed_files(lv.take(i as int)).contains(q));
                        }
                    }
                    if before.contains(q) {
                        let j = choose|j: int|
                            0 <= j < i && lv.take(i as int)[j].kind == EntryKind::File && normal_path(
                                #[trigger] lv.take(i as int)[j].path,
                            ) == q;
                        assert(lt[j] == lv.take(i as int)[j]);
                    }
                    if q == normal_path(lv[i as int].path) {
                        assert(lt[i as int] == lv[i as int]);
                    }
                }
                assert(res@.to_set() =~= listed_files(lt));
            }
        } else {
            proof {
                let lt = lv.take(i + 1);
                assert forall|q: Seq<char>| #[trigger] listed_files(lt).contains(q) <==> before.contains(q) by {
                    if listed_files(lt).contains(q) {
                        let j = choose|j: int|
                            0 <= j < lt.len() && lt[j].kind == EntryKind::File && normal_path(
                                #[trigger] lt[j].path,
                            ) == q;
                        assert(j < i);
                        assert(lv.take(i as int)[j] == lt[j]);
                    }
                    if before.contains(q) {
                        let j = choose|j: int|
                            0 <= j < i && lv.take(i as int)[j].kind == EntryKind::File && normal_path(
                                #[trigger] lv.take(i as int)[j].path,
                            ) == q;
                        assert(lt[j] == lv.take(i as int)[j]);
                    }
                }
                assert(res@.to_set() =~= listed_files(lt));
            }
        }
        i = i + 1;
    }
    assert(lv.take(i as int) =~= lv);
    res
}

/// A symbolic link found among outputs, which generation could never produce.
#[derive(Debug)]
pub struct SymlinkError {
    /// The link's path relative to the outputs directory.
    pub path: String,
}

impl TargetOutputs {
    /// The outputs directory.
    pub fn outputs_dir(&self) -> (res: &String)
        ensures
            res@ == self@.outputs_dir,
    {
        &self.outputs_dir
    }

    /// Number of generated files.
    pub fn len(&self) -> (res: usize)
        ensures
            res == self@.files.len(),
    {
        self.files.len()
    }

    /// First step of the up-to-date check: given a walk of the outputs directory, the full
    /// paths of the generated files that exist there and must be read, in path order; or the
    /// first symbolic link of the walk.
    pub fn files_to_compare(&self, listing: &Vec<ListedEntry>) -> (res: Result<Vec<String>, SymlinkError>)
        ensures
            match first_symlink(listing_view(listing@)) {
                Some(p) => res matches Err(e) && e.path@ == p,
                None => res matches Ok(v) && v@.len() == files_to_read(self@, listing_view(listing@)).len()
                    && forall|k: int|
                    0 <= k < v@.len() ==> #[trigger] v@[k]@ == path_join(
                        self@.outputs_dir,
                        files_to_read(self@, listing_view(listing@))[k].source,
                    ),
            },
    {
        let ghost lv = listing_view(listing@);
        let mut i: usize = 0;
        assert(lv.skip(0) =~= lv);
        while i < listing.len()
            invariant
                lv == listing_view(listing@),
                i <= listing.len(),
                first_symlink(lv) == first_symlink(lv.skip(i as int)),
            decreases listing.len() - i,
        {
            assert(lv.skip(i as int)[0] == lv[i as int]);
            assert(lv.skip(i as int).drop_first() =~= lv.skip(i + 1));
            if listing[i].kind == EntryKind::Symlink {
                return Err(SymlinkError { path: listing[i].path.clone() });
            }
            i = i + 1;
        }
        let existing = listed_file_set(listing);
        let ghost ex = listed_files(lv);
        let ghost fv = self@.files;
        let mut res: Vec<String> = Vec::new();
        let mut k: usize = 0;
        while k < self.files.len()
            invariant
                fv == self@.files,
                fv == files_view(self.files@),
                existing@.to_set() == ex,
                k <= self.files.len(),
                res@.len() == files_in(fv.take(k as int), ex).len(),
                forall|j: int|
                    0 <= j < res@.len() ==> #[trigger] res@[j]@ == path_join(
                        self@.outputs_dir,
                        files_in(fv.take(k as int), ex)[j].source,
                    ),
            decreases self.files.len() - k,
        {
            assert(fv.take(k + 1).drop_last() =~= fv.take(k as int));
            assert(fv.take(k + 1).last() == fv[k as int]);
            assert(fv[k as int] == self.files@[k as int]@);
            if existing.contains(self.files[k].path.as_str()) {
                let full = join(self.outputs_dir.as_str(), self.files[k].source.as_str());
                res.push(full);
            }
            k = k + 1;
        }
        assert(fv.take(k as int) =~= fv);
        Ok(res)
    }

    /// Second step of the up-to-date check: whether the outputs directory exists and holds
    /// exactly the generated files with the generated contents, given the walk of the directory
    /// and the contents read for the paths of the first step (`None` where a file was gone).
    /// A missing directory is never up to date, even for a target without outputs.
    pub fn check(&self, dir_exists: bool, listing: &Vec<ListedEntry>, contents: &Vec<Option<Vec<u8>>>) -> (res: bool)
        requires
            contents@.len() == files_to_read(self@, listing_view(listing@)).len(),
        ensures
            res == (dir_exists && outputs_current(self@, listing_view(listing@), contents_view(contents@))),
            res ==> listed_files(listing_view(listing@)) == generated_paths(self@.files),
            res ==> forall|k: int|
                0 <= k < contents@.len() ==> #[trigger] contents_view(contents@)[k] == Some(
                    encode_utf8(files_to_read(self@, listing_view(listing@))[k].content),
                ),
            (exists|k: int|
                0 <= k < contents@.len() && #[trigger] contents_view(contents@)[k] != Some(
                    encode_utf8(files_to_read(self@, listing_view(listing@))[k].content),
                )) ==> !res,
    {
        if !dir_exists {
            return false;
        }
        proof {
            use_type_invariant(self);
        }
        let ghost lv = listing_view(listing@);
        let ghost fv = self@.files;
        let ghost ex = listed_files(lv);
        let ghost gen = generated_paths(fv);
        let ghost cv = contents_view(contents@);
        let existing = listed_file_set(listing);
        let mut generated = PathSet::new();
        let mut all_exist = true;
        let mut k: usize = 0;
        assert(fv.take(0).map_values(|f: OutputFileView| f.path).to_set() =~= Set::<Seq<char>>::empty());
        while k < self.files.len()
            invariant
                fv == self@.files,
                fv == files_view(self.files@),
                existing@.to_set() == ex,
                k <= self.files.len(),
                generated@.to_set() == fv.take(k as int).map_values(|f: OutputFileView| f.path).to_set(),
                all_exist == (forall|j: int| 0 <= j < k ==> ex.contains(#[trigger] fv[j].path)),
            decreases self.files.len() - k,
        {
            assert(fv[k as int] == self.files@[k as int]@);
            let p = self.files[k].path.clone();
            if !existing.contains(p.as_str()) {
                all_exist = false;
            }
            generated.insert(p);
            proof {
                assert(fv.take(k + 1).map_values(|f: OutputFileView| f.path) =~= fv.take(k as int).map_values(
                    |f: OutputFileView| f.path,
                ).push(fv[k as int].path));
                fv.take(k as int).map_values(|f: OutputFileView| f.path).lemma_push_to_set_commute(fv[k as int].path);
            }
            k = k + 1;
        }
        assert(fv.take(k as int) =~= fv);
        // every existing file is generated
        let ex_paths = existing.to_vec();
        let mut none_extra = true;
        let mut e: usize = 0;
        while e < ex_paths.len()
            invariant
                ex_paths@.map_values(|p: String| p@) == existing@,
                generated@.to_set() == gen,
                e <= ex_paths.len(),
                none_extra == (forall|j: int| 0 <= j < e ==> gen.contains(#[trigger] existing@[j])),
            decreases ex_paths.len() - e,
        {
            assert(existing@[e as int] == ex_paths@[e as int]@);
            if !generated.contains(ex_paths[e].as_str()) {
                none_extra = false;
            }
            e = e + 1;
        }
        let same_files = all_exist && none_extra;
        proof {
            if same_files {
                assert forall|q: Seq<char>| ex.contains(q) <==> gen.contains(q) by {
                    if ex.contains(q) {
                        assert(existing@.to_set().contains(q));
                        let j = choose|j: int| 0 <= j < existing@.len() && existing@[j] == q;
                        assert(gen.contains(existing@[j]));
                    }
                    if gen.contains(q) {
                        let ps = fv.map_values(|f: OutputFileView| f.path);
                        let j = choose|j: int| 0 <= j < ps.len() && #[trigger] ps[j] == q;
                        assert(ps[j] == fv[j].path);
                        assert(ex.contains(fv[j].path));
                    }
                }
                assert(ex =~= gen);
            } else if all_exist {
                let j = choose|j: int| 0 <= j < existing@.len() && !gen.contains(#[trigger] existing@[j]);
                assert(existing@.to_set().contains(existing@[j]));
                assert(ex != gen);
            } else {
                let j = choose|j: int| 0 <= j < fv.len() && !ex.contains(#[trigger] fv[j].path);
                assert(fv.map_values(|f: OutputFileView| f.path)[j] == fv[j].path);
                assert(gen.contains(fv[j].path));
                assert(ex != gen);
            }
        }
        // compare contents of the generated files that exist
        let ghost reads = files_in(fv, ex);
        let mut same_contents = true;
        let mut r: usize = 0;
        let mut k: usize = 0;
        while k < self.files.len()
            invariant
                fv == self@.files,
                fv == files_view(self.files@),
                existing@.to_set() == ex,
                reads == files_in(fv, ex),
                contents@.len() == reads.len(),
                cv == contents_view(contents@),
                k <= self.files.len(),
                r == files_in(fv.take(k as int), ex).len(),
                r <= reads.len(),
                forall|j: int| 0 <= j < r ==> #[trigger] reads[j] == files_in(fv.take(k as int), ex)[j],
                same_contents == (forall|j: int|
                    0 <= j < r ==> #[trigger] cv[j] == Some(encode_utf8(reads[j].content))),
            decreases self.files.len() - k,
        {
            proof {
                assert(fv.take(k + 1).drop_last() =~= fv.take(k as int));
                assert(fv.take(k + 1).last() == fv[k as int]);
                lemma_files_in_prefix(fv, ex, k as int);
            }
            assert(fv[k as int] == self.files@[k as int]@);
            if existing.contains(self.files[k].path.as_str()) {
                assert(reads[r as int] == fv[k as int]);
                assert(r < contents.len());
                let matches = match &contents[r] {
                    Some(bytes) => bytes_equal(bytes, self.files[k].content.as_str().as_bytes()),
                    None => false,
                };
                assert(cv[r as int] == match contents@[r as int] {
                    Some(v) => Some(v@),
                    None => None::<Seq<u8>>,
                });
                if !matches {
                    same_contents = false;
                }
                r = r + 1;
            }
            k = k + 1;
        }
        assert(fv.take(k as int) =~= fv);
        same_files && same_contents
    }
}

/// One filesystem step of writing outputs.
#[derive(Debug)]
pub enum WriteStep {
    /// Remove the directory with everything in it, if it exists.
    ClearDir(String),
    /// Create the directory.
    CreateDir(String),
    /// Create the directory and its missing ancestors, if it does not exist.
    EnsureDir(String),
    /// Write the file with the text.
    WriteFile(String, String),
}

/// A write step as the specification sees it.
pub enum WriteStepView {
    ClearDir(Seq<char>),
    CreateDir(Seq<char>),
    EnsureDir(Seq<char>),
    WriteFile(Seq<char>, Seq<char>),
}

impl View for WriteStep {
    type V = WriteStepView;

    open spec fn view(&self) -> WriteStepView {
        match self {
            WriteStep::ClearDir(d) => WriteStepView::ClearDir(d@),
            WriteStep::CreateDir(d) => WriteStepView::CreateDir(d@),
            WriteStep::EnsureDir(d) => WriteStepView::EnsureDir(d@),
            WriteStep::WriteFile(f, c) => WriteStepView::WriteFile(f@, c@),
        }
    }
}

/// Views of write steps.
pub open spec fn steps_view(steps: Seq<WriteStep>) -> Seq<WriteStepView> {
    steps.map_values(|w: WriteStep| w@)
}

/// The steps that write one file under `dir`: create its parent if it has one, then write it.
pub open spec fn file_write_steps(dir: Seq<char>, f: OutputFileView) -> Seq<WriteStepView> {
    let full = path_join(dir, f.source);
    match path_parent(full) {
        Some(p) => seq![WriteStepView::EnsureDir(p), WriteStepView::WriteFile(full, f.content)],
        None => seq![WriteStepView::WriteFile(full, f.content)],
    }
}

/// The steps that write the files under `dir`, in order.
pub open spec fn files_write_steps(dir: Seq<char>, files: Seq<OutputFileView>) -> Seq<WriteStepView>
    decreases files.len(),
{
    if files.len() == 0 {
        seq![]
    } else {
        files_write_steps(dir, files.drop_last()) + file_write_steps(dir, files.last())
    }
}

/// The steps that write a target's outputs: replace the outputs directory by an empty one,
/// then write each file.
pub open spec fn target_write_steps(t: TargetOutputsView) -> Seq<WriteStepView> {
    seq![WriteStepView::ClearDir(t.outputs_dir), WriteStepView::CreateDir(t.outputs_dir)]
        + files_write_steps(t.outputs_dir, t.files)
}

/// What previewing a target's outputs displays for each file, in order: the file that will be
/// generated (the outputs directory joined with the file's path), then its contents.
pub open spec fn target_shown(dir: Seq<char>, files: Seq<OutputFileView>) -> Seq<(Seq<char>, Seq<char>)> {
    files.map_values(|f: OutputFileView| (path_join(dir, f.source), f.content))
}

impl TargetOutputs {
    /// The filesystem steps that write these outputs, in order.
    pub fn write(&self) -> (res: Vec<WriteStep>)
        ensures
            steps_view(res@) == target_write_steps(self@),
            writes_after_parent(steps_view(res@)),
    {
        let ghost fv = self@.files;
        let ghost dir = self@.outputs_dir;
        let mut res: Vec<WriteStep> = Vec::new();
        res.push(WriteStep::ClearDir(self.outputs_dir.clone()));
        res.push(WriteStep::CreateDir(self.outputs_dir.clone()));
        let ghost head = steps_view(res@);
        assert(head =~= seq![WriteStepView::ClearDir(dir), WriteStepView::CreateDir(dir)]);
        let mut k: usize = 0;
        assert(fv.take(0) =~= Seq::<OutputFileView>::empty());
        while k < self.files.len()
            invariant
                fv == self@.files,
                fv == files_view(self.files@),
                dir == self@.outputs_dir,
                head == seq![WriteStepView::ClearDir(dir), WriteStepView::CreateDir(dir)],
                k <= self.files.len(),
                steps_view(res@) == head + files_write_steps(dir, fv.take(k as int)),
            decreases self.files.len() - k,
        {
            assert(fv[k as int] == self.files@[k as int]@);
            assert(fv.take(k + 1).drop_last() =~= fv.take(k as int));
            assert(fv.take(k + 1).last() == fv[k as int]);
            let ghost before = steps_view(res@);
            let full = join(self.outputs_dir.as_str(), self.files[k].source.as_str());
            match parent(full.as_str()) {
                Some(p) => {
                    res.push(WriteStep::EnsureDir(p));
                },
                None => {},
            }
            res.push(WriteStep::WriteFile(full, self.files[k].content.clone()));
            assert(steps_view(res@) =~= before + file_write_steps(dir, fv[k as int]));
            k = k + 1;
        }
        assert(fv.take(k as int) =~= fv);
        proof {
            lemma_write_after_parent(self@);
        }
        res
    }

    /// What previewing these outputs displays, in order: for each file, the file that will be
    /// generated (the outputs directory joined with its path) and its contents.
    pub fn print(&self) -> (res: Vec<(String, String)>)
        ensures
            res@.map_values(|e: (String, String)| (e.0@, e.1@)) == target_shown(
                self@.outputs_dir,
                self@.files,
            ),
    {
        let ghost fv = self@.files;
        let ghost dir = self@.outputs_dir;
        let mut res: Vec<(String, String)> = Vec::new();
        let mut k: usize = 0;
        while k < self.files.len()
            invariant
                fv == self@.files,
                fv == files_view(self.files@),
                k <= self.files.len(),
                dir == self@.outputs_dir,
                res@.map_values(|e: (String, String)| (e.0@, e.1@)) == target_shown(dir, fv.take(k as int)),
            decreases self.files.len() - k,
        {
            assert(fv[k as int] == self.files@[k as int]@);
            let shown = join(self.outputs_dir.as_str(), self.files[k].source.as_str());
            let ghost before = res@;
            res.push((shown, self.files[k].content.clone()));
            assert(res@ == before.push((shown, self.files@[k as int].content)));
            assert(target_shown(dir, fv.take(k + 1)) =~= target_shown(dir, fv.take(k as int)).push(
                (path_join(dir, fv[k as int].source), fv[k as int].content),
            ));
            assert(res@.map_values(|e: (String, String)| (e.0@, e.1@)) =~= target_shown(dir, fv.take(k + 1)));
            k = k + 1;
        }
        assert(fv.take(k as int) =~= fv);
        res
    }
}

/// `files_in` of a prefix is a prefix of `files_in` of the whole, one longer exactly when
/// the next file exists.
proof fn lemma_files_in_prefix(files: Seq<OutputFileView>, existing: Set<Seq<char>>, k: int)
    requires
        0 <= k < files.len(),
    ensures
        files_in(files.take(k), existing).len() <= files_in(files, existing).len(),
        existing.contains(files[k].path) ==> files_in(files.take(k), existing).len() < files_in(
            files,
            existing,
        ).len() && files_in(files, existing)[files_in(files.take(k), existing).len() as int]
            == files[k],
        forall|j: int|
            0 <= j < files_in(files.take(k), existing).len() ==> #[trigger] files_in(files, existing)[j]
                == files_in(files.take(k), existing)[j],
    decreases files.len(),
{
    if k == files.len() - 1 {
        assert(files.drop_last() =~= files.take(k));
    } else {
        assert(files.drop_last().take(k) =~= files.take(k));
        lemma_files_in_prefix(files.drop_last(), existing, k);
        assert(files.drop_last()[k] == files[k]);
    }
}

/// Adds one (path, content) entry, whose normal path is `path`, to files built from earlier
/// entries.
fn insert_output(files: &mut Vec<OutputFile>, path: String, source: String, content: String)
    requires
        files_sorted(files_view(old(files)@)),
    ensures
        files_sorted(files_view(final(files)@)),
        forall|m: Map<Seq<char>, (Seq<char>, Seq<char>)>|
            files_match(files_view(old(files)@), m) ==> files_match(
                files_view(final(files)@),
                if m.contains_key(path@) {
                    m.insert(path@, (m[path@].0, content@))
                } else {
                    m.insert(path@, (source@, content@))
                },
            ),
{
    let ghost old_files = files_view(files@);
    let pc = chars_of(path.as_str());
    let n = files.len();
    let mut i: usize = 0;
    let mut go = true;
    while go && i < n
        invariant
            n == files@.len(),
            old_files == files_view(files@),
            files_sorted(old_files),
            pc@ == path@,
            i <= n,
            forall|j: int| 0 <= j < i ==> path_lt(#[trigger] old_files[j].path, path@),
            !go ==> i < n && !path_lt(old_files[i as int].path, path@),
        decreases (if go { n - i + 1 } else { 0 }),
    {
        let ic = chars_of(files[i].path.as_str());
        assert(ic@ == old_files[i as int].path);
        if chars_less(&ic, &pc) {
            i = i + 1;
        } else {
            go = false;
        }
    }
    if i < n && files[i].path == path {
        let ghost old_file = old_files[i as int];
        let replaced = OutputFile {
            path: files[i].path.clone(),
            source: files[i].source.clone(),
            content,
        };
        files.set(i, replaced);
        proof {
            let nf = files_view(files@);
            assert(nf =~= old_files.update(i as int, OutputFileView { content: content@, ..old_file }));
            assert forall|a: int, b: int| 0 <= a < b < nf.len() implies path_lt(
                #[trigger] nf[a].path,
                #[trigger] nf[b].path,
            ) by {
                assert(nf[a].path == old_files[a].path);
                assert(nf[b].path == old_files[b].path);
            }
            assert forall|m: Map<Seq<char>, (Seq<char>, Seq<char>)>|
                files_match(old_files, m) implies files_match(
                nf,
                if m.contains_key(path@) {
                    m.insert(path@, (m[path@].0, content@))
                } else {
                    m.insert(path@, (source@, content@))
                },
            ) by {
                assert(m.contains_key(old_files[i as int].path));
                let m2 = m.insert(path@, (m[path@].0, content@));
                assert forall|j: int| 0 <= j < nf.len() implies #[trigger] m2.contains_key(nf[j].path)
                    && m2[nf[j].path] == (nf[j].source, nf[j].content) by {
                    if j != i {
                        assert(nf[j] == old_files[j]);
                        assert(m.contains_key(old_files[j].path));
                        if old_files[j].path == path@ {
                            if j < i {
                                assert(path_lt(old_files[j].path, old_files[i as int].path));
                            } else {
                                assert(path_lt(old_files[i as int].path, old_files[j].path));
                            }
                            lemma_path_lt_irreflexive(path@);
                        }
                    }
                }
                assert forall|p: Seq<char>| #[trigger] m2.contains_key(p) implies exists|j: int|
                    0 <= j < nf.len() && nf[j].path == p by {
                    if p == path@ {
                        assert(nf[i as int].path == p);
                    } else {
                        assert(m.contains_key(p));
                        let j = choose|j: int| 0 <= j < old_files.len() && old_files[j].path == p;
                        assert(nf[j].path == p);
                    }
                }
            }
        }
        return;
    }
    proof {
        if i < n {
            lemma_path_lt_total(path@, old_files[i as int].path);
        }
    }
    let ghost pv = path@;
    let ghost sv = source@;
    let ghost cv = content@;
    let file = OutputFile { path, source, content };
    files.insert(i, file);
    proof {
        let nf = files_view(files@);
        let new_file = OutputFileView { path: pv, source: sv, content: cv };
        assert(nf =~= old_files.insert(i as int, new_file));
        assert forall|j: int| 0 <= j < n implies old_files[j].path != pv by {
            if j < i {
                lemma_path_lt_irreflexive(pv);
            } else {
                if j > i {
                    lemma_path_lt_transitive(pv, old_files[i as int].path, old_files[j].path);
                }
                lemma_path_lt_irreflexive(pv);
            }
        }
        assert forall|a: int, b: int| 0 <= a < b < nf.len() implies path_lt(
            #[trigger] nf[a].path,
            #[trigger] nf[b].path,
        ) by {
            if b < i {
            } else if b == i {
            } else if a < i {
                if b - 1 > i {
                    lemma_path_lt_transitive(pv, old_files[i as int].path, old_files[b - 1].path);
                }
                lemma_path_lt_transitive(old_files[a].path, pv, old_files[b - 1].path);
            } else if a == i {
                if b - 1 > i {
                    lemma_path_lt_transitive(pv, old_files[i as int].path, old_files[b - 1].path);
                }
            } else {
                assert(nf[a] == old_files[a - 1]);
                assert(nf[b] == old_files[b - 1]);
            }
        }
        assert forall|m: Map<Seq<char>, (Seq<char>, Seq<char>)>|
            files_match(old_files, m) implies files_match(
            nf,
            if m.contains_key(pv) {
                m.insert(pv, (m[pv].0, cv))
            } else {
                m.insert(pv, (sv, cv))
            },
        ) by {
            assert(!m.contains_key(pv)) by {
                if m.contains_key(pv) {
                    let j = choose|j: int| 0 <= j < old_files.len() && old_files[j].path == pv;
                }
            }
            let m2 = m.insert(pv, (sv, cv));
            assert forall|j: int| 0 <= j < nf.len() implies #[trigger] m2.contains_key(nf[j].path)
                && m2[nf[j].path] == (nf[j].source, nf[j].content) by {
                if j < i {
                    assert(nf[j] == old_files[j]);
                    assert(m.contains_key(old_files[j].path));
                } else if j > i {
                    assert(nf[j] == old_files[j - 1]);
                    assert(m.contains_key(old_files[j - 1].path));
                }
            }
            assert forall|p: Seq<char>| #[trigger] m2.contains_key(p) implies exists|j: int|
                0 <= j < nf.len() && nf[j].path == p by {
                if p == pv {
                    assert(nf[i as int].path == p);
                } else {
                    assert(m.contains_key(p));
                    let j = choose|j: int| 0 <= j < old_files.len() && old_files[j].path == p;
                    if j < i {
                        assert(nf[j].path == p);
                    } else {
                        assert(nf[j + 1].path == p);
                    }
                }
            }
        }
    }
}

} // verus!

verus! {

/// The outputs of every target, by target name, in target order.
#[derive(Debug)]
pub struct ProjectOutputs {
    target_outputs: Vec<(String, TargetOutputs)>,
}

/// Views of named target outputs.
pub open spec fn named_outputs_view(v: Seq<(String, TargetOutputs)>) -> Seq<(Seq<char>, TargetOutputsView)> {
    v.map_values(|e: (String, TargetOutputs)| (e.0@, e.1@))
}

impl View for ProjectOutputs {
    type V = Seq<(Seq<char>, TargetOutputsView)>;

    closed spec fn view(&self) -> Seq<(Seq<char>, TargetOutputsView)> {
        named_outputs_view(self.target_outputs@)
    }
}

/// Why checking a project's outputs failed.
#[derive(Debug)]
pub enum CheckFailure<E> {
    /// Checking this target's outputs failed.
    Target { target: String, error: E },
    /// These targets' outputs are not up to date, in target order.
    Stale(Vec<String>),
}

/// Index of the first failed result, if any.
pub open spec fn first_err<T, E>(results: Seq<Result<T, E>>) -> Option<int>
    decreases results.len(),
{
    if results.len() == 0 {
        None
    } else if results[0] is Err {
        Some(0)
    } else {
        match first_err(results.drop_first()) {
            Some(i) => Some(i + 1),
            None => None,
        }
    }
}

/// The names whose verdict is "not up to date", in order.
pub open spec fn stale_names<E>(names: Seq<Seq<char>>, verdicts: Seq<Result<bool, E>>) -> Seq<Seq<char>>
    decreases verdicts.len(),
{
    if verdicts.len() == 0 {
        seq![]
    } else {
        let rest = stale_names(names, verdicts.drop_last());
        if verdicts.last() == Ok::<bool, E>(false) {
            rest.push(names[verdicts.len() - 1])
        } else {
            rest
        }
    }
}

/// Facts about the first failed result.
pub proof fn lemma_first_err<T, E>(results: Seq<Result<T, E>>)
    ensures
        match first_err(results) {
            Some(i) => 0 <= i < results.len() && results[i] is Err && forall|j: int|
                0 <= j < i ==> #[trigger] results[j] is Ok,
            None => forall|j: int| 0 <= j < results.len() ==> #[trigger] results[j] is Ok,
        },
    decreases results.len(),
{
    if results.len() > 0 {
        lemma_first_err(results.drop_first());
        if results[0] is Ok {
            assert forall|j: int| 0 < j < results.len() implies #[trigger] results[j] == results.drop_first()[j - 1] by {}
        }
    }
}

/// The target names of project outputs, in order.
pub open spec fn output_names(po: Seq<(Seq<char>, TargetOutputsView)>) -> Seq<Seq<char>> {
    po.map_values(|e: (Seq<char>, TargetOutputsView)| e.0)
}

impl ProjectOutputs {
    /// Targets are kept by name, in text order, each name once.
    #[verifier::type_invariant]
    spec fn inv(&self) -> bool {
        names_sorted(output_names(named_outputs_view(self.target_outputs@)))
    }

    /// Outputs made of the given targets' outputs, whose names are in text order.
    pub fn new(target_outputs: Vec<(String, TargetOutputs)>) -> (res: ProjectOutputs)
        requires
            names_sorted(output_names(named_outputs_view(target_outputs@))),
        ensures
            res@ == named_outputs_view(target_outputs@),
    {
        ProjectOutputs { target_outputs }
    }

    /// Adds the outputs of a target whose name follows every name already there.
    pub fn push(&mut self, name: String, outputs: TargetOutputs)
        requires
            old(self)@.len() > 0 ==> text_lt(old(self)@.last().0, name@),
        ensures
            final(self)@ == old(self)@.push((name@, outputs@)),
    {
        proof {
            use_type_invariant(&*self);
            lemma_names_sorted_push(output_names(self@), name@);
            assert(output_names(self@).push(name@) =~= output_names(self@.push((name@, outputs@))));
        }
        let ghost before = self.target_outputs@;
        let mut all: Vec<(String, TargetOutputs)> = Vec::new();
        std::mem::swap(&mut all, &mut self.target_outputs);
        assert(all@ == before);
        all.push((name, outputs));
        proof {
            assert(named_outputs_view(all@) =~= named_outputs_view(before).push((name@, outputs@)));
        }
        self.target_outputs = all;
    }

    /// Number of targets.
    pub fn len(&self) -> (res: usize)
        ensures
            res == self@.len(),
    {
        self.target_outputs.len()
    }

    /// The name and outputs of the target at a position.
    pub fn get(&self, i: usize) -> (res: (&String, &TargetOutputs))
        requires
            i < self@.len(),
        ensures
            res.0@ == self@[i as int].0,
            res.1@ == self@[i as int].1,
    {
        (&self.target_outputs[i].0, &self.target_outputs[i].1)
    }

    /// Judges the outputs of all targets from the verdicts of checking each target, in target
    /// order: the first failed check is reported; otherwise the outputs are current unless some
    /// target's verdict is `false`, and then those targets are reported, in order. Checking
    /// stops at the first failure, so the verdicts cover every target or end with a failure.
    pub fn check<E>(&self, verdicts: Vec<Result<bool, E>>) -> (res: Result<(), CheckFailure<E>>)
        requires
            verdicts@.len() <= self@.len(),
            verdicts@.len() < self@.len() ==> verdicts@.len() > 0 && verdicts@.last() is Err,
        ensures
            match first_err(verdicts@) {
                Some(i) => res matches Err(CheckFailure::Target { target, error }) && target@
                    == self@[i].0 && verdicts@[i] == Err::<bool, E>(error),
                None => {
                    let stale = stale_names(self@.map_values(|e: (Seq<char>, TargetOutputsView)| e.0), verdicts@);
                    if stale.len() == 0 {
                        res is Ok
                    } else {
                        res matches Err(CheckFailure::Stale(names)) && strings_seq(names@) == stale
                    }
                },
            },
    {
        proof {
            lemma_first_err(verdicts@);
        }
        let ghost names = self@.map_values(|e: (Seq<char>, TargetOutputsView)| e.0);
        let mut i: usize = 0;
        while i < verdicts.len()
            invariant
                i <= verdicts@.len(),
                verdicts@.len() <= self@.len(),
                self@.len() == self.target_outputs@.len(),
                forall|j: int| 0 <= j < i ==> #[trigger] verdicts@[j] is Ok,
            decreases verdicts@.len() - i,
        {
            let failed_here = match &verdicts[i] {
                Ok(_) => false,
                Err(_) => true,
            };
            if failed_here {
                proof {
                    lemma_first_err(verdicts@);
                    match first_err(verdicts@) {
                        Some(f) => {
                            if f < i {
                                assert(verdicts@[f] is Ok);
                            } else if f > i {
                                assert(verdicts@[i as int] is Ok);
                            }
                        },
                        None => {
                            assert(verdicts@[i as int] is Ok);
                        },
                    }
                    assert(first_err(verdicts@) == Some(i as int));
                    assert(self@[i as int].0 == self.target_outputs@[i as int].0@);
                }
                let target = self.target_outputs[i].0.clone();
                let mut vs = verdicts;
                let failed = vs.remove(i);
                return match failed {
                    Err(error) => Err(CheckFailure::Target { target, error }),
                    Ok(_) => Err(CheckFailure::Stale(Vec::new())),
                };
            }
            i = i + 1;
        }
        assert(verdicts@.len() == self@.len());
        let mut stale: Vec<String> = Vec::new();
        let mut k: usize = 0;
        assert(verdicts@.take(0) =~= Seq::<Result<bool, E>>::empty());
        while k < verdicts.len()
            invariant
                verdicts@.len() == self@.len(),
                names == self@.map_values(|e: (Seq<char>, TargetOutputsView)| e.0),
                k <= verdicts@.len(),
                forall|j: int| 0 <= j < verdicts@.len() ==> #[trigger] verdicts@[j] is Ok,
                strings_seq(stale@) == stale_names(names, verdicts@.take(k as int)),
            decreases verdicts@.len() - k,
        {
            assert(verdicts@.take(k + 1).drop_last() =~= verdicts@.take(k as int));
            assert(verdicts@.take(k + 1).last() == verdicts@[k as int]);
            assert(self@[k as int].0 == self.target_outputs@[k as int].0@);
            let current = match &verdicts[k] {
                Ok(b) => *b,
                Err(_) => true,
            };
            if !current {
                let ghost before = stale@;
                stale.push(self.target_outputs[k].0.clone());
                assert(strings_seq(stale@) =~= strings_seq(before).push(names[k as int]));
            }
            k = k + 1;
        }
        assert(verdicts@.take(k as int) =~= verdicts@);
        if stale.len() == 0 {
            Ok(())
        } else {
            Err(CheckFailure::Stale(stale))
        }
    }

    /// The filesystem steps that write every target's outputs, target after target.
    pub fn write(&self) -> (res: Vec<WriteStep>)
        ensures
            steps_view(res@) == project_write_steps(self@),
    {
        let mut res: Vec<WriteStep> = Vec::new();
        let mut k: usize = 0;
        assert(self@.take(0) =~= Seq::<(Seq<char>, TargetOutputsView)>::empty());
        while k < self.target_outputs.len()
            invariant
                k <= self@.len(),
                steps_view(res@) == project_write_steps(self@.take(k as int)),
            decreases self@.len() - k,
        {
            assert(self@.take(k + 1).drop_last() =~= self@.take(k as int));
            assert(self@[k as int].1 == self.target_outputs@[k as int].1@);
            let mut steps = self.target_outputs[k].1.write();
            let ghost before = steps_view(res@);
            let ghost added = steps_view(steps@);
            res.append(&mut steps);
            assert(steps_view(res@) =~= before + added);
            k = k + 1;
        }
        assert(self@.take(k as int) =~= self@);
        res
    }

    /// What previewing every target's outputs displays, target after target.
    pub fn print(&self) -> (res: Vec<(String, String)>)
        ensures
            res@.map_values(|e: (String, String)| (e.0@, e.1@)) == project_shown(self@),
    {
        let mut res: Vec<(String, String)> = Vec::new();
        let mut k: usize = 0;
        assert(self@.take(0) =~= Seq::<(Seq<char>, TargetOutputsView)>::empty());
        while k < self.target_outputs.len()
            invariant
                k <= self@.len(),
                res@.map_values(|e: (String, String)| (e.0@, e.1@)) == project_shown(self@.take(k as int)),
            decreases self@.len() - k,
        {
            assert(self@.take(k + 1).drop_last() =~= self@.take(k as int));
            assert(self@[k as int].1 == self.target_outputs@[k as int].1@);
            let mut shown = self.target_outputs[k].1.print();
            let ghost before = res@;
            let ghost added = shown@;
            res.append(&mut shown);
            assert(res@ == before + added);
            assert(res@.map_values(|e: (String, String)| (e.0@, e.1@)) =~= before.map_values(
                |e: (String, String)| (e.0@, e.1@),
            ) + added.map_values(|e: (String, String)| (e.0@, e.1@)));
            k = k + 1;
        }
        assert(self@.take(k as int) =~= self@);
        res
    }
}

/// Views of a list of strings.
pub open spec fn strings_seq(v: Seq<String>) -> Seq<Seq<char>> {
    v.map_values(|s: String| s@)
}

/// The steps that write every target's outputs, target after target.
pub open spec fn project_write_steps(targets: Seq<(Seq<char>, TargetOutputsView)>) -> Seq<WriteStepView>
    decreases targets.len(),
{
    if targets.len() == 0 {
        seq![]
    } else {
        project_write_steps(targets.drop_last()) + target_write_steps(targets.last().1)
    }
}

/// What previewing every target's outputs displays, target after target.
pub open spec fn project_shown(targets: Seq<(Seq<char>, TargetOutputsView)>) -> Seq<(Seq<char>, Seq<char>)>
    decreases targets.len(),
{
    if targets.len() == 0 {
        seq![]
    } else {
        project_shown(targets.drop_last()) + target_shown(
            targets.last().1.outputs_dir,
            targets.last().1.files,
        )
    }
}

} // verus!

verus! {

/// Building outputs fails exactly when some given path cannot name an output, and then it
/// reports the first such path.
pub proof fn lemma_first_output_problem(raw: Seq<(Seq<char>, Seq<char>)>)
    ensures
        first_output_problem(raw) is None <==> forall|i: int|
            0 <= i < raw.len() ==> output_path_problem(#[trigger] raw[i].0) is None,
        first_output_problem(raw) matches Some((path, problem)) ==> exists|i: int|
            0 <= i < raw.len() && raw[i].0 == path && output_path_problem(#[trigger] raw[i].0)
                == Some(problem) && forall|j: int|
                0 <= j < i ==> output_path_problem(#[trigger] raw[j].0) is None,
    decreases raw.len(),
{
    if raw.len() > 0 {
        lemma_first_output_problem(raw.drop_first());
        assert forall|i: int| 0 < i < raw.len() implies #[trigger] raw[i] == raw.drop_first()[i - 1] by {}
        if output_path_problem(raw[0].0) is None {
            if let Some((path, problem)) = first_output_problem(raw.drop_first()) {
                let i = choose|i: int|
                    0 <= i < raw.drop_first().len() && raw.drop_first()[i].0 == path
                        && output_path_problem(#[trigger] raw.drop_first()[i].0) == Some(problem)
                        && forall|j: int|
                        0 <= j < i ==> output_path_problem(#[trigger] raw.drop_first()[j].0) is None;
                assert(raw[i + 1] == raw.drop_first()[i]);
                assert forall|j: int| 0 <= j < i + 1 implies output_path_problem(#[trigger] raw[j].0) is None by {
                    if j > 0 {
                        assert(raw[j] == raw.drop_first()[j - 1]);
                    }
                }
            }
        }
    }
}

/// What the outputs built from (path, content) entries hold: one file per distinct normal path
/// of the entries, whose path as given is the first entry's with that normal path and
/// normalizes to it, and whose content is the last such entry's.
pub proof fn lemma_outputs_map(raw: Seq<(Seq<char>, Seq<char>)>)
    ensures
        forall|i: int| 0 <= i < raw.len() ==> outputs_map(raw).contains_key(normal_path(#[trigger] raw[i].0)),
        forall|p: Seq<char>| #[trigger] outputs_map(raw).contains_key(p) ==> {
            &&& normal_path(outputs_map(raw)[p].0) == p
            &&& exists|i: int| 0 <= i < raw.len() && #[trigger] raw[i].0 == outputs_map(raw)[p].0 && forall|j: int|
                0 <= j < i ==> normal_path(#[trigger] raw[j].0) != p
            &&& exists|i: int| 0 <= i < raw.len() && normal_path(#[trigger] raw[i].0) == p && raw[i].1
                == outputs_map(raw)[p].1 && forall|j: int|
                i < j < raw.len() ==> normal_path(#[trigger] raw[j].0) != p
        },
    decreases raw.len(),
{
    if raw.len() > 0 {
        let init = raw.drop_last();
        lemma_outputs_map(init);
        let m = outputs_map(init);
        let key = raw.last().0;
        let content = raw.last().1;
        let p0 = normal_path(key);
        let n = raw.len() - 1;
        assert(raw[n] == raw.last());
        assert forall|i: int| 0 <= i < n implies #[trigger] raw[i] == init[i] by {}
        assert forall|i: int| 0 <= i < raw.len() implies outputs_map(raw).contains_key(
            normal_path(#[trigger] raw[i].0),
        ) by {
            if i < n {
                assert(m.contains_key(normal_path(init[i].0)));
            }
        }
        assert forall|p: Seq<char>| #[trigger] outputs_map(raw).contains_key(p) implies {
            &&& normal_path(outputs_map(raw)[p].0) == p
            &&& exists|i: int| 0 <= i < raw.len() && #[trigger] raw[i].0 == outputs_map(raw)[p].0 && forall|j: int|
                0 <= j < i ==> normal_path(#[trigger] raw[j].0) != p
            &&& exists|i: int| 0 <= i < raw.len() && normal_path(#[trigger] raw[i].0) == p && raw[i].1
                == outputs_map(raw)[p].1 && forall|j: int|
                i < j < raw.len() ==> normal_path(#[trigger] raw[j].0) != p
        } by {
            if p == p0 {
                if m.contains_key(p0) {
                    let i = choose|i: int| 0 <= i < init.len() && #[trigger] init[i].0 == m[p].0 && forall|j: int|
                        0 <= j < i ==> normal_path(#[trigger] init[j].0) != p;
                    assert(raw[i].0 == outputs_map(raw)[p].0);
                    assert forall|j: int| 0 <= j < i implies normal_path(#[trigger] raw[j].0) != p by {
                        assert(raw[j] == init[j]);
                    }
                } else {
                    assert(raw[n].0 == outputs_map(raw)[p].0);
                    assert forall|j: int| 0 <= j < n implies normal_path(#[trigger] raw[j].0) != p by {
                        assert(raw[j] == init[j]);
                        assert(m.contains_key(normal_path(init[j].0)));
                    }
                }
                assert(normal_path(raw[n].0) == p && raw[n].1 == outputs_map(raw)[p].1);
            } else {
                assert(m.contains_key(p));
                assert(outputs_map(raw)[p] == m[p]);
                let i = choose|i: int| 0 <= i < init.len() && #[trigger] init[i].0 == m[p].0 && forall|j: int|
                    0 <= j < i ==> normal_path(#[trigger] init[j].0) != p;
                assert(raw[i].0 == outputs_map(raw)[p].0);
                assert forall|j: int| 0 <= j < i implies normal_path(#[trigger] raw[j].0) != p by {
                    assert(raw[j] == init[j]);
                }
                let k = choose|k: int| 0 <= k < init.len() && normal_path(#[trigger] init[k].0) == p
                    && init[k].1 == m[p].1 && forall|j: int|
                    k < j < init.len() ==> normal_path(#[trigger] init[j].0) != p;
                assert(raw[k] == init[k]);
                assert forall|j: int| k < j < raw.len() implies normal_path(#[trigger] raw[j].0) != p by {
                    if j < n {
                        assert(raw[j] == init[j]);
                    }
                }
            }
        }
    }
}

} // verus!

verus! {

/// When every file exists, all of them are read.
pub proof fn lemma_files_in_all(files: Seq<OutputFileView>, existing: Set<Seq<char>>)
    requires
        forall|j: int| 0 <= j < files.len() ==> existing.contains(#[trigger] files[j].path),
    ensures
        files_in(files, existing) == files,
    decreases files.len(),
{
    if files.len() > 0 {
        assert forall|j: int| 0 <= j < files.len() - 1 implies existing.contains(
            #[trigger] files.drop_last()[j].path,
        ) by {
            assert(files.drop_last()[j] == files[j]);
        }
        lemma_files_in_all(files.drop_last(), existing);
        assert(files.last() == files[files.len() - 1]);
        assert(files.drop_last().push(files.last()) =~= files);
    }
}

/// A listing without symbolic links has no first one.
pub proof fn lemma_no_symlink(listing: Seq<ListedEntryView>)
    requires
        forall|i: int| 0 <= i < listing.len() ==> (#[trigger] listing[i]).kind != EntryKind::Symlink,
    ensures
        first_symlink(listing) is None,
    decreases listing.len(),
{
    if listing.len() > 0 {
        assert forall|i: int| 0 <= i < listing.len() - 1 implies (
        #[trigger] listing.drop_first()[i]).kind != EntryKind::Symlink by {
            assert(listing.drop_first()[i] == listing[i + 1]);
        }
        lemma_no_symlink(listing.drop_first());
    }
}

/// Writing a target's outputs first replaces the outputs directory by an empty one, then
/// writes every generated file, at its path joined to the directory, with its content, and
/// writes nothing else.
pub proof fn lemma_write_steps(t: TargetOutputsView)
    ensures
        target_write_steps(t)[0] == WriteStepView::ClearDir(t.outputs_dir),
        target_write_steps(t)[1] == WriteStepView::CreateDir(t.outputs_dir),
        forall|j: int|
            0 <= j < t.files.len() ==> target_write_steps(t).contains(
                WriteStepView::WriteFile(
                    path_join(t.outputs_dir, (#[trigger] t.files[j]).source),
                    t.files[j].content,
                ),
            ),
        forall|k: int|
            0 <= k < target_write_steps(t).len() && (#[trigger] target_write_steps(t)[k]) is WriteFile
                ==> exists|j: int|
                0 <= j < t.files.len() && target_write_steps(t)[k] == WriteStepView::WriteFile(
                    path_join(t.outputs_dir, (#[trigger] t.files[j]).source),
                    t.files[j].content,
                ),
{
    lemma_files_write_steps(t.outputs_dir, t.files);
    let head = seq![WriteStepView::ClearDir(t.outputs_dir), WriteStepView::CreateDir(t.outputs_dir)];
    let body = files_write_steps(t.outputs_dir, t.files);
    let all = target_write_steps(t);
    assert(all == head + body);
    assert forall|j: int| 0 <= j < t.files.len() implies all.contains(
        WriteStepView::WriteFile(
            path_join(t.outputs_dir, (#[trigger] t.files[j]).source),
            t.files[j].content,
        ),
    ) by {
        let w = WriteStepView::WriteFile(path_join(t.outputs_dir, t.files[j].source), t.files[j].content);
        assert(body.contains(w));
        let k = choose|k: int| 0 <= k < body.len() && body[k] == w;
        assert(all[k + 2] == w);
    }
    assert forall|k: int| 0 <= k < all.len() && (#[trigger] all[k]) is WriteFile implies exists|j: int|
        0 <= j < t.files.len() && all[k] == WriteStepView::WriteFile(
            path_join(t.outputs_dir, (#[trigger] t.files[j]).source),
            t.files[j].content,
        ) by {
        assert(k >= 2);
        assert(all[k] == body[k - 2]);
    }
}

/// The steps that write files hold a write of each file, and every write they hold is of one
/// of the files.
pub proof fn lemma_files_write_steps(dir: Seq<char>, files: Seq<OutputFileView>)
    ensures
        forall|j: int|
            0 <= j < files.len() ==> files_write_steps(dir, files).contains(
                WriteStepView::WriteFile(path_join(dir, (#[trigger] files[j]).source), files[j].content),
            ),
        forall|k: int|
            0 <= k < files_write_steps(dir, files).len() && (#[trigger] files_write_steps(
                dir,
                files,
            )[k]) is WriteFile ==> exists|j: int|
                0 <= j < files.len() && files_write_steps(dir, files)[k] == WriteStepView::WriteFile(
                    path_join(dir, (#[trigger] files[j]).source),
                    files[j].content,
                ),
    decreases files.len(),
{
    if files.len() > 0 {
        let init = files.drop_last();
        lemma_files_write_steps(dir, init);
        let a = files_write_steps(dir, init);
        let f = files.last();
        let b = file_write_steps(dir, f);
        let all = files_write_steps(dir, files);
        assert(all == a + b);
        let n = files.len() - 1;
        assert(files[n] == f);
        let w = WriteStepView::WriteFile(path_join(dir, f.source), f.content);
        assert(b.last() == w);
        assert forall|j: int| 0 <= j < files.len() implies all.contains(
            WriteStepView::WriteFile(path_join(dir, (#[trigger] files[j]).source), files[j].content),
        ) by {
            if j < n {
                assert(files[j] == init[j]);
                let wj = WriteStepView::WriteFile(path_join(dir, init[j].source), init[j].content);
                assert(a.contains(wj));
                let k = choose|k: int| 0 <= k < a.len() && a[k] == wj;
                assert(all[k] == wj);
            } else {
                assert(all[all.len() - 1] == w);
            }
        }
        assert forall|k: int| 0 <= k < all.len() && (#[trigger] all[k]) is WriteFile implies exists|j: int|
            0 <= j < files.len() && all[k] == WriteStepView::WriteFile(
                path_join(dir, (#[trigger] files[j]).source),
                files[j].content,
            ) by {
            if k < a.len() {
                assert(all[k] == a[k]);
                let j = choose|j: int|
                    0 <= j < init.len() && a[k] == WriteStepView::WriteFile(
                        path_join(dir, (#[trigger] init[j]).source),
                        init[j].content,
                    );
                assert(files[j] == init[j]);
            } else {
                assert(all[k] == b[k - a.len()]);
                assert(all[k] == w);
            }
        }
    }
}

} // verus!

verus! {

/// A project's outputs pass the check exactly when every target's verdict is "up to date":
/// with no failed check, no target is reported stale exactly when every verdict is `true`.
pub proof fn lemma_stale_names<E>(names: Seq<Seq<char>>, verdicts: Seq<Result<bool, E>>)
    requires
        forall|i: int| 0 <= i < verdicts.len() ==> (#[trigger] verdicts[i]) is Ok,
    ensures
        stale_names(names, verdicts).len() == 0 <==> forall|i: int|
            0 <= i < verdicts.len() ==> #[trigger] verdicts[i] == Ok::<bool, E>(true),
    decreases verdicts.len(),
{
    if verdicts.len() > 0 {
        let init = verdicts.drop_last();
        assert forall|i: int| 0 <= i < init.len() implies (#[trigger] init[i]) is Ok by {
            assert(init[i] == verdicts[i]);
        }
        lemma_stale_names(names, init);
        let n = verdicts.len() - 1;
        assert(verdicts[n] == verdicts.last());
        assert forall|i: int| 0 <= i < n implies #[trigger] verdicts[i] == init[i] by {}
        if verdicts.last()->Ok_0 {
            assert(verdicts.last() == Ok::<bool, E>(true));
        } else {
            assert(verdicts.last() == Ok::<bool, E>(false));
        }
    }
}

/// Outputs are current only when every file read holds exactly the UTF-8 encoding of its
/// generated content, and the walk finds exactly the generated files: a read file with any
/// other contents (a longer file that merely begins with the generated content, a shorter one,
/// or one gone when read) makes the outputs stale, and so does a missing or an extra file.
pub proof fn lemma_changed_file_is_stale(
    t: TargetOutputsView,
    listing: Seq<ListedEntryView>,
    contents: Seq<Option<Seq<u8>>>,
)
    ensures
        outputs_current(t, listing, contents) ==> listed_files(listing) == generated_paths(t.files),
        outputs_current(t, listing, contents) ==> forall|k: int|
            0 <= k < files_to_read(t, listing).len() ==> #[trigger] contents[k] == Some(
                encode_utf8(files_to_read(t, listing)[k].content),
            ),
        forall|k: int|
            0 <= k < files_to_read(t, listing).len() && #[trigger] contents[k] != Some(
                encode_utf8(files_to_read(t, listing)[k].content),
            ) ==> !outputs_current(t, listing, contents),
        listed_files(listing) != generated_paths(t.files) ==> !outputs_current(t, listing, contents),
{
}

/// Whether every write of a file in the steps comes right after the creation of that file's
/// own parent directory, when it has one.
pub open spec fn writes_after_parent(steps: Seq<WriteStepView>) -> bool {
    forall|k: int|
        0 <= k < steps.len() ==> match #[trigger] steps[k] {
            WriteStepView::WriteFile(f, _) => match path_parent(f) {
                Some(p) => k >= 1 && steps[k - 1] == WriteStepView::EnsureDir(p),
                None => true,
            },
            _ => true,
        }
}

/// The steps that write files create each file's own parent directory right before writing it.
proof fn lemma_files_write_after_parent(dir: Seq<char>, files: Seq<OutputFileView>)
    ensures
        writes_after_parent(files_write_steps(dir, files)),
    decreases files.len(),
{
    if files.len() > 0 {
        lemma_files_write_after_parent(dir, files.drop_last());
        let a = files_write_steps(dir, files.drop_last());
        let b = file_write_steps(dir, files.last());
        let all = files_write_steps(dir, files);
        assert(all == a + b);
        assert forall|k: int| 0 <= k < all.len() implies match #[trigger] all[k] {
            WriteStepView::WriteFile(f, _) => match path_parent(f) {
                Some(p) => k >= 1 && all[k - 1] == WriteStepView::EnsureDir(p),
                None => true,
            },
            _ => true,
        } by {
            if k < a.len() {
                assert(all[k] == a[k]);
                if k >= 1 {
                    assert(all[k - 1] == a[k - 1]);
                }
            } else {
                assert(all[k] == b[k - a.len()]);
                if k - a.len() == 1 {
                    assert(all[k - 1] == b[0]);
                }
            }
        }
    }
}

/// Writing a target's outputs puts every file into a directory that exists: each write of a
/// file comes right after the creation of that file's own parent directory (with its missing
/// ancestors), whatever the depth of the file below the outputs directory.
pub proof fn lemma_write_after_parent(t: TargetOutputsView)
    ensures
        writes_after_parent(target_write_steps(t)),
{
    lemma_files_write_after_parent(t.outputs_dir, t.files);
    let head = seq![WriteStepView::ClearDir(t.outputs_dir), WriteStepView::CreateDir(t.outputs_dir)];
    let body = files_write_steps(t.outputs_dir, t.files);
    let all = target_write_steps(t);
    assert(all == head + body);
    assert forall|k: int| 0 <= k < all.len() implies match #[trigger] all[k] {
        WriteStepView::WriteFile(f, _) => match path_parent(f) {
            Some(p) => k >= 1 && all[k - 1] == WriteStepView::EnsureDir(p),
            None => true,
        },
        _ => true,
    } by {
        if k >= 2 {
            assert(all[k] == body[k - 2]);
            if k >= 3 {
                assert(all[k - 1] == body[k - 3]);
            }
        }
    }
}

} // verus!
