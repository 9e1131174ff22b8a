//! Paths as text: ordering, joining and the validation of generated output paths.

use vstd::prelude::*;

verus! {

/// Character order within paths: the separator sorts before every other character,
/// the others sort by code point.
pub open spec fn char_lt(x: char, y: char) -> bool {
    x != y && (x == '/' || (y != '/' && (x as int) < (y as int)))
}

/// Strict path order: lexicographic over characters ordered by `char_lt`.
/// On paths without empty, `.` or `..` components this is the component-wise order.
pub open spec fn path_lt(a: Seq<char>, b: Seq<char>) -> bool
    decreases a.len(),
{
    if a.len() == 0 {
        b.len() > 0
    } else if b.len() == 0 {
        false
    } else if a[0] != b[0] {
        char_lt(a[0], b[0])
    } else {
        path_lt(a.drop_first(), b.drop_first())
    }
}

/// No path precedes itself.
pub proof fn lemma_path_lt_irreflexive(a: Seq<char>)
    ensures
        !path_lt(a, a),
    decreases a.len(),
{
    if a.len() > 0 {
        lemma_path_lt_irreflexive(a.drop_first());
    }
}

/// Path order is transitive.
pub proof fn lemma_path_lt_transitive(a: Seq<char>, b: Seq<char>, c: Seq<char>)
    requires
        path_lt(a, b),
        path_lt(b, c),
    ensures
        path_lt(a, c),
    decreases a.len(),
{
    if a.len() > 0 && b.len() > 0 && c.len() > 0 {
        if a[0] == b[0] && b[0] == c[0] {
            lemma_path_lt_transitive(a.drop_first(), b.drop_first(), c.drop_first());
        }
    }
}

/// Any two distinct paths are ordered one way or the other.
pub proof fn lemma_path_lt_total(a: Seq<char>, b: Seq<char>)
    ensures
        a == b || path_lt(a, b) || path_lt(b, a),
    decreases a.len(),
{
    if a.len() == 0 && b.len() == 0 {
        assert(a =~= b);
    }
    if a.len() > 0 && b.len() > 0 && a[0] == b[0] {
        lemma_path_lt_total(a.drop_first(), b.drop_first());
        if a.drop_first() == b.drop_first() {
            assert(a =~= seq![a[0]] + a.drop_first());
            assert(b =~= seq![b[0]] + b.drop_first());
        }
    }
}

/// A path that precedes another does not follow it.
pub proof fn lemma_path_lt_asymmetric(a: Seq<char>, b: Seq<char>)
    requires
        path_lt(a, b),
    ensures
        !path_lt(b, a),
{
    if path_lt(b, a) {
        lemma_path_lt_transitive(a, b, a);
        lemma_path_lt_irreflexive(a);
    }
}

/// Compares two character sequences in path order.
pub fn chars_less(a: &Vec<char>, b: &Vec<char>) -> (res: bool)
    ensures
        res == path_lt(a@, b@),
{
    let mut i: usize = 0;
    assert(a@.skip(0) =~= a@);
    assert(b@.skip(0) =~= b@);
    while i < a.len() && i < b.len()
        invariant
            i <= a.len(),
            i <= b.len(),
            forall|j: int| 0 <= j < i ==> a@[j] == b@[j],
            path_lt(a@, b@) == path_lt(a@.skip(i as int), b@.skip(i as int)),
        decreases a.len() - i,
    {
        if a[i] != b[i] {
            assert(a@.skip(i as int)[0] == a@[i as int]);
            assert(b@.skip(i as int)[0] == b@[i as int]);
            assert(a@.skip(i as int).len() > 0 && b@.skip(i as int).len() > 0);
            let ac = a[i];
            let bc = b[i];
            assert(path_lt(a@, b@) == char_lt(ac, bc));
            return if a[i] == '/' {
                true
            } else if b[i] == '/' {
                false
            } else {
                ac < bc
            };
        }
        assert(a@.skip(i as int).drop_first() =~= a@.skip(i + 1));
        assert(b@.skip(i as int).drop_first() =~= b@.skip(i + 1));
        i = i + 1;
    }
    i < b.len()
}

/// Compares two paths in path order.
pub fn path_less(a: &str, b: &str) -> (res: bool)
    ensures
        res == path_lt(a@, b@),
{
    let ac = chars_of(a);
    let bc = chars_of(b);
    chars_less(&ac, &bc)
}

/// Length of the leading run of non-separator characters.
pub open spec fn run_len(s: Seq<char>) -> nat
    decreases s.len(),
{
    if s.len() == 0 || s[0] == '/' {
        0
    } else {
        1 + run_len(s.drop_first())
    }
}

/// Bounds and contents of the leading run.
pub proof fn lemma_run_len_bounds(s: Seq<char>)
    ensures
        run_len(s) <= s.len(),
        s.len() > 0 && s[0] != '/' ==> run_len(s) >= 1,
        forall|i: int| 0 <= i < run_len(s) ==> s[i] != '/',
        run_len(s) < s.len() ==> s[run_len(s) as int] == '/',
    decreases s.len(),
{
    if s.len() > 0 && s[0] != '/' {
        lemma_run_len_bounds(s.drop_first());
        assert forall|i: int| 0 <= i < run_len(s) implies s[i] != '/' by {
            if i > 0 {
                assert(s[i] == s.drop_first()[i - 1]);
            }
        }
    }
}

/// The parts of a path: its maximal runs of non-separator characters, in order.
pub open spec fn path_parts(s: Seq<char>) -> Seq<Seq<char>>
    decreases s.len(),
{
    if s.len() == 0 {
        seq![]
    } else if s[0] == '/' {
        path_parts(s.drop_first())
    } else {
        proof {
            lemma_run_len_bounds(s);
        }
        seq![s.take(run_len(s) as int)] + path_parts(s.skip(run_len(s) as int))
    }
}

/// A run that stops at a separator or at the end is the leading run.
pub proof fn lemma_run_len_exact(t: Seq<char>, m: nat)
    requires
        m <= t.len(),
        forall|k: int| 0 <= k < m ==> t[k] != '/',
        m == t.len() || t[m as int] == '/',
    ensures
        run_len(t) == m,
    decreases m,
{
    if m > 0 {
        assert forall|k: int| 0 <= k < m - 1 implies t.drop_first()[k] != '/' by {
            assert(t.drop_first()[k] == t[k + 1]);
        }
        if m < t.len() {
            assert(t.drop_first()[m - 1] == t[m as int]);
        }
        lemma_run_len_exact(t.drop_first(), (m - 1) as nat);
    }
}

/// Splits a path into its parts (see `path_parts`).
pub fn split_parts(s: &str) -> (res: Vec<String>)
    ensures
        res@.map_values(|p: String| p@) == path_parts(s@),
{
    let cs = chars_of(s);
    let n = cs.len();
    let mut res: Vec<String> = Vec::new();
    let mut i: usize = 0;
    assert(s@.skip(0) =~= s@);
    while i < n
        invariant
            n == s@.len(),
            cs@ == s@,
            i <= n,
            res@.map_values(|p: String| p@) + path_parts(s@.skip(i as int)) == path_parts(s@),
        decreases n - i,
    {
        let ghost t = s@.skip(i as int);
        if cs[i] == '/' {
            assert(t.drop_first() =~= s@.skip(i + 1));
            i = i + 1;
        } else {
            let mut j: usize = i + 1;
            while j < n && cs[j] != '/'
                invariant
                    n == s@.len(),
                    cs@ == s@,
                    i < j <= n,
                    forall|k: int| i <= k < j ==> s@[k] != '/',
                decreases n - j,
            {
                j = j + 1;
            }
            proof {
                lemma_run_len_exact(t, (j - i) as nat);
                assert(t.take((j - i) as int) =~= s@.subrange(i as int, j as int));
                assert(t.skip((j - i) as int) =~= s@.skip(j as int));
            }
            let part = String::from_str(s.substring_char(i, j));
            let ghost before = res@.map_values(|p: String| p@);
            res.push(part);
            assert(res@.map_values(|p: String| p@) =~= before.push(part@));
            assert(before.push(part@) + path_parts(s@.skip(j as int)) =~= before + (seq![part@]
                + path_parts(s@.skip(j as int))));
            i = j;
        }
    }
    assert(s@.skip(n as int) =~= Seq::<char>::empty());
    assert(res@.map_values(|p: String| p@) + path_parts(s@.skip(n as int)) =~= res@.map_values(|p: String| p@));
    res
}

/// Why a path cannot name a generated output.
#[derive(Debug, Clone, Copy, PartialEq, Eq, Structural)]
pub enum OutputPathProblem {
    /// The path has a `.` part.
    CurDir,
    /// The path has a `..` part.
    ParentDir,
    /// The path starts at the root.
    NotRelative,
    /// The path has no parts at all.
    Empty,
}

/// The problem of the first `.` or `..` part, if any.
pub open spec fn first_part_problem(parts: Seq<Seq<char>>) -> Option<OutputPathProblem>
    decreases parts.len(),
{
    if parts.len() == 0 {
        None
    } else if parts[0] == seq!['.'] {
        Some(OutputPathProblem::CurDir)
    } else if parts[0] == seq!['.', '.'] {
        Some(OutputPathProblem::ParentDir)
    } else {
        first_part_problem(parts.drop_first())
    }
}

/// What, if anything, keeps a path from naming a generated output: an output path must be
/// relative, must have at least one part, and must have no `.` or `..` part.
pub open spec fn output_path_problem(s: Seq<char>) -> Option<OutputPathProblem> {
    if s.len() > 0 && s[0] == '/' {
        Some(OutputPathProblem::NotRelative)
    } else if first_part_problem(path_parts(s)) is Some {
        first_part_problem(path_parts(s))
    } else if path_parts(s).len() == 0 {
        Some(OutputPathProblem::Empty)
    } else {
        None
    }
}

/// Parts joined by single separators.
pub open spec fn join_parts(parts: Seq<Seq<char>>) -> Seq<char>
    decreases parts.len(),
{
    if parts.len() == 0 {
        seq![]
    } else if parts.len() == 1 {
        parts[0]
    } else {
        join_parts(parts.drop_last()) + seq!['/'] + parts.last()
    }
}

/// A path in normal form: its parts joined by single separators.
pub open spec fn normal_path(s: Seq<char>) -> Seq<char> {
    join_parts(path_parts(s))
}

/// Checks that a path can name a generated output and gives its normal form.
pub fn check_output_path(s: &str) -> (res: Result<String, OutputPathProblem>)
    ensures
        match output_path_problem(s@) {
            Some(problem) => res == Err::<String, OutputPathProblem>(problem),
            None => res is Ok && res->Ok_0@ == normal_path(s@),
        },
{
    let n = s.unicode_len();
    if n > 0 && s.get_char(0) == '/' {
        return Err(OutputPathProblem::NotRelative);
    }
    let parts = split_parts(s);
    let ghost pv = parts@.map_values(|p: String| p@);
    let mut k: usize = 0;
    assert(pv.skip(0) =~= pv);
    while k < parts.len()
        invariant
            pv == parts@.map_values(|p: String| p@),
            pv == path_parts(s@),
            !(s@.len() > 0 && s@[0] == '/'),
            k <= parts.len(),
            first_part_problem(pv) == first_part_problem(pv.skip(k as int)),
        decreases parts.len() - k,
    {
        let pc = chars_of(parts[k].as_str());
        let ghost rest = pv.skip(k as int);
        assert(rest[0] == pc@);
        if pc.len() == 1 && pc[0] == '.' {
            assert(pc@ =~= seq!['.']);
            return Err(OutputPathProblem::CurDir);
        }
        if pc.len() == 2 && pc[0] == '.' && pc[1] == '.' {
            assert(pc@ =~= seq!['.', '.']);
            assert(pc@ != seq!['.']);
            return Err(OutputPathProblem::ParentDir);
        }
        assert(pc@ != seq!['.']);
        assert(pc@ != seq!['.', '.']);
        assert(rest.drop_first() =~= pv.skip(k + 1));
        k = k + 1;
    }
    assert(pv.skip(k as int) =~= Seq::<Seq<char>>::empty());
    if parts.len() == 0 {
        return Err(OutputPathProblem::Empty);
    }
    Ok(join_all(&parts))
}

/// Joins parts with single separators (see `join_parts`).
pub fn join_all(parts: &Vec<String>) -> (res: String)
    ensures
        res@ == join_parts(parts@.map_values(|p: String| p@)),
{
    let ghost pv = parts@.map_values(|p: String| p@);
    let mut joined = String::new();
    let mut k: usize = 0;
    assert(pv.take(0) =~= Seq::<Seq<char>>::empty());
    while k < parts.len()
        invariant
            pv == parts@.map_values(|p: String| p@),
            k <= parts.len(),
            joined@ == join_parts(pv.take(k as int)),
        decreases parts.len() - k,
    {
        if k > 0 {
            joined.append("/");
        }
        joined.append(parts[k].as_str());
        proof {
            reveal_strlit("/");
            assert(pv.take(k + 1).drop_last() =~= pv.take(k as int));
            if k == 0 {
                assert(joined@ =~= join_parts(pv.take(1)));
            } else {
                assert(joined@ =~= join_parts(pv.take(k + 1)));
            }
        }
        k = k + 1;
    }
    assert(pv.take(k as int) =~= pv);
    joined
}

/// The normal form of a path (see `normal_path`).
pub fn normalize(s: &str) -> (res: String)
    ensures
        res@ == normal_path(s@),
{
    let parts = split_parts(s);
    join_all(&parts)
}

/// `base` joined with `p`: an absolute `p` replaces `base`; otherwise a separator is put
/// between them unless `base` is empty or already ends with one.
pub open spec fn path_join(base: Seq<char>, p: Seq<char>) -> Seq<char> {
    if p.len() > 0 && p[0] == '/' {
        p
    } else if base.len() > 0 && base.last() != '/' {
        base + seq!['/'] + p
    } else {
        base + p
    }
}

/// Joins two paths (see `path_join`).
pub fn join(base: &str, p: &str) -> (res: String)
    ensures
        res@ == path_join(base@, p@),
{
    let pn = p.unicode_len();
    if pn > 0 && p.get_char(0) == '/' {
        return String::from_str(p);
    }
    let bn = base.unicode_len();
    let mut res = String::from_str(base);
    if bn > 0 && base.get_char(bn - 1) != '/' {
        res.append("/");
        proof {
            reveal_strlit("/");
        }
    }
    res.append(p);
    res
}

/// Whether a path starts at the root.
pub open spec fn is_absolute(s: Seq<char>) -> bool {
    s.len() > 0 && s[0] == '/'
}

/// The path made of the given parts, starting at the root or not.
pub open spec fn parts_path(absolute: bool, parts: Seq<Seq<char>>) -> Seq<char> {
    if absolute {
        seq!['/'] + join_parts(parts)
    } else {
        join_parts(parts)
    }
}

/// A path followed by each of its ancestors, nearest first: each ancestor drops one more
/// trailing part, down to the root for an absolute path or to the empty path otherwise.
pub open spec fn ancestor_paths(s: Seq<char>) -> Seq<Seq<char>> {
    let parts = path_parts(s);
    seq![s] + Seq::new(
        parts.len(),
        |i: int| parts_path(is_absolute(s), parts.take(parts.len() - 1 - i)),
    )
}

/// The places searched for a project: the start directory, then its ancestors.
pub fn ancestors(start: &str) -> (res: Vec<String>)
    ensures
        res@.map_values(|p: String| p@) == ancestor_paths(start@),
{
    let n = start.unicode_len();
    let absolute = n > 0 && start.get_char(0) == '/';
    let parts = split_parts(start);
    let ghost pv = parts@.map_values(|p: String| p@);
    // prefixes[k] is the path made of the first k parts
    let mut prefixes: Vec<String> = Vec::new();
    let mut cur = if absolute {
        String::from_str("/")
    } else {
        String::new()
    };
    proof {
        reveal_strlit("/");
        assert(pv.take(0) =~= Seq::<Seq<char>>::empty());
        assert(cur@ =~= parts_path(absolute, pv.take(0)));
    }
    let mut k: usize = 0;
    while k < parts.len()
        invariant
            pv == parts@.map_values(|p: String| p@),
            absolute == is_absolute(start@),
            k <= parts.len(),
            prefixes@.len() == k,
            cur@ == parts_path(absolute, pv.take(k as int)),
            forall|j: int| 0 <= j < k ==> #[trigger] prefixes@[j]@ == parts_path(absolute, pv.take(j)),
        decreases parts.len() - k,
    {
        let next_cur = {
            let mut c = cur.clone();
            if k > 0 {
                c.append("/");
            }
            c.append(parts[k].as_str());
            c
        };
        proof {
            reveal_strlit("/");
            assert(pv.take(k + 1).drop_last() =~= pv.take(k as int));
            if k == 0 {
                assert(join_parts(pv.take(1)) =~= pv[0]);
            }
            assert(next_cur@ =~= parts_path(absolute, pv.take(k + 1)));
        }
        prefixes.push(cur);
        cur = next_cur;
        k = k + 1;
    }
    let mut res: Vec<String> = Vec::new();
    res.push(String::from_str(start));
    let m = prefixes.len();
    let mut i: usize = 0;
    while i < m
        invariant
            m == prefixes@.len(),
            m == pv.len(),
            pv == path_parts(start@),
            absolute == is_absolute(start@),
            i <= m,
            res@.len() == i + 1,
            res@[0]@ == start@,
            forall|j: int| 0 <= j < m ==> #[trigger] prefixes@[j]@ == parts_path(absolute, pv.take(j)),
            forall|j: int| 1 <= j <= i ==> #[trigger] res@[j]@ == parts_path(absolute, pv.take(m - j)),
        decreases m - i,
    {
        let p = prefixes[m - 1 - i].clone();
        res.push(p);
        i = i + 1;
    }
    assert(res@.map_values(|p: String| p@) =~= ancestor_paths(start@));
    res
}

/// The parent of a path: the path without its last part, or nothing when it has no part.
pub open spec fn path_parent(s: Seq<char>) -> Option<Seq<char>> {
    let parts = path_parts(s);
    if parts.len() == 0 {
        None
    } else {
        Some(parts_path(is_absolute(s), parts.drop_last()))
    }
}

/// The parent of a path (see `path_parent`).
pub fn parent(s: &str) -> (res: Option<String>)
    ensures
        match path_parent(s@) {
            Some(p) => res matches Some(r) && r@ == p,
            None => res is None,
        },
{
    let n = s.unicode_len();
    let absolute = n > 0 && s.get_char(0) == '/';
    let parts = split_parts(s);
    if parts.len() == 0 {
        return None;
    }
    let ghost pv = parts@.map_values(|p: String| p@);
    let mut init: Vec<String> = Vec::new();
    let mut k: usize = 0;
    while k + 1 < parts.len()
        invariant
            pv == parts@.map_values(|p: String| p@),
            parts@.len() > 0,
            k + 1 <= parts@.len(),
            init@.map_values(|p: String| p@) == pv.take(k as int),
        decreases parts.len() - k,
    {
        let item = parts[k].clone();
        let ghost before = init@;
        init.push(item);
        assert(init@ == before.push(item));
        assert(pv.take(k + 1) =~= pv.take(k as int).push(pv[k as int]));
        assert(init@.map_values(|p: String| p@) =~= pv.take(k + 1));
        k = k + 1;
    }
    assert(pv.take(k as int) =~= pv.drop_last());
    let joined = join_all(&init);
    if absolute {
        let mut r = String::from_str("/");
        r.append(joined.as_str());
        proof {
            reveal_strlit("/");
            assert(r@ =~= parts_path(true, pv.drop_last()));
        }
        Some(r)
    } else {
        Some(joined)
    }
}

/// Position of the first `true`, if any.
pub open spec fn first_true(flags: Seq<bool>) -> Option<int>
    decreases flags.len(),
{
    if flags.len() == 0 {
        None
    } else if flags[0] {
        Some(0)
    } else {
        match first_true(flags.drop_first()) {
            Some(i) => Some(i + 1),
            None => None,
        }
    }
}

/// `first_true` finds the earliest position that holds, the first one included: it is `i`
/// exactly when flag `i` holds and no earlier one does, and nothing exactly when no flag holds.
pub proof fn lemma_first_true(flags: Seq<bool>)
    ensures
        match first_true(flags) {
            Some(i) => 0 <= i < flags.len() && flags[i] && forall|j: int| 0 <= j < i ==> !#[trigger] flags[j],
            None => forall|j: int| 0 <= j < flags.len() ==> !#[trigger] flags[j],
        },
        forall|i: int|
            0 <= i < flags.len() && #[trigger] flags[i] && (forall|j: int| 0 <= j < i ==> !#[trigger] flags[j])
                ==> first_true(flags) == Some(i),
    decreases flags.len(),
{
    if flags.len() > 0 {
        let rest = flags.drop_first();
        lemma_first_true(rest);
        assert forall|j: int| 0 < j < flags.len() implies #[trigger] flags[j] == rest[j - 1] by {}
        assert forall|i: int|
            0 <= i < flags.len() && #[trigger] flags[i] && (forall|j: int| 0 <= j < i ==> !#[trigger] flags[j])
                implies first_true(flags) == Some(i) by {
            if i > 0 {
                assert(!flags[0]);
                assert(rest[i - 1]);
                assert forall|j: int| 0 <= j < i - 1 implies !#[trigger] rest[j] by {
                    assert(rest[j] == flags[j + 1]);
                }
            }
        }
    }
}

/// The first candidate that exists, given whether each one does: how the project root is
/// chosen among the start directory and its ancestors. The start directory, first among the
/// candidates, is taken when it holds the project.
pub fn first_existing(candidates: &Vec<String>, exists: &Vec<bool>) -> (res: Option<String>)
    requires
        candidates@.len() == exists@.len(),
    ensures
        match first_true(exists@) {
            Some(i) => res matches Some(c) && c@ == candidates@[i]@,
            None => res is None,
        },
        match res {
            Some(c) => exists|i: int|
                0 <= i < exists@.len() && exists@[i] && c@ == candidates@[i]@ && forall|j: int|
                    0 <= j < i ==> !#[trigger] exists@[j],
            None => forall|j: int| 0 <= j < exists@.len() ==> !#[trigger] exists@[j],
        },
{
    proof {
        lemma_first_true(exists@);
    }
    let mut i: usize = 0;
    assert(exists@.skip(0) =~= exists@);
    while i < exists.len()
        invariant
            candidates@.len() == exists@.len(),
            i <= exists@.len(),
            forall|j: int| 0 <= j < i ==> !exists@[j],
            first_true(exists@) == match first_true(exists@.skip(i as int)) {
                Some(k) => Some(k + i),
                None => None::<int>,
            },
        decreases exists@.len() - i,
    {
        assert(exists@.skip(i as int)[0] == exists@[i as int]);
        assert(exists@.skip(i as int).drop_first() =~= exists@.skip(i + 1));
        if exists[i] {
            return Some(candidates[i].clone());
        }
        i = i + 1;
    }
    assert(exists@.skip(i as int) =~= Seq::<bool>::empty());
    None
}

/// The characters of a string, in order.
pub fn chars_of(s: &str) -> (res: Vec<char>)
    ensures
        res@ == s@,
{
    let mut res: Vec<char> = Vec::new();
    for c in it: s.chars()
        invariant
            it.seq() == s@,
            res@ == it.seq().take(it.index() as int),
    {
        res.push(c);
    }
    res
}

} // verus!

verus! {

/// Parts of a concatenation split at a separator are the parts of each side.
pub proof fn lemma_parts_concat(x: Seq<char>, y: Seq<char>)
    requires
        x.len() == 0 || y.len() == 0 || x.last() == '/' || y[0] == '/',
    ensures
        path_parts(x + y) == path_parts(x) + path_parts(y),
    decreases x.len(),
{
    if x.len() == 0 {
        assert(x + y =~= y);
        assert(path_parts(x) =~= Seq::<Seq<char>>::empty());
        assert(path_parts(x) + path_parts(y) =~= path_parts(y));
    } else if y.len() == 0 {
        assert(x + y =~= x);
        assert(path_parts(x) + path_parts(y) =~= path_parts(x));
    } else if x[0] == '/' {
        assert((x + y).drop_first() =~= x.drop_first() + y);
        if x.drop_first().len() > 0 {
            assert(x.drop_first().last() == x.last());
        }
        lemma_parts_concat(x.drop_first(), y);
    } else {
        let xy = x + y;
        lemma_run_len_bounds(x);
        let r = run_len(x);
        assert forall|k: int| 0 <= k < r implies xy[k] != '/' by {
            assert(xy[k] == x[k]);
        }
        if r < x.len() {
            assert(xy[r as int] == x[r as int]);
        } else {
            assert(r == x.len());
            assert(x.last() != '/');
            assert(xy[r as int] == y[0]);
        }
        lemma_run_len_exact(xy, r);
        assert(xy.take(r as int) =~= x.take(r as int));
        assert(xy.skip(r as int) =~= x.skip(r as int) + y);
        if x.skip(r as int).len() > 0 {
            assert(x.skip(r as int).last() == x.last());
        }
        lemma_parts_concat(x.skip(r as int), y);
        assert(path_parts(xy) =~= seq![x.take(r as int)] + (path_parts(x.skip(r as int))
            + path_parts(y)));
        assert(path_parts(x) =~= seq![x.take(r as int)] + path_parts(x.skip(r as int)));
    }
}

/// A single part is its own only part.
pub proof fn lemma_parts_of_part(p: Seq<char>)
    requires
        p.len() > 0,
        forall|i: int| 0 <= i < p.len() ==> p[i] != '/',
    ensures
        path_parts(p) == seq![p],
{
    lemma_run_len_exact(p, p.len());
    assert(p.take(p.len() as int) =~= p);
    assert(p.skip(p.len() as int) =~= Seq::<char>::empty());
    assert(path_parts(p.skip(p.len() as int)) =~= Seq::<Seq<char>>::empty());
    assert(path_parts(p) =~= seq![p]);
}

/// Whether every part is a non-empty run of non-separators.
pub open spec fn proper_parts(ps: Seq<Seq<char>>) -> bool {
    forall|i: int|
        0 <= i < ps.len() ==> (#[trigger] ps[i]).len() > 0 && forall|k: int|
            0 <= k < ps[i].len() ==> ps[i][k] != '/'
}

/// The parts of a path are proper.
pub proof fn lemma_parts_proper(s: Seq<char>)
    ensures
        proper_parts(path_parts(s)),
    decreases s.len(),
{
    if s.len() > 0 {
        if s[0] == '/' {
            lemma_parts_proper(s.drop_first());
        } else {
            lemma_run_len_bounds(s);
            lemma_run_len_bounds(s);
            let r = run_len(s);
            lemma_parts_proper(s.skip(r as int));
            let rest = path_parts(s.skip(r as int));
            assert forall|i: int| 0 <= i < path_parts(s).len() implies (#[trigger] path_parts(s)[i]).len()
                > 0 && forall|k: int| 0 <= k < path_parts(s)[i].len() ==> path_parts(s)[i][k] != '/' by {
                if i == 0 {
                    assert(path_parts(s)[0] == s.take(r as int));
                } else {
                    assert(path_parts(s)[i] == rest[i - 1]);
                }
            }
        }
    }
}

/// Joining proper parts and splitting again gives the same parts.
pub proof fn lemma_parts_of_join(ps: Seq<Seq<char>>)
    requires
        proper_parts(ps),
    ensures
        path_parts(join_parts(ps)) == ps,
        ps.len() > 0 ==> join_parts(ps).len() > 0 && join_parts(ps)[0] == ps[0][0],
    decreases ps.len(),
{
    if ps.len() == 0 {
        assert(path_parts(join_parts(ps)) =~= ps);
    } else if ps.len() == 1 {
        assert(ps[0].len() > 0);
        lemma_parts_of_part(ps[0]);
        assert(seq![ps[0]] =~= ps);
    } else {
        let init = ps.drop_last();
        assert(proper_parts(init)) by {
            assert forall|i: int| 0 <= i < init.len() implies (#[trigger] init[i]).len() > 0
                && forall|k: int| 0 <= k < init[i].len() ==> init[i][k] != '/' by {
                assert(init[i] == ps[i]);
            }
        }
        lemma_parts_of_join(init);
        let a = join_parts(init);
        let sep = seq!['/'];
        assert(ps.last() == ps[ps.len() - 1]);
        assert(ps.last().len() > 0);
        lemma_parts_of_part(ps.last());
        lemma_parts_concat(a, sep);
        assert(path_parts(sep) =~= Seq::<Seq<char>>::empty()) by {
            assert(sep[0] == '/');
            assert(sep.drop_first() =~= Seq::<char>::empty());
            assert(path_parts(sep.drop_first()) =~= Seq::<Seq<char>>::empty());
            assert(path_parts(sep) == path_parts(sep.drop_first()));
        }
        assert((a + sep).last() == '/');
        lemma_parts_concat(a + sep, ps.last());
        assert(join_parts(ps) == a + sep + ps.last());
        assert(path_parts(a) + path_parts(sep) =~= init);
        assert(init + seq![ps.last()] =~= ps);
        assert(join_parts(ps)[0] == a[0]);
        assert(init[0] == ps[0]);
    }
}

/// The normal form of a path that can name an output can name an output too, and is its own
/// normal form: normalizing twice is normalizing once.
pub proof fn lemma_normal_output_path(s: Seq<char>)
    requires
        output_path_problem(s) is None,
    ensures
        output_path_problem(normal_path(s)) is None,
        normal_path(normal_path(s)) == normal_path(s),
        path_parts(normal_path(s)) == path_parts(s),
        !is_absolute(s),
        path_parts(s).len() > 0,
{
    let ps = path_parts(s);
    lemma_parts_proper(s);
    lemma_parts_of_join(ps);
    assert(ps.len() > 0);
    assert(ps[0].len() > 0);
    assert(ps[0][0] != '/');
}

/// The parts of a relative path joined to a directory are the directory's parts followed by
/// the path's.
pub proof fn lemma_path_join_parts(dir: Seq<char>, p: Seq<char>)
    requires
        !is_absolute(p),
    ensures
        path_parts(path_join(dir, p)) == path_parts(dir) + path_parts(p),
{
    let sep = seq!['/'];
    assert(path_parts(sep) =~= Seq::<Seq<char>>::empty()) by {
        assert(sep.drop_first() =~= Seq::<char>::empty());
        assert(path_parts(sep.drop_first()) =~= Seq::<Seq<char>>::empty());
    }
    if dir.len() > 0 && dir.last() != '/' {
        lemma_parts_concat(dir, sep);
        assert((dir + sep).last() == '/');
        lemma_parts_concat(dir + sep, p);
        assert(path_join(dir, p) == dir + sep + p);
        assert(path_parts(dir) + path_parts(sep) =~= path_parts(dir));
    } else {
        lemma_parts_concat(dir, p);
    }
}

} // verus!
