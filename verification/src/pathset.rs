//! Sets of paths kept in path order.

use vstd::prelude::*;

use crate::paths::{
    chars_less, chars_of, lemma_path_lt_asymmetric, lemma_path_lt_irreflexive,
    lemma_path_lt_total, lemma_path_lt_transitive, path_lt,
};

verus! {

/// Paths strictly increasing in path order (so each occurs once).
pub open spec fn paths_sorted(s: Seq<Seq<char>>) -> bool {
    forall|i: int, j: int| 0 <= i < j < s.len() ==> path_lt(#[trigger] s[i], #[trigger] s[j])
}

/// Every path that occurs in one of the groups.
pub open spec fn groups_union(groups: Seq<Seq<Seq<char>>>) -> Set<Seq<char>> {
    Set::new(|p: Seq<char>| exists|i: int| 0 <= i < groups.len() && #[trigger] groups[i].contains(p))
}

/// The contents of a list of lists of strings.
pub open spec fn groups_view(groups: Seq<Vec<String>>) -> Seq<Seq<Seq<char>>> {
    groups.map_values(|g: Vec<String>| g@.map_values(|p: String| p@))
}

/// Two sequences in path order that hold the same paths are the same sequence: a path set's
/// order is fixed by its contents.
pub proof fn lemma_sorted_unique(a: Seq<Seq<char>>, b: Seq<Seq<char>>)
    requires
        paths_sorted(a),
        paths_sorted(b),
        a.to_set() == b.to_set(),
    ensures
        a == b,
    decreases a.len(),
{
    if a.len() == 0 {
        if b.len() > 0 {
            assert(b.to_set().contains(b[0]));
        }
        assert(a =~= b);
    } else {
        assert(a.to_set().contains(a[0]));
        assert(b.len() > 0);
        assert(b.to_set().contains(b[0]));
        let k = choose|k: int| 0 <= k < b.len() && b[k] == a[0];
        let m = choose|m: int| 0 <= m < a.len() && a[m] == b[0];
        if a[0] != b[0] {
            assert(k > 0 && m > 0);
            assert(path_lt(b[0], b[k]));
            assert(path_lt(a[0], a[m]));
            lemma_path_lt_asymmetric(a[0], b[0]);
        }
        assert forall|x: Seq<char>| a.drop_first().contains(x) <==> b.drop_first().contains(x) by {
            if a.drop_first().contains(x) {
                let i = choose|i: int| 0 <= i < a.len() - 1 && a.drop_first()[i] == x;
                assert(a.contains(x)) by { assert(a[i + 1] == x); }
                assert(b.to_set().contains(x));
                let j = choose|j: int| 0 <= j < b.len() && b[j] == x;
                if j == 0 {
                    assert(path_lt(a[0], a[i + 1]));
                    lemma_path_lt_irreflexive(a[0]);
                }
                assert(b.drop_first()[j - 1] == x);
            }
            if b.drop_first().contains(x) {
                let i = choose|i: int| 0 <= i < b.len() - 1 && b.drop_first()[i] == x;
                assert(b.contains(x)) by { assert(b[i + 1] == x); }
                assert(a.to_set().contains(x));
                let j = choose|j: int| 0 <= j < a.len() && a[j] == x;
                if j == 0 {
                    assert(path_lt(b[0], b[i + 1]));
                    lemma_path_lt_irreflexive(b[0]);
                }
                assert(a.drop_first()[j - 1] == x);
            }
        }
        assert(a.drop_first().to_set() =~= b.drop_first().to_set());
        lemma_sorted_unique(a.drop_first(), b.drop_first());
        assert(a =~= seq![a[0]] + a.drop_first());
        assert(b =~= seq![b[0]] + b.drop_first());
    }
}

/// A set of paths, held in path order.
#[derive(Debug)]
pub struct PathSet {
    paths: Vec<String>,
}

impl View for PathSet {
    type V = Seq<Seq<char>>;

    closed spec fn view(&self) -> Seq<Seq<char>> {
        self.paths@.map_values(|p: String| p@)
    }
}

impl PathSet {
    #[verifier::type_invariant]
    spec fn inv(&self) -> bool {
        paths_sorted(self@)
    }

    /// The empty set.
    pub fn new() -> (res: PathSet)
        ensures
            res@ == Seq::<Seq<char>>::empty(),
    {
        let res = PathSet { paths: Vec::new() };
        assert(res@ =~= Seq::<Seq<char>>::empty());
        res
    }

    /// Number of paths in the set.
    pub fn len(&self) -> (res: usize)
        ensures
            res == self@.len(),
    {
        self.paths.len()
    }

    /// Whether the set is empty.
    pub fn is_empty(&self) -> (res: bool)
        ensures
            res == (self@.len() == 0),
    {
        self.paths.len() == 0
    }

    /// Adds a path to the set.
    pub fn insert(&mut self, p: String)
        ensures
            final(self)@.to_set() == old(self)@.to_set().insert(p@),
            paths_sorted(final(self)@),
            old(self)@.contains(p@) ==> final(self)@ == old(self)@,
    {
        proof {
            use_type_invariant(&*self);
        }
        let ghost old_view = self@;
        let mut v: Vec<String> = Vec::new();
        std::mem::swap(&mut v, &mut self.paths);
        assert(v@.map_values(|q: String| q@) == old_view);
        let pc = chars_of(p.as_str());
        let n = v.len();
        let mut i: usize = 0;
        let mut go = true;
        while go && i < n
            invariant
                n == v@.len(),
                old_view == v@.map_values(|q: String| q@),
                paths_sorted(old_view),
                pc@ == p@,
                i <= n,
                forall|j: int| 0 <= j < i ==> path_lt(#[trigger] old_view[j], p@),
                !go ==> i < n && !path_lt(old_view[i as int], p@),
            decreases (if go { n - i + 1 } else { 0 }),
        {
            let ic = chars_of(v[i].as_str());
            if chars_less(&ic, &pc) {
                i = i + 1;
            } else {
                go = false;
            }
        }
        if i < n && v[i] == p {
            assert(old_view.contains(p@)) by {
                assert(old_view[i as int] == p@);
            }
            proof {
                assert(old_view.to_set().insert(p@) =~= old_view.to_set());
            }
            self.paths = v;
            return;
        }
        proof {
            if i < n {
                lemma_path_lt_total(p@, old_view[i as int]);
            }
            assert forall|j: int| 0 <= j < n implies old_view[j] != p@ by {
                if j < i {
                    lemma_path_lt_irreflexive(p@);
                } else {
                    lemma_path_lt_total(p@, old_view[i as int]);
                    if j > i {
                        lemma_path_lt_transitive(p@, old_view[i as int], old_view[j]);
                        lemma_path_lt_irreflexive(p@);
                    }
                }
            }
        }
        let ghost pv = p@;
        v.insert(i, p);
        let ghost nv = v@.map_values(|q: String| q@);
        proof {
            assert(nv =~= old_view.insert(i as int, pv));
            assert forall|a: int, b: int| 0 <= a < b < nv.len() implies path_lt(
                #[trigger] nv[a],
                #[trigger] nv[b],
            ) by {
                if b < i {
                } else if b == i {
                } else if a < i {
                    // a < i < b: old[a] < p < old[b - 1]
                    lemma_path_lt_total(pv, old_view[i as int]);
                    if b - 1 > i {
                        lemma_path_lt_transitive(pv, old_view[i as int], old_view[b - 1]);
                    }
                    lemma_path_lt_transitive(old_view[a], pv, old_view[b - 1]);
                } else if a == i {
                    lemma_path_lt_total(pv, old_view[i as int]);
                    if b - 1 > i {
                        lemma_path_lt_transitive(pv, old_view[i as int], old_view[b - 1]);
                    }
                } else {
                    assert(nv[a] == old_view[a - 1]);
                    assert(nv[b] == old_view[b - 1]);
                }
            }
            assert(nv.to_set() =~= old_view.to_set().insert(pv)) by {
                assert forall|x: Seq<char>| #[trigger] nv.contains(x) implies old_view.to_set().insert(pv).contains(x) by {
                    let k = choose|k: int| 0 <= k < nv.len() && nv[k] == x;
                    if k < i {
                        assert(old_view[k] == x);
                    } else if k > i {
                        assert(old_view[k - 1] == x);
                    }
                }
                assert forall|x: Seq<char>| old_view.to_set().insert(pv).contains(x) implies #[trigger] nv.contains(x) by {
                    if x == pv {
                        assert(nv[i as int] == pv);
                    } else {
                        let k = choose|k: int| 0 <= k < old_view.len() && old_view[k] == x;
                        if k < i {
                            assert(nv[k] == x);
                        } else {
                            assert(nv[k + 1] == x);
                        }
                    }
                }
            }
        }
        self.paths = v;
    }

    /// The paths of `self` that `other` does not hold, in path order.
    pub fn difference(&self, other: &PathSet) -> (res: PathSet)
        ensures
            res@.to_set() == self@.to_set().difference(other@.to_set()),
            paths_sorted(res@),
    {
        proof {
            use_type_invariant(self);
        }
        let n = self.paths.len();
        let mut kept: Vec<String> = Vec::new();
        let mut i: usize = 0;
        while i < n
            invariant
                n == self@.len(),
                paths_sorted(self@),
                i <= n,
                paths_sorted(kept@.map_values(|q: String| q@)),
                forall|k: int| 0 <= k < kept@.len() ==> exists|j: int| 0 <= j < i && #[trigger] kept@[k]@ == self@[j],
                kept@.map_values(|q: String| q@).to_set() == self@.take(i as int).to_set().difference(other@.to_set()),
            decreases n - i,
        {
            let item = self.paths[i].clone();
            let ghost kv = kept@.map_values(|q: String| q@);
            if !other.contains(item.as_str()) {
                kept.push(item);
                proof {
                    let nv = kept@.map_values(|q: String| q@);
                    assert(nv =~= kv.push(self@[i as int]));
                    assert forall|a: int, b: int| 0 <= a < b < nv.len() implies path_lt(
                        #[trigger] nv[a],
                        #[trigger] nv[b],
                    ) by {
                        if b == nv.len() - 1 {
                            assert(kept@[a]@ == nv[a]);
                            let j = choose|j: int| 0 <= j < i && #[trigger] kept@[a]@ == self@[j];
                            assert(path_lt(self@[j], self@[i as int]));
                        }
                    }
                    assert forall|k: int| 0 <= k < kept@.len() implies exists|j: int| 0 <= j < i + 1 && #[trigger] kept@[k]@ == self@[j] by {
                        if k == kept@.len() - 1 {
                            assert(kept@[k]@ == self@[i as int]);
                        } else {
                            assert(kept@[k]@ == kv[k]);
                        }
                    }
                    assert(self@.take(i + 1) =~= self@.take(i as int).push(self@[i as int]));
                    kv.lemma_push_to_set_commute(self@[i as int]);
                    self@.take(i as int).lemma_push_to_set_commute(self@[i as int]);
                    assert(nv.to_set() =~= self@.take(i + 1).to_set().difference(other@.to_set()));
                }
            } else {
                proof {
                    assert(self@.take(i + 1) =~= self@.take(i as int).push(self@[i as int]));
                    self@.take(i as int).lemma_push_to_set_commute(self@[i as int]);
                    assert(kv.to_set() =~= self@.take(i + 1).to_set().difference(other@.to_set()));
                }
            }
            i = i + 1;
        }
        assert(self@.take(n as int) =~= self@);
        PathSet { paths: kept }
    }

    /// The set of every path that occurs in one of the groups.
    pub fn from_groups(groups: &Vec<Vec<String>>) -> (res: PathSet)
        ensures
            res@.to_set() == groups_union(groups_view(groups@)),
            paths_sorted(res@),
    {
        let mut res = PathSet::new();
        let ghost gv = groups_view(groups@);
        let mut g: usize = 0;
        assert(res@.to_set() =~= groups_union(gv.take(0)));
        while g < groups.len()
            invariant
                gv == groups_view(groups@),
                g <= groups.len(),
                res@.to_set() == groups_union(gv.take(g as int)),
            decreases groups.len() - g,
        {
            let group = &groups[g];
            let ghost before = res@.to_set();
            let mut k: usize = 0;
            assert(gv[g as int] == group@.map_values(|p: String| p@));
            while k < group.len()
                invariant
                    gv == groups_view(groups@),
                    g < groups.len(),
                    group == groups@[g as int],
                    gv[g as int] == group@.map_values(|p: String| p@),
                    k <= group.len(),
                    res@.to_set() == before.union(gv[g as int].take(k as int).to_set()),
                decreases group.len() - k,
            {
                res.insert(group[k].clone());
                proof {
                    assert(gv[g as int].take(k + 1) =~= gv[g as int].take(k as int).push(gv[g as int][k as int]));
                    gv[g as int].take(k as int).lemma_push_to_set_commute(gv[g as int][k as int]);
                    assert(res@.to_set() =~= before.union(gv[g as int].take(k + 1).to_set()));
                }
                k = k + 1;
            }
            proof {
                assert(gv[g as int].take(k as int) =~= gv[g as int]);
                assert forall|p: Seq<char>| #[trigger] groups_union(gv.take(g + 1)).contains(p) <==> res@.to_set().contains(p) by {
                    if groups_union(gv.take(g + 1)).contains(p) {
                        let i = choose|i: int| 0 <= i < g + 1 && #[trigger] gv.take(g + 1)[i].contains(p);
                        if i < g {
                            assert(gv.take(g as int)[i] == gv.take(g + 1)[i]);
                            assert(groups_union(gv.take(g as int)).contains(p));
                        } else {
                            assert(gv[g as int].to_set().contains(p));
                        }
                    }
                    if res@.to_set().contains(p) {
                        if before.contains(p) {
                            let i = choose|i: int| 0 <= i < g && #[trigger] gv.take(g as int)[i].contains(p);
                            assert(gv.take(g + 1)[i] == gv.take(g as int)[i]);
                        } else {
                            assert(gv.take(g + 1)[g as int] == gv[g as int]);
                            assert(gv.take(g + 1)[g as int].contains(p));
                        }
                    }
                }
                assert(res@.to_set() =~= groups_union(gv.take(g + 1)));
            }
            g = g + 1;
        }
        assert(gv.take(g as int) =~= gv);
        proof {
            use_type_invariant(&res);
        }
        res
    }

    /// The paths matched by any of `matches` and by none of `excludes`, where each inner list
    /// holds the matches of one pattern.
    pub fn resolve(matches: &Vec<Vec<String>>, excludes: &Vec<Vec<String>>) -> (res: PathSet)
        ensures
            res@.to_set() == groups_union(groups_view(matches@)).difference(
                groups_union(groups_view(excludes@)),
            ),
            paths_sorted(res@),
    {
        let included = PathSet::from_groups(matches);
        let excluded = PathSet::from_groups(excludes);
        included.difference(&excluded)
    }

    /// A copy of the set.
    pub fn duplicate(&self) -> (res: PathSet)
        ensures
            res@ == self@,
    {
        proof {
            use_type_invariant(self);
        }
        let paths = self.to_vec();
        PathSet { paths }
    }

    /// The path at a position.
    pub fn get(&self, i: usize) -> (res: &String)
        requires
            i < self@.len(),
        ensures
            res@ == self@[i as int],
    {
        &self.paths[i]
    }

    /// The paths, in path order.
    pub fn to_vec(&self) -> (res: Vec<String>)
        ensures
            res@.map_values(|p: String| p@) == self@,
    {
        let mut res: Vec<String> = Vec::new();
        let mut i: usize = 0;
        while i < self.paths.len()
            invariant
                i <= self.paths.len(),
                res@.map_values(|p: String| p@) == self@.take(i as int),
            decreases self.paths.len() - i,
        {
            let item = self.paths[i].clone();
            assert(item@ == self@[i as int]);
            let ghost before = res@;
            res.push(item);
            assert(res@ == before.push(item));
            assert(self@.take(i + 1) =~= self@.take(i as int).push(item@));
            i = i + 1;
            assert(res@.map_values(|p: String| p@) =~= self@.take(i as int));
        }
        assert(self@.take(i as int) =~= self@);
        res
    }

    /// Whether the set holds a path.
    pub fn contains(&self, p: &str) -> (res: bool)
        ensures
            res == self@.contains(p@),
    {
        let mut i: usize = 0;
        while i < self.paths.len()
            invariant
                i <= self.paths.len(),
                forall|j: int| 0 <= j < i ==> self@[j] != p@,
            decreases self.paths.len() - i,
        {
            if self.paths[i] == p.to_string() {
                assert(self@[i as int] == p@);
                return true;
            }
            i = i + 1;
        }
        proof {
            if self@.contains(p@) {
                let j = choose|j: int| 0 <= j < self@.len() && self@[j] == p@;
                assert(self@[j] == p@);
            }
        }
        false
    }
}

} // verus!
