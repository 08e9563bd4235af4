use vstd::prelude::*;
use crate::walk::PathModel;
use crate::order::{path_lt, compare_paths, lemma_path_lt_irreflexive, lemma_path_lt_transitive, lemma_path_lt_total};

verus! {

/// A reserved version-control metadata name: `BitKeeper`, `CVS`, `CVS.adm`,
/// `.git`, `.hg`, `RCS`, `SCCS` or `.svn`.
pub open spec fn is_rev_info_name(n: Seq<u8>) -> bool {
    ||| n == seq![66u8, 105, 116, 75, 101, 101, 112, 101, 114]  // BitKeeper
    ||| n == seq![67u8, 86, 83]  // CVS
    ||| n == seq![67u8, 86, 83, 46, 97, 100, 109]  // CVS.adm
    ||| n == seq![46u8, 103, 105, 116]  // .git
    ||| n == seq![46u8, 104, 103]  // .hg
    ||| n == seq![82u8, 67, 83]  // RCS
    ||| n == seq![83u8, 67, 67, 83]  // SCCS
    ||| n == seq![46u8, 115, 118, 110]  // .svn
}

/// A path whose last component is a reserved metadata name.
pub open spec fn is_rev_info_path(p: PathModel) -> bool {
    p.len() > 0 && is_rev_info_name(p.last())
}

fn name_is(name: &Vec<u8>, lit: &[u8]) -> (r: bool)
    ensures
        r == (name@ == lit@),
{
    if name.len() != lit.len() {
        return false;
    }
    let mut i: usize = 0;
    while i < name.len()
        invariant
            i <= name.len(),
            name.len() == lit@.len(),
            name@.subrange(0, i as int) == lit@.subrange(0, i as int),
        decreases name.len() - i,
    {
        if name[i] != lit[i] {
            return false;
        }
        proof {
            assert(name@.subrange(0, i + 1) =~= name@.subrange(0, i as int).push(name@[i as int]));
            assert(lit@.subrange(0, i + 1) =~= lit@.subrange(0, i as int).push(lit@[i as int]));
        }
        i = i + 1;
    }
    proof {
        assert(name@ =~= name@.subrange(0, i as int));
        assert(lit@ =~= lit@.subrange(0, i as int));
    }
    true
}

/// Whether the last component of `path` is a version-control metadata name.
pub fn is_rev_info(path: &Vec<Vec<u8>>) -> (r: bool)
    ensures
        r == is_rev_info_path(path.deep_view()),
{
    if path.len() == 0 {
        return false;
    }
    let name = &path[path.len() - 1];
    assert(path.deep_view().last() == name@);
    let bitkeeper: [u8; 9] = [66u8, 105, 116, 75, 101, 101, 112, 101, 114];
    let cvs: [u8; 3] = [67u8, 86, 83];
    let cvs_adm: [u8; 7] = [67u8, 86, 83, 46, 97, 100, 109];
    let git: [u8; 4] = [46u8, 103, 105, 116];
    let hg: [u8; 3] = [46u8, 104, 103];
    let rcs: [u8; 3] = [82u8, 67, 83];
    let sccs: [u8; 4] = [83u8, 67, 67, 83];
    let svn: [u8; 4] = [46u8, 115, 118, 110];
    proof {
        assert(bitkeeper@ =~= seq![66u8, 105, 116, 75, 101, 101, 112, 101, 114]);
        assert(cvs@ =~= seq![67u8, 86, 83]);
        assert(cvs_adm@ =~= seq![67u8, 86, 83, 46, 97, 100, 109]);
        assert(git@ =~= seq![46u8, 103, 105, 116]);
        assert(hg@ =~= seq![46u8, 104, 103]);
        assert(rcs@ =~= seq![82u8, 67, 83]);
        assert(sccs@ =~= seq![83u8, 67, 67, 83]);
        assert(svn@ =~= seq![46u8, 115, 118, 110]);
    }
    name_is(name, bitkeeper.as_slice()) || name_is(name, cvs.as_slice()) || name_is(
        name,
        cvs_adm.as_slice(),
    ) || name_is(name, git.as_slice()) || name_is(name, hg.as_slice()) || name_is(
        name,
        rcs.as_slice(),
    ) || name_is(name, sccs.as_slice()) || name_is(name, svn.as_slice())
}

/// One path of the merged tree and the index of the source that holds it.
#[derive(Debug)]
pub struct Entry {
    pub path: Vec<Vec<u8>>,
    pub source: usize,
}

impl View for Entry {
    type V = (PathModel, nat);

    open spec fn view(&self) -> (PathModel, nat) {
        (self.path.deep_view(), self.source as nat)
    }
}

/// Two sources hold the same path: `first` (met earlier) and `second`.
#[derive(Debug)]
pub struct MergeConflict {
    pub path: Vec<Vec<u8>>,
    pub first: usize,
    pub second: usize,
}

pub open spec fn entries_view(m: Seq<Entry>) -> Seq<(PathModel, nat)> {
    m.map_values(|e: Entry| e@)
}

/// Paths strictly increase along `s`: sorted, and no path twice.
pub open spec fn strictly_sorted(s: Seq<(PathModel, nat)>) -> bool {
    forall|i: int, j: int| 0 <= i < j < s.len() ==> path_lt(#[trigger] s[i].0, #[trigger] s[j].0)
}

/// No path occurs twice in `c`.
pub open spec fn distinct_paths(c: Seq<(PathModel, nat)>) -> bool {
    forall|i: int, j: int| 0 <= i < j < c.len() ==> #[trigger] c[i].0 != #[trigger] c[j].0
}

/// Adds `(path, source)` to a map kept as a strictly sorted vector. Where the path
/// is there already, nothing changes and the source that holds it comes back.
fn insert_entry(map: &mut Vec<Entry>, path: Vec<Vec<u8>>, source: usize) -> (r: Option<usize>)
    requires
        strictly_sorted(entries_view(old(map)@)),
    ensures
        match r {
            Some(owner) => {
                &&& entries_view(final(map)@) == entries_view(old(map)@)
                &&& entries_view(old(map)@).contains((path.deep_view(), owner as nat))
            },
            None => {
                &&& strictly_sorted(entries_view(final(map)@))
                &&& forall|o: nat| !entries_view(old(map)@).contains((path.deep_view(), o))
                &&& forall|x: (PathModel, nat)| #[trigger] entries_view(final(map)@).contains(x)
                    <==> (entries_view(old(map)@).contains(x) || x == (path.deep_view(), source as nat))
            },
        },
{
    let ghost v = entries_view(map@);
    let ghost p = path.deep_view();
    let mut pos: usize = 0;
    let mut c: i8 = -1;
    while pos < map.len() && c < 0
        invariant
            v == entries_view(map@),
            p == path.deep_view(),
            pos <= map.len(),
            forall|i: int| 0 <= i < pos ==> path_lt(#[trigger] v[i].0, p),
            c >= 0 ==> pos < map.len(),
            c == 0 ==> v[pos as int].0 == p,
            c > 0 ==> path_lt(p, v[pos as int].0),
        decreases map.len() - pos, if c < 0 { 1int } else { 0int },
    {
        c = compare_paths(&map[pos].path, &path);
        if c < 0 {
            pos = pos + 1;
        }
    }
    if c == 0 {
        proof {
            assert(v[pos as int] == (p, map[pos as int].source as nat));
        }
        return Some(map[pos].source);
    }
    let ghost e = (p, source as nat);
    map.insert(pos, Entry { path, source });
    proof {
        let n = entries_view(map@);
        assert(n =~= v.insert(pos as int, e));
        assert forall|i: int, j: int| 0 <= i < j < n.len() implies path_lt(#[trigger] n[i].0, #[trigger] n[j].0) by {
            if j < pos {
            } else if j == pos {
            } else if i < pos {
                assert(n[j] == v[j - 1]);
            } else if i == pos {
                assert(n[j] == v[j - 1]);
                if j - 1 > pos {
                    lemma_path_lt_transitive(p, v[pos as int].0, v[j - 1].0);
                }
            } else {
                assert(n[i] == v[i - 1] && n[j] == v[j - 1]);
            }
        }
        assert forall|o: nat| !v.contains((p, o)) by {
            if v.contains((p, o)) {
                let q = choose|q: int| 0 <= q < v.len() && v[q] == (p, o);
                lemma_path_lt_irreflexive(p);
                if q < pos {
                    assert(path_lt(v[q].0, p));
                } else if q > pos {
                    assert(path_lt(v[pos as int].0, v[q].0));
                    lemma_path_lt_transitive(p, v[pos as int].0, p);
                }
            }
        }
        assert forall|x: (PathModel, nat)| #[trigger] n.contains(x) <==> (v.contains(x) || x == e) by {
            if n.contains(x) {
                let q = choose|q: int| 0 <= q < n.len() && n[q] == x;
                if q < pos {
                    assert(v[q] == x);
                } else if q > pos {
                    assert(v[q - 1] == x);
                }
            }
            if v.contains(x) {
                let q = choose|q: int| 0 <= q < v.len() && v[q] == x;
                if q < pos {
                    assert(n[q] == x);
                } else {
                    assert(n[q + 1] == x);
                }
            }
            if x == e {
                assert(n[pos as int] == x);
            }
        }
    }
    None
}

/// The paths that one source offers, in the order found, each tagged with the
/// source's index; metadata paths are left out unless `with_rev_info` holds.
pub open spec fn tagged(paths: Seq<PathModel>, source: nat, with_rev_info: bool) -> Seq<(PathModel, nat)>
    decreases paths.len(),
{
    if paths.len() == 0 {
        Seq::empty()
    } else {
        let rest = tagged(paths.drop_last(), source, with_rev_info);
        if with_rev_info || !is_rev_info_path(paths.last()) {
            rest.push((paths.last(), source))
        } else {
            rest
        }
    }
}

/// What all sources offer, source after source.
pub open spec fn candidates(found: Seq<Seq<PathModel>>, with_rev_info: bool) -> Seq<(PathModel, nat)>
    decreases found.len(),
{
    if found.len() == 0 {
        Seq::empty()
    } else {
        candidates(found.drop_last(), with_rev_info) + tagged(
            found.last(),
            (found.len() - 1) as nat,
            with_rev_info,
        )
    }
}

/// `c[j]` is the first offer whose path was offered before, by `first`; it came
/// from `second`.
pub open spec fn first_conflict_at(
    c: Seq<(PathModel, nat)>,
    j: int,
    path: PathModel,
    first: nat,
    second: nat,
) -> bool {
    &&& 0 <= j < c.len()
    &&& distinct_paths(c.subrange(0, j))
    &&& c[j] == (path, second)
    &&& c.subrange(0, j).contains((path, first))
}

/// The outcome of merging what the sources offer: a conflict exactly when some
/// path is offered twice, naming the first such offer; otherwise every offer,
/// once, in path order.
pub open spec fn merged(
    found: Seq<Seq<PathModel>>,
    with_rev_info: bool,
    r: Result<Seq<(PathModel, nat)>, (PathModel, nat, nat)>,
) -> bool {
    let c = candidates(found, with_rev_info);
    match r {
        Ok(m) => {
            &&& distinct_paths(c)
            &&& strictly_sorted(m)
            &&& forall|x: (PathModel, nat)| #[trigger] m.contains(x) <==> c.contains(x)
        },
        Err(conflict) => {
            &&& !distinct_paths(c)
            &&& exists|j: int| first_conflict_at(c, j, conflict.0, conflict.1, conflict.2)
        },
    }
}

pub open spec fn outcome_view(r: Result<Vec<Entry>, MergeConflict>) -> Result<Seq<(PathModel, nat)>, (PathModel, nat, nat)> {
    match r {
        Ok(m) => Ok(entries_view(m@)),
        Err(e) => Err((e.path.deep_view(), e.first as nat, e.second as nat)),
    }
}

proof fn lemma_tagged_prefix(paths: Seq<PathModel>, k: int, source: nat, w: bool)
    requires
        0 <= k <= paths.len(),
    ensures
        tagged(paths.subrange(0, k), source, w).is_prefix_of(tagged(paths, source, w)),
    decreases paths.len(),
{
    if k == paths.len() {
        assert(paths.subrange(0, k) =~= paths);
    } else {
        assert(paths.drop_last().subrange(0, k) =~= paths.subrange(0, k));
        lemma_tagged_prefix(paths.drop_last(), k, source, w);
    }
}

proof fn lemma_candidates_prefix(found: Seq<Seq<PathModel>>, s: int, w: bool)
    requires
        0 <= s <= found.len(),
    ensures
        candidates(found.subrange(0, s), w).is_prefix_of(candidates(found, w)),
    decreases found.len(),
{
    if s == found.len() {
        assert(found.subrange(0, s) =~= found);
    } else {
        assert(found.drop_last().subrange(0, s) =~= found.subrange(0, s));
        lemma_candidates_prefix(found.drop_last(), s, w);
    }
}

/// Merges the paths that each source offers (`found[i]`: those of source `i`)
/// into one map from path to source, sorted by path.
pub fn merge(found: &Vec<Vec<Vec<Vec<u8>>>>, with_rev_info: bool) -> (r: Result<Vec<Entry>, MergeConflict>)
    ensures
        merged(found.deep_view(), with_rev_info, outcome_view(r)),
{
    let ghost fv = found.deep_view();
    let ghost all = candidates(fv, with_rev_info);
    let mut map: Vec<Entry> = Vec::new();
    let ghost mut done: Seq<(PathModel, nat)> = Seq::empty();
    let mut s: usize = 0;
    proof {
        assert(fv.subrange(0, 0) =~= Seq::<Seq<PathModel>>::empty());
    }
    while s < found.len()
        invariant
            fv == found.deep_view(),
            all == candidates(fv, with_rev_info),
            s <= found.len(),
            done == candidates(fv.subrange(0, s as int), with_rev_info),
            done.is_prefix_of(all),
            distinct_paths(done),
            strictly_sorted(entries_view(map@)),
            forall|x: (PathModel, nat)| #[trigger] entries_view(map@).contains(x) <==> done.contains(x),
        decreases found.len() - s,
    {
        let paths = &found[s];
        let ghost base = done;
        let ghost pv = fv[s as int];
        assert(pv == paths.deep_view());
        proof {
            let t = fv.subrange(0, s + 1);
            assert(t.drop_last() =~= fv.subrange(0, s as int));
            lemma_candidates_prefix(fv, s + 1, with_rev_info);
            assert(pv.subrange(0, 0) =~= Seq::<PathModel>::empty());
            assert(done =~= base + tagged(pv.subrange(0, 0), s as nat, with_rev_info));
        }
        let mut k: usize = 0;
        while k < paths.len()
            invariant
                fv == found.deep_view(),
                all == candidates(fv, with_rev_info),
                s < found.len(),
                pv == fv[s as int],
                pv == paths.deep_view(),
                k <= paths.len(),
                base == candidates(fv.subrange(0, s as int), with_rev_info),
                (base + tagged(pv, s as nat, with_rev_info)).is_prefix_of(all),
                done == base + tagged(pv.subrange(0, k as int), s as nat, with_rev_info),
                distinct_paths(done),
                strictly_sorted(entries_view(map@)),
                forall|x: (PathModel, nat)| #[trigger] entries_view(map@).contains(x) <==> done.contains(x),
            decreases paths.len() - k,
        {
            let ghost next = tagged(pv.subrange(0, k + 1), s as nat, with_rev_info);
            proof {
                assert(pv.subrange(0, k + 1).drop_last() =~= pv.subrange(0, k as int));
                assert(pv.subrange(0, k + 1).last() == pv[k as int]);
                lemma_tagged_prefix(pv, k + 1, s as nat, with_rev_info);
            }
            if with_rev_info || !is_rev_info(&paths[k]) {
                let ghost e = (pv[k as int], s as nat);
                assert(pv[k as int] == paths[k as int].deep_view());
                assert(next == tagged(pv.subrange(0, k as int), s as nat, with_rev_info).push(e));
                proof {
                    assert(done.push(e) =~= base + next);
                    let bt = base + tagged(pv, s as nat, with_rev_info);
                    let len = done.len() + 1int;
                    assert(bt.subrange(0, len) =~= base + next);
                    assert(all.subrange(0, len) =~= bt.subrange(0, len));
                    assert(all.subrange(0, done.len() + 1int) == done.push(e));
                    assert(all[done.len() as int] == all.subrange(0, len)[done.len() as int]);
                    assert(all.subrange(0, done.len() as int) =~= done);
                    assert(all[done.len() as int] == e);
                }
                let item = paths[k].clone();
                assert(item.deep_view() == e.0);
                let ghost before = entries_view(map@);
                match insert_entry(&mut map, item, s) {
                    Some(owner) => {
                        let conflict = MergeConflict { path: paths[k].clone(), first: owner, second: s };
                        proof {
                            let j = done.len() as int;
                            assert(done.contains((e.0, owner as nat)));
                            let i = choose|i: int| 0 <= i < done.len() && done[i] == (e.0, owner as nat);
                            assert(all[i] == done[i]);
                            assert(all[i].0 == all[j].0);
                            let cc = outcome_view(Err(conflict))->Err_0;
                            assert(cc == (e.0, owner as nat, s as nat));
                            assert(first_conflict_at(all, j, cc.0, cc.1, cc.2));
                        }
                        return Err(conflict);
                    },
                    None => {
                        proof {
                            assert forall|i: int, j: int| 0 <= i < j < done.len() + 1 implies
                                #[trigger] done.push(e)[i].0 != #[trigger] done.push(e)[j].0 by {
                                if j == done.len() {
                                    assert(done.contains(done[i]));
                                    assert(before.contains(done[i]));
                                }
                            }
                            assert forall|x: (PathModel, nat)| #[trigger] entries_view(map@).contains(x)
                                <==> done.push(e).contains(x) by {
                                if done.contains(x) {
                                    let q = choose|q: int| 0 <= q < done.len() && done[q] == x;
                                    assert(done.push(e)[q] == x);
                                }
                                if x == e {
                                    assert(done.push(e)[done.len() as int] == x);
                                }
                                if done.push(e).contains(x) {
                                    let q = choose|q: int| 0 <= q < done.len() + 1 && done.push(e)[q] == x;
                                    if q < done.len() {
                                        assert(done[q] == x);
                                    }
                                }
                            }
                            done = done.push(e);
                        }
                    },
                }
            } else {
                assert(next == tagged(pv.subrange(0, k as int), s as nat, with_rev_info));
            }
            k = k + 1;
        }
        proof {
            assert(pv.subrange(0, k as int) =~= pv);
            let t = fv.subrange(0, s + 1);
            assert(t.drop_last() =~= fv.subrange(0, s as int));
            assert(t.last() == pv);
            lemma_candidates_prefix(fv, s + 1, with_rev_info);
        }
        s = s + 1;
    }
    proof {
        assert(fv.subrange(0, s as int) =~= fv);
    }
    Ok(map)
}

proof fn lemma_sorted_drop_first(m: Seq<(PathModel, nat)>, x: (PathModel, nat))
    requires
        strictly_sorted(m),
        m.len() > 0,
    ensures
        strictly_sorted(m.drop_first()),
        m.drop_first().contains(x) <==> (m.contains(x) && x != m[0]),
{
    let d = m.drop_first();
    assert forall|i: int, j: int| 0 <= i < j < d.len() implies path_lt(#[trigger] d[i].0, #[trigger] d[j].0) by {
        assert(d[i] == m[i + 1] && d[j] == m[j + 1]);
    }
    if d.contains(x) {
        let q = choose|q: int| 0 <= q < d.len() && d[q] == x;
        assert(m[q + 1] == x);
        if x == m[0] {
            assert(path_lt(m[0].0, m[q + 1].0));
            lemma_path_lt_irreflexive(x.0);
        }
    }
    if m.contains(x) && x != m[0] {
        let q = choose|q: int| 0 <= q < m.len() && m[q] == x;
        assert(d[q - 1] == x);
    }
}

/// Two strictly sorted sequences with the same elements are the same sequence.
proof fn lemma_sorted_unique(m1: Seq<(PathModel, nat)>, m2: Seq<(PathModel, nat)>)
    requires
        strictly_sorted(m1),
        strictly_sorted(m2),
        forall|x: (PathModel, nat)| m1.contains(x) <==> m2.contains(x),
    ensures
        m1 == m2,
    decreases m1.len() + m2.len(),
{
    if m1.len() == 0 || m2.len() == 0 {
        if m1.len() > 0 {
            assert(m1.contains(m1[0]));
        }
        if m2.len() > 0 {
            assert(m2.contains(m2[0]));
        }
        assert(m1 =~= m2);
    } else {
        assert(m1.contains(m1[0]));
        assert(m2.contains(m2[0]));
        let q1 = choose|q: int| 0 <= q < m2.len() && m2[q] == m1[0];
        let q2 = choose|q: int| 0 <= q < m1.len() && m1[q] == m2[0];
        if q1 > 0 && q2 > 0 {
            assert(path_lt(m2[0].0, m2[q1].0));
            assert(path_lt(m1[0].0, m1[q2].0));
            lemma_path_lt_transitive(m1[0].0, m2[0].0, m1[0].0);
            lemma_path_lt_irreflexive(m1[0].0);
        } else if q1 > 0 {
            assert(path_lt(m2[0].0, m2[q1].0));
            lemma_path_lt_irreflexive(m1[0].0);
        } else if q2 > 0 {
            assert(path_lt(m1[0].0, m1[q2].0));
            lemma_path_lt_irreflexive(m2[0].0);
        }
        assert(m1[0] == m2[0]);
        assert forall|x: (PathModel, nat)| m1.drop_first().contains(x) <==> m2.drop_first().contains(x) by {
            lemma_sorted_drop_first(m1, x);
            lemma_sorted_drop_first(m2, x);
        }
        lemma_sorted_drop_first(m1, m1[0]);
        lemma_sorted_drop_first(m2, m2[0]);
        lemma_sorted_unique(m1.drop_first(), m2.drop_first());
        assert(m1 =~= seq![m1[0]] + m1.drop_first());
        assert(m2 =~= seq![m2[0]] + m2.drop_first());
    }
}

/// The merge outcome is a function of what the sources offer: the same offers
/// give the same map, or the same conflict.
pub proof fn lemma_merge_outcome_unique(
    found: Seq<Seq<PathModel>>,
    with_rev_info: bool,
    r1: Result<Seq<(PathModel, nat)>, (PathModel, nat, nat)>,
    r2: Result<Seq<(PathModel, nat)>, (PathModel, nat, nat)>,
)
    requires
        merged(found, with_rev_info, r1),
        merged(found, with_rev_info, r2),
    ensures
        r1 == r2,
{
    let c = candidates(found, with_rev_info);
    match (r1, r2) {
        (Ok(m1), Ok(m2)) => {
            lemma_sorted_unique(m1, m2);
        },
        (Err(e1), Err(e2)) => {
            let j1 = choose|j: int| first_conflict_at(c, j, e1.0, e1.1, e1.2);
            let j2 = choose|j: int| first_conflict_at(c, j, e2.0, e2.1, e2.2);
            if j1 < j2 {
                let i = choose|i: int| 0 <= i < j1 && c.subrange(0, j1)[i] == (e1.0, e1.1);
                assert(c.subrange(0, j2)[i].0 == c.subrange(0, j2)[j1].0);
            } else if j2 < j1 {
                let i = choose|i: int| 0 <= i < j2 && c.subrange(0, j2)[i] == (e2.0, e2.1);
                assert(c.subrange(0, j1)[i].0 == c.subrange(0, j1)[j2].0);
            }
            assert(j1 == j2);
            let p = c.subrange(0, j1);
            let a = choose|a: int| 0 <= a < p.len() && p[a] == (e1.0, e1.1);
            let b = choose|b: int| 0 <= b < p.len() && p[b] == (e2.0, e2.1);
            if a < b {
                assert(p[a].0 == p[b].0);
            } else if b < a {
                assert(p[b].0 == p[a].0);
            }
        },
        _ => {},
    }
}

} // verus!
