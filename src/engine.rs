use vstd::prelude::*;
use crate::options::Options;
use crate::walk::{Node, PathModel, entries, listing, budget};
use crate::merge::{
    Entry, MergeConflict, merge, merged, outcome_view, tagged, candidates, distinct_paths,
    is_rev_info_path, lemma_merge_outcome_unique,
};
use crate::materialize::{Prior, after_clearing, clearing_spec};
use crate::walk::{node_entries, lower};

verus! {

/// What the walk offers from each source, the sources given as the children of
/// their roots.
pub open spec fn offered(sources: Seq<Vec<Node>>, max_depth: Option<u32>) -> Seq<Seq<PathModel>> {
    sources.map_values(|t: Vec<Node>| listing(t@, budget(1, max_depth)))
}

/// Walks every source from depth one and merges what they offer: the whole map
/// is built, or the first conflict found, before anything is written.
pub fn collect(sources: &Vec<Vec<Node>>, options: &Options) -> (r: Result<Vec<Entry>, MergeConflict>)
    ensures
        merged(offered(sources@, options.max_depth), options.with_rev_info, outcome_view(r)),
{
    let mut found: Vec<Vec<Vec<Vec<u8>>>> = Vec::new();
    let mut i: usize = 0;
    while i < sources.len()
        invariant
            i <= sources.len(),
            found.deep_view() =~= offered(sources@.subrange(0, i as int), options.max_depth),
        decreases sources.len() - i,
    {
        let listed = entries(&sources[i], 1, options.max_depth);
        let ghost earlier = found.deep_view();
        found.push(listed);
        proof {
            assert(found.deep_view() =~= earlier.push(listed.deep_view()));
            assert(sources@.subrange(0, i + 1) =~= sources@.subrange(0, i as int).push(sources@[i as int]));
        }
        i = i + 1;
    }
    proof {
        assert(sources@.subrange(0, i as int) =~= sources@);
    }
    merge(&found, options.with_rev_info)
}

proof fn lemma_concat_contains<T>(a: Seq<T>, b: Seq<T>, x: T)
    ensures
        (a + b).contains(x) <==> (a.contains(x) || b.contains(x)),
{
    if (a + b).contains(x) {
        let q = choose|q: int| 0 <= q < (a + b).len() && (a + b)[q] == x;
        if q >= a.len() {
            assert(b[q - a.len()] == x);
        }
    }
    if a.contains(x) {
        let q = choose|q: int| 0 <= q < a.len() && a[q] == x;
        assert((a + b)[q] == x);
    }
    if b.contains(x) {
        let q = choose|q: int| 0 <= q < b.len() && b[q] == x;
        assert((a + b)[q + a.len()] == x);
    }
}

proof fn lemma_tagged_contains(paths: Seq<PathModel>, source: nat, w: bool, x: (PathModel, nat))
    ensures
        tagged(paths, source, w).contains(x) <==> (x.1 == source && paths.contains(x.0) && (w
            || !is_rev_info_path(x.0))),
    decreases paths.len(),
{
    if paths.len() > 0 {
        let init = paths.drop_last();
        lemma_tagged_contains(init, source, w, x);
        assert(paths =~= init.push(paths.last()));
        lemma_concat_contains(init, seq![paths.last()], x.0);
        assert(init.push(paths.last()) =~= init + seq![paths.last()]);
        let rest = tagged(init, source, w);
        assert(rest.push((paths.last(), source)) =~= rest + seq![(paths.last(), source)]);
        lemma_concat_contains(rest, seq![(paths.last(), source)], x);
        if seq![(paths.last(), source)].contains(x) {
            assert(seq![(paths.last(), source)][0] == x);
        }
        if seq![paths.last()].contains(x.0) {
            assert(seq![paths.last()][0] == x.0);
        }
        assert(seq![paths.last()][0] == paths.last());
        assert(seq![(paths.last(), source)][0] == (paths.last(), source));
    }
}

proof fn lemma_candidates_contains(found: Seq<Seq<PathModel>>, w: bool, x: (PathModel, nat))
    ensures
        candidates(found, w).contains(x) <==> (x.1 < found.len() && found[x.1 as int].contains(x.0) && (w
            || !is_rev_info_path(x.0))),
    decreases found.len(),
{
    if found.len() > 0 {
        let init = found.drop_last();
        let last = (found.len() - 1) as nat;
        lemma_candidates_contains(init, w, x);
        lemma_tagged_contains(found.last(), last, w, x);
        lemma_concat_contains(candidates(init, w), tagged(found.last(), last, w), x);
        if x.1 < init.len() {
            assert(init[x.1 as int] == found[x.1 as int]);
        }
    }
}

/// After a merge that succeeded, source `i` holds `p` in the merged map exactly
/// when its walk offered `p` and `p` was not left out as version-control metadata:
/// every surviving entry is there, and a metadata path is there exactly when
/// `with_rev_info` is set.
pub proof fn lemma_merged_holds_exactly_the_offers(
    sources: Seq<Vec<Node>>,
    options: Options,
    m: Seq<(PathModel, nat)>,
    i: nat,
    p: PathModel,
)
    requires
        merged(offered(sources, options.max_depth), options.with_rev_info, Ok(m)),
        i < sources.len(),
    ensures
        m.contains((p, i)) <==> (listing(sources[i as int]@, budget(1, options.max_depth)).contains(p) && (
        options.with_rev_info || !is_rev_info_path(p))),
{
    let found = offered(sources, options.max_depth);
    lemma_candidates_contains(found, options.with_rev_info, (p, i));
}

/// A source whose walk offers a top-level `.git` entry (a `.git` file, or a
/// `.git` directory offered as one entry) holds it in a successful merge exactly
/// when `with_rev_info` is set.
pub proof fn lemma_top_level_git(sources: Seq<Vec<Node>>, options: Options, m: Seq<(PathModel, nat)>, i: nat)
    requires
        merged(offered(sources, options.max_depth), options.with_rev_info, Ok(m)),
        i < sources.len(),
        listing(sources[i as int]@, budget(1, options.max_depth)).contains(seq![seq![46u8, 103, 105, 116]]),
    ensures
        m.contains((seq![seq![46u8, 103, 105, 116]], i)) == options.with_rev_info,
{
    let git = seq![seq![46u8, 103, 105, 116]];
    assert(is_rev_info_path(git));
    lemma_merged_holds_exactly_the_offers(sources, options, m, i, git);
}

/// Where two different sources both offer a path that is not left out, the
/// merge ends in a conflict, and so nothing is written.
pub proof fn lemma_shared_path_conflicts(
    sources: Seq<Vec<Node>>,
    options: Options,
    r: Result<Seq<(PathModel, nat)>, (PathModel, nat, nat)>,
    i: nat,
    j: nat,
    p: PathModel,
)
    requires
        merged(offered(sources, options.max_depth), options.with_rev_info, r),
        i < sources.len(),
        j < sources.len(),
        i != j,
        listing(sources[i as int]@, budget(1, options.max_depth)).contains(p),
        listing(sources[j as int]@, budget(1, options.max_depth)).contains(p),
        options.with_rev_info || !is_rev_info_path(p),
    ensures
        r is Err,
{
    let found = offered(sources, options.max_depth);
    let c = candidates(found, options.with_rev_info);
    lemma_candidates_contains(found, options.with_rev_info, (p, i));
    lemma_candidates_contains(found, options.with_rev_info, (p, j));
    let a = choose|a: int| 0 <= a < c.len() && c[a] == (p, i);
    let b = choose|b: int| 0 <= b < c.len() && c[b] == (p, j);
    if a < b {
        assert(c[a].0 == c[b].0);
    } else {
        assert(c[b].0 == c[a].0);
    }
    assert(!distinct_paths(c));
}

proof fn lemma_listing_depth(ns: Seq<Node>, rem: nat, p: PathModel)
    requires
        listing(ns, Some(rem)).contains(p),
    ensures
        1 <= p.len() <= rem,
    decreases ns,
{
    if rem != 0 && ns.len() > 0 {
        lemma_concat_contains(listing(ns.drop_last(), Some(rem)), node_entries(ns.last(), Some(rem)), p);
        if listing(ns.drop_last(), Some(rem)).contains(p) {
            lemma_listing_depth(ns.drop_last(), rem, p);
        } else {
            lemma_node_depth(ns.last(), rem, p);
        }
    }
}

proof fn lemma_node_depth(n: Node, rem: nat, p: PathModel)
    requires
        rem >= 1,
        node_entries(n, Some(rem)).contains(p),
    ensures
        1 <= p.len() <= rem,
    decreases n,
{
    match n {
        Node::File { name } => {
            assert(node_entries(n, Some(rem))[0] == seq![name@]);
        },
        Node::Dir { name, children } => {
            let below = listing(children@, lower(Some(rem)));
            if below.len() == 0 {
                assert(node_entries(n, Some(rem))[0] == seq![name@]);
            } else {
                let q = choose|q: int| 0 <= q < node_entries(n, Some(rem)).len() && node_entries(n, Some(rem))[q] == p;
                assert(below.contains(below[q]));
                assert(decreases_to!(n => children@));
                lemma_listing_depth(children@, (rem - 1) as nat, below[q]);
            }
        },
    }
}

/// With `max_depth` set to `n`, every path that a walk from depth one offers has
/// between one and `n` components: nothing deeper than the bound is offered.
pub proof fn lemma_depth_bound(nodes: Seq<Node>, n: u32, p: PathModel)
    requires
        listing(nodes, budget(1, Some(n))).contains(p),
    ensures
        1 <= p.len() <= n,
{
    if n >= 1 {
        lemma_listing_depth(nodes, n as nat, p);
    } else {
        assert(budget(1, Some(n)) == Some(0nat));
    }
}

/// A directory at the last level the bound allows is offered as one entry,
/// whatever it holds, and so comes back as an empty directory.
pub proof fn lemma_directory_at_bound(name: Vec<u8>, children: Vec<Node>)
    ensures
        node_entries(Node::Dir { name, children }, Some(1nat)) == seq![seq![name@]],
{
    assert(listing(children@, lower(Some(1nat))) == Seq::<PathModel>::empty());
}

/// Two runs on the same sources with the same options build the same map, or
/// stop at the same conflict; and whatever the first run left at a destination
/// path, the second clears it before making its link there. So the second run
/// leaves the same links as the first.
pub proof fn lemma_rerun_is_idempotent(
    sources: Seq<Vec<Node>>,
    options: Options,
    r1: Result<Seq<(PathModel, nat)>, (PathModel, nat, nat)>,
    r2: Result<Seq<(PathModel, nat)>, (PathModel, nat, nat)>,
)
    requires
        merged(offered(sources, options.max_depth), options.with_rev_info, r1),
        merged(offered(sources, options.max_depth), options.with_rev_info, r2),
    ensures
        r1 == r2,
        forall|p: Prior| #[trigger] after_clearing(p, clearing_spec(p)) == Prior::Absent,
{
    lemma_merge_outcome_unique(offered(sources, options.max_depth), options.with_rev_info, r1, r2);
}

} // verus!
