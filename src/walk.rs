use vstd::prelude::*;

verus! {

/// A path below a root, one byte string per component.
pub type PathModel = Seq<Seq<u8>>;

/// What was found in a directory: a file (or anything that is not a directory),
/// or a directory with what was found inside it.
#[derive(Debug)]
pub enum Node {
    File { name: Vec<u8> },
    Dir { name: Vec<u8>, children: Vec<Node> },
}

impl Node {
    pub open spec fn name_of(&self) -> Seq<u8> {
        match self {
            Node::File { name } => name@,
            Node::Dir { name, .. } => name@,
        }
    }
}

/// The level budget one directory further down.
pub open spec fn lower(rem: Option<nat>) -> Option<nat> {
    match rem {
        Some(r) => if r == 0 { Some(0nat) } else { Some((r - 1) as nat) },
        None => None,
    }
}

/// The entries below a directory whose children are `ns`, when `rem` more levels
/// may be looked at (`None`: no bound). A file is always an entry; a directory is
/// an entry exactly when nothing is listed below it.
pub open spec fn listing(ns: Seq<Node>, rem: Option<nat>) -> Seq<PathModel>
    decreases ns,
{
    if rem == Some(0nat) || ns.len() == 0 {
        Seq::empty()
    } else {
        listing(ns.drop_last(), rem) + node_entries(ns.last(), rem)
    }
}

/// The entries that one child contributes, relative to its parent.
pub open spec fn node_entries(n: Node, rem: Option<nat>) -> Seq<PathModel>
    decreases n,
{
    match n {
        Node::File { name } => seq![seq![name@]],
        Node::Dir { name, children } => {
            let below = listing(children@, lower(rem));
            if below.len() == 0 {
                seq![seq![name@]]
            } else {
                below.map_values(|p: PathModel| seq![name@] + p)
            }
        },
    }
}

/// The level budget of a directory at `depth` when the walk stops below `max_depth`.
pub open spec fn budget(depth: nat, max_depth: Option<u32>) -> Option<nat> {
    match max_depth {
        None => None,
        Some(m) => if depth > m { Some(0nat) } else { Some((m - depth + 1) as nat) },
    }
}

pub open spec fn budget_of(rem: Option<u64>) -> Option<nat> {
    match rem {
        Some(r) => Some(r as nat),
        None => None,
    }
}

/// Whether a walk that reaches a directory at `depth` reads what is in it.
pub fn looks_into(depth: u32, max_depth: Option<u32>) -> (r: bool)
    ensures
        r == (budget(depth as nat, max_depth) != Some(0nat)),
{
    match max_depth {
        None => true,
        Some(m) => depth <= m,
    }
}

/// The paths of the entries below a directory whose children are `nodes`,
/// relative to that directory, when the directory stands at `depth` and the walk
/// looks at no directory deeper than `max_depth`.
pub fn entries(nodes: &Vec<Node>, depth: u32, max_depth: Option<u32>) -> (r: Vec<Vec<Vec<u8>>>)
    ensures
        r.deep_view() == listing(nodes@, budget(depth as nat, max_depth)),
{
    let rem: Option<u64> = match max_depth {
        None => None,
        Some(m) => if depth > m { Some(0) } else { Some((m - depth) as u64 + 1) },
    };
    list_entries(nodes, rem)
}

fn list_entries(ns: &Vec<Node>, rem: Option<u64>) -> (r: Vec<Vec<Vec<u8>>>)
    ensures
        r.deep_view() == listing(ns@, budget_of(rem)),
    decreases ns,
{
    let mut out: Vec<Vec<Vec<u8>>> = Vec::new();
    if let Some(0) = rem {
        return out;
    }
    let mut i: usize = 0;
    while i < ns.len()
        invariant
            i <= ns.len(),
            budget_of(rem) != Some(0nat),
            out.deep_view() == listing(ns@.subrange(0, i as int), budget_of(rem)),
        decreases ns.len() - i,
    {
        proof {
            assert(decreases_to!(ns => ns[i as int]));
        }
        let mut part = child_entries(&ns[i], rem);
        let ghost before = out.deep_view();
        let ghost added = part.deep_view();
        out.append(&mut part);
        proof {
            let s = ns@.subrange(0, i + 1);
            assert(s.drop_last() =~= ns@.subrange(0, i as int));
            assert(s.last() == ns@[i as int]);
            assert(out.deep_view() =~= before + added);
        }
        i = i + 1;
    }
    proof {
        assert(ns@.subrange(0, ns@.len() as int) =~= ns@);
    }
    out
}

/// The path of one component.
fn single(name: &Vec<u8>) -> (r: Vec<Vec<u8>>)
    ensures
        r.deep_view() == seq![name@],
{
    let mut p: Vec<Vec<u8>> = Vec::new();
    p.push(name.clone());
    proof {
        assert(p[0].deep_view() =~= name@);
        assert(p.deep_view() =~= seq![name@]);
    }
    p
}

fn child_entries(n: &Node, rem: Option<u64>) -> (r: Vec<Vec<Vec<u8>>>)
    ensures
        r.deep_view() == node_entries(*n, budget_of(rem)),
    decreases n,
{
    match n {
        Node::File { name } => {
            let mut r: Vec<Vec<Vec<u8>>> = Vec::new();
            r.push(single(name));
            proof {
                assert(r.deep_view() =~= seq![seq![name@]]);
            }
            r
        },
        Node::Dir { name, children } => {
            let next: Option<u64> = match rem {
                Some(r) => Some(if r == 0 { 0 } else { r - 1 }),
                None => None,
            };
            assert(budget_of(next) == lower(budget_of(rem)));
            let below = list_entries(children, next);
            let mut r: Vec<Vec<Vec<u8>>> = Vec::new();
            if below.len() == 0 {
                r.push(single(name));
                proof {
                    assert(r.deep_view() =~= seq![seq![name@]]);
                }
                return r;
            }
            let ghost prefixed = below.deep_view().map_values(|p: PathModel| seq![name@] + p);
            let mut j: usize = 0;
            while j < below.len()
                invariant
                    j <= below.len(),
                    prefixed == below.deep_view().map_values(|p: PathModel| seq![name@] + p),
                    r.deep_view() =~= prefixed.subrange(0, j as int),
                decreases below.len() - j,
            {
                let mut p = single(name);
                let mut rest = below[j].clone();
                let ghost head = p.deep_view();
                let ghost tail = rest.deep_view();
                assert(tail == below.deep_view()[j as int]);
                p.append(&mut rest);
                assert(p.deep_view() =~= head + tail);
                let ghost earlier = r.deep_view();
                r.push(p);
                proof {
                    assert(prefixed[j as int] == seq![name@] + tail);
                    assert(r.deep_view() =~= earlier.push(head + tail));
                    assert(prefixed.subrange(0, j + 1) =~= prefixed.subrange(0, j as int).push(
                        prefixed[j as int],
                    ));
                }
                j = j + 1;
            }
            proof {
                assert(prefixed.subrange(0, below.len() as int) =~= prefixed);
            }
            r
        },
    }
}

} // verus!
