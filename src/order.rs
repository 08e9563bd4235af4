use vstd::prelude::*;
use crate::walk::PathModel;

verus! {

/// Byte strings in lexicographic order.
pub open spec fn bytes_lt(a: Seq<u8>, b: Seq<u8>) -> bool
    decreases a.len(),
{
    if a.len() == 0 {
        b.len() > 0
    } else if b.len() == 0 {
        false
    } else if a[0] != b[0] {
        a[0] < b[0]
    } else {
        bytes_lt(a.drop_first(), b.drop_first())
    }
}

/// Paths in lexicographic order of their components.
pub open spec fn path_lt(a: PathModel, b: PathModel) -> bool
    decreases a.len(),
{
    if a.len() == 0 {
        b.len() > 0
    } else if b.len() == 0 {
        false
    } else if a[0] != b[0] {
        bytes_lt(a[0], b[0])
    } else {
        path_lt(a.drop_first(), b.drop_first())
    }
}

proof fn lemma_split_first<T>(a: Seq<T>)
    requires
        a.len() > 0,
    ensures
        a == seq![a[0]] + a.drop_first(),
{
    assert(a =~= seq![a[0]] + a.drop_first());
}

pub proof fn lemma_bytes_lt_irreflexive(a: Seq<u8>)
    ensures
        !bytes_lt(a, a),
    decreases a.len(),
{
    if a.len() > 0 {
        lemma_bytes_lt_irreflexive(a.drop_first());
    }
}

pub proof fn lemma_bytes_lt_transitive(a: Seq<u8>, b: Seq<u8>, c: Seq<u8>)
    requires
        bytes_lt(a, b),
        bytes_lt(b, c),
    ensures
        bytes_lt(a, c),
    decreases a.len(),
{
    if a.len() > 0 && b.len() > 0 && c.len() > 0 && a[0] == b[0] && b[0] == c[0] {
        lemma_bytes_lt_transitive(a.drop_first(), b.drop_first(), c.drop_first());
    }
}

pub proof fn lemma_bytes_lt_total(a: Seq<u8>, b: Seq<u8>)
    requires
        a != b,
    ensures
        bytes_lt(a, b) || bytes_lt(b, a),
    decreases a.len(),
{
    if a.len() == 0 {
        assert(b.len() > 0) by {
            if b.len() == 0 {
                assert(a =~= b);
            }
        }
    } else if b.len() > 0 && a[0] == b[0] {
        lemma_split_first(a);
        lemma_split_first(b);
        lemma_bytes_lt_total(a.drop_first(), b.drop_first());
    }
}

pub proof fn lemma_path_lt_irreflexive(a: PathModel)
    ensures
        !path_lt(a, a),
    decreases a.len(),
{
    if a.len() > 0 {
        lemma_path_lt_irreflexive(a.drop_first());
    }
}

pub proof fn lemma_path_lt_transitive(a: PathModel, b: PathModel, c: PathModel)
    requires
        path_lt(a, b),
        path_lt(b, c),
    ensures
        path_lt(a, c),
    decreases a.len(),
{
    if a.len() > 0 && b.len() > 0 && c.len() > 0 {
        if a[0] == b[0] && b[0] == c[0] {
            lemma_path_lt_transitive(a.drop_first(), b.drop_first(), c.drop_first());
        } else if a[0] != b[0] && b[0] != c[0] {
            lemma_bytes_lt_transitive(a[0], b[0], c[0]);
            if a[0] == c[0] {
                lemma_bytes_lt_irreflexive(a[0]);
            }
        }
    }
}

pub proof fn lemma_path_lt_total(a: PathModel, b: PathModel)
    requires
        a != b,
    ensures
        path_lt(a, b) || path_lt(b, a),
    decreases a.len(),
{
    if a.len() == 0 {
        assert(b.len() > 0) by {
            if b.len() == 0 {
                assert(a =~= b);
            }
        }
    } else if b.len() > 0 {
        if a[0] == b[0] {
            lemma_split_first(a);
            lemma_split_first(b);
            lemma_path_lt_total(a.drop_first(), b.drop_first());
        } else {
            lemma_bytes_lt_total(a[0], b[0]);
        }
    }
}

/// Compares two byte strings: negative, zero or positive as `a` comes before,
/// equals or comes after `b`.
pub fn compare_bytes(a: &Vec<u8>, b: &Vec<u8>) -> (r: i8)
    ensures
        (r < 0) == bytes_lt(a@, b@),
        (r == 0) == (a@ == b@),
        (r > 0) == bytes_lt(b@, a@),
{
    let mut k: usize = 0;
    proof {
        assert(a@.subrange(0, a.len() as int) =~= a@);
        assert(b@.subrange(0, b.len() as int) =~= b@);
    }
    while k < a.len() && k < b.len() && a[k] == b[k]
        invariant
            k <= a.len(),
            k <= b.len(),
            a@.subrange(0, k as int) == b@.subrange(0, k as int),
            bytes_lt(a@, b@) == bytes_lt(a@.subrange(k as int, a.len() as int), b@.subrange(k as int, b.len() as int)),
            bytes_lt(b@, a@) == bytes_lt(b@.subrange(k as int, b.len() as int), a@.subrange(k as int, a.len() as int)),
        decreases a.len() - k,
    {
        proof {
            let sa = a@.subrange(k as int, a.len() as int);
            let sb = b@.subrange(k as int, b.len() as int);
            assert(sa.drop_first() =~= a@.subrange(k + 1, a.len() as int));
            assert(sb.drop_first() =~= b@.subrange(k + 1, b.len() as int));
            assert(a@.subrange(0, k + 1) =~= a@.subrange(0, k as int).push(a@[k as int]));
            assert(b@.subrange(0, k + 1) =~= b@.subrange(0, k as int).push(b@[k as int]));
        }
        k = k + 1;
    }
    let ghost sa = a@.subrange(k as int, a.len() as int);
    let ghost sb = b@.subrange(k as int, b.len() as int);
    if k == a.len() && k == b.len() {
        proof {
            assert(a@ =~= a@.subrange(0, k as int));
            assert(b@ =~= b@.subrange(0, k as int));
            lemma_bytes_lt_irreflexive(a@);
        }
        0
    } else if k == a.len() || (k < b.len() && a[k] < b[k]) {
        proof {
            if a@ == b@ {
                assert(a@.len() == b@.len());
            }
        }
        -1
    } else {
        proof {
            if a@ == b@ {
                assert(a@.len() == b@.len());
            }
        }
        1
    }
}

/// Compares two paths component by component, as `compare_bytes` does bytes.
pub fn compare_paths(a: &Vec<Vec<u8>>, b: &Vec<Vec<u8>>) -> (r: i8)
    ensures
        (r < 0) == path_lt(a.deep_view(), b.deep_view()),
        (r == 0) == (a.deep_view() == b.deep_view()),
        (r > 0) == path_lt(b.deep_view(), a.deep_view()),
{
    let ghost da = a.deep_view();
    let ghost db = b.deep_view();
    let mut k: usize = 0;
    let mut c: i8 = 0;
    proof {
        assert(da.subrange(0, da.len() as int) =~= da);
        assert(db.subrange(0, db.len() as int) =~= db);
    }
    while k < a.len() && k < b.len() && c == 0
        invariant
            k <= a.len(),
            k <= b.len(),
            da == a.deep_view(),
            db == b.deep_view(),
            da.len() == a.len(),
            db.len() == b.len(),
            c == 0 ==> da.subrange(0, k as int) == db.subrange(0, k as int),
            c == 0 ==> path_lt(da, db) == path_lt(da.subrange(k as int, da.len() as int), db.subrange(k as int, db.len() as int)),
            c == 0 ==> path_lt(db, da) == path_lt(db.subrange(k as int, db.len() as int), da.subrange(k as int, da.len() as int)),
            c != 0 ==> da != db,
            c < 0 ==> path_lt(da, db) && !path_lt(db, da),
            c > 0 ==> path_lt(db, da) && !path_lt(da, db),
        decreases a.len() - k, if c == 0 { 1int } else { 0int },
    {
        let ghost sa = da.subrange(k as int, da.len() as int);
        let ghost sb = db.subrange(k as int, db.len() as int);
        assert(sa[0] == a[k as int]@);
        assert(sb[0] == b[k as int]@);
        c = compare_bytes(&a[k], &b[k]);
        proof {
            if c == 0 {
                assert(sa.drop_first() =~= da.subrange(k + 1, da.len() as int));
                assert(sb.drop_first() =~= db.subrange(k + 1, db.len() as int));
                assert(da.subrange(0, k + 1) =~= da.subrange(0, k as int).push(da[k as int]));
                assert(db.subrange(0, k + 1) =~= db.subrange(0, k as int).push(db[k as int]));
            } else {
                assert(da[k as int] != db[k as int]);
                if c < 0 {
                    if path_lt(db, da) {
                        lemma_path_lt_transitive(da, db, da);
                        lemma_path_lt_irreflexive(da);
                    }
                } else {
                    if path_lt(da, db) {
                        lemma_path_lt_transitive(da, db, da);
                        lemma_path_lt_irreflexive(da);
                    }
                }
            }
        }
        if c == 0 {
            k = k + 1;
        }
    }
    if c != 0 {
        return c;
    }
    let ghost sa = da.subrange(k as int, da.len() as int);
    let ghost sb = db.subrange(k as int, db.len() as int);
    if k == a.len() && k == b.len() {
        proof {
            assert(da =~= da.subrange(0, k as int));
            assert(db =~= db.subrange(0, k as int));
            lemma_path_lt_irreflexive(da);
        }
        0
    } else if k == a.len() {
        -1
    } else {
        1
    }
}

} // verus!
