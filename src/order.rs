use vstd::prelude::*;
use crate::subtag::Subtag;

verus! {

/// Lexicographic order on byte strings; a proper prefix comes first.
pub open spec fn lex_lt(a: Seq<u8>, b: Seq<u8>) -> bool
    decreases a.len(),
{
    if a.len() == 0 {
        b.len() > 0
    } else if b.len() == 0 {
        false
    } else if a[0] != b[0] {
        a[0] < b[0]
    } else {
        lex_lt(a.drop_first(), b.drop_first())
    }
}

pub open spec fn lex_le(a: Seq<u8>, b: Seq<u8>) -> bool {
    a == b || lex_lt(a, b)
}

/// Ascending, repeats allowed.
pub open spec fn sorted(s: Seq<Seq<u8>>) -> bool {
    forall|i: int, j: int| 0 <= i < j < s.len() ==> lex_le(#[trigger] s[i], #[trigger] s[j])
}

/// Strictly ascending: sorted and without repeats.
pub open spec fn strictly_sorted(s: Seq<Seq<u8>>) -> bool {
    forall|i: int, j: int| 0 <= i < j < s.len() ==> lex_lt(#[trigger] s[i], #[trigger] s[j])
}

/// Puts `x` just before the first element that is not below it.
pub open spec fn insert_sorted(s: Seq<Seq<u8>>, x: Seq<u8>) -> Seq<Seq<u8>>
    decreases s.len(),
{
    if s.len() == 0 {
        seq![x]
    } else if lex_le(x, s[0]) {
        seq![x] + s
    } else {
        seq![s[0]] + insert_sorted(s.drop_first(), x)
    }
}

/// As `insert_sorted`, but an element already present is not added again.
pub open spec fn insert_unique(s: Seq<Seq<u8>>, x: Seq<u8>) -> Seq<Seq<u8>> {
    if s.contains(x) {
        s
    } else {
        insert_sorted(s, x)
    }
}

/// The elements of `ts` in ascending order, repeats kept.
pub open spec fn sort_all(ts: Seq<Seq<u8>>) -> Seq<Seq<u8>>
    decreases ts.len(),
{
    if ts.len() == 0 {
        seq![]
    } else {
        insert_sorted(sort_all(ts.drop_last()), ts.last())
    }
}

/// The distinct elements of `ts` in ascending order.
pub open spec fn sort_unique(ts: Seq<Seq<u8>>) -> Seq<Seq<u8>>
    decreases ts.len(),
{
    if ts.len() == 0 {
        seq![]
    } else {
        insert_unique(sort_unique(ts.drop_last()), ts.last())
    }
}

/// The byte strings that a sequence of subtags holds.
pub open spec fn views(v: Seq<Subtag>) -> Seq<Seq<u8>> {
    v.map_values(|t: Subtag| t@)
}

pub proof fn lemma_lt_irreflexive(a: Seq<u8>)
    ensures
        !lex_lt(a, a),
    decreases a.len(),
{
    if a.len() > 0 {
        lemma_lt_irreflexive(a.drop_first());
    }
}

pub proof fn lemma_lt_asymmetric(a: Seq<u8>, b: Seq<u8>)
    ensures
        !(lex_lt(a, b) && lex_lt(b, a)),
    decreases a.len(),
{
    if a.len() > 0 && b.len() > 0 && a[0] == b[0] {
        lemma_lt_asymmetric(a.drop_first(), b.drop_first());
    }
}

pub proof fn lemma_lt_total(a: Seq<u8>, b: Seq<u8>)
    ensures
        a == b || lex_lt(a, b) || lex_lt(b, a),
    decreases a.len(),
{
    if a.len() > 0 && b.len() > 0 && a[0] == b[0] {
        lemma_lt_total(a.drop_first(), b.drop_first());
        if a.drop_first() == b.drop_first() {
            assert(a =~= seq![a[0]] + a.drop_first());
            assert(b =~= seq![b[0]] + b.drop_first());
        }
    } else if a.len() == 0 && b.len() == 0 {
        assert(a =~= b);
    }
}

pub proof fn lemma_lt_transitive(a: Seq<u8>, b: Seq<u8>, c: Seq<u8>)
    requires
        lex_lt(a, b),
        lex_lt(b, c),
    ensures
        lex_lt(a, c),
    decreases a.len(),
{
    if a.len() > 0 && b.len() > 0 && c.len() > 0 && a[0] == b[0] && b[0] == c[0] {
        lemma_lt_transitive(a.drop_first(), b.drop_first(), c.drop_first());
    }
}

pub proof fn lemma_le_transitive(a: Seq<u8>, b: Seq<u8>, c: Seq<u8>)
    requires
        lex_le(a, b),
        lex_le(b, c),
    ensures
        lex_le(a, c),
{
    if lex_lt(a, b) && lex_lt(b, c) {
        lemma_lt_transitive(a, b, c);
    }
}

pub proof fn lemma_insert_sorted_contents(s: Seq<Seq<u8>>, x: Seq<u8>)
    ensures
        insert_sorted(s, x).len() == s.len() + 1,
        insert_sorted(s, x).to_multiset() == s.to_multiset().insert(x),
        forall|y: Seq<u8>| #[trigger] insert_sorted(s, x).contains(y) <==> (y == x || s.contains(y)),
    decreases s.len(),
{
    broadcast use vstd::seq_lib::group_to_multiset_ensures;
    if s.len() == 0 {
        assert(seq![x] =~= Seq::<Seq<u8>>::empty().push(x));
        assert forall|y: Seq<u8>| #[trigger] insert_sorted(s, x).contains(y) <==> (y == x
            || s.contains(y)) by {
            if y == x {
                assert(seq![x][0] == y);
            }
        }
    } else if lex_le(x, s[0]) {
        vstd::seq_lib::lemma_multiset_commutative(seq![x], s);
        assert(seq![x] =~= Seq::<Seq<u8>>::empty().push(x));
        assert forall|y: Seq<u8>| #[trigger] insert_sorted(s, x).contains(y) <==> (y == x
            || s.contains(y)) by {
            let r = seq![x] + s;
            if r.contains(y) {
                let k = choose|k: int| 0 <= k < r.len() && r[k] == y;
                if k > 0 {
                    assert(s[k - 1] == y);
                }
            }
            if s.contains(y) {
                let k = choose|k: int| 0 <= k < s.len() && s[k] == y;
                assert(r[k + 1] == y);
            }
            if y == x {
                assert(r[0] == y);
            }
        }
    } else {
        let t = s.drop_first();
        lemma_insert_sorted_contents(t, x);
        let r = insert_sorted(t, x);
        vstd::seq_lib::lemma_multiset_commutative(seq![s[0]], r);
        vstd::seq_lib::lemma_multiset_commutative(seq![s[0]], t);
        assert(s =~= seq![s[0]] + t);
        assert(seq![s[0]] =~= Seq::<Seq<u8>>::empty().push(s[0]));
        assert(s.to_multiset().insert(x) =~= seq![s[0]].to_multiset().add(t.to_multiset().insert(x)));
        assert forall|y: Seq<u8>| #[trigger] insert_sorted(s, x).contains(y) <==> (y == x
            || s.contains(y)) by {
            let q = seq![s[0]] + r;
            if q.contains(y) {
                let k = choose|k: int| 0 <= k < q.len() && q[k] == y;
                if k > 0 {
                    assert(r[k - 1] == y);
                    assert(r.contains(y));
                    if t.contains(y) {
                        let m = choose|m: int| 0 <= m < t.len() && t[m] == y;
                        assert(s[m + 1] == y);
                    }
                } else {
                    assert(s[0] == y);
                }
            }
            if s.contains(y) {
                let k = choose|k: int| 0 <= k < s.len() && s[k] == y;
                if k > 0 {
                    assert(t[k - 1] == y);
                    assert(r.contains(y));
                    let m = choose|m: int| 0 <= m < r.len() && r[m] == y;
                    assert(q[m + 1] == y);
                } else {
                    assert(q[0] == y);
                }
            }
            if y == x {
                assert(r.contains(y));
                let m = choose|m: int| 0 <= m < r.len() && r[m] == y;
                assert(q[m + 1] == y);
            }
        }
    }
}

pub proof fn lemma_insert_sorted_sorted(s: Seq<Seq<u8>>, x: Seq<u8>)
    requires
        sorted(s),
    ensures
        sorted(insert_sorted(s, x)),
    decreases s.len(),
{
    if s.len() == 0 {
    } else if lex_le(x, s[0]) {
        let r = seq![x] + s;
        assert forall|i: int, j: int| 0 <= i < j < r.len() implies lex_le(#[trigger] r[i], #[trigger] r[j]) by {
            if i == 0 {
                if j > 1 {
                    lemma_le_transitive(x, s[0], s[j - 1]);
                }
            } else {
                assert(lex_le(s[i - 1], s[j - 1]));
            }
        }
    } else {
        let t = s.drop_first();
        assert(sorted(t)) by {
            assert forall|i: int, j: int| 0 <= i < j < t.len() implies lex_le(#[trigger] t[i], #[trigger] t[j]) by {
                assert(lex_le(s[i + 1], s[j + 1]));
            }
        }
        lemma_insert_sorted_sorted(t, x);
        lemma_insert_sorted_contents(t, x);
        lemma_lt_total(x, s[0]);
        let r = insert_sorted(t, x);
        let q = seq![s[0]] + r;
        assert forall|i: int, j: int| 0 <= i < j < q.len() implies lex_le(#[trigger] q[i], #[trigger] q[j]) by {
            if i == 0 {
                assert(r.contains(r[j - 1]));
                if r[j - 1] != x {
                    assert(t.contains(r[j - 1]));
                    let m = choose|m: int| 0 <= m < t.len() && t[m] == r[j - 1];
                    assert(lex_le(s[0], s[m + 1]));
                }
            } else {
                assert(lex_le(r[i - 1], r[j - 1]));
            }
        }
    }
}

/// Inserting two elements gives the same sequence in either order.
pub proof fn lemma_insert_sorted_commutes(s: Seq<Seq<u8>>, a: Seq<u8>, b: Seq<u8>)
    ensures
        insert_sorted(insert_sorted(s, a), b) == insert_sorted(insert_sorted(s, b), a),
    decreases s.len(),
{
    lemma_lt_total(a, b);
    lemma_lt_asymmetric(a, b);
    if s.len() == 0 {
        assert(seq![a].drop_first() =~= Seq::<Seq<u8>>::empty());
        assert(seq![b].drop_first() =~= Seq::<Seq<u8>>::empty());
        assert(insert_sorted(Seq::<Seq<u8>>::empty(), a) == seq![a]);
        assert(insert_sorted(Seq::<Seq<u8>>::empty(), b) == seq![b]);
        assert(insert_sorted(seq![a], b) =~= insert_sorted(seq![b], a));
    } else {
        let h = s[0];
        let t = s.drop_first();
        lemma_lt_total(a, h);
        lemma_lt_total(b, h);
        if lex_le(a, h) && lex_le(b, h) {
            assert((seq![a] + s)[0] == a);
            assert((seq![b] + s)[0] == b);
            assert((seq![a] + s).drop_first() =~= s);
            assert((seq![b] + s).drop_first() =~= s);
            assert(seq![a] + (seq![b] + s) =~= seq![a, b] + s);
            assert(seq![b] + (seq![a] + s) =~= seq![b, a] + s);
        } else if lex_le(a, h) {
            assert(!lex_le(b, a)) by {
                if lex_le(b, a) {
                    lemma_le_transitive(b, a, h);
                }
            }
            assert((seq![a] + s)[0] == a);
            assert((seq![a] + s).drop_first() =~= s);
            let r = insert_sorted(t, b);
            assert((seq![h] + r)[0] == h);
            assert((seq![h] + r).drop_first() =~= r);
            assert(seq![a] + (seq![h] + r) =~= seq![a] + s.take(0) + (seq![h] + r));
        } else if lex_le(b, h) {
            assert(!lex_le(a, b)) by {
                if lex_le(a, b) {
                    lemma_le_transitive(a, b, h);
                }
            }
            assert((seq![b] + s)[0] == b);
            assert((seq![b] + s).drop_first() =~= s);
            let r = insert_sorted(t, a);
            assert((seq![h] + r)[0] == h);
            assert((seq![h] + r).drop_first() =~= r);
        } else {
            lemma_insert_sorted_commutes(t, a, b);
            let ra = insert_sorted(t, a);
            let rb = insert_sorted(t, b);
            assert((seq![h] + ra)[0] == h);
            assert((seq![h] + ra).drop_first() =~= ra);
            assert((seq![h] + rb)[0] == h);
            assert((seq![h] + rb).drop_first() =~= rb);
        }
    }
}

/// Inserting two elements without repeats gives the same sequence in either order.
pub proof fn lemma_insert_unique_commutes(s: Seq<Seq<u8>>, a: Seq<u8>, b: Seq<u8>)
    ensures
        insert_unique(insert_unique(s, a), b) == insert_unique(insert_unique(s, b), a),
{
    lemma_insert_sorted_contents(s, a);
    lemma_insert_sorted_contents(s, b);
    if a == b {
    } else if s.contains(a) || s.contains(b) {
    } else {
        lemma_insert_sorted_contents(insert_sorted(s, a), b);
        lemma_insert_sorted_contents(insert_sorted(s, b), a);
        lemma_insert_sorted_commutes(s, a, b);
    }
}

proof fn lemma_insert_at(s: Seq<Seq<u8>>, x: Seq<u8>, i: int)
    requires
        0 <= i <= s.len(),
        forall|j: int| 0 <= j < i ==> !lex_le(x, #[trigger] s[j]),
        i == s.len() || lex_le(x, s[i]),
    ensures
        insert_sorted(s, x) == s.insert(i, x),
    decreases i,
{
    if i == 0 {
        if s.len() == 0 {
            assert(s.insert(0, x) =~= seq![x]);
        } else {
            assert(s.insert(0, x) =~= seq![x] + s);
        }
    } else {
        let t = s.drop_first();
        assert forall|j: int| 0 <= j < i - 1 implies !lex_le(x, #[trigger] t[j]) by {
            assert(t[j] == s[j + 1]);
        }
        lemma_insert_at(t, x, i - 1);
        assert(s.insert(i, x) =~= seq![s[0]] + t.insert(i - 1, x));
    }
}

/// Whether `a` comes before `b` in lexicographic order.
pub fn bytes_lt(a: &[u8], b: &[u8]) -> (r: bool)
    ensures
        r == lex_lt(a@, b@),
{
    let mut i: usize = 0;
    assert(a@.skip(0) =~= a@);
    assert(b@.skip(0) =~= b@);
    while i < a.len() && i < b.len()
        invariant
            i <= a@.len(),
            i <= b@.len(),
            lex_lt(a@, b@) == lex_lt(a@.skip(i as int), b@.skip(i as int)),
        decreases a@.len() - i,
    {
        if a[i] != b[i] {
            return a[i] < b[i];
        }
        assert(a@.skip(i as int).drop_first() =~= a@.skip(i + 1));
        assert(b@.skip(i as int).drop_first() =~= b@.skip(i + 1));
        i += 1;
    }
    i == a.len() && i < b.len()
}

/// Whether a subtag with the bytes of `x` is in `v`.
pub fn contains_subtag(v: &Vec<Subtag>, x: &Subtag) -> (r: bool)
    ensures
        r == views(v@).contains(x@),
{
    let mut i: usize = 0;
    while i < v.len()
        invariant
            i <= v@.len(),
            forall|j: int| 0 <= j < i ==> v@[j]@ != x@,
        decreases v@.len() - i,
    {
        if v[i].same(x) {
            assert(views(v@)[i as int] == x@);
            return true;
        }
        i += 1;
    }
    assert(!views(v@).contains(x@)) by {
        if views(v@).contains(x@) {
            let k = choose|k: int| 0 <= k < views(v@).len() && views(v@)[k] == x@;
            assert(v@[k]@ == x@);
        }
    }
    false
}

/// Whether two sequences of subtags hold the same byte strings in the same order.
pub fn same_subtags(a: &Vec<Subtag>, b: &Vec<Subtag>) -> (r: bool)
    ensures
        r == (views(a@) == views(b@)),
{
    if a.len() != b.len() {
        assert(views(a@).len() != views(b@).len());
        return false;
    }
    let mut i: usize = 0;
    while i < a.len()
        invariant
            i <= a@.len(),
            a@.len() == b@.len(),
            forall|k: int| 0 <= k < i ==> a@[k]@ == b@[k]@,
        decreases a@.len() - i,
    {
        if !a[i].same(&b[i]) {
            assert(views(a@)[i as int] != views(b@)[i as int]);
            return false;
        }
        i += 1;
    }
    assert(views(a@) =~= views(b@));
    true
}

/// Inserts `x` before the first element that is not below it.
pub fn insert_sorted_vec(v: &mut Vec<Subtag>, x: Subtag)
    ensures
        views(final(v)@) == insert_sorted(views(old(v)@), x@),
{
    let mut i: usize = 0;
    while i < v.len()
        invariant
            i <= v@.len(),
            forall|j: int| 0 <= j < i ==> !lex_le(x@, #[trigger] views(v@)[j]),
        ensures
            i <= v@.len(),
            forall|j: int| 0 <= j < i ==> !lex_le(x@, #[trigger] views(v@)[j]),
            i == v@.len() || lex_le(x@, views(v@)[i as int]),
        decreases v@.len() - i,
    {
        if !bytes_lt(v[i].as_bytes(), x.as_bytes()) {
            proof {
                lemma_lt_total(x@, v@[i as int]@);
                assert(views(v@)[i as int] == v@[i as int]@);
            }
            break;
        }
        proof {
            lemma_lt_asymmetric(x@, v@[i as int]@);
            lemma_lt_irreflexive(x@);
        }
        i += 1;
    }
    proof {
        lemma_insert_at(views(v@), x@, i as int);
    }
    let ghost x_view = x@;
    v.insert(i, x);
    assert(views(v@) =~= views(old(v)@).insert(i as int, x_view));
}

/// Inserts `x` in order unless a subtag with the same bytes is already there.
pub fn insert_unique_vec(v: &mut Vec<Subtag>, x: Subtag)
    ensures
        views(final(v)@) == insert_unique(views(old(v)@), x@),
{
    if !contains_subtag(v, &x) {
        insert_sorted_vec(v, x);
    }
}

pub proof fn lemma_insert_unique_strict(s: Seq<Seq<u8>>, x: Seq<u8>)
    requires
        strictly_sorted(s),
    ensures
        strictly_sorted(insert_unique(s, x)),
    decreases s.len(),
{
    if s.contains(x) || s.len() == 0 {
    } else if lex_le(x, s[0]) {
        assert(x != s[0]);
        let r = seq![x] + s;
        assert forall|i: int, j: int| 0 <= i < j < r.len() implies lex_lt(#[trigger] r[i], #[trigger] r[j]) by {
            if i == 0 {
                if j > 1 {
                    lemma_lt_transitive(x, s[0], s[j - 1]);
                }
            } else {
                assert(lex_lt(s[i - 1], s[j - 1]));
            }
        }
    } else {
        let t = s.drop_first();
        assert(strictly_sorted(t)) by {
            assert forall|i: int, j: int| 0 <= i < j < t.len() implies lex_lt(#[trigger] t[i], #[trigger] t[j]) by {
                assert(lex_lt(s[i + 1], s[j + 1]));
            }
        }
        assert(!t.contains(x)) by {
            if t.contains(x) {
                let m = choose|m: int| 0 <= m < t.len() && t[m] == x;
                assert(s[m + 1] == x);
            }
        }
        lemma_insert_unique_strict(t, x);
        lemma_insert_sorted_contents(t, x);
        lemma_lt_total(x, s[0]);
        let r = insert_sorted(t, x);
        let q = seq![s[0]] + r;
        assert(insert_unique(s, x) == q);
        assert forall|i: int, j: int| 0 <= i < j < q.len() implies lex_lt(#[trigger] q[i], #[trigger] q[j]) by {
            if i == 0 {
                assert(r.contains(r[j - 1]));
                if r[j - 1] != x {
                    assert(t.contains(r[j - 1]));
                    let m = choose|m: int| 0 <= m < t.len() && t[m] == r[j - 1];
                    assert(lex_lt(s[0], s[m + 1]));
                }
            } else {
                assert(lex_lt(r[i - 1], r[j - 1]));
            }
        }
    }
}

/// Adding an element above all the others puts it at the end.
pub proof fn lemma_insert_unique_last(s: Seq<Seq<u8>>, x: Seq<u8>)
    requires
        forall|j: int| 0 <= j < s.len() ==> lex_lt(#[trigger] s[j], x),
    ensures
        insert_unique(s, x) == s.push(x),
{
    assert(!s.contains(x)) by {
        if s.contains(x) {
            let m = choose|m: int| 0 <= m < s.len() && s[m] == x;
            lemma_lt_irreflexive(x);
        }
    }
    assert forall|j: int| 0 <= j < s.len() implies !lex_le(x, #[trigger] s[j]) by {
        lemma_lt_asymmetric(x, s[j]);
        lemma_lt_irreflexive(x);
    }
    lemma_insert_at(s, x, s.len() as int);
    assert(s.insert(s.len() as int, x) =~= s.push(x));
}

proof fn lemma_insert_sorted_last(s: Seq<Seq<u8>>, x: Seq<u8>)
    requires
        sorted(s),
        forall|j: int| 0 <= j < s.len() ==> lex_le(#[trigger] s[j], x),
    ensures
        insert_sorted(s, x) == s.push(x),
    decreases s.len(),
{
    if s.len() == 0 {
        assert(seq![x] =~= s.push(x));
    } else if lex_le(x, s[0]) {
        lemma_lt_asymmetric(x, s[0]);
        assert(x == s[0]);
        assert forall|j: int| 0 <= j < s.len() implies #[trigger] s[j] == x by {
            if j > 0 {
                assert(lex_le(s[0], s[j]));
                lemma_lt_asymmetric(x, s[j]);
            }
        }
        assert(seq![x] + s =~= s.push(x));
    } else {
        let t = s.drop_first();
        assert(sorted(t)) by {
            assert forall|i: int, j: int| 0 <= i < j < t.len() implies lex_le(#[trigger] t[i], #[trigger] t[j]) by {
                assert(lex_le(s[i + 1], s[j + 1]));
            }
        }
        assert forall|j: int| 0 <= j < t.len() implies lex_le(#[trigger] t[j], x) by {
            assert(lex_le(s[j + 1], x));
        }
        lemma_insert_sorted_last(t, x);
        assert(seq![s[0]] + t.push(x) =~= s.push(x));
    }
}

/// A sequence already in ascending order is its own sorted form.
pub proof fn lemma_sort_all_sorted(s: Seq<Seq<u8>>)
    requires
        sorted(s),
    ensures
        sort_all(s) == s,
    decreases s.len(),
{
    if s.len() > 0 {
        let u = s.drop_last();
        assert(sorted(u)) by {
            assert forall|i: int, j: int| 0 <= i < j < u.len() implies lex_le(#[trigger] u[i], #[trigger] u[j]) by {
                assert(lex_le(s[i], s[j]));
            }
        }
        lemma_sort_all_sorted(u);
        assert forall|j: int| 0 <= j < u.len() implies lex_le(#[trigger] u[j], s.last()) by {
            assert(lex_le(s[j], s[s.len() - 1]));
        }
        lemma_insert_sorted_last(u, s.last());
        assert(u.push(s.last()) =~= s);
    }
}

} // verus!
