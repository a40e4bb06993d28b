//! The order of project names, and a listing of named items sorted by name.
use vstd::prelude::*;

verus! {

/// Lexicographic order on texts, character by character.
pub open spec fn name_less(a: Seq<char>, b: Seq<char>) -> bool
    decreases a.len(),
{
    if a.len() == 0 {
        b.len() > 0
    } else if b.len() == 0 {
        false
    } else if a[0] != b[0] {
        (a[0] as int) < (b[0] as int)
    } else {
        name_less(a.drop_first(), b.drop_first())
    }
}

/// No text comes before itself.
pub proof fn lemma_name_less_irreflexive(a: Seq<char>)
    ensures
        !name_less(a, a),
    decreases a.len(),
{
    if a.len() > 0 {
        lemma_name_less_irreflexive(a.drop_first());
    }
}

/// The order is transitive.
pub proof fn lemma_name_less_transitive(a: Seq<char>, b: Seq<char>, c: Seq<char>)
    requires
        name_less(a, b),
        name_less(b, c),
    ensures
        name_less(a, c),
    decreases a.len(),
{
    if a.len() > 0 && a[0] == b[0] && b[0] == c[0] {
        lemma_name_less_transitive(a.drop_first(), b.drop_first(), c.drop_first());
    }
}

/// Of two texts, at most one comes before the other.
pub proof fn lemma_name_less_asymmetric(a: Seq<char>, b: Seq<char>)
    ensures
        !(name_less(a, b) && name_less(b, a)),
{
    if name_less(a, b) && name_less(b, a) {
        lemma_name_less_transitive(a, b, a);
        lemma_name_less_irreflexive(a);
    }
}

/// Of two different texts, one comes before the other.
pub proof fn lemma_name_less_total(a: Seq<char>, b: Seq<char>)
    requires
        a != b,
    ensures
        name_less(a, b) || name_less(b, a),
    decreases a.len(),
{
    if a.len() > 0 && b.len() > 0 && a[0] == b[0] {
        assert(a =~= seq![a[0]] + a.drop_first());
        assert(b =~= seq![b[0]] + b.drop_first());
        lemma_name_less_total(a.drop_first(), b.drop_first());
    } else if a.len() == 0 && b.len() == 0 {
        assert(a =~= b);
    }
}

/// Comparing after a common prefix gives the same answer.
proof fn lemma_name_less_skip(a: Seq<char>, b: Seq<char>, i: int)
    requires
        0 <= i <= a.len(),
        i <= b.len(),
        a.take(i) == b.take(i),
    ensures
        name_less(a, b) == name_less(a.skip(i), b.skip(i)),
    decreases i,
{
    if i > 0 {
        assert(a[0] == a.take(i)[0]);
        assert(b[0] == b.take(i)[0]);
        assert(a.drop_first().take(i - 1) =~= a.take(i).drop_first());
        assert(b.drop_first().take(i - 1) =~= b.take(i).drop_first());
        lemma_name_less_skip(a.drop_first(), b.drop_first(), i - 1);
        assert(a.drop_first().skip(i - 1) =~= a.skip(i));
        assert(b.drop_first().skip(i - 1) =~= b.skip(i));
    } else {
        assert(a.skip(0) =~= a);
        assert(b.skip(0) =~= b);
    }
}

/// Whether `a` comes before `b` in the order of names.
pub fn name_before(a: &String, b: &String) -> (r: bool)
    ensures
        r == name_less(a@, b@),
{
    let sa = a.as_str();
    let sb = b.as_str();
    let la = sa.unicode_len();
    let lb = sb.unicode_len();
    let mut i: usize = 0;
    while i < la && i < lb
        invariant
            i <= la,
            i <= lb,
            la == a@.len(),
            lb == b@.len(),
            sa@ == a@,
            sb@ == b@,
            a@.take(i as int) == b@.take(i as int),
        decreases la - i,
    {
        let ca = sa.get_char(i);
        let cb = sb.get_char(i);
        if ca != cb {
            proof {
                lemma_name_less_skip(a@, b@, i as int);
                assert(a@.skip(i as int)[0] == ca);
                assert(b@.skip(i as int)[0] == cb);
            }
            return (ca as u32) < (cb as u32);
        }
        assert(a@.take(i + 1) =~= a@.take(i as int).push(ca));
        assert(b@.take(i + 1) =~= b@.take(i as int).push(cb));
        i = i + 1;
    }
    proof {
        lemma_name_less_skip(a@, b@, i as int);
    }
    la < lb
}

/// Inserts `x` before the first item whose name comes after its name.
pub open spec fn insert_by_name<V>(s: Seq<(Seq<char>, V)>, x: (Seq<char>, V)) -> Seq<(Seq<char>, V)>
    decreases s.len(),
{
    if s.len() == 0 {
        seq![x]
    } else if name_less(x.0, s[0].0) {
        seq![x] + s
    } else {
        seq![s[0]] + insert_by_name(s.drop_first(), x)
    }
}

/// The items sorted by name, items of equal name in their order.
pub open spec fn by_name<V>(s: Seq<(Seq<char>, V)>) -> Seq<(Seq<char>, V)>
    decreases s.len(),
{
    if s.len() == 0 {
        s
    } else {
        insert_by_name(by_name(s.drop_last()), s.last())
    }
}

/// No name occurs twice.
pub open spec fn names_distinct<V>(s: Seq<(Seq<char>, V)>) -> bool {
    forall|i: int, j: int| 0 <= i < j < s.len() ==> #[trigger] s[i].0 != #[trigger] s[j].0
}

/// The names rise strictly.
pub open spec fn sorted_by_name<V>(s: Seq<(Seq<char>, V)>) -> bool {
    forall|i: int, j: int| 0 <= i < j < s.len() ==> name_less(#[trigger] s[i].0, #[trigger] s[j].0)
}

/// The position at which `insert_by_name` puts an item of the given name.
pub open spec fn insert_pos<V>(s: Seq<(Seq<char>, V)>, name: Seq<char>) -> int
    decreases s.len(),
{
    if s.len() == 0 {
        0
    } else if name_less(name, s[0].0) {
        0
    } else {
        1 + insert_pos(s.drop_first(), name)
    }
}

/// Inserting by name is inserting at `insert_pos`, which is the first
/// position whose name comes after the inserted one.
pub proof fn lemma_insert_by_name<V>(s: Seq<(Seq<char>, V)>, x: (Seq<char>, V), j: int)
    requires
        0 <= j <= s.len(),
        forall|k: int| 0 <= k < j ==> !name_less(x.0, #[trigger] s[k].0),
        j == s.len() || name_less(x.0, s[j].0),
    ensures
        insert_pos(s, x.0) == j,
        insert_by_name(s, x) == s.insert(j, x),
    decreases s.len(),
{
    if s.len() == 0 {
        assert(s.insert(j, x) =~= seq![x]);
    } else if j == 0 {
        assert(s.insert(0, x) =~= seq![x] + s);
    } else {
        assert(!name_less(x.0, s[0].0));
        assert forall|k: int| 0 <= k < j - 1 implies !name_less(x.0, #[trigger] s.drop_first()[k].0) by {
            assert(s.drop_first()[k] == s[k + 1]);
        }
        lemma_insert_by_name(s.drop_first(), x, j - 1);
        assert(s.insert(j, x) =~= seq![s[0]] + s.drop_first().insert(j - 1, x));
    }
}

/// What `insert_by_name` holds and that it keeps a sorted list sorted.
proof fn lemma_insert_contents<V>(s: Seq<(Seq<char>, V)>, x: (Seq<char>, V))
    ensures
        insert_by_name(s, x).len() == s.len() + 1,
        forall|y: (Seq<char>, V)| #[trigger] insert_by_name(s, x).contains(y) <==> s.contains(y) || y == x,
        sorted_by_name(s) && (forall|k: int| 0 <= k < s.len() ==> (#[trigger] s[k]).0 != x.0)
            ==> sorted_by_name(insert_by_name(s, x)),
    decreases s.len(),
{
    let r = insert_by_name(s, x);
    if s.len() == 0 {
        assert(r =~= seq![x]);
        assert forall|y: (Seq<char>, V)| #[trigger] r.contains(y) <==> s.contains(y) || y == x by {
            if r.contains(y) {
                assert(r[0] == y);
            }
            if y == x {
                assert(r[0] == x);
            }
        }
    } else if name_less(x.0, s[0].0) {
        assert forall|y: (Seq<char>, V)| #[trigger] r.contains(y) <==> s.contains(y) || y == x by {
            if r.contains(y) {
                let i = choose|i: int| 0 <= i < r.len() && r[i] == y;
                if i > 0 {
                    assert(s[i - 1] == y);
                }
            }
            if s.contains(y) {
                let i = choose|i: int| 0 <= i < s.len() && s[i] == y;
                assert(r[i + 1] == y);
            }
            if y == x {
                assert(r[0] == x);
            }
        }
        if sorted_by_name(s) {
            assert forall|i: int, j: int| 0 <= i < j < r.len() implies name_less(#[trigger] r[i].0, #[trigger] r[j].0) by {
                if i == 0 {
                    if j > 1 {
                        assert(name_less(s[0].0, s[j - 1].0));
                        lemma_name_less_transitive(x.0, s[0].0, s[j - 1].0);
                    }
                } else {
                    assert(name_less(s[i - 1].0, s[j - 1].0));
                }
            }
        }
    } else {
        let t = s.drop_first();
        lemma_insert_contents(t, x);
        let rt = insert_by_name(t, x);
        assert(r == seq![s[0]] + rt);
        assert forall|y: (Seq<char>, V)| #[trigger] r.contains(y) <==> s.contains(y) || y == x by {
            if r.contains(y) {
                let i = choose|i: int| 0 <= i < r.len() && r[i] == y;
                if i == 0 {
                    assert(s[0] == y);
                } else {
                    assert(rt[i - 1] == y);
                    assert(rt.contains(y));
                    if t.contains(y) {
                        let k = choose|k: int| 0 <= k < t.len() && t[k] == y;
                        assert(s[k + 1] == y);
                    }
                }
            }
            if s.contains(y) {
                let i = choose|i: int| 0 <= i < s.len() && s[i] == y;
                if i == 0 {
                    assert(r[0] == y);
                } else {
                    assert(t[i - 1] == y);
                    assert(t.contains(y));
                    assert(rt.contains(y));
                    let k = choose|k: int| 0 <= k < rt.len() && rt[k] == y;
                    assert(r[k + 1] == y);
                }
            }
            if y == x {
                assert(rt.contains(x));
                let k = choose|k: int| 0 <= k < rt.len() && rt[k] == x;
                assert(r[k + 1] == x);
            }
        }
        if sorted_by_name(s) && (forall|k: int| 0 <= k < s.len() ==> (#[trigger] s[k]).0 != x.0) {
            assert forall|i: int, j: int| 0 <= i < j < t.len() implies name_less(#[trigger] t[i].0, #[trigger] t[j].0) by {
                assert(name_less(s[i + 1].0, s[j + 1].0));
            }
            assert forall|k: int| 0 <= k < t.len() implies (#[trigger] t[k]).0 != x.0 by {
                assert(t[k] == s[k + 1]);
            }
            assert(sorted_by_name(rt));
            assert(s[0].0 != x.0);
            lemma_name_less_total(s[0].0, x.0);
            assert(name_less(s[0].0, x.0));
            assert forall|i: int, j: int| 0 <= i < j < r.len() implies name_less(#[trigger] r[i].0, #[trigger] r[j].0) by {
                if i == 0 {
                    assert(rt.contains(rt[j - 1]));
                    assert(s.contains(rt[j - 1]) || rt[j - 1] == x);
                    if rt[j - 1] != x {
                        let k = choose|k: int| 0 <= k < s.len() && s[k] == rt[j - 1];
                        if k == 0 {
                            assert(rt[j - 1] == s[0]);
                            assert(t.contains(s[0]) || s[0] == x);
                            if t.contains(s[0]) {
                                let m = choose|m: int| 0 <= m < t.len() && t[m] == s[0];
                                assert(name_less(s[0].0, s[m + 1].0));
                                lemma_name_less_irreflexive(s[0].0);
                            }
                        } else {
                            assert(name_less(s[0].0, s[k].0));
                        }
                    }
                } else {
                    assert(r[i] == rt[i - 1] && r[j] == rt[j - 1]);
                }
            }
        }
    }
}

/// Sorting keeps the items and, for distinct names, sorts them strictly.
pub proof fn lemma_by_name<V>(s: Seq<(Seq<char>, V)>)
    ensures
        by_name(s).len() == s.len(),
        forall|y: (Seq<char>, V)| #[trigger] by_name(s).contains(y) <==> s.contains(y),
        names_distinct(s) ==> sorted_by_name(by_name(s)),
    decreases s.len(),
{
    if s.len() > 0 {
        let init = s.drop_last();
        lemma_by_name(init);
        let b = by_name(init);
        lemma_insert_contents(b, s.last());
        assert forall|y: (Seq<char>, V)| #[trigger] by_name(s).contains(y) <==> s.contains(y) by {
            if init.contains(y) {
                let i = choose|i: int| 0 <= i < init.len() && init[i] == y;
                assert(s[i] == y);
            }
            if s.contains(y) {
                let i = choose|i: int| 0 <= i < s.len() && s[i] == y;
                if i < s.len() - 1 {
                    assert(init[i] == y);
                }
            }
        }
        if names_distinct(s) {
            assert forall|i: int, j: int| 0 <= i < j < init.len() implies #[trigger] init[i].0 != #[trigger] init[j].0 by {
                assert(s[i] == init[i] && s[j] == init[j]);
            }
            assert forall|k: int| 0 <= k < b.len() implies (#[trigger] b[k]).0 != s.last().0 by {
                assert(b.contains(b[k]));
                let i = choose|i: int| 0 <= i < init.len() && init[i] == b[k];
                assert(s[i] == b[k]);
                assert(s[s.len() - 1] == s.last());
            }
        }
    }
}

/// Two strictly sorted lists with the same items are equal.
pub proof fn lemma_sorted_unique<V>(s1: Seq<(Seq<char>, V)>, s2: Seq<(Seq<char>, V)>)
    requires
        sorted_by_name(s1),
        sorted_by_name(s2),
        forall|y: (Seq<char>, V)| #[trigger] s1.contains(y) <==> s2.contains(y),
    ensures
        s1 == s2,
    decreases s1.len(),
{
    if s1.len() == 0 {
        if s2.len() > 0 {
            assert(s2.contains(s2[0]));
            assert(s1.contains(s2[0]));
        }
        assert(s1 =~= s2);
    } else {
        assert(s1.contains(s1[0]));
        assert(s2.contains(s1[0]));
        let j = choose|j: int| 0 <= j < s2.len() && s2[j] == s1[0];
        assert(s2.contains(s2[0]));
        assert(s1.contains(s2[0]));
        let k = choose|k: int| 0 <= k < s1.len() && s1[k] == s2[0];
        if j > 0 {
            assert(name_less(s2[0].0, s2[j].0));
            if k > 0 {
                assert(name_less(s1[0].0, s1[k].0));
                lemma_name_less_asymmetric(s1[0].0, s1[k].0);
            } else {
                lemma_name_less_irreflexive(s1[0].0);
            }
        }
        assert(s1[0] == s2[0]);
        let t1 = s1.drop_first();
        let t2 = s2.drop_first();
        assert forall|i: int, m: int| 0 <= i < m < t1.len() implies name_less(#[trigger] t1[i].0, #[trigger] t1[m].0) by {
            assert(name_less(s1[i + 1].0, s1[m + 1].0));
        }
        assert forall|i: int, m: int| 0 <= i < m < t2.len() implies name_less(#[trigger] t2[i].0, #[trigger] t2[m].0) by {
            assert(name_less(s2[i + 1].0, s2[m + 1].0));
        }
        assert forall|y: (Seq<char>, V)| #[trigger] t1.contains(y) <==> t2.contains(y) by {
            if t1.contains(y) {
                let i = choose|i: int| 0 <= i < t1.len() && t1[i] == y;
                assert(s1[i + 1] == y);
                assert(s1.contains(y));
                assert(s2.contains(y));
                let m = choose|m: int| 0 <= m < s2.len() && s2[m] == y;
                if m == 0 {
                    assert(name_less(s1[0].0, s1[i + 1].0));
                    lemma_name_less_irreflexive(s1[0].0);
                } else {
                    assert(t2[m - 1] == y);
                }
            }
            if t2.contains(y) {
                let i = choose|i: int| 0 <= i < t2.len() && t2[i] == y;
                assert(s2[i + 1] == y);
                assert(s2.contains(y));
                assert(s1.contains(y));
                let m = choose|m: int| 0 <= m < s1.len() && s1[m] == y;
                if m == 0 {
                    assert(name_less(s2[0].0, s2[i + 1].0));
                    lemma_name_less_irreflexive(s2[0].0);
                } else {
                    assert(t1[m - 1] == y);
                }
            }
        }
        lemma_sorted_unique(t1, t2);
        assert(s1 =~= seq![s1[0]] + t1);
        assert(s2 =~= seq![s2[0]] + t2);
    }
}

/// Two listings with distinct names and the same items sort to the same list.
pub proof fn lemma_same_items_same_order<V>(s1: Seq<(Seq<char>, V)>, s2: Seq<(Seq<char>, V)>)
    requires
        names_distinct(s1),
        names_distinct(s2),
        forall|y: (Seq<char>, V)| #[trigger] s1.contains(y) <==> s2.contains(y),
    ensures
        by_name(s1) == by_name(s2),
{
    lemma_by_name(s1);
    lemma_by_name(s2);
    assert forall|y: (Seq<char>, V)| #[trigger] by_name(s1).contains(y) <==> by_name(s2).contains(y) by {
        assert(s1.contains(y) <==> s2.contains(y));
    }
    lemma_sorted_unique(by_name(s1), by_name(s2));
}

} // verus!
