//! The byte-wise lexicographic order on byte strings, and the ascending
//! enumeration of a finite set of them.

use vstd::prelude::*;

verus! {

/// `a` comes strictly before `b`: at the first place where they differ `a` has
/// the smaller byte, or `a` is a proper prefix of `b`.
pub open spec fn lex_less(a: Seq<u8>, b: Seq<u8>) -> bool
    decreases a.len(),
{
    if b.len() == 0 {
        false
    } else if a.len() == 0 {
        true
    } else if a[0] != b[0] {
        a[0] < b[0]
    } else {
        lex_less(a.drop_first(), b.drop_first())
    }
}

/// Each element comes strictly before every later one.
pub open spec fn strictly_ascending(ks: Seq<Seq<u8>>) -> bool {
    forall|i: int, j: int| 0 <= i < j < ks.len() ==> lex_less(#[trigger] ks[i], #[trigger] ks[j])
}

/// `ks` lists the members of `s`, each once, in ascending order.
pub open spec fn enumerates(ks: Seq<Seq<u8>>, s: Set<Seq<u8>>) -> bool {
    &&& strictly_ascending(ks)
    &&& forall|i: int| 0 <= i < ks.len() ==> s.contains(#[trigger] ks[i])
    &&& forall|k: Seq<u8>| s.contains(k) ==> exists|i: int| 0 <= i < ks.len() && #[trigger] ks[i] == k
}

/// The members of a finite set of byte strings in ascending order.
pub open spec fn ascending(s: Set<Seq<u8>>) -> Seq<Seq<u8>> {
    choose|ks: Seq<Seq<u8>>| enumerates(ks, s)
}

/// Nothing comes before itself.
pub proof fn lemma_lex_irreflexive(a: Seq<u8>)
    ensures
        !lex_less(a, a),
    decreases a.len(),
{
    if a.len() > 0 {
        lemma_lex_irreflexive(a.drop_first());
    }
}

/// Of two different byte strings exactly one comes before the other.
pub proof fn lemma_lex_total(a: Seq<u8>, b: Seq<u8>)
    ensures
        a != b ==> (lex_less(a, b) <==> !lex_less(b, a)),
        a == b ==> !lex_less(a, b) && !lex_less(b, a),
    decreases a.len(),
{
    if a == b {
        lemma_lex_irreflexive(a);
    } else if a.len() == 0 || b.len() == 0 {
        if a.len() == 0 && b.len() == 0 {
            assert(a =~= b);
        }
    } else if a[0] == b[0] {
        lemma_lex_total(a.drop_first(), b.drop_first());
        if a.drop_first() == b.drop_first() {
            assert(a =~= seq![a[0]] + a.drop_first());
            assert(b =~= seq![b[0]] + b.drop_first());
        }
    }
}

/// The order is transitive.
pub proof fn lemma_lex_transitive(a: Seq<u8>, b: Seq<u8>, c: Seq<u8>)
    requires
        lex_less(a, b),
        lex_less(b, c),
    ensures
        lex_less(a, c),
    decreases a.len(),
{
    if a.len() > 0 && a[0] == b[0] && b[0] == c[0] {
        lemma_lex_transitive(a.drop_first(), b.drop_first(), c.drop_first());
    }
}

/// `ks` lists the members of `s`, each once, in some order.
pub open spec fn arranges(ks: Seq<Seq<u8>>, s: Set<Seq<u8>>) -> bool {
    &&& ks.no_duplicates()
    &&& forall|i: int| 0 <= i < ks.len() ==> s.contains(#[trigger] ks[i])
    &&& forall|k: Seq<u8>| s.contains(k) ==> exists|i: int| 0 <= i < ks.len() && #[trigger] ks[i] == k
}

/// An ascending enumeration lists each member once.
pub proof fn lemma_enumeration_arranges(ks: Seq<Seq<u8>>, s: Set<Seq<u8>>)
    requires
        enumerates(ks, s),
    ensures
        arranges(ks, s),
{
    assert forall|i: int, j: int| 0 <= i < ks.len() && 0 <= j < ks.len() && i != j implies ks[i]
        != ks[j] by {
        if i < j {
            assert(lex_less(ks[i], ks[j]));
            lemma_lex_irreflexive(ks[i]);
        } else {
            assert(lex_less(ks[j], ks[i]));
            lemma_lex_irreflexive(ks[j]);
        }
    }
}

/// A finite set has at most one ascending enumeration.
pub proof fn lemma_enumeration_unique(a: Seq<Seq<u8>>, b: Seq<Seq<u8>>, s: Set<Seq<u8>>)
    requires
        enumerates(a, s),
        enumerates(b, s),
    ensures
        a == b,
    decreases a.len(),
{
    if a.len() == 0 {
        if b.len() > 0 {
            assert(s.contains(b[0]));
        }
        assert(a =~= b);
    } else if b.len() == 0 {
        assert(s.contains(a[0]));
    } else {
        let x = a[0];
        let y = b[0];
        assert(s.contains(x));
        assert(s.contains(y));
        let i = choose|i: int| 0 <= i < b.len() && #[trigger] b[i] == x;
        let j = choose|j: int| 0 <= j < a.len() && #[trigger] a[j] == y;
        lemma_lex_total(x, y);
        if x != y {
            assert(i > 0);
            assert(j > 0);
            assert(lex_less(b[0], b[i]));
            assert(lex_less(a[0], a[j]));
        }
        let a1 = a.drop_first();
        let b1 = b.drop_first();
        let s1 = s.remove(x);
        lemma_drop_first_enumerates(a, s);
        lemma_drop_first_enumerates(b, s);
        lemma_enumeration_unique(a1, b1, s1);
        assert(a =~= seq![x] + a1);
        assert(b =~= seq![y] + b1);
    }
}

/// Without its first element an enumeration lists the set without that member.
pub proof fn lemma_drop_first_enumerates(a: Seq<Seq<u8>>, s: Set<Seq<u8>>)
    requires
        enumerates(a, s),
        a.len() > 0,
    ensures
        enumerates(a.drop_first(), s.remove(a[0])),
{
    let a1 = a.drop_first();
    let s1 = s.remove(a[0]);
    assert forall|i: int, j: int| 0 <= i < j < a1.len() implies lex_less(
        #[trigger] a1[i],
        #[trigger] a1[j],
    ) by {
        assert(a1[i] == a[i + 1]);
        assert(a1[j] == a[j + 1]);
    }
    assert forall|i: int| 0 <= i < a1.len() implies s1.contains(#[trigger] a1[i]) by {
        assert(a1[i] == a[i + 1]);
        assert(lex_less(a[0], a[i + 1]));
        lemma_lex_irreflexive(a[0]);
    }
    assert forall|k: Seq<u8>| s1.contains(k) implies exists|i: int|
        0 <= i < a1.len() && #[trigger] a1[i] == k by {
        let i = choose|i: int| 0 <= i < a.len() && #[trigger] a[i] == k;
        assert(i > 0);
        assert(a1[i - 1] == k);
    }
}

/// An enumeration with a key put in at its place lists the set with that key.
proof fn lemma_insert_enumerates(a: Seq<Seq<u8>>, s: Set<Seq<u8>>, k: Seq<u8>) -> (r: Seq<Seq<u8>>)
    requires
        enumerates(a, s),
        !s.contains(k),
    ensures
        enumerates(r, s.insert(k)),
    decreases a.len(),
{
    if a.len() == 0 {
        let r = seq![k];
        assert(r[0] == k);
        r
    } else if lex_less(k, a[0]) {
        let r = seq![k] + a;
        assert forall|i: int, j: int| 0 <= i < j < r.len() implies lex_less(
            #[trigger] r[i],
            #[trigger] r[j],
        ) by {
            if i == 0 {
                assert(r[j] == a[j - 1]);
                if j > 1 {
                    assert(lex_less(a[0], a[j - 1]));
                    lemma_lex_transitive(k, a[0], a[j - 1]);
                }
            } else {
                assert(r[i] == a[i - 1]);
                assert(r[j] == a[j - 1]);
            }
        }
        assert forall|i: int| 0 <= i < r.len() implies s.insert(k).contains(#[trigger] r[i]) by {
            if i > 0 {
                assert(r[i] == a[i - 1]);
            }
        }
        assert forall|x: Seq<u8>| s.insert(k).contains(x) implies exists|i: int|
            0 <= i < r.len() && #[trigger] r[i] == x by {
            if x == k {
                assert(r[0] == x);
            } else {
                let i = choose|i: int| 0 <= i < a.len() && #[trigger] a[i] == x;
                assert(r[i + 1] == x);
            }
        }
        r
    } else {
        let x = a[0];
        assert(s.contains(x));
        lemma_lex_total(k, x);
        lemma_drop_first_enumerates(a, s);
        let t = lemma_insert_enumerates(a.drop_first(), s.remove(x), k);
        let r = seq![x] + t;
        assert(s.remove(x).insert(k).insert(x) =~= s.insert(k));
        assert forall|i: int| 0 <= i < t.len() implies lex_less(x, #[trigger] t[i]) by {
            assert(s.remove(x).insert(k).contains(t[i]));
            if t[i] != k {
                let j = choose|j: int| 0 <= j < a.len() && #[trigger] a[j] == t[i];
                assert(j > 0);
                assert(lex_less(a[0], a[j]));
            }
        }
        assert forall|i: int, j: int| 0 <= i < j < r.len() implies lex_less(
            #[trigger] r[i],
            #[trigger] r[j],
        ) by {
            assert(r[j] == t[j - 1]);
            if i > 0 {
                assert(r[i] == t[i - 1]);
            }
        }
        assert forall|i: int| 0 <= i < r.len() implies s.insert(k).contains(#[trigger] r[i]) by {
            if i > 0 {
                assert(r[i] == t[i - 1]);
            }
        }
        assert forall|y: Seq<u8>| s.insert(k).contains(y) implies exists|i: int|
            0 <= i < r.len() && #[trigger] r[i] == y by {
            if y == x {
                assert(r[0] == y);
            } else {
                assert(s.remove(x).insert(k).contains(y));
                let i = choose|i: int| 0 <= i < t.len() && #[trigger] t[i] == y;
                assert(r[i + 1] == y);
            }
        }
        r
    }
}

/// Every finite set of byte strings has an ascending enumeration, and
/// `ascending` is that enumeration.
pub proof fn lemma_ascending_enumerates(s: Set<Seq<u8>>)
    requires
        s.finite(),
    ensures
        enumerates(ascending(s), s),
    decreases s.len(),
{
    if s.len() == 0 {
        let e = Seq::<Seq<u8>>::empty();
        assert forall|k: Seq<u8>| s.contains(k) implies exists|i: int|
            0 <= i < e.len() && #[trigger] e[i] == k by {
            assert(s =~= Set::empty());
        }
        assert(enumerates(e, s));
    } else {
        let k = s.choose();
        lemma_ascending_enumerates(s.remove(k));
        let r = lemma_insert_enumerates(ascending(s.remove(k)), s.remove(k), k);
        assert(s.remove(k).insert(k) =~= s);
        assert(enumerates(r, s));
    }
}

/// An ascending enumeration of a set is the set's `ascending`.
pub proof fn lemma_enumeration_is_ascending(ks: Seq<Seq<u8>>, s: Set<Seq<u8>>)
    requires
        enumerates(ks, s),
    ensures
        ascending(s) == ks,
{
    lemma_enumeration_unique(ascending(s), ks, s);
}

/// Decides the order of two byte strings.
pub fn bytes_less(a: &[u8], b: &[u8]) -> (r: bool)
    ensures
        r == lex_less(a@, b@),
{
    let mut i: usize = 0;
    proof {
        assert(a@.skip(0) =~= a@);
        assert(b@.skip(0) =~= b@);
    }
    while i < a.len() && i < b.len()
        invariant
            i <= a.len(),
            i <= b.len(),
            lex_less(a@, b@) == lex_less(a@.skip(i as int), b@.skip(i as int)),
        decreases a.len() - i,
    {
        let x: u8 = a[i];
        let y: u8 = b[i];
        proof {
            assert(a@.skip(i as int)[0] == x);
            assert(b@.skip(i as int)[0] == y);
            assert(a@.skip(i as int).drop_first() =~= a@.skip(i + 1));
            assert(b@.skip(i as int).drop_first() =~= b@.skip(i + 1));
        }
        if x != y {
            return x < y;
        }
        i = i + 1;
    }
    i < b.len()
}

/// Decides whether two byte strings are the same.
pub fn bytes_equal(a: &[u8], b: &[u8]) -> (r: bool)
    ensures
        r == (a@ == b@),
{
    if a.len() != b.len() {
        return false;
    }
    let mut i: usize = 0;
    while i < a.len()
        invariant
            i <= a.len(),
            a.len() == b.len(),
            forall|k: int| 0 <= k < i ==> a@[k] == b@[k],
        decreases a.len() - i,
    {
        if a[i] != b[i] {
            return false;
        }
        i = i + 1;
    }
    proof {
        assert(a@ =~= b@);
    }
    true
}

} // verus!
