//! Lexicographic order on strings: team names and logins are always handed
//! out in a single canonical order.
use vstd::prelude::*;

verus! {

/// Strict lexicographic order on character sequences, comparing code points.
pub open spec fn lex_lt(a: Seq<char>, b: Seq<char>) -> bool
    decreases a.len(),
{
    if b.len() == 0 {
        false
    } else if a.len() == 0 {
        true
    } else if a[0] != b[0] {
        (a[0] as int) < (b[0] as int)
    } else {
        lex_lt(a.drop_first(), b.drop_first())
    }
}

/// The views of a sequence of owned strings.
pub open spec fn seq_views(s: Seq<String>) -> Seq<Seq<char>> {
    s.map_values(|x: String| x@)
}

/// Sorted in strictly increasing lexicographic order; in particular, free of
/// duplicates.
pub open spec fn strictly_sorted(s: Seq<Seq<char>>) -> bool {
    forall|i: int, j: int| 0 <= i < j < s.len() ==> lex_lt(s[i], s[j])
}

pub proof fn lemma_lex_lt_irreflexive(a: Seq<char>)
    ensures
        !lex_lt(a, a),
    decreases a.len(),
{
    if a.len() > 0 {
        lemma_lex_lt_irreflexive(a.drop_first());
    }
}

/// Any two distinct strings are ordered one way or the other.
pub proof fn lemma_lex_lt_connected(a: Seq<char>, b: Seq<char>)
    ensures
        a != b ==> lex_lt(a, b) || lex_lt(b, a),
    decreases a.len(),
{
    if a.len() == 0 && b.len() == 0 {
        assert(a =~= b);
    }
    if a.len() > 0 && b.len() > 0 && a[0] == b[0] {
        lemma_lex_lt_connected(a.drop_first(), b.drop_first());
        if a.drop_first() == b.drop_first() {
            assert forall|k: int| 0 <= k < a.len() implies a[k] == b[k] by {
                if k >= 1 {
                    assert(a.drop_first()[k - 1] == b.drop_first()[k - 1]);
                }
            }
            assert(a =~= b);
        }
    }
}

pub proof fn lemma_lex_lt_transitive(a: Seq<char>, b: Seq<char>, c: Seq<char>)
    requires
        lex_lt(a, b),
        lex_lt(b, c),
    ensures
        lex_lt(a, c),
    decreases a.len(),
{
    if a.len() > 0 && b.len() > 0 && c.len() > 0 && a[0] == b[0] && b[0] == c[0] {
        lemma_lex_lt_transitive(a.drop_first(), b.drop_first(), c.drop_first());
    }
}

/// Two strictly sorted sequences holding the same set of strings are the same
/// sequence.
pub proof fn lemma_strictly_sorted_unique(a: Seq<Seq<char>>, b: Seq<Seq<char>>)
    requires
        strictly_sorted(a),
        strictly_sorted(b),
        a.to_set() == b.to_set(),
    ensures
        a == b,
    decreases a.len(),
{
    if a.len() == 0 {
        if b.len() > 0 {
            assert(b.to_set().contains(b[0]));
            assert(a.contains(b[0]));
        }
        assert(a =~= b);
    } else {
        assert(a.to_set().contains(a[0]));
        assert(b.to_set().contains(a[0]));
        let j = choose|j: int| 0 <= j < b.len() && b[j] == a[0];
        assert(b.to_set().contains(b[0]));
        assert(a.to_set().contains(b[0]));
        let i = choose|i: int| 0 <= i < a.len() && a[i] == b[0];
        if a[0] != b[0] {
            assert(i > 0 && j > 0);
            assert(lex_lt(a[0], a[i]));
            assert(lex_lt(b[0], b[j]));
            lemma_lex_lt_transitive(a[0], b[0], a[0]);
            lemma_lex_lt_irreflexive(a[0]);
        }
        assert(a[0] == b[0]);
        lemma_head_not_in_tail(a);
        lemma_head_not_in_tail(b);
        assert(a.drop_first().to_set() =~= a.to_set().remove(a[0])) by {
            lemma_tail_set(a);
        }
        assert(b.drop_first().to_set() =~= b.to_set().remove(b[0])) by {
            lemma_tail_set(b);
        }
        assert(strictly_sorted(a.drop_first())) by {
            assert(forall|k: int| 0 <= k < a.drop_first().len()
                ==> #[trigger] a.drop_first()[k] == a[k + 1]);
        }
        assert(strictly_sorted(b.drop_first())) by {
            assert(forall|k: int| 0 <= k < b.drop_first().len()
                ==> #[trigger] b.drop_first()[k] == b[k + 1]);
        }
        lemma_strictly_sorted_unique(a.drop_first(), b.drop_first());
        assert forall|k: int| 0 <= k < a.len() implies a[k] == b[k] by {
            if k >= 1 {
                assert(a.drop_first()[k - 1] == b.drop_first()[k - 1]);
            }
        }
        assert(a =~= b);
    }
}

/// In a strictly sorted sequence the head does not recur.
proof fn lemma_head_not_in_tail(a: Seq<Seq<char>>)
    requires
        strictly_sorted(a),
        a.len() > 0,
    ensures
        forall|k: int| 1 <= k < a.len() ==> #[trigger] a[k] != a[0],
{
    assert forall|k: int| 1 <= k < a.len() implies #[trigger] a[k] != a[0] by {
        assert(lex_lt(a[0], a[k]));
        lemma_lex_lt_irreflexive(a[0]);
    }
}

/// The set of a strictly sorted sequence's tail is the full set without the
/// head.
proof fn lemma_tail_set(a: Seq<Seq<char>>)
    requires
        strictly_sorted(a),
        a.len() > 0,
    ensures
        a.drop_first().to_set() =~= a.to_set().remove(a[0]),
{
    lemma_head_not_in_tail(a);
    assert(forall|k: int| 0 <= k < a.drop_first().len()
        ==> #[trigger] a.drop_first()[k] == a[k + 1]);
    assert forall|x: Seq<char>| a.to_set().remove(a[0]).contains(x)
        implies a.drop_first().to_set().contains(x) by {
        let k = choose|k: int| 0 <= k < a.len() && a[k] == x;
        assert(k >= 1);
        assert(a.drop_first()[k - 1] == x);
    }
    assert forall|x: Seq<char>| a.drop_first().to_set().contains(x)
        implies a.to_set().remove(a[0]).contains(x) by {
        let k = choose|k: int| 0 <= k < a.drop_first().len() && a.drop_first()[k] == x;
        assert(a[k + 1] == x);
    }
}

/// A string differing from another only after a common prefix compares the
/// same way the remainders do.
pub proof fn lemma_lex_lt_common_prefix(a: Seq<char>, b: Seq<char>, i: int)
    requires
        0 <= i <= a.len(),
        i <= b.len(),
        forall|k: int| 0 <= k < i ==> a[k] == b[k],
    ensures
        lex_lt(a, b) == lex_lt(a.skip(i), b.skip(i)),
    decreases i,
{
    if i > 0 {
        lemma_lex_lt_common_prefix(a.drop_first(), b.drop_first(), i - 1);
        assert(forall|k: int| 0 <= k < a.drop_first().len()
            ==> #[trigger] a.drop_first()[k] == a[k + 1]);
        assert(forall|k: int| 0 <= k < b.drop_first().len()
            ==> #[trigger] b.drop_first()[k] == b[k + 1]);
        assert(a.drop_first().skip(i - 1) =~= a.skip(i));
        assert(b.drop_first().skip(i - 1) =~= b.skip(i));
    } else {
        assert(a.skip(0) =~= a);
        assert(b.skip(0) =~= b);
    }
}

/// Character-for-character string equality.
pub fn str_eq(a: &str, b: &str) -> (r: bool)
    ensures
        r == (a@ == b@),
{
    let alen: usize = a.unicode_len();
    let blen: usize = b.unicode_len();
    if alen != blen {
        return false;
    }
    let mut i: usize = 0;
    while i < alen
        invariant
            alen == a@.len(),
            alen == b@.len(),
            i <= alen,
            forall|k: int| 0 <= k < i ==> a@[k] == b@[k],
        decreases alen - i,
    {
        let ca: char = a.get_char(i);
        let cb: char = b.get_char(i);
        if ca != cb {
            return false;
        }
        i += 1;
    }
    proof {
        assert(a@ =~= b@);
    }
    true
}

/// Decides `lex_lt` on string slices.
pub fn str_lt(a: &str, b: &str) -> (r: bool)
    ensures
        r == lex_lt(a@, b@),
{
    let alen: usize = a.unicode_len();
    let blen: usize = b.unicode_len();
    let mut i: usize = 0;
    while i < alen && i < blen
        invariant
            alen == a@.len(),
            blen == b@.len(),
            i <= alen,
            i <= blen,
            forall|k: int| 0 <= k < i ==> a@[k] == b@[k],
        decreases alen - i,
    {
        let ca: char = a.get_char(i);
        let cb: char = b.get_char(i);
        if ca != cb {
            proof {
                lemma_lex_lt_common_prefix(a@, b@, i as int);
                assert(a@.skip(i as int)[0] == a@[i as int]);
                assert(b@.skip(i as int)[0] == b@[i as int]);
            }
            return (ca as u32) < (cb as u32);
        }
        i += 1;
    }
    proof {
        lemma_lex_lt_common_prefix(a@, b@, i as int);
        if alen == i && blen > i {
            assert(lex_lt(a@.skip(i as int), b@.skip(i as int)));
        }
        if blen == i {
            assert(!lex_lt(a@.skip(i as int), b@.skip(i as int)));
        }
    }
    alen < blen
}

/// Inserts a string into a strictly sorted vector, keeping it strictly sorted;
/// a string already present is not inserted again.
pub fn insert_sorted(v: &mut Vec<String>, s: String)
    requires
        strictly_sorted(seq_views(old(v)@)),
    ensures
        strictly_sorted(seq_views(final(v)@)),
        seq_views(final(v)@).to_set() == seq_views(old(v)@).to_set().insert(s@),
{
    let mut i: usize = 0;
    while i < v.len()
        invariant
            v@ == old(v)@,
            i <= v@.len(),
            forall|k: int| 0 <= k < i ==> lex_lt(#[trigger] seq_views(v@)[k], s@),
        ensures
            v@ == old(v)@,
            i <= v@.len(),
            forall|k: int| 0 <= k < i ==> lex_lt(#[trigger] seq_views(v@)[k], s@),
            i < v@.len() ==> !lex_lt(seq_views(v@)[i as int], s@),
        decreases v@.len() - i,
    {
        if !str_lt(v[i].as_str(), s.as_str()) {
            break;
        }
        i += 1;
    }
    if i < v.len() && str_eq(v[i].as_str(), s.as_str()) {
        proof {
            assert(seq_views(v@)[i as int] == s@);
            assert(seq_views(v@).to_set().contains(s@));
            assert(seq_views(v@).to_set() =~= seq_views(old(v)@).to_set().insert(s@));
        }
        return;
    }
    proof {
        if i < v@.len() {
            lemma_lex_lt_connected(seq_views(v@)[i as int], s@);
            assert(lex_lt(s@, seq_views(v@)[i as int]));
        }
        assert forall|k: int| i <= k < v@.len() implies lex_lt(s@, #[trigger] seq_views(v@)[k]) by {
            if k > i {
                lemma_lex_lt_transitive(s@, seq_views(v@)[i as int], seq_views(v@)[k]);
            }
        }
    }
    let ghost pre = v@;
    v.insert(i, s);
    proof {
        assert(seq_views(v@) =~= seq_views(pre).insert(i as int, s@));
        seq_views(pre).insert_ensures(i as int, s@);
        assert forall|p: int, q: int| 0 <= p < q < seq_views(v@).len()
            implies lex_lt(seq_views(v@)[p], seq_views(v@)[q]) by {
            let sv = seq_views(pre);
            let nv = seq_views(v@);
            if q < i {
                assert(nv[p] == sv[p] && nv[q] == sv[q]);
            } else if q == i {
                assert(nv[p] == sv[p] && nv[q] == s@);
            } else if p < i {
                assert(nv[p] == sv[p] && nv[q] == sv[q - 1]);
            } else if p == i {
                assert(nv[p] == s@ && nv[q] == sv[q - 1]);
            } else {
                assert(nv[p] == sv[p - 1] && nv[q] == sv[q - 1]);
            }
        }
        assert(seq_views(v@).to_set() =~= seq_views(pre).to_set().insert(s@)) by {
            let sv = seq_views(pre);
            let nv = seq_views(v@);
            assert forall|x: Seq<char>| nv.to_set().contains(x)
                implies sv.to_set().insert(s@).contains(x) by {
                let k = choose|k: int| 0 <= k < nv.len() && nv[k] == x;
                if k < i {
                    assert(sv[k] == x);
                } else if k == i {
                } else {
                    assert(sv[k - 1] == x);
                }
            }
            assert forall|x: Seq<char>| sv.to_set().insert(s@).contains(x)
                implies nv.to_set().contains(x) by {
                if x == s@ {
                    assert(nv[i as int] == x);
                } else {
                    let k = choose|k: int| 0 <= k < sv.len() && sv[k] == x;
                    if k < i {
                        assert(nv[k] == x);
                    } else {
                        assert(nv[k + 1] == x);
                    }
                }
            }
        }
    }
}

} // verus!
