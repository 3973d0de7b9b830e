//! Lexicographic order on path strings, character by character, and
//! sorted insertion without duplicates. The pipeline sorts its results
//! with this order, so that output is deterministic whatever order the
//! walks produced.

use vstd::prelude::*;

verus! {

/// Strict lexicographic order on character sequences, by code point; a
/// proper prefix comes first.
pub open spec fn lex_lt(a: Seq<char>, b: Seq<char>) -> bool
    decreases a.len(),
{
    if b.len() == 0 {
        false
    } else if a.len() == 0 {
        true
    } else if (a[0] as u32) < (b[0] as u32) {
        true
    } else if a[0] == b[0] {
        lex_lt(a.skip(1), b.skip(1))
    } else {
        false
    }
}

/// The order is irreflexive and asymmetric.
pub proof fn lemma_lex_asym(a: Seq<char>, b: Seq<char>)
    requires
        lex_lt(a, b),
    ensures
        !lex_lt(b, a),
        a != b,
    decreases a.len(),
{
    if b.len() > 0 && a.len() > 0 && a[0] == b[0] {
        lemma_lex_asym(a.skip(1), b.skip(1));
        assert(a != b) by {
            if a == b {
                assert(a.skip(1) == b.skip(1));
            }
        }
    }
}

/// Any two sequences are ordered or equal.
pub proof fn lemma_lex_total(a: Seq<char>, b: Seq<char>)
    ensures
        lex_lt(a, b) || lex_lt(b, a) || a == b,
    decreases a.len(),
{
    if a.len() == 0 && b.len() == 0 {
        assert(a =~= b);
    } else if a.len() > 0 && b.len() > 0 {
        if a[0] == b[0] {
            lemma_lex_total(a.skip(1), b.skip(1));
            if a.skip(1) == b.skip(1) {
                assert(a.skip(1).len() == b.skip(1).len());
                assert(a.len() == b.len());
                assert forall|i: int| 0 <= i < a.len() implies a[i] == b[i] by {
                    if i > 0 {
                        assert(a.skip(1)[i - 1] == a[i]);
                        assert(b.skip(1)[i - 1] == b[i]);
                    }
                }
                assert(a =~= b);
            }
        } else {
            let ua = a[0] as u32;
            let ub = b[0] as u32;
            vstd::utf8::char_u32_cast(a[0], ua);
            vstd::utf8::char_u32_cast(b[0], ub);
            if ua == ub {
                assert(a[0] == b[0]);
            }
        }
    }
}

/// The order is transitive.
pub proof fn lemma_lex_trans(a: Seq<char>, b: Seq<char>, c: Seq<char>)
    requires
        lex_lt(a, b),
        lex_lt(b, c),
    ensures
        lex_lt(a, c),
    decreases a.len(),
{
    if a.len() > 0 && b.len() > 0 && c.len() > 0 {
        if a[0] == b[0] && b[0] == c[0] {
            lemma_lex_trans(a.skip(1), b.skip(1), c.skip(1));
        }
    }
}

/// Dropping an equal first character on both sides keeps the order.
proof fn lemma_lex_skip(a: Seq<char>, b: Seq<char>)
    requires
        a.len() > 0,
        b.len() > 0,
        a[0] == b[0],
    ensures
        lex_lt(a, b) == lex_lt(a.skip(1), b.skip(1)),
{
}

/// Compares two strings in the lexicographic order of their characters.
pub fn str_lt(a: &str, b: &str) -> (r: bool)
    ensures
        r == lex_lt(a@, b@),
{
    let an = a.unicode_len();
    let bn = b.unicode_len();
    let mut i: usize = 0;
    proof {
        assert(a@.skip(0) =~= a@);
        assert(b@.skip(0) =~= b@);
    }
    while i < an && i < bn
        invariant
            i <= an,
            i <= bn,
            an as nat == a@.len(),
            bn as nat == b@.len(),
            lex_lt(a@, b@) == lex_lt(a@.skip(i as int), b@.skip(i as int)),
        decreases an - i,
    {
        let ca = a.get_char(i);
        let cb = b.get_char(i);
        if (ca as u32) < (cb as u32) {
            return true;
        }
        if (ca as u32) > (cb as u32) {
            return false;
        }
        proof {
            assert(ca == cb) by {
                assert((ca as u32) == (cb as u32));
                vstd::utf8::char_u32_cast(ca, ca as u32);
                vstd::utf8::char_u32_cast(cb, cb as u32);
            }
            let sa = a@.skip(i as int);
            let sb = b@.skip(i as int);
            assert(sa[0] == ca && sb[0] == cb);
            lemma_lex_skip(sa, sb);
            assert(sa.skip(1) =~= a@.skip(i as int + 1));
            assert(sb.skip(1) =~= b@.skip(i as int + 1));
        }
        i += 1;
    }
    proof {
        let sa = a@.skip(i as int);
        let sb = b@.skip(i as int);
        assert(sa.len() == 0 || sb.len() == 0);
    }
    an < bn
}

/// A strictly ascending sequence: sorted, with no element twice.
pub open spec fn sorted_strict(s: Seq<Seq<char>>) -> bool {
    forall|i: int, j: int| 0 <= i < j < s.len() ==> lex_lt(s[i], s[j])
}

/// The index at which `x` belongs in the strictly ascending `r`:
/// everything before it lies below `x`, the element there (if any) does
/// not.
fn find_insert_pos(r: &Vec<String>, x: &str) -> (j: usize)
    requires
        sorted_strict(r.deep_view()),
    ensures
        j <= r@.len(),
        forall|jj: int| 0 <= jj < j ==> lex_lt(r.deep_view()[jj], x@),
        j < r@.len() ==> !lex_lt(r.deep_view()[j as int], x@),
{
    let ghost dv = r.deep_view();
    let mut j: usize = 0;
    while j < r.len()
        invariant
            j <= r@.len(),
            dv == r.deep_view(),
            dv.len() == r@.len(),
            forall|jj: int| 0 <= jj < j ==> lex_lt(dv[jj], x@),
        decreases r@.len() - j,
    {
        if !str_lt(r[j].as_str(), x) {
            return j;
        }
        j += 1;
    }
    j
}

/// Inserts `x` into the strictly ascending `r`, keeping it strictly
/// ascending; an `x` already present is dropped.
pub fn insert_sorted(r: &mut Vec<String>, x: String)
    requires
        sorted_strict(old(r).deep_view()),
    ensures
        sorted_strict(final(r).deep_view()),
        final(r).deep_view().to_set() == old(r).deep_view().to_set().insert(x@),
{
    let ghost dv = r.deep_view();
    let j = find_insert_pos(r, x.as_str());
    if j < r.len() {
        if r[j] == x {
            proof {
                assert(dv.to_set().insert(x@) =~= dv.to_set()) by {
                    assert(dv.contains(x@)) by {
                        assert(dv[j as int] == x@);
                    }
                }
            }
            return ;
        }
        proof {
            // Not below `x` and not `x` itself: strictly above it.
            lemma_lex_total(x@, dv[j as int]);
        }
    }
    let ghost jj = j as int;
    r.insert(j, x);
    proof {
        let dv2 = r.deep_view();
        old(r)@.insert_ensures(jj, x);
        assert(dv2.len() == dv.len() + 1);
        assert forall|k: int| 0 <= k < dv2.len() implies dv2[k] == (if k < jj {
            dv[k]
        } else if k == jj {
            x@
        } else {
            dv[k - 1]
        }) by {}
        assert forall|p: int, q: int| 0 <= p < q < dv2.len() implies lex_lt(dv2[p], dv2[q]) by {
            if q < jj {
                assert(lex_lt(dv[p], dv[q]));
            } else if q == jj {
                assert(lex_lt(dv[p], x@));
            } else if p == jj {
                if q - 1 > jj {
                    lemma_lex_trans(x@, dv[jj], dv[q - 1]);
                }
            } else if p < jj {
                assert(p < q - 1);
                assert(lex_lt(dv[p], dv[q - 1]));
            } else {
                assert(lex_lt(dv[p - 1], dv[q - 1]));
            }
        }
        assert(dv2.to_set() =~= dv.to_set().insert(x@)) by {
            assert forall|e: Seq<char>| dv2.contains(e) implies (dv.contains(e) || e == x@) by {
                let k = choose|k: int| 0 <= k < dv2.len() && dv2[k] == e;
                if k != jj {
                    if k < jj {
                        assert(dv[k] == e);
                    } else {
                        assert(dv[k - 1] == e);
                    }
                }
            }
            assert forall|e: Seq<char>| dv.contains(e) || e == x@ implies dv2.contains(e) by {
                if e == x@ {
                    assert(dv2[jj] == e);
                } else {
                    let k = choose|k: int| 0 <= k < dv.len() && dv[k] == e;
                    if k < jj {
                        assert(dv2[k] == e);
                    } else {
                        assert(dv2[k + 1] == e);
                    }
                }
            }
        }
    }
}

/// Sorts the strings and drops duplicates: the result is strictly
/// ascending and holds exactly the strings of the input.
pub fn sort_dedup(v: Vec<String>) -> (r: Vec<String>)
    ensures
        sorted_strict(r.deep_view()),
        r.deep_view().to_set() == v.deep_view().to_set(),
{
    let ghost dv = v.deep_view();
    let mut out: Vec<String> = Vec::new();
    let mut i: usize = 0;
    proof {
        assert(out.deep_view().to_set() =~= dv.take(0).to_set()) by {
            assert(out.deep_view().len() == 0);
        }
    }
    while i < v.len()
        invariant
            i <= v@.len(),
            dv == v.deep_view(),
            dv.len() == v@.len(),
            sorted_strict(out.deep_view()),
            out.deep_view().to_set() == dv.take(i as int).to_set(),
        decreases v@.len() - i,
    {
        let x = v[i].clone();
        proof {
            assert(x@ == dv[i as int]);
        }
        insert_sorted(&mut out, x);
        proof {
            assert(dv.take(i as int + 1) =~= dv.take(i as int).push(dv[i as int]));
            assert(dv.take(i as int + 1).to_set() =~= dv.take(i as int).to_set().insert(
                dv[i as int],
            )) by {
                let t = dv.take(i as int + 1);
                assert forall|e: Seq<char>| t.contains(e) implies dv.take(i as int).to_set().insert(
                    dv[i as int],
                ).contains(e) by {
                    let k = choose|k: int| 0 <= k < t.len() && t[k] == e;
                    if k < i as int {
                        assert(dv.take(i as int)[k] == e);
                    }
                }
                assert forall|e: Seq<char>|
                    dv.take(i as int).to_set().insert(dv[i as int]).contains(e) implies t.contains(
                    e,
                ) by {
                    if e == dv[i as int] {
                        assert(t[i as int] == e);
                    } else {
                        let k = choose|k: int| 0 <= k < i as int && dv.take(i as int)[k] == e;
                        assert(t[k] == e);
                    }
                }
            }
        }
        i += 1;
    }
    proof {
        assert(dv.take(dv.len() as int) =~= dv);
    }
    out
}

/// Two strictly ascending sequences holding the same set of strings are
/// the same sequence.
pub proof fn lemma_sorted_unique(s1: Seq<Seq<char>>, s2: Seq<Seq<char>>)
    requires
        sorted_strict(s1),
        sorted_strict(s2),
        s1.to_set() == s2.to_set(),
    ensures
        s1 == s2,
    decreases s1.len(),
{
    if s1.len() == 0 {
        if s2.len() > 0 {
            assert(s2.to_set().contains(s2[0]));
            assert(s1.contains(s2[0]));
        }
        assert(s1 =~= s2);
    } else if s2.len() == 0 {
        assert(s1.to_set().contains(s1[0]));
        assert(s2.contains(s1[0]));
    } else {
        // The heads are the least elements of equal sets, so they agree.
        assert(s1.to_set().contains(s1[0]));
        assert(s2.to_set().contains(s2[0]));
        let i = choose|i: int| 0 <= i < s2.len() && s2[i] == s1[0];
        let j = choose|j: int| 0 <= j < s1.len() && s1[j] == s2[0];
        if s1[0] != s2[0] {
            assert(i > 0);
            assert(j > 0);
            assert(lex_lt(s2[0], s2[i]));
            assert(lex_lt(s1[0], s1[j]));
            lemma_lex_trans(s1[0], s1[j], s2[i]);
            lemma_lex_asym(s1[0], s2[i]);
            assert(false);
        }
        // The tails hold the same set: the head is below and so outside
        // both tails.
        assert forall|e: Seq<char>| s1.skip(1).contains(e) implies s2.skip(1).contains(e) by {
            let k = choose|k: int| 0 <= k < s1.skip(1).len() && s1.skip(1)[k] == e;
            assert(s1[k + 1] == e);
            assert(lex_lt(s1[0], e));
            assert(s1.contains(e));
            assert(s1.to_set().contains(e));
            assert(s2.to_set().contains(e));
            assert(s2.contains(e));
            let k2 = choose|k2: int| 0 <= k2 < s2.len() && s2[k2] == e;
            lemma_lex_asym(s1[0], e);
            assert(k2 != 0);
            assert(s2.skip(1)[k2 - 1] == e);
        }
        assert forall|e: Seq<char>| s2.skip(1).contains(e) implies s1.skip(1).contains(e) by {
            let k = choose|k: int| 0 <= k < s2.skip(1).len() && s2.skip(1)[k] == e;
            assert(s2[k + 1] == e);
            assert(lex_lt(s2[0], e));
            assert(s2.contains(e));
            assert(s2.to_set().contains(e));
            assert(s1.to_set().contains(e));
            assert(s1.contains(e));
            let k2 = choose|k2: int| 0 <= k2 < s1.len() && s1[k2] == e;
            lemma_lex_asym(s2[0], e);
            assert(k2 != 0);
            assert(s1.skip(1)[k2 - 1] == e);
        }
        assert(s1.skip(1).to_set() =~= s2.skip(1).to_set());
        assert forall|p: int, q: int| 0 <= p < q < s1.skip(1).len() implies lex_lt(
            s1.skip(1)[p],
            s1.skip(1)[q],
        ) by {
            assert(s1.skip(1)[p] == s1[p + 1]);
            assert(s1.skip(1)[q] == s1[q + 1]);
        }
        assert forall|p: int, q: int| 0 <= p < q < s2.skip(1).len() implies lex_lt(
            s2.skip(1)[p],
            s2.skip(1)[q],
        ) by {
            assert(s2.skip(1)[p] == s2[p + 1]);
            assert(s2.skip(1)[q] == s2[q + 1]);
        }
        lemma_sorted_unique(s1.skip(1), s2.skip(1));
        assert(s1.skip(1).len() == s2.skip(1).len());
        assert(s1.len() == s2.len());
        assert forall|i: int| 0 <= i < s1.len() implies s1[i] == s2[i] by {
            if i > 0 {
                assert(s1.skip(1)[i - 1] == s1[i]);
                assert(s2.skip(1)[i - 1] == s2[i]);
            }
        }
        assert(s1 =~= s2);
    }
}

} // verus!
