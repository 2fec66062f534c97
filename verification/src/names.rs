//! Lexicographic ordering of image names, and sorting named images so
//! that identical input sets always produce identical atlases.

use vstd::prelude::*;
use crate::image::Image;

verus! {

/// Strict lexicographic order on character sequences, by code point.
/// For ASCII names this coincides with Rust's byte-wise `str` order.
pub open spec fn spec_str_lt(a: Seq<char>, b: Seq<char>) -> bool
    decreases a.len(),
{
    if b.len() == 0 {
        false
    } else if a.len() == 0 {
        true
    } else if a[0] != b[0] {
        (a[0] as int) < (b[0] as int)
    } else {
        spec_str_lt(a.drop_first(), b.drop_first())
    }
}

/// Non-strict lexicographic order.
pub open spec fn spec_str_le(a: Seq<char>, b: Seq<char>) -> bool {
    spec_str_lt(a, b) || a == b
}

/// Two sequences that neither precede each other are equal.
pub proof fn lemma_str_lt_trichotomy(a: Seq<char>, b: Seq<char>)
    requires
        !spec_str_lt(a, b),
        !spec_str_lt(b, a),
    ensures
        a == b,
    decreases a.len(),
{
    if a.len() == 0 || b.len() == 0 {
        assert(a =~= b);
    } else {
        assert(a[0] == b[0]);
        lemma_str_lt_trichotomy(a.drop_first(), b.drop_first());
        assert(a =~= seq![a[0]] + a.drop_first());
        assert(b =~= seq![b[0]] + b.drop_first());
    }
}

/// No sequence precedes itself.
pub proof fn lemma_str_lt_irrefl(a: Seq<char>)
    ensures
        !spec_str_lt(a, a),
    decreases a.len(),
{
    if a.len() > 0 {
        lemma_str_lt_irrefl(a.drop_first());
    }
}

/// Lexicographic order is transitive.
pub proof fn lemma_str_lt_trans(a: Seq<char>, b: Seq<char>, c: Seq<char>)
    requires
        spec_str_lt(a, b),
        spec_str_lt(b, c),
    ensures
        spec_str_lt(a, c),
    decreases a.len(),
{
    if a.len() == 0 {
    } else {
        if a[0] == b[0] && b[0] == c[0] {
            lemma_str_lt_trans(a.drop_first(), b.drop_first(), c.drop_first());
        }
    }
}

/// Compares two ASCII strings lexicographically.
pub fn str_lt(a: &String, b: &String) -> (r: bool)
    requires
        a.is_ascii(),
        b.is_ascii(),
    ensures
        r == spec_str_lt(a@, b@),
{
    let an = a.as_str().unicode_len();
    let bn = b.as_str().unicode_len();
    proof {
        assert(a@.skip(0) =~= a@);
        assert(b@.skip(0) =~= b@);
    }
    let mut i: usize = 0;
    while i < an && i < bn
        invariant
            0 <= i <= an,
            i <= bn,
            an == a@.len(),
            bn == b@.len(),
            a.is_ascii(),
            b.is_ascii(),
            spec_str_lt(a@, b@) == spec_str_lt(a@.skip(i as int), b@.skip(i as int)),
        decreases an - i,
    {
        let ca = a.as_str().get_ascii(i);
        let cb = b.as_str().get_ascii(i);
        proof {
            let sa = a@.skip(i as int);
            let sb = b@.skip(i as int);
            assert(sa[0] == a@[i as int]);
            assert(sb[0] == b@[i as int]);
            assert('\0' <= a@[i as int] <= '\u{7f}');
            assert('\0' <= b@[i as int] <= '\u{7f}');
            assert(ca as int == a@[i as int] as int);
            assert(cb as int == b@[i as int] as int);
            assert(sa.drop_first() =~= a@.skip(i as int + 1));
            assert(sb.drop_first() =~= b@.skip(i as int + 1));
        }
        if ca < cb {
            return true;
        }
        if ca > cb {
            return false;
        }
        proof {
            assert(a@[i as int] as int == b@[i as int] as int);
            assert(a@[i as int] == b@[i as int]);
        }
        i = i + 1;
    }
    proof {
        let sa = a@.skip(i as int);
        let sb = b@.skip(i as int);
        if i == an {
            assert(sa.len() == 0);
        } else {
            assert(sb.len() == 0);
        }
    }
    an < bn
}

/// Stable insertion into a list sorted ascending by name.
pub open spec fn insert_by_name(s: Seq<(String, Image)>, x: (String, Image)) -> Seq<
    (String, Image),
>
    decreases s.len(),
{
    if s.len() == 0 {
        seq![x]
    } else if spec_str_lt(x.0@, s.last().0@) {
        insert_by_name(s.drop_last(), x).push(s.last())
    } else {
        s.push(x)
    }
}

/// Insertion sort of named images, ascending by name.
pub open spec fn sort_by_name(s: Seq<(String, Image)>) -> Seq<(String, Image)>
    decreases s.len(),
{
    if s.len() == 0 {
        s
    } else {
        insert_by_name(sort_by_name(s.drop_last()), s.last())
    }
}

/// Ascending by name at every pair of positions.
pub open spec fn sorted_by_name(s: Seq<(String, Image)>) -> bool {
    forall|i: int, j: int|
        0 <= i < j < s.len() ==> spec_str_le((#[trigger] s[i]).0@, (#[trigger] s[j]).0@)
}

proof fn lemma_insert_by_name_len(s: Seq<(String, Image)>, x: (String, Image))
    ensures
        insert_by_name(s, x).len() == s.len() + 1,
    decreases s.len(),
{
    if s.len() > 0 && spec_str_lt(x.0@, s.last().0@) {
        lemma_insert_by_name_len(s.drop_last(), x);
    }
}

pub proof fn lemma_sort_by_name_len(s: Seq<(String, Image)>)
    ensures
        sort_by_name(s).len() == s.len(),
    decreases s.len(),
{
    if s.len() > 0 {
        lemma_sort_by_name_len(s.drop_last());
        lemma_insert_by_name_len(sort_by_name(s.drop_last()), s.last());
    }
}

/// Elements of an insertion are the input elements plus `x`.
proof fn lemma_insert_by_name_elems(s: Seq<(String, Image)>, x: (String, Image))
    ensures
        forall|t: int|
            0 <= t < insert_by_name(s, x).len() ==> (#[trigger] insert_by_name(s, x)[t]) == x
                || exists|u: int| 0 <= u < s.len() && s[u] == insert_by_name(s, x)[t],
    decreases s.len(),
{
    lemma_insert_by_name_len(s, x);
    if s.len() == 0 {
    } else if spec_str_lt(x.0@, s.last().0@) {
        lemma_insert_by_name_elems(s.drop_last(), x);
        let r = insert_by_name(s.drop_last(), x).push(s.last());
        assert forall|t: int|
            0 <= t < r.len() implies (#[trigger] r[t]) == x || exists|u: int|
            0 <= u < s.len() && s[u] == r[t] by {
            if t == r.len() - 1 {
                assert(s[s.len() - 1] == r[t]);
            } else {
                assert(r[t] == insert_by_name(s.drop_last(), x)[t]);
                if r[t] != x {
                    let u = choose|u: int|
                        0 <= u < s.drop_last().len() && s.drop_last()[u] == insert_by_name(
                            s.drop_last(),
                            x,
                        )[t];
                    assert(s[u] == r[t]);
                }
            }
        }
    } else {
        let r = s.push(x);
        assert forall|t: int|
            0 <= t < r.len() implies (#[trigger] r[t]) == x || exists|u: int|
            0 <= u < s.len() && s[u] == r[t] by {
            if t < s.len() {
                assert(s[t] == r[t]);
            }
        }
    }
}

/// Elements of the sorted list are elements of the input.
pub proof fn lemma_sort_by_name_elems(s: Seq<(String, Image)>)
    ensures
        forall|t: int|
            0 <= t < sort_by_name(s).len() ==> exists|u: int|
                0 <= u < s.len() && s[u] == #[trigger] sort_by_name(s)[t],
    decreases s.len(),
{
    if s.len() > 0 {
        lemma_sort_by_name_elems(s.drop_last());
        lemma_insert_by_name_elems(sort_by_name(s.drop_last()), s.last());
        let r = sort_by_name(s);
        assert forall|t: int|
            0 <= t < r.len() implies exists|u: int| 0 <= u < s.len() && s[u] == #[trigger] r[t] by {
            if r[t] == s.last() {
                assert(s[s.len() - 1] == r[t]);
            } else {
                let w = choose|w: int|
                    0 <= w < sort_by_name(s.drop_last()).len() && sort_by_name(s.drop_last())[w]
                        == r[t];
                let u = choose|u: int|
                    0 <= u < s.drop_last().len() && s.drop_last()[u] == sort_by_name(
                        s.drop_last(),
                    )[w];
                assert(s[u] == r[t]);
            }
        }
    }
}

/// Inserting into a sorted list keeps it sorted.
proof fn lemma_insert_by_name_sorted(s: Seq<(String, Image)>, x: (String, Image))
    requires
        sorted_by_name(s),
    ensures
        sorted_by_name(insert_by_name(s, x)),
    decreases s.len(),
{
    lemma_insert_by_name_len(s, x);
    if s.len() == 0 {
    } else if spec_str_lt(x.0@, s.last().0@) {
        assert(sorted_by_name(s.drop_last())) by {
            assert(forall|i: int, j: int|
                0 <= i < j < s.len() - 1 ==> spec_str_le(
                    (#[trigger] s[i]).0@,
                    (#[trigger] s[j]).0@,
                ));
            assert(forall|i: int|
                0 <= i < s.len() - 1 ==> s.drop_last()[i] == #[trigger] s[i]);
        }
        lemma_insert_by_name_sorted(s.drop_last(), x);
        lemma_insert_by_name_elems(s.drop_last(), x);
        let a = insert_by_name(s.drop_last(), x);
        let r = a.push(s.last());
        // everything in `a` is at most the former last element
        assert forall|i: int| 0 <= i < a.len() implies spec_str_le(
            (#[trigger] a[i]).0@,
            s.last().0@,
        ) by {
            if a[i] == x {
            } else {
                let u = choose|u: int| 0 <= u < s.drop_last().len() && s.drop_last()[u] == a[i];
                assert(s[u] == a[i]);
                assert(spec_str_le(s[u].0@, s[s.len() - 1].0@));
            }
        }
        assert forall|i: int, j: int|
            0 <= i < j < r.len() implies spec_str_le(
            (#[trigger] r[i]).0@,
            (#[trigger] r[j]).0@,
        ) by {
            if j < r.len() - 1 {
                assert(r[i] == a[i] && r[j] == a[j]);
            } else {
                assert(r[i] == a[i] && r[j] == s.last());
            }
        }
    } else {
        if !spec_str_lt(s.last().0@, x.0@) {
            lemma_str_lt_trichotomy(x.0@, s.last().0@);
        }
        let r = s.push(x);
        // the former last element is at least everything already there
        assert forall|i: int, j: int|
            0 <= i < j < r.len() implies spec_str_le(
            (#[trigger] r[i]).0@,
            (#[trigger] r[j]).0@,
        ) by {
            if j < r.len() - 1 {
                assert(r[i] == s[i] && r[j] == s[j]);
            } else {
                assert(r[j] == x);
                assert(spec_str_le(s[s.len() - 1].0@, x.0@));
                if i < s.len() - 1 {
                    assert(spec_str_le(s[i].0@, s[s.len() - 1].0@));
                    if spec_str_lt(s[i].0@, s[s.len() - 1].0@) && spec_str_lt(
                        s[s.len() - 1].0@,
                        x.0@,
                    ) {
                        lemma_str_lt_trans(s[i].0@, s[s.len() - 1].0@, x.0@);
                    }
                }
            }
        }
    }
}

/// The sorted list is sorted.
pub proof fn lemma_sort_by_name_sorted(s: Seq<(String, Image)>)
    ensures
        sorted_by_name(sort_by_name(s)),
    decreases s.len(),
{
    if s.len() > 0 {
        lemma_sort_by_name_sorted(s.drop_last());
        lemma_insert_by_name_sorted(sort_by_name(s.drop_last()), s.last());
    }
}

/// Where an insertion lands: `x` sits at position `j` when everything
/// from `j` on is strictly greater and (unless `j` is `0`) the element
/// before `j` is not.
proof fn lemma_insert_by_name_at(s: Seq<(String, Image)>, x: (String, Image), j: int)
    requires
        0 <= j <= s.len(),
        forall|t: int| j <= t < s.len() ==> spec_str_lt(x.0@, (#[trigger] s[t]).0@),
        j > 0 ==> !spec_str_lt(x.0@, s[j - 1].0@),
    ensures
        insert_by_name(s, x) =~= s.subrange(0, j) + seq![x] + s.subrange(j, s.len() as int),
    decreases s.len(),
{
    if s.len() == 0 {
    } else if j == s.len() {
        assert(!spec_str_lt(x.0@, s.last().0@));
        assert(insert_by_name(s, x) == s.push(x));
        assert(s.subrange(0, j) =~= s);
        assert(s.subrange(j, s.len() as int) =~= Seq::empty());
    } else {
        assert(spec_str_lt(x.0@, s.last().0@));
        lemma_insert_by_name_at(s.drop_last(), x, j);
        assert(s.drop_last().subrange(0, j) =~= s.subrange(0, j));
        assert(s.drop_last().subrange(j, s.drop_last().len() as int) =~= s.subrange(
            j,
            s.len() - 1,
        ));
    }
}

/// Sorts named images ascending by name (insertion sort, matching
/// `sort_by_name` exactly). Names must be ASCII.
pub fn sort_images_by_name(v: &mut Vec<(String, Image)>)
    requires
        forall|t: int| 0 <= t < old(v)@.len() ==> (#[trigger] old(v)@[t]).0.is_ascii(),
    ensures
        final(v)@ == sort_by_name(old(v)@),
{
    let ghost orig = old(v)@;
    let n = v.len();
    if n == 0 {
        proof {
            assert(sort_by_name(orig) =~= orig);
        }
        return ;
    }
    let mut i: usize = 1;
    proof {
        let p = orig.subrange(0, 1);
        assert(p.drop_last() =~= Seq::<(String, Image)>::empty());
        assert(sort_by_name(p.drop_last()) =~= Seq::<(String, Image)>::empty());
        assert(insert_by_name(Seq::empty(), p.last()) =~= seq![p.last()]);
        assert(sort_by_name(p) == insert_by_name(sort_by_name(p.drop_last()), p.last()));
        assert(p.last() == orig[0]);
        assert(v@.subrange(0, 1) =~= seq![orig[0]]);
    }
    while i < n
        invariant
            1 <= i <= n,
            n == v@.len(),
            n == orig.len(),
            forall|t: int| 0 <= t < n ==> (#[trigger] orig[t]).0.is_ascii(),
            v@.subrange(0, i as int) == sort_by_name(orig.subrange(0, i as int)),
            forall|t: int| i <= t < n ==> v@[t] == orig[t],
        decreases n - i,
    {
        let ghost pref = v@.subrange(0, i as int);
        proof {
            lemma_sort_by_name_len(orig.subrange(0, i as int));
            lemma_sort_by_name_elems(orig.subrange(0, i as int));
            assert forall|t: int| 0 <= t < i implies (#[trigger] pref[t]).0.is_ascii() by {
                let u = choose|u: int|
                    0 <= u < orig.subrange(0, i as int).len() && orig.subrange(0, i as int)[u]
                        == pref[t];
                assert(orig[u] == pref[t]);
            }
            assert(v@[i as int] == orig[i as int]);
        }
        let mut j: usize = i;
        while j > 0 && str_lt(&v[i].0, &v[j - 1].0)
            invariant
                0 <= j <= i < n,
                n == v@.len(),
                n == orig.len(),
                v@.subrange(0, i as int) == pref,
                v@[i as int] == orig[i as int],
                (#[trigger] orig[i as int]).0.is_ascii(),
                pref.len() == i,
                forall|t: int| 0 <= t < i ==> (#[trigger] pref[t]).0.is_ascii(),
                forall|t: int| 0 <= t < i ==> #[trigger] v@[t] == pref[t],
                forall|t: int|
                    j <= t < i ==> spec_str_lt(orig[i as int].0@, (#[trigger] pref[t]).0@),
            decreases j,
        {
            proof {
                assert(v@[j as int - 1] == pref[j as int - 1]);
            }
            j = j - 1;
        }
        let ghost x = orig[i as int];
        proof {
            if j > 0 {
                assert(v@[j as int - 1] == pref[j as int - 1]);
            }
            lemma_insert_by_name_at(pref, x, j as int);
        }
        let moved = v.remove(i);
        v.insert(j, moved);
        proof {
            assert(v@.subrange(0, i as int + 1) =~= pref.subrange(0, j as int) + seq![x]
                + pref.subrange(j as int, i as int));
            assert(v@.subrange(0, i as int + 1) == insert_by_name(pref, x));
            let p2 = orig.subrange(0, i as int + 1);
            assert(p2.drop_last() =~= orig.subrange(0, i as int));
            assert(p2.last() == orig[i as int]);
            assert(v@.subrange(0, i as int + 1) == sort_by_name(p2));
            assert forall|t: int| i + 1 <= t < n implies v@[t] == orig[t] by {}
        }
        i = i + 1;
    }
    proof {
        assert(v@ =~= v@.subrange(0, n as int));
        assert(orig.subrange(0, n as int) =~= orig);
    }
}

/// `p` occurs somewhere in `s`.
pub open spec fn seq_has_pair(s: Seq<(String, Image)>, p: (String, Image)) -> bool {
    exists|t: int| 0 <= t < s.len() && #[trigger] s[t] == p
}

/// Every input element appears in an insertion's output.
proof fn lemma_insert_by_name_elems_rev(s: Seq<(String, Image)>, x: (String, Image))
    ensures
        seq_has_pair(insert_by_name(s, x), x),
        forall|u: int| 0 <= u < s.len() ==> seq_has_pair(insert_by_name(s, x), #[trigger] s[u]),
    decreases s.len(),
{
    lemma_insert_by_name_len(s, x);
    if s.len() == 0 {
        assert(insert_by_name(s, x)[0] == x);
    } else if spec_str_lt(x.0@, s.last().0@) {
        lemma_insert_by_name_elems_rev(s.drop_last(), x);
        let a = insert_by_name(s.drop_last(), x);
        let r = a.push(s.last());
        let tx = choose|t: int| 0 <= t < a.len() && #[trigger] a[t] == x;
        assert(r[tx] == x);
        assert forall|u: int| 0 <= u < s.len() implies seq_has_pair(r, #[trigger] s[u]) by {
            if u < s.len() - 1 {
                assert(s.drop_last()[u] == s[u]);
                assert(seq_has_pair(a, s.drop_last()[u]));
                let t = choose|t: int| 0 <= t < a.len() && #[trigger] a[t] == s.drop_last()[u];
                assert(r[t] == s[u]);
            } else {
                assert(r[r.len() - 1] == s[u]);
            }
        }
    } else {
        let r = s.push(x);
        assert(r[r.len() - 1] == x);
        assert forall|u: int| 0 <= u < s.len() implies seq_has_pair(r, #[trigger] s[u]) by {
            assert(r[u] == s[u]);
        }
    }
}

/// Every input element appears in the sorted output.
pub proof fn lemma_sort_by_name_elems_rev(s: Seq<(String, Image)>)
    ensures
        forall|u: int| 0 <= u < s.len() ==> seq_has_pair(sort_by_name(s), #[trigger] s[u]),
    decreases s.len(),
{
    lemma_sort_by_name_len(s);
    if s.len() > 0 {
        lemma_sort_by_name_elems_rev(s.drop_last());
        lemma_insert_by_name_elems_rev(sort_by_name(s.drop_last()), s.last());
        let a = sort_by_name(s.drop_last());
        let r = sort_by_name(s);
        assert forall|u: int| 0 <= u < s.len() implies seq_has_pair(r, #[trigger] s[u]) by {
            if u < s.len() - 1 {
                assert(s.drop_last()[u] == s[u]);
                assert(seq_has_pair(a, s.drop_last()[u]));
                let w = choose|w: int| 0 <= w < a.len() && #[trigger] a[w] == s.drop_last()[u];
                assert(seq_has_pair(r, a[w]));
                let t = choose|t: int| 0 <= t < r.len() && #[trigger] r[t] == a[w];
                assert(r[t] == s[u]);
            } else {
                assert(seq_has_pair(r, s.last()));
                let t = choose|t: int| 0 <= t < r.len() && #[trigger] r[t] == s.last();
                assert(r[t] == s[u]);
            }
        }
    }
}

/// Stable insertion of a bare name into a sorted list.
pub open spec fn insert_name(s: Seq<String>, x: String) -> Seq<String>
    decreases s.len(),
{
    if s.len() == 0 {
        seq![x]
    } else if spec_str_lt(x@, s.last()@) {
        insert_name(s.drop_last(), x).push(s.last())
    } else {
        s.push(x)
    }
}

/// Insertion sort of bare names, ascending.
pub open spec fn sort_names(s: Seq<String>) -> Seq<String>
    decreases s.len(),
{
    if s.len() == 0 {
        s
    } else {
        insert_name(sort_names(s.drop_last()), s.last())
    }
}

/// Ascending at every pair of positions.
pub open spec fn sorted_names(s: Seq<String>) -> bool {
    forall|i: int, j: int|
        0 <= i < j < s.len() ==> spec_str_le((#[trigger] s[i])@, (#[trigger] s[j])@)
}

proof fn lemma_insert_name_len(s: Seq<String>, x: String)
    ensures
        insert_name(s, x).len() == s.len() + 1,
    decreases s.len(),
{
    if s.len() > 0 && spec_str_lt(x@, s.last()@) {
        lemma_insert_name_len(s.drop_last(), x);
    }
}

pub proof fn lemma_sort_names_len(s: Seq<String>)
    ensures
        sort_names(s).len() == s.len(),
    decreases s.len(),
{
    if s.len() > 0 {
        lemma_sort_names_len(s.drop_last());
        lemma_insert_name_len(sort_names(s.drop_last()), s.last());
    }
}

/// Elements of the sorted list are elements of the input.
pub proof fn lemma_sort_names_elems(s: Seq<String>)
    ensures
        forall|t: int|
            0 <= t < sort_names(s).len() ==> exists|u: int|
                0 <= u < s.len() && s[u] == #[trigger] sort_names(s)[t],
    decreases s.len(),
{
    if s.len() > 0 {
        lemma_sort_names_elems(s.drop_last());
        lemma_insert_name_elems(sort_names(s.drop_last()), s.last());
        let r = sort_names(s);
        assert forall|t: int|
            0 <= t < r.len() implies exists|u: int| 0 <= u < s.len() && s[u] == #[trigger] r[t] by {
            if r[t] == s.last() {
                assert(s[s.len() - 1] == r[t]);
            } else {
                let w = choose|w: int|
                    0 <= w < sort_names(s.drop_last()).len() && sort_names(s.drop_last())[w]
                        == r[t];
                let u = choose|u: int|
                    0 <= u < s.drop_last().len() && s.drop_last()[u] == sort_names(
                        s.drop_last(),
                    )[w];
                assert(s[u] == r[t]);
            }
        }
    }
}

proof fn lemma_insert_name_elems(s: Seq<String>, x: String)
    ensures
        forall|t: int|
            0 <= t < insert_name(s, x).len() ==> (#[trigger] insert_name(s, x)[t]) == x
                || exists|u: int| 0 <= u < s.len() && s[u] == insert_name(s, x)[t],
    decreases s.len(),
{
    lemma_insert_name_len(s, x);
    if s.len() == 0 {
    } else if spec_str_lt(x@, s.last()@) {
        lemma_insert_name_elems(s.drop_last(), x);
        let r = insert_name(s.drop_last(), x).push(s.last());
        assert forall|t: int|
            0 <= t < r.len() implies (#[trigger] r[t]) == x || exists|u: int|
            0 <= u < s.len() && s[u] == r[t] by {
            if t == r.len() - 1 {
                assert(s[s.len() - 1] == r[t]);
            } else {
                assert(r[t] == insert_name(s.drop_last(), x)[t]);
                if r[t] != x {
                    let u = choose|u: int|
                        0 <= u < s.drop_last().len() && s.drop_last()[u] == insert_name(
                            s.drop_last(),
                            x,
                        )[t];
                    assert(s[u] == r[t]);
                }
            }
        }
    } else {
        let r = s.push(x);
        assert forall|t: int|
            0 <= t < r.len() implies (#[trigger] r[t]) == x || exists|u: int|
            0 <= u < s.len() && s[u] == r[t] by {
            if t < s.len() {
                assert(s[t] == r[t]);
            }
        }
    }
}

proof fn lemma_insert_name_sorted(s: Seq<String>, x: String)
    requires
        sorted_names(s),
    ensures
        sorted_names(insert_name(s, x)),
    decreases s.len(),
{
    lemma_insert_name_len(s, x);
    if s.len() == 0 {
    } else if spec_str_lt(x@, s.last()@) {
        assert(sorted_names(s.drop_last())) by {
            assert(forall|i: int|
                0 <= i < s.len() - 1 ==> s.drop_last()[i] == #[trigger] s[i]);
        }
        lemma_insert_name_sorted(s.drop_last(), x);
        lemma_insert_name_elems(s.drop_last(), x);
        let a = insert_name(s.drop_last(), x);
        let r = a.push(s.last());
        assert forall|i: int| 0 <= i < a.len() implies spec_str_le(
            (#[trigger] a[i])@,
            s.last()@,
        ) by {
            if a[i] == x {
            } else {
                let u = choose|u: int| 0 <= u < s.drop_last().len() && s.drop_last()[u] == a[i];
                assert(s[u] == a[i]);
                assert(spec_str_le(s[u]@, s[s.len() - 1]@));
            }
        }
        assert forall|i: int, j: int|
            0 <= i < j < r.len() implies spec_str_le((#[trigger] r[i])@, (#[trigger] r[j])@) by {
            if j < r.len() - 1 {
                assert(r[i] == a[i] && r[j] == a[j]);
            } else {
                assert(r[i] == a[i] && r[j] == s.last());
            }
        }
    } else {
        if !spec_str_lt(s.last()@, x@) {
            lemma_str_lt_trichotomy(x@, s.last()@);
        }
        let r = s.push(x);
        assert forall|i: int, j: int|
            0 <= i < j < r.len() implies spec_str_le((#[trigger] r[i])@, (#[trigger] r[j])@) by {
            if j < r.len() - 1 {
                assert(r[i] == s[i] && r[j] == s[j]);
            } else {
                assert(r[j] == x);
                assert(spec_str_le(s[s.len() - 1]@, x@));
                if i < s.len() - 1 {
                    assert(spec_str_le(s[i]@, s[s.len() - 1]@));
                    if spec_str_lt(s[i]@, s[s.len() - 1]@) && spec_str_lt(s[s.len() - 1]@, x@) {
                        lemma_str_lt_trans(s[i]@, s[s.len() - 1]@, x@);
                    }
                }
            }
        }
    }
}

/// The sorted name list is sorted.
pub proof fn lemma_sort_names_sorted(s: Seq<String>)
    ensures
        sorted_names(sort_names(s)),
    decreases s.len(),
{
    if s.len() > 0 {
        lemma_sort_names_sorted(s.drop_last());
        lemma_insert_name_sorted(sort_names(s.drop_last()), s.last());
    }
}

proof fn lemma_insert_name_at(s: Seq<String>, x: String, j: int)
    requires
        0 <= j <= s.len(),
        forall|t: int| j <= t < s.len() ==> spec_str_lt(x@, (#[trigger] s[t])@),
        j > 0 ==> !spec_str_lt(x@, s[j - 1]@),
    ensures
        insert_name(s, x) =~= s.subrange(0, j) + seq![x] + s.subrange(j, s.len() as int),
    decreases s.len(),
{
    if s.len() == 0 {
    } else if j == s.len() {
        assert(insert_name(s, x) == s.push(x));
        assert(s.subrange(0, j) =~= s);
        assert(s.subrange(j, s.len() as int) =~= Seq::empty());
    } else {
        lemma_insert_name_at(s.drop_last(), x, j);
        assert(s.drop_last().subrange(0, j) =~= s.subrange(0, j));
        assert(s.drop_last().subrange(j, s.drop_last().len() as int) =~= s.subrange(
            j,
            s.len() - 1,
        ));
    }
}

/// Sorts bare ASCII names ascending (insertion sort, matching
/// `sort_names` exactly).
pub fn sort_names_vec(v: &mut Vec<String>)
    requires
        forall|t: int| 0 <= t < old(v)@.len() ==> (#[trigger] old(v)@[t]).is_ascii(),
    ensures
        final(v)@ == sort_names(old(v)@),
{
    let ghost orig = old(v)@;
    let n = v.len();
    if n == 0 {
        proof {
            assert(sort_names(orig) =~= orig);
        }
        return ;
    }
    let mut i: usize = 1;
    proof {
        let p = orig.subrange(0, 1);
        assert(p.drop_last() =~= Seq::<String>::empty());
        assert(sort_names(p.drop_last()) =~= Seq::<String>::empty());
        assert(insert_name(Seq::empty(), p.last()) =~= seq![p.last()]);
        assert(sort_names(p) == insert_name(sort_names(p.drop_last()), p.last()));
        assert(p.last() == orig[0]);
        assert(v@.subrange(0, 1) =~= seq![orig[0]]);
    }
    while i < n
        invariant
            1 <= i <= n,
            n == v@.len(),
            n == orig.len(),
            forall|t: int| 0 <= t < n ==> (#[trigger] orig[t]).is_ascii(),
            v@.subrange(0, i as int) == sort_names(orig.subrange(0, i as int)),
            forall|t: int| i <= t < n ==> v@[t] == orig[t],
        decreases n - i,
    {
        let ghost pref = v@.subrange(0, i as int);
        proof {
            lemma_sort_names_len(orig.subrange(0, i as int));
            lemma_sort_names_elems(orig.subrange(0, i as int));
            assert forall|t: int| 0 <= t < i implies (#[trigger] pref[t]).is_ascii() by {
                let u = choose|u: int|
                    0 <= u < orig.subrange(0, i as int).len() && orig.subrange(0, i as int)[u]
                        == pref[t];
                assert(orig[u] == pref[t]);
            }
            assert(v@[i as int] == orig[i as int]);
        }
        let mut j: usize = i;
        while j > 0 && str_lt(&v[i], &v[j - 1])
            invariant
                0 <= j <= i < n,
                n == v@.len(),
                n == orig.len(),
                v@.subrange(0, i as int) == pref,
                v@[i as int] == orig[i as int],
                (#[trigger] orig[i as int]).is_ascii(),
                pref.len() == i,
                forall|t: int| 0 <= t < i ==> (#[trigger] pref[t]).is_ascii(),
                forall|t: int| 0 <= t < i ==> #[trigger] v@[t] == pref[t],
                forall|t: int|
                    j <= t < i ==> spec_str_lt(orig[i as int]@, (#[trigger] pref[t])@),
            decreases j,
        {
            proof {
                assert(v@[j as int - 1] == pref[j as int - 1]);
            }
            j = j - 1;
        }
        let ghost x = orig[i as int];
        proof {
            if j > 0 {
                assert(v@[j as int - 1] == pref[j as int - 1]);
            }
            lemma_insert_name_at(pref, x, j as int);
        }
        let moved = v.remove(i);
        v.insert(j, moved);
        proof {
            assert(v@.subrange(0, i as int + 1) =~= pref.subrange(0, j as int) + seq![x]
                + pref.subrange(j as int, i as int));
            assert(v@.subrange(0, i as int + 1) == insert_name(pref, x));
            let p2 = orig.subrange(0, i as int + 1);
            assert(p2.drop_last() =~= orig.subrange(0, i as int));
            assert(p2.last() == orig[i as int]);
            assert(v@.subrange(0, i as int + 1) == sort_names(p2));
            assert forall|t: int| i + 1 <= t < n implies v@[t] == orig[t] by {}
        }
        i = i + 1;
    }
    proof {
        assert(v@ =~= v@.subrange(0, n as int));
        assert(orig.subrange(0, n as int) =~= orig);
    }
}

} // verus!
