//! DNS names, DNS wildcard patterns and DNS name constraints.
use vstd::prelude::*;

use crate::ia5::IA5String;
use crate::text::{
    agree_right_aligned, eq_ci, eq_ignore_ascii_case, is_alnum_byte, is_label_char,
    lemma_eq_ci_push, lemma_right_aligned_empty, lemma_right_aligned_step, lemma_split_at_first,
    lemma_split_cover, lemma_split_nonempty, lemma_split_prefix, lemma_split_push, lower,
    right_aligned_agree, split,
};

verus! {

/// The labels of a name: the pieces between its dots.
pub open spec fn labels(s: Seq<char>) -> Seq<Seq<char>> {
    split(s, '.')
}

/// A label may not be empty, may not exceed 63 characters, may not start or
/// end with `-`, and holds only `a-zA-Z0-9-`.
pub open spec fn valid_label(l: Seq<char>) -> bool {
    &&& 0 < l.len() <= 63
    &&& l[0] != '-'
    &&& l.last() != '-'
    &&& forall|i: int| 0 <= i < l.len() ==> #[trigger] is_label_char(l[i])
}

/// A DNS name: 1 to 253 characters, every label valid.
pub open spec fn valid_dns_name(s: Seq<char>) -> bool {
    &&& 0 < s.len() <= 253
    &&& forall|k: int| 0 <= k < labels(s).len() ==> #[trigger] valid_label(labels(s)[k])
}

/// The labels of a name from the top-level domain down to the most specific
/// label.
pub open spec fn rlabels(s: Seq<char>) -> Seq<Seq<char>> {
    let l = labels(s);
    Seq::new(l.len(), |i: int| l[l.len() - 1 - i])
}

/// Label by label from the right, as far as the name with fewer labels goes,
/// the labels of the two names are equal up to ASCII case.
pub open spec fn rlabels_agree(a: Seq<char>, b: Seq<char>) -> bool {
    forall|i: int|
        0 <= i < rlabels(a).len() && i < rlabels(b).len() ==> #[trigger] eq_ci(
            rlabels(a)[i],
            rlabels(b)[i],
        )
}

/// How the reversed labels change when one character is added at the end.
proof fn lemma_rlabels_unfold(s: Seq<char>)
    requires
        s.len() > 0,
    ensures
        rlabels(s).len() >= 1,
        rlabels(s.drop_last()).len() >= 1,
        s.last() == '.' ==> {
            &&& rlabels(s).len() == rlabels(s.drop_last()).len() + 1
            &&& rlabels(s)[0] =~= Seq::<char>::empty()
            &&& forall|i: int|
                1 <= i < rlabels(s).len() ==> #[trigger] rlabels(s)[i] == rlabels(s.drop_last())[i
                    - 1]
        },
        s.last() != '.' ==> {
            &&& rlabels(s).len() == rlabels(s.drop_last()).len()
            &&& rlabels(s)[0] =~= rlabels(s.drop_last())[0].push(s.last())
            &&& forall|i: int|
                1 <= i < rlabels(s).len() ==> #[trigger] rlabels(s)[i] == rlabels(
                    s.drop_last(),
                )[i]
        },
{
    let s0 = s.drop_last();
    assert(s0.push(s.last()) =~= s);
    lemma_split_nonempty(s0, '.');
    lemma_split_push(s0, s.last(), '.');
}

/// Agreement of reversed labels is agreement of the right-aligned texts.
pub proof fn lemma_rlabels_agree(a: Seq<char>, b: Seq<char>)
    ensures
        rlabels_agree(a, b) == right_aligned_agree(a, b),
    decreases a.len(),
{
    let ra = rlabels(a);
    let rb = rlabels(b);
    if a.len() == 0 || b.len() == 0 {
        lemma_right_aligned_empty(a, b);
        if a.len() == 0 {
            assert(labels(a) =~= seq![Seq::<char>::empty()]);
            if b.len() > 0 {
                lemma_rlabels_unfold(b);
            } else {
                assert(labels(b) =~= seq![Seq::<char>::empty()]);
            }
            assert(rlabels_agree(a, b) == eq_ci(ra[0], rb[0]));
        } else {
            assert(labels(b) =~= seq![Seq::<char>::empty()]);
            lemma_rlabels_unfold(a);
            assert(rlabels_agree(a, b) == eq_ci(ra[0], rb[0]));
        }
    } else {
        let a0 = a.drop_last();
        let b0 = b.drop_last();
        lemma_rlabels_agree(a0, b0);
        lemma_right_aligned_step(a, b);
        lemma_rlabels_unfold(a);
        lemma_rlabels_unfold(b);
        let ra0 = rlabels(a0);
        let rb0 = rlabels(b0);
        let x = a.last();
        let y = b.last();
        if x == '.' && y == '.' {
            if rlabels_agree(a0, b0) {
                assert forall|i: int| 0 <= i < ra.len() && i < rb.len() implies #[trigger] eq_ci(
                    ra[i],
                    rb[i],
                ) by {
                    if i > 0 {
                        assert(eq_ci(ra0[i - 1], rb0[i - 1]));
                    }
                }
            }
            if rlabels_agree(a, b) {
                assert forall|i: int| 0 <= i < ra0.len() && i < rb0.len() implies #[trigger] eq_ci(
                    ra0[i],
                    rb0[i],
                ) by {
                    assert(eq_ci(ra[i + 1], rb[i + 1]));
                }
            }
        } else if x == '.' || y == '.' {
            assert(!eq_ci(ra[0], rb[0]));
            assert(lower(x) != lower(y));
        } else {
            lemma_eq_ci_push(ra0[0], rb0[0], x, y);
            if rlabels_agree(a0, b0) && lower(x) == lower(y) {
                assert forall|i: int| 0 <= i < ra.len() && i < rb.len() implies #[trigger] eq_ci(
                    ra[i],
                    rb[i],
                ) by {
                    assert(eq_ci(ra0[i], rb0[i]));
                }
            }
            if rlabels_agree(a, b) {
                assert(eq_ci(ra[0], rb[0]));
                assert forall|i: int| 0 <= i < ra0.len() && i < rb0.len() implies #[trigger] eq_ci(
                    ra0[i],
                    rb0[i],
                ) by {
                    assert(eq_ci(ra[i], rb[i]));
                }
            }
        }
    }
}

/// What follows the first label of a name and the dot after it.
pub open spec fn parent_text(s: Seq<char>) -> Seq<char> {
    s.skip(labels(s)[0].len() + 1int)
}

/// `n` is `c` with one or more labels added on its left, up to ASCII case:
/// some text, a dot, then `c`.
pub open spec fn extends_on_left(n: Seq<char>, c: Seq<char>) -> bool {
    exists|p: Seq<char>| #[trigger] eq_ci(n, p.push('.') + c)
}

/// Equality up to ASCII case, which is how DNS names compare, is an
/// equivalence relation.
pub proof fn lemma_eq_ci_equivalence(a: Seq<char>, b: Seq<char>, c: Seq<char>)
    ensures
        eq_ci(a, a),
        eq_ci(a, b) ==> eq_ci(b, a),
        eq_ci(a, b) && eq_ci(b, c) ==> eq_ci(a, c),
{
    if eq_ci(a, b) && eq_ci(b, c) {
        assert forall|i: int| 0 <= i < a.len() implies #[trigger] lower(a[i]) == lower(c[i]) by {
            assert(lower(a[i]) == lower(b[i]));
            assert(lower(b[i]) == lower(c[i]));
        }
    }
    if eq_ci(a, b) {
        assert forall|i: int| 0 <= i < b.len() implies #[trigger] lower(b[i]) == lower(a[i]) by {
            assert(lower(a[i]) == lower(b[i]));
        }
    }
}

/// Label agreement from the right does not depend on the order of the names.
pub proof fn lemma_rlabels_agree_symmetric(a: Seq<char>, b: Seq<char>)
    ensures
        rlabels_agree(a, b) == rlabels_agree(b, a),
{
    if rlabels_agree(a, b) {
        assert forall|i: int| 0 <= i < rlabels(b).len() && i < rlabels(a).len() implies #[trigger] eq_ci(
            rlabels(b)[i],
            rlabels(a)[i],
        ) by {
            lemma_eq_ci_equivalence(rlabels(a)[i], rlabels(b)[i], rlabels(a)[i]);
        }
    }
    if rlabels_agree(b, a) {
        assert forall|i: int| 0 <= i < rlabels(a).len() && i < rlabels(b).len() implies #[trigger] eq_ci(
            rlabels(a)[i],
            rlabels(b)[i],
        ) by {
            lemma_eq_ci_equivalence(rlabels(b)[i], rlabels(a)[i], rlabels(b)[i]);
        }
    }
}

/// A longer name whose labels agree from the right with a shorter one is
/// the shorter one with labels added on its left, and the converse.
pub proof fn lemma_longer_agreeing_extends(n: Seq<char>, c: Seq<char>)
    ensures
        (n.len() > c.len() && rlabels_agree(n, c)) == extends_on_left(n, c),
{
    lemma_rlabels_agree(n, c);
    let nl = n.len() as int;
    let cl = c.len() as int;
    if n.len() > c.len() && rlabels_agree(n, c) {
        let p = n.take(nl - cl - 1);
        let q = p.push('.') + c;
        assert(c.skip(0) =~= c);
        assert(eq_ci(n.skip(nl - cl), c));
        assert forall|i: int| 0 <= i < nl implies #[trigger] lower(n[i]) == lower(q[i]) by {
            if i < nl - cl - 1 {
                assert(q[i] == p[i]);
            } else if i == nl - cl - 1 {
                assert(q[i] == '.');
            } else {
                assert(q[i] == c[i - (nl - cl)]);
                assert(lower(n.skip(nl - cl)[i - (nl - cl)]) == lower(c[i - (nl - cl)]));
            }
        }
        assert(eq_ci(n, q));
    }
    if extends_on_left(n, c) {
        let p = choose|p: Seq<char>| #[trigger] eq_ci(n, p.push('.') + c);
        let q = p.push('.') + c;
        assert(nl == p.len() + 1 + cl);
        assert(c.skip(0) =~= c);
        assert(lower(n[p.len() as int]) == lower(q[p.len() as int]));
        assert(q[p.len() as int] == '.');
        assert forall|i: int| 0 <= i < cl implies #[trigger] lower(n.skip(nl - cl)[i]) == lower(
            c[i],
        ) by {
            assert(lower(n[nl - cl + i]) == lower(q[nl - cl + i]));
            assert(q[nl - cl + i] == c[i]);
        }
        assert(eq_ci(n.skip(nl - cl), c.skip(0)));
    }
}

/// A DNS constraint matches exactly the names that equal it up to ASCII
/// case and the names made by adding labels to its left.
pub proof fn lemma_constraint_matches_iff(c: Seq<char>, n: Seq<char>)
    ensures
        (n.len() >= c.len() && rlabels_agree(c, n)) == (eq_ci(n, c) || extends_on_left(n, c)),
{
    lemma_rlabels_agree_symmetric(c, n);
    lemma_longer_agreeing_extends(n, c);
    lemma_rlabels_agree(c, n);
    lemma_eq_ci_equivalence(n, c, n);
    if n.len() == c.len() {
        assert(c.skip(0) =~= c);
        assert(n.skip(0) =~= n);
        lemma_eq_ci_equivalence(c, n, c);
    }
    if extends_on_left(n, c) {
        let p = choose|p: Seq<char>| #[trigger] eq_ci(n, p.push('.') + c);
        assert(n.len() == p.len() + 1 + c.len());
    }
}

/// A subdomain is its parent domain with labels added on its left.
pub proof fn lemma_subdomain_iff(sub: Seq<char>, sup: Seq<char>)
    ensures
        (sub.len() > sup.len() && rlabels_agree(sub, sup)) == extends_on_left(sub, sup),
{
    lemma_longer_agreeing_extends(sub, sup);
}

/// Being a subdomain is transitive.
pub proof fn lemma_subdomain_transitive(a: Seq<char>, b: Seq<char>, c: Seq<char>)
    requires
        a.len() > b.len() && rlabels_agree(a, b),
        b.len() > c.len() && rlabels_agree(b, c),
    ensures
        a.len() > c.len() && rlabels_agree(a, c),
{
    lemma_longer_agreeing_extends(a, b);
    lemma_longer_agreeing_extends(b, c);
    lemma_longer_agreeing_extends(a, c);
    let p = choose|p: Seq<char>| #[trigger] eq_ci(a, p.push('.') + b);
    let q = choose|q: Seq<char>| #[trigger] eq_ci(b, q.push('.') + c);
    let al = a.len() as int;
    let cl = c.len() as int;
    let pb = p.push('.') + b;
    let qc = q.push('.') + c;
    let r = a.take(al - cl - 1);
    let rc = r.push('.') + c;
    assert forall|i: int| 0 <= i < al implies #[trigger] lower(a[i]) == lower(rc[i]) by {
        if i < al - cl - 1 {
            assert(rc[i] == r[i]);
        } else {
            let j = i - p.len() - 1;
            assert(lower(a[i]) == lower(pb[i]));
            assert(pb[i] == b[j]);
            assert(lower(b[j]) == lower(qc[j]));
            if i == al - cl - 1 {
                assert(qc[j] == '.');
                assert(rc[i] == '.');
            } else {
                assert(qc[j] == c[j - q.len() - 1]);
                assert(rc[i] == c[j - q.len() - 1]);
            }
        }
    }
    assert(eq_ci(a, rc));
}

/// A subdomain of a constraint's name is matched by the constraint.
pub proof fn lemma_subdomain_matches_constraint(sub: Seq<char>, sup: Seq<char>)
    requires
        sub.len() > sup.len() && rlabels_agree(sub, sup),
    ensures
        sub.len() >= sup.len() && rlabels_agree(sup, sub),
{
    lemma_rlabels_agree_symmetric(sub, sup);
}

/// Equal names up to ASCII case have the same number of labels.
pub proof fn lemma_eq_ci_labels_len(a: Seq<char>, b: Seq<char>)
    requires
        eq_ci(a, b),
    ensures
        labels(a).len() == labels(b).len(),
    decreases a.len(),
{
    if a.len() > 0 {
        let a0 = a.drop_last();
        let b0 = b.drop_last();
        assert(eq_ci(a0, b0)) by {
            assert forall|i: int| 0 <= i < a0.len() implies #[trigger] lower(a0[i]) == lower(
                b0[i],
            ) by {
                assert(lower(a[i]) == lower(b[i]));
            }
        }
        lemma_eq_ci_labels_len(a0, b0);
        assert(lower(a[a.len() - 1]) == lower(b[b.len() - 1]));
        assert(a0.push(a.last()) =~= a);
        assert(b0.push(b.last()) =~= b);
        lemma_split_push(a0, a.last(), '.');
        lemma_split_push(b0, b.last(), '.');
        lemma_split_nonempty(a0, '.');
        lemma_split_nonempty(b0, '.');
        assert(a.last() == a[a.len() - 1]);
        assert(b.last() == b[b.len() - 1]);
        assert((a.last() == '.') == (b.last() == '.'));
        if a.last() == '.' {
            assert(labels(a).len() == labels(a0).len() + 1);
            assert(labels(b).len() == labels(b0).len() + 1);
        } else {
            assert(labels(a).len() == labels(a0).len());
            assert(labels(b).len() == labels(b0).len());
        }
    } else {
        assert(b.len() == 0);
        assert(labels(a) =~= labels(b)) by {
            assert(a =~= b);
        }
    }
}

/// A name of more than one label is a subdomain of its parent, which is a
/// valid name with the labels of the name but the first.
pub proof fn lemma_parent_is_superdomain(s: Seq<char>)
    requires
        valid_dns_name(s),
        labels(s).len() > 1,
    ensures
        valid_dns_name(parent_text(s)),
        labels(parent_text(s)) == labels(s).drop_first(),
        s.len() > parent_text(s).len() && rlabels_agree(s, parent_text(s)),
{
    if !s.contains('.') {
        crate::text::lemma_split_no_sep(s, '.');
    }
    let k = crate::text::lemma_first_occurrence(s, '.');
    lemma_split_at_first(s, k, '.');
    let rest = s.skip(k + 1);
    let lr = labels(rest);
    assert forall|i: int| 0 <= i < lr.len() implies #[trigger] valid_label(lr[i]) by {
        assert(lr[i] == labels(s)[i + 1]);
    }
    assert(valid_label(lr[0]));
    if rest.len() == 0 {
        assert(lr =~= seq![Seq::<char>::empty()]);
    }
    let p = s.take(k);
    assert(p.push('.') + rest =~= s);
    lemma_eq_ci_equivalence(s, s, s);
    assert(eq_ci(s, p.push('.') + rest));
    lemma_longer_agreeing_extends(s, rest);
}

/// A wildcard matches only names of exactly one more label than its own
/// name, all of them subdomains of that name.
pub proof fn lemma_wildcard_one_more_label(pat: Seq<char>, n: Seq<char>)
    requires
        valid_dns_name(n),
        labels(n).len() > 1,
        eq_ci(pat, parent_text(n)),
    ensures
        labels(n).len() == labels(pat).len() + 1,
        n.len() > pat.len() && rlabels_agree(n, pat),
{
    lemma_parent_is_superdomain(n);
    let par = parent_text(n);
    lemma_eq_ci_labels_len(pat, par);
    lemma_longer_agreeing_extends(n, par);
    lemma_longer_agreeing_extends(n, pat);
    let w = choose|w: Seq<char>| #[trigger] eq_ci(n, w.push('.') + par);
    let wp = w.push('.') + par;
    let wq = w.push('.') + pat;
    assert forall|i: int| 0 <= i < n.len() implies #[trigger] lower(n[i]) == lower(wq[i]) by {
        assert(lower(n[i]) == lower(wp[i]));
        if i > w.len() {
            assert(lower(pat[i - w.len() - 1]) == lower(par[i - w.len() - 1]));
        }
    }
    assert(eq_ci(n, wq));
}

/// A single label is a valid DNS name when it has 1 to 63 characters, each
/// an ASCII letter `a-z` or `A-Z`, a digit `0-9` or `-`, and neither starts
/// nor ends with `-` (hyphens inside, even two in a row, are allowed).
pub proof fn lemma_single_label_is_name(s: Seq<char>)
    requires
        0 < s.len() <= 63,
        forall|i: int|
            0 <= i < s.len() ==> ('a' <= #[trigger] s[i] && s[i] <= 'z') || ('A' <= s[i] && s[i]
                <= 'Z') || ('0' <= s[i] && s[i] <= '9') || s[i] == '-',
        s[0] != '-',
        s[s.len() - 1] != '-',
    ensures
        valid_dns_name(s),
{
    assert(!s.contains('.')) by {
        if s.contains('.') {
            let i = choose|i: int| 0 <= i < s.len() && s[i] == '.';
            assert(s[i] == '.');
        }
    }
    crate::text::lemma_split_no_sep(s, '.');
    assert(s[s.len() - 1] == s.last());
    assert(valid_label(s));
}

/// Two valid names joined by a dot form a valid name, if it is no longer
/// than 253 characters; its labels are those of the first, then those of
/// the second.
pub proof fn lemma_join_names(a: Seq<char>, b: Seq<char>)
    requires
        valid_dns_name(a),
        valid_dns_name(b),
        a.len() + 1 + b.len() <= 253,
    ensures
        valid_dns_name(a.push('.') + b),
        labels(a.push('.') + b) == labels(a) + labels(b),
{
    lemma_split_push(a, '.', '.');
    lemma_split_nonempty(a, '.');
    lemma_split_nonempty(b, '.');
    crate::text::lemma_split_append(a.push('.'), b, '.');
    let la = labels(a);
    let lb = labels(b);
    assert(la.push(Seq::<char>::empty()).drop_last() =~= la);
    assert(Seq::<char>::empty() + lb.first() =~= lb.first());
    assert(lb =~= seq![lb.first()] + lb.drop_first());
    assert(labels(a.push('.') + b) =~= la + lb);
    let l = labels(a.push('.') + b);
    assert forall|k: int| 0 <= k < l.len() implies #[trigger] valid_label(l[k]) by {
        if k < la.len() {
            assert(l[k] == la[k]);
        } else {
            assert(l[k] == lb[k - la.len()]);
        }
    }
}

/// The shape of a valid DNS name: it neither starts nor ends with `.` or
/// `-`; every dot has a character other than `.` and `-` on each side; and
/// every 64 consecutive characters hold a dot.
pub proof fn lemma_name_shape(s: Seq<char>)
    requires
        valid_dns_name(s),
    ensures
        s[0] != '.' && s[0] != '-',
        s[s.len() - 1] != '.' && s[s.len() - 1] != '-',
        forall|i: int|
            0 <= i < s.len() && #[trigger] s[i] == '.' ==> 0 < i < s.len() - 1 && s[i - 1] != '.'
                && s[i - 1] != '-' && s[i + 1] != '.' && s[i + 1] != '-',
        forall|i: int|
            0 <= i && i + 64 <= s.len() ==> #[trigger] s.subrange(i, i + 64).contains('.'),
{
    lemma_split_nonempty(s, '.');
    let ls = labels(s);
    crate::text::lemma_split_first_prefix(s, '.');
    assert(valid_label(ls[0]));
    assert(ls.first()[0] == s[0]);
    crate::text::lemma_split_last_suffix(s, '.', 0);
    assert(s.skip(0) =~= s);
    assert(valid_label(ls[ls.len() - 1]));
    let last = ls.last();
    assert(last[last.len() - 1] == s[s.len() - 1]);
    assert(is_label_char(last.last()));
    assert forall|i: int|
        0 <= i < s.len() && #[trigger] s[i] == '.' implies 0 < i < s.len() - 1 && s[i - 1] != '.'
            && s[i - 1] != '-' && s[i + 1] != '.' && s[i + 1] != '-' by {
        let t = s.take(i);
        lemma_split_nonempty(t, '.');
        assert(t.push('.') =~= s.take(i + 1));
        lemma_split_push(t, '.', '.');
        lemma_split_prefix(s, i + 1, '.');
        let m = split(t, '.').len() as int;
        let before = split(t, '.').last();
        assert(ls[m - 1] == before);
        assert(valid_label(ls[m - 1]));
        crate::text::lemma_split_last_suffix(t, '.', 0);
        assert(t.skip(t.len() as int) =~= Seq::<char>::empty());
        assert(before[before.len() - 1] == t[t.len() - before.len() + before.len() - 1]);
        assert(is_label_char(before[before.len() - 1]));
        let r = s.skip(i + 1);
        let after = split(r, '.').first();
        assert(Seq::<char>::empty() + after =~= after);
        assert(ls[m] == after);
        assert(valid_label(ls[m]));
        crate::text::lemma_split_first_prefix(r, '.');
        assert(after[0] == r[0]);
        assert(is_label_char(after[0]));
    }
    assert forall|i: int| 0 <= i && i + 64 <= s.len() implies #[trigger] s.subrange(
        i,
        i + 64,
    ).contains('.') by {
        if !s.subrange(i, i + 64).contains('.') {
            let a = s.take(i + 64);
            assert(a.skip(a.len() - 64) =~= s.subrange(i, i + 64));
            crate::text::lemma_split_last_suffix(a, '.', 64);
            lemma_split_nonempty(a, '.');
            lemma_split_prefix(s, i + 64, '.');
            let m = split(a, '.').len() - 1;
            assert(ls[m].len() >= 64);
            assert(valid_label(ls[m]));
        }
    }
}

/// Every character of a valid DNS name is an ASCII letter, a digit, `-` or
/// `.`.
pub proof fn lemma_name_chars(s: Seq<char>)
    requires
        valid_dns_name(s),
    ensures
        forall|i: int|
            0 <= i < s.len() ==> ('a' <= #[trigger] s[i] && s[i] <= 'z') || ('A' <= s[i] && s[i]
                <= 'Z') || ('0' <= s[i] && s[i] <= '9') || s[i] == '-' || s[i] == '.',
{
    assert forall|i: int| 0 <= i < s.len() implies ('a' <= #[trigger] s[i] && s[i] <= 'z') || (
    'A' <= s[i] && s[i] <= 'Z') || ('0' <= s[i] && s[i] <= '9') || s[i] == '-' || s[i] == '.' by {
        if s[i] != '.' {
            let (k, j) = lemma_split_cover(s, '.', i);
            assert(valid_label(labels(s)[k]));
            assert(is_label_char(labels(s)[k][j]));
        }
    }
}

/// A valid DNS name is ASCII text.
pub proof fn lemma_valid_name_ascii(s: Seq<char>)
    requires
        valid_dns_name(s),
    ensures
        vstd::utf8::is_ascii_chars(s),
{
    assert forall|i: int| 0 <= i < s.len() implies '\0' <= #[trigger] s[i] <= '\u{7f}' by {
        if s[i] != '.' {
            let (k, j) = lemma_split_cover(s, '.', i);
            assert(valid_label(labels(s)[k]));
            assert(is_label_char(labels(s)[k][j]));
        }
    }
}

/// A piece that begins with an invalid stretch of characters is no valid label.
proof fn lemma_invalid_extension(l: Seq<char>, rest: Seq<char>)
    requires
        (exists|j: int| 0 <= j < l.len() && !is_label_char(#[trigger] l[j])) || (l.len() > 0
            && l[0] == '-') || l.len() > 63,
    ensures
        !valid_label(l + rest),
{
    if exists|j: int| 0 <= j < l.len() && !is_label_char(#[trigger] l[j]) {
        let j = choose|j: int| 0 <= j < l.len() && !is_label_char(#[trigger] l[j]);
        assert((l + rest)[j] == l[j]);
    } else if l.len() > 0 && l[0] == '-' {
        assert((l + rest)[0] == l[0]);
    }
}

/// A DNS name, as used in X.509 name matching: ASCII text of at most 253
/// characters whose labels are valid. Comparisons ignore ASCII case.
#[derive(Clone, Copy, Debug)]
pub struct DNSName<'a>(IA5String<'a>);

impl<'a> View for DNSName<'a> {
    type V = Seq<char>;

    closed spec fn view(&self) -> Seq<char> {
        self.0@
    }
}

impl<'a> DNSName<'a> {
    #[verifier::type_invariant]
    spec fn wf(self) -> bool {
        valid_dns_name(self.0@)
    }

    /// `Some` exactly when `value` is a valid DNS name; the name holds `value`.
    pub fn new(value: &'a str) -> (res: Option<DNSName<'a>>)
        ensures
            res is Some <==> valid_dns_name(value@),
            res matches Some(n) ==> n@ == value@,
    {
        let ia5 = match IA5String::new(value) {
            Some(v) => v,
            None => {
                proof {
                    if valid_dns_name(value@) {
                        lemma_valid_name_ascii(value@);
                    }
                }
                return None;
            },
        };
        proof {
            broadcast use vstd::string::is_ascii_spec_bytes;

        }
        let bytes = value.as_bytes();
        let n = bytes.len();
        let ghost s = value@;
        assert(n == s.len());
        if n == 0 || n > 253 {
            return None;
        }
        assert forall|j: int| 0 <= j < n implies #[trigger] s[j] == bytes@[j] as char by {
            assert(s[j] as u8 == bytes@[j]);
            assert(s[j] <= '\u{7f}');
        }
        let mut start: usize = 0;
        let mut i: usize = 0;
        proof {
            assert(s.take(0) =~= Seq::<char>::empty());
            assert(s.subrange(0, 0) =~= Seq::<char>::empty());
        }
        while i < n
            invariant
                n == s.len(),
                0 < n <= 253,
                s == value@,
                bytes@.len() == n,
                forall|j: int| 0 <= j < n ==> #[trigger] s[j] == bytes@[j] as char,
                0 <= start <= i <= n,
                split(s.take(i as int), '.').last() =~= s.subrange(start as int, i as int),
                forall|k: int|
                    0 <= k < split(s.take(i as int), '.').len() - 1 ==> #[trigger] valid_label(
                        split(s.take(i as int), '.')[k],
                    ),
                forall|j: int| start <= j < i ==> #[trigger] is_label_char(s[j]),
                i - start <= 63,
                i > start ==> s[start as int] != '-',
            decreases n - i,
        {
            let c = bytes[i];
            let ghost pre = split(s.take(i as int), '.');
            proof {
                crate::text::lemma_split_nonempty(s.take(i as int), '.');
                assert(s.take(i as int).push(s[i as int]) =~= s.take(i + 1));
                lemma_split_push(s.take(i as int), s[i as int], '.');
            }
            if c == 46u8 {
                if i == start || bytes[i - 1] == 45u8 {
                    proof {
                        lemma_split_prefix(s, i + 1, '.');
                        assert(labels(s)[pre.len() - 1] == pre.last());
                        assert(!valid_label(labels(s)[pre.len() - 1]));
                    }
                    return None;
                }
                proof {
                    let l = s.subrange(start as int, i as int);
                    assert(l.last() == s[i - 1]);
                    assert forall|j: int| 0 <= j < l.len() implies #[trigger] is_label_char(
                        l[j],
                    ) by {
                        assert(l[j] == s[start + j]);
                    }
                    assert(valid_label(l));
                    assert(s.subrange(i + 1, i + 1) =~= Seq::<char>::empty());
                }
                start = i + 1;
            } else {
                let is_dash = c == 45u8;
                let ok_char = is_alnum_byte(c) || is_dash;
                if !ok_char || (i == start && is_dash) || i + 1 - start > 63 {
                    proof {
                        let l = s.subrange(start as int, i + 1);
                        assert(split(s.take(i + 1), '.').last() =~= l);
                        lemma_split_prefix(s, i + 1, '.');
                        let m = split(s.take(i + 1), '.').len() - 1;
                        if !ok_char {
                            assert(!is_label_char(l[i - start]));
                        } else if i == start && is_dash {
                            assert(l[0] == '-');
                        }
                        lemma_invalid_extension(l, split(s.skip(i + 1), '.').first());
                        assert(!valid_label(labels(s)[m]));
                    }
                    return None;
                }
                proof {
                    assert(split(s.take(i + 1), '.').last() =~= s.subrange(
                        start as int,
                        i + 1,
                    ));
                    assert(forall|k: int|
                        0 <= k < pre.len() - 1 ==> split(s.take(i + 1), '.')[k] == pre[k]);
                }
            }
            i = i + 1;
        }
        proof {
            assert(s.take(n as int) =~= s);
            crate::text::lemma_split_nonempty(s, '.');
        }
        if start == n || bytes[n - 1] == 45u8 {
            proof {
                let p = labels(s);
                assert(!valid_label(p[p.len() - 1]));
            }
            return None;
        }
        proof {
            let p = labels(s);
            let l = s.subrange(start as int, n as int);
            assert(l.last() == s[n - 1]);
            assert forall|j: int| 0 <= j < l.len() implies #[trigger] is_label_char(l[j]) by {
                assert(l[j] == s[start + j]);
            }
            assert(valid_label(p[p.len() - 1]));
            assert forall|k: int| 0 <= k < p.len() implies #[trigger] valid_label(p[k]) by {
                if k < p.len() - 1 {
                }
            }
        }
        Some(DNSName(ia5))
    }

    /// The name's text.
    pub fn as_str(&self) -> (res: &'a str)
        ensures
            res@ == self@,
            res.is_ascii(),
            valid_dns_name(res@),
    {
        proof {
            use_type_invariant(self);
        }
        self.0.as_str()
    }

    /// This name's parent domain: what follows its first label and the dot
    /// after it, if it has more than one label.
    pub fn parent(&self) -> (res: Option<DNSName<'a>>)
        ensures
            res is Some <==> labels(self@).len() > 1,
            res matches Some(p) ==> p@ == parent_text(self@),
            res matches Some(p) ==> labels(p@) == labels(self@).drop_first(),
    {
        proof {
            use_type_invariant(self);
            broadcast use vstd::string::is_ascii_spec_bytes;

        }
        let text = self.as_str();
        let bytes = text.as_bytes();
        let n = bytes.len();
        let ghost s = text@;
        assert(n == s.len());
        let mut k: usize = 0;
        while k < n && bytes[k] != 46u8
            invariant
                n == s.len(),
                bytes@.len() == n,
                forall|j: int| 0 <= j < n ==> #[trigger] bytes@[j] == s[j] as u8,
                vstd::utf8::is_ascii_chars(s),
                k <= n,
                !s.take(k as int).contains('.'),
            decreases n - k,
        {
            assert(s[k as int] != '.') by {
                assert(s[k as int] <= '\u{7f}');
            }
            assert(!s.take(k + 1).contains('.')) by {
                if s.take(k + 1).contains('.') {
                    let j = choose|j: int| 0 <= j < k + 1 && #[trigger] s.take(k + 1)[j] == '.';
                    if j < k {
                        assert(s.take(k as int)[j] == '.');
                    }
                }
            }
            k = k + 1;
        }
        if k == n {
            proof {
                assert(s.take(n as int) =~= s);
                crate::text::lemma_split_no_sep(s, '.');
            }
            return None;
        }
        proof {
            assert(s[k as int] == '.') by {
                assert(s[k as int] <= '\u{7f}');
            }
            lemma_split_at_first(s, k as int, '.');
            let rest = s.skip(k + 1);
            let lr = labels(rest);
            assert forall|i: int| 0 <= i < lr.len() implies #[trigger] valid_label(lr[i]) by {
                assert(lr[i] == labels(s)[i + 1]);
            }
            assert(valid_label(lr[0]));
            if rest.len() == 0 {
                assert(lr =~= seq![Seq::<char>::empty()]);
            }
        }
        let rest = text.substring_ascii(k + 1, n);
        Self::new(rest)
    }

    /// Whether this name is a subdomain of `other`: it is longer, and the
    /// labels of the two agree from the right as far as the shorter goes.
    pub fn is_subdomain_of(&self, other: &DNSName<'_>) -> (res: bool)
        ensures
            res == (self@.len() > other@.len() && rlabels_agree(self@, other@)),
    {
        proof {
            broadcast use vstd::string::is_ascii_spec_bytes;

        }
        let a = self.as_str();
        let b = other.as_str();
        proof {
            lemma_rlabels_agree(a@, b@);
            vstd::string::is_ascii_spec_bytes(a);
            vstd::string::is_ascii_spec_bytes(b);
        }
        a.as_bytes().len() > b.as_bytes().len() && agree_right_aligned(a, b)
    }
}

impl<'a> PartialEq for DNSName<'a> {
    /// DNS names are equal up to ASCII case.
    fn eq(&self, other: &Self) -> (r: bool) {
        eq_ignore_ascii_case(self.as_str(), other.as_str())
    }
}

impl<'a> vstd::std_specs::cmp::PartialEqSpecImpl for DNSName<'a> {
    open spec fn obeys_eq_spec() -> bool {
        true
    }

    open spec fn eq_spec(&self, other: &DNSName<'a>) -> bool {
        eq_ci(self@, other@)
    }
}

/// Either a DNS name that must match exactly (up to ASCII case), or a
/// wildcard `*.` followed by a DNS name, which stands for one more label in
/// the left-most position.
#[derive(Debug, PartialEq)]
pub enum DNSPattern<'a> {
    Exact(DNSName<'a>),
    Wildcard(DNSName<'a>),
}

/// The text starts with the wildcard prefix `*.`.
pub open spec fn has_wildcard_prefix(s: Seq<char>) -> bool {
    s.len() >= 2 && s[0] == '*' && s[1] == '.'
}

impl<'a> DNSPattern<'a> {
    /// `*.` followed by a valid DNS name gives a wildcard on that name; any
    /// other text must be a valid DNS name and gives an exact pattern.
    pub fn new(pat: &'a str) -> (res: Option<DNSPattern<'a>>)
        ensures
            has_wildcard_prefix(pat@) ==> (res is Some <==> valid_dns_name(pat@.skip(2))),
            has_wildcard_prefix(pat@) ==> (res matches Some(p) ==> p matches DNSPattern::Wildcard(
                n,
            ) && n@ == pat@.skip(2)),
            !has_wildcard_prefix(pat@) ==> (res is Some <==> valid_dns_name(pat@)),
            !has_wildcard_prefix(pat@) ==> (res matches Some(p) ==> p matches DNSPattern::Exact(n)
                && n@ == pat@),
    {
        let n = pat.unicode_len();
        if n >= 2 && pat.get_char(0) == '*' && pat.get_char(1) == '.' {
            match DNSName::new(pat.substring_char(2, n)) {
                Some(name) => Some(DNSPattern::Wildcard(name)),
                None => None,
            }
        } else {
            match DNSName::new(pat) {
                Some(name) => Some(DNSPattern::Exact(name)),
                None => None,
            }
        }
    }

    /// An exact pattern matches a name equal to it up to ASCII case; a
    /// wildcard matches a name of more than one label whose parent equals
    /// the wildcard's name up to ASCII case.
    pub fn matches(&self, name: &DNSName<'_>) -> (res: bool)
        ensures
            res == match self {
                DNSPattern::Exact(p) => eq_ci(p@, name@),
                DNSPattern::Wildcard(p) => labels(name@).len() > 1 && eq_ci(p@, parent_text(name@)),
            },
    {
        match self {
            DNSPattern::Exact(pat) => eq_ignore_ascii_case(pat.as_str(), name.as_str()),
            DNSPattern::Wildcard(pat) => match name.parent() {
                Some(parent) => eq_ignore_ascii_case(pat.as_str(), parent.as_str()),
                None => false,
            },
        }
    }

    /// The name inside the pattern.
    pub fn inner_name(&self) -> (res: &DNSName<'a>)
        ensures
            res == match self {
                DNSPattern::Exact(n) => n,
                DNSPattern::Wildcard(n) => n,
            },
    {
        match self {
            DNSPattern::Exact(dnsname) => dnsname,
            DNSPattern::Wildcard(dnsname) => dnsname,
        }
    }
}

/// A DNS name constraint: it matches the name itself and every name made by
/// adding labels to its left.
pub struct DNSConstraint<'a>(DNSName<'a>);

impl<'a> View for DNSConstraint<'a> {
    type V = Seq<char>;

    closed spec fn view(&self) -> Seq<char> {
        self.0@
    }
}

impl<'a> DNSConstraint<'a> {
    /// `Some` exactly when `pattern` is a valid DNS name.
    pub fn new(pattern: &'a str) -> (res: Option<DNSConstraint<'a>>)
        ensures
            res is Some <==> valid_dns_name(pattern@),
            res matches Some(c) ==> c@ == pattern@,
    {
        match DNSName::new(pattern) {
            Some(name) => Some(DNSConstraint(name)),
            None => None,
        }
    }

    /// The name is at least as long as the constraint, and their labels agree
    /// from the right as far as the shorter goes.
    pub fn matches(&self, name: &DNSName<'_>) -> (res: bool)
        ensures
            res == (name@.len() >= self@.len() && rlabels_agree(self@, name@)),
    {
        proof {
            broadcast use vstd::string::is_ascii_spec_bytes;

        }
        let c = self.0.as_str();
        let n = name.as_str();
        proof {
            lemma_rlabels_agree(c@, n@);
            vstd::string::is_ascii_spec_bytes(c);
            vstd::string::is_ascii_spec_bytes(n);
        }
        n.as_bytes().len() >= c.as_bytes().len() && agree_right_aligned(c, n)
    }
}

} // verus!
