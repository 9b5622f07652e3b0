//! Character classes, ASCII case folding, and the splitting of text into
//! separator-delimited pieces, as specifications and as executable checks
//! on the bytes of ASCII text.
use vstd::prelude::*;

verus! {

/// `a-z`, `A-Z` or `0-9`.
pub open spec fn is_alnum(c: char) -> bool {
    ('a' <= c && c <= 'z') || ('A' <= c && c <= 'Z') || ('0' <= c && c <= '9')
}

/// A character that may stand in a DNS label: `a-zA-Z0-9-`.
pub open spec fn is_label_char(c: char) -> bool {
    is_alnum(c) || c == '-'
}

/// The code of `c` after ASCII lower-casing (only `A-Z` change).
pub open spec fn lower(c: char) -> int {
    if 'A' <= c && c <= 'Z' {
        c as int + 32
    } else {
        c as int
    }
}

/// Two texts are equal up to ASCII case.
pub open spec fn eq_ci(a: Seq<char>, b: Seq<char>) -> bool {
    &&& a.len() == b.len()
    &&& forall|i: int| 0 <= i < a.len() ==> #[trigger] lower(a[i]) == lower(b[i])
}

/// The pieces of `s` between occurrences of `sep`, in order, as `str::split`
/// yields them: there is always at least one piece, and pieces may be empty.
pub open spec fn split(s: Seq<char>, sep: char) -> Seq<Seq<char>>
    decreases s.len(),
{
    if s.len() == 0 {
        seq![Seq::<char>::empty()]
    } else {
        let p = split(s.drop_last(), sep);
        if s.last() == sep {
            p.push(Seq::<char>::empty())
        } else {
            p.update(p.len() - 1, p.last().push(s.last()))
        }
    }
}

pub proof fn lemma_split_nonempty(s: Seq<char>, sep: char)
    ensures
        split(s, sep).len() >= 1,
    decreases s.len(),
{
    if s.len() > 0 {
        lemma_split_nonempty(s.drop_last(), sep);
    }
}

/// How `split` unfolds on one more character.
pub proof fn lemma_split_push(s: Seq<char>, c: char, sep: char)
    ensures
        split(s.push(c), sep) == (if c == sep {
            split(s, sep).push(Seq::<char>::empty())
        } else {
            split(s, sep).update(split(s, sep).len() - 1, split(s, sep).last().push(c))
        }),
{
    assert(s.push(c).drop_last() =~= s);
}

/// Splitting a concatenation: the last piece of `a` and the first piece of
/// `b` join into one piece.
pub proof fn lemma_split_append(a: Seq<char>, b: Seq<char>, sep: char)
    ensures
        split(a + b, sep) =~= split(a, sep).drop_last() + seq![
            split(a, sep).last() + split(b, sep).first(),
        ] + split(b, sep).drop_first(),
    decreases b.len(),
{
    lemma_split_nonempty(a, sep);
    lemma_split_nonempty(b, sep);
    if b.len() == 0 {
        assert(a + b =~= a);
        assert(split(b, sep) =~= seq![Seq::<char>::empty()]);
        assert(split(a, sep).last() + Seq::<char>::empty() =~= split(a, sep).last());
        assert(split(a, sep) =~= split(a, sep).drop_last() + seq![split(a, sep).last()]);
    } else {
        let b0 = b.drop_last();
        let c = b.last();
        lemma_split_append(a, b0, sep);
        lemma_split_nonempty(b0, sep);
        assert(b0.push(c) =~= b);
        assert((a + b0).push(c) =~= a + b);
        lemma_split_push(a + b0, c, sep);
        lemma_split_push(b0, c, sep);
        let x = split(a, sep);
        let y0 = split(b0, sep);
        let y = split(b, sep);
        let z0 = split(a + b0, sep);
        let z = split(a + b, sep);
        if c == sep {
            assert(y.first() == y0.first());
            assert(y.drop_first() =~= y0.drop_first().push(Seq::<char>::empty()));
            assert(z =~= z0.push(Seq::<char>::empty()));
        } else {
            if y0.len() == 1 {
                assert(y.first() =~= y0.first().push(c));
                assert(y.drop_first() =~= Seq::<Seq<char>>::empty());
                assert(x.last() + y0.first().push(c) =~= (x.last() + y0.first()).push(c));
            } else {
                assert(y.first() == y0.first());
                assert(y.drop_first() =~= y0.drop_first().update(
                    y0.len() - 2,
                    y0.last().push(c),
                ));
            }
        }
    }
}

/// Text without the separator is one piece.
pub proof fn lemma_split_no_sep(s: Seq<char>, sep: char)
    requires
        !s.contains(sep),
    ensures
        split(s, sep) =~= seq![s],
    decreases s.len(),
{
    if s.len() > 0 {
        assert(!s.drop_last().contains(sep)) by {
            if s.drop_last().contains(sep) {
                let k = choose|k: int| 0 <= k < s.drop_last().len() && s.drop_last()[k] == sep;
                assert(s[k] == sep);
            }
        }
        lemma_split_no_sep(s.drop_last(), sep);
        assert(s.last() != sep) by {
            assert(s[s.len() - 1] == s.last());
        }
        assert(s.drop_last().push(s.last()) =~= s);
        lemma_split_push(s.drop_last(), s.last(), sep);
    } else {
        assert(s =~= Seq::<char>::empty());
    }
}

/// Splitting at the first separator: the first piece is what precedes it,
/// and the other pieces are those of what follows it.
pub proof fn lemma_split_at_first(s: Seq<char>, k: int, sep: char)
    requires
        0 <= k < s.len(),
        s[k] == sep,
        !s.take(k).contains(sep),
    ensures
        split(s, sep).len() >= 2,
        split(s, sep)[0] =~= s.take(k),
        split(s, sep).drop_first() =~= split(s.skip(k + 1), sep),
{
    let a = s.take(k + 1);
    let b = s.skip(k + 1);
    assert(a + b =~= s);
    lemma_split_no_sep(s.take(k), sep);
    assert(s.take(k).push(sep) =~= a);
    lemma_split_push(s.take(k), sep, sep);
    assert(split(a, sep) =~= seq![s.take(k), Seq::<char>::empty()]);
    lemma_split_append(a, b, sep);
    lemma_split_nonempty(b, sep);
    assert(Seq::<char>::empty() + split(b, sep).first() =~= split(b, sep).first());
    assert(split(b, sep) =~= seq![split(b, sep).first()] + split(b, sep).drop_first());
}

/// Every character of the text other than the separator stands in some
/// piece; the result names the piece and the position in it.
pub proof fn lemma_split_cover(s: Seq<char>, sep: char, i: int) -> (kj: (int, int))
    requires
        0 <= i < s.len(),
        s[i] != sep,
    ensures
        0 <= kj.0 < split(s, sep).len(),
        0 <= kj.1 < split(s, sep)[kj.0].len(),
        split(s, sep)[kj.0][kj.1] == s[i],
    decreases s.len(),
{
    let p = split(s.drop_last(), sep);
    lemma_split_nonempty(s.drop_last(), sep);
    assert(s.drop_last().push(s.last()) =~= s);
    lemma_split_push(s.drop_last(), s.last(), sep);
    if i == s.len() - 1 {
        assert(s.last() == s[i]);
        (p.len() - 1, p.last().len() as int)
    } else {
        let (k, j) = lemma_split_cover(s.drop_last(), sep, i);
        if s.last() == sep {
            (k, j)
        } else if k == p.len() - 1 {
            assert(p.last().push(s.last())[j] == p.last()[j]);
            (k, j)
        } else {
            (k, j)
        }
    }
}

/// The last piece is the text after the last separator: a suffix of the
/// text, at least as long as any separator-free suffix.
pub proof fn lemma_split_last_suffix(t: Seq<char>, sep: char, k: int)
    requires
        0 <= k <= t.len(),
        !t.skip(t.len() - k).contains(sep),
    ensures
        split(t, sep).last().len() <= t.len(),
        split(t, sep).last() =~= t.skip(t.len() - split(t, sep).last().len()),
        split(t, sep).last().len() >= k,
    decreases t.len(),
{
    lemma_split_nonempty(t, sep);
    if t.len() > 0 {
        let t0 = t.drop_last();
        lemma_split_nonempty(t0, sep);
        assert(t0.push(t.last()) =~= t);
        lemma_split_push(t0, t.last(), sep);
        if k > 0 {
            assert(t.skip(t.len() - k)[k - 1] == t.last());
            assert(t.last() != sep);
            assert(!t0.skip(t0.len() - (k - 1)).contains(sep)) by {
                if t0.skip(t0.len() - (k - 1)).contains(sep) {
                    let j = choose|j: int|
                        0 <= j < k - 1 && #[trigger] t0.skip(t0.len() - (k - 1))[j] == sep;
                    assert(t.skip(t.len() - k)[j] == sep);
                }
            }
            lemma_split_last_suffix(t0, sep, k - 1);
        } else {
            assert(t0.skip(t0.len() as int) =~= Seq::<char>::empty());
            lemma_split_last_suffix(t0, sep, 0);
        }
        if t.last() == sep {
            assert(t.skip(t.len() as int) =~= Seq::<char>::empty());
        } else {
            let l0 = split(t0, sep).last();
            let w = t.skip(t.len() - (l0.len() + 1));
            assert forall|j: int| 0 <= j < l0.len() + 1 implies #[trigger] w[j] == l0.push(
                t.last(),
            )[j] by {
                if j < l0.len() {
                    assert(w[j] == t0[t0.len() - l0.len() + j]);
                    assert(l0[j] == t0.skip(t0.len() - l0.len())[j]);
                }
            }
            assert(l0.push(t.last()) =~= w);
        }
    } else {
        assert(split(t, sep) =~= seq![Seq::<char>::empty()]);
        assert(t.skip(0) =~= Seq::<char>::empty());
    }
}

/// The first piece is the text before the first separator: a prefix.
pub proof fn lemma_split_first_prefix(r: Seq<char>, sep: char)
    ensures
        split(r, sep).first() =~= r.take(split(r, sep).first().len() as int),
        split(r, sep).first().len() <= r.len(),
        split(r, sep).len() == 1 ==> split(r, sep).first() =~= r,
    decreases r.len(),
{
    lemma_split_nonempty(r, sep);
    if r.len() > 0 {
        let r0 = r.drop_last();
        lemma_split_nonempty(r0, sep);
        assert(r0.push(r.last()) =~= r);
        lemma_split_push(r0, r.last(), sep);
        lemma_split_first_prefix(r0, sep);
        let f0 = split(r0, sep).first();
        if r.last() != sep && split(r0, sep).len() == 1 {
            assert(f0 =~= r0);
            assert(split(r, sep).first() =~= r);
            assert(r.take(r.len() as int) =~= r);
        } else {
            assert(split(r, sep).first() == f0);
            assert(r0.take(f0.len() as int) =~= r.take(f0.len() as int));
        }
    } else {
        assert(split(r, sep) =~= seq![Seq::<char>::empty()]);
    }
}

/// The pieces of a text: those of a prefix but its last, then the last piece
/// of the prefix extended by the first piece of the rest.
pub proof fn lemma_split_prefix(s: Seq<char>, i: int, sep: char)
    requires
        0 <= i <= s.len(),
    ensures
        split(s, sep).len() >= split(s.take(i), sep).len(),
        forall|k: int|
            0 <= k < split(s.take(i), sep).len() - 1 ==> #[trigger] split(s, sep)[k] == split(
                s.take(i),
                sep,
            )[k],
        split(s, sep)[split(s.take(i), sep).len() - 1] =~= split(s.take(i), sep).last() + split(
            s.skip(i),
            sep,
        ).first(),
{
    assert(s.take(i) + s.skip(i) =~= s);
    lemma_split_append(s.take(i), s.skip(i), sep);
    lemma_split_nonempty(s.take(i), sep);
    lemma_split_nonempty(s.skip(i), sep);
    let x = split(s.take(i), sep);
    assert forall|k: int| 0 <= k < x.len() - 1 implies #[trigger] split(s, sep)[k] == x[k] by {
        assert(x.drop_last()[k] == x[k]);
    }
}

/// The texts agree, up to ASCII case, on the characters that they share when
/// aligned at their right ends, and where one is longer, the character that
/// precedes the shorter one's span in it is `.`.
pub open spec fn right_aligned_agree(a: Seq<char>, b: Seq<char>) -> bool {
    let m = if a.len() < b.len() {
        a.len()
    } else {
        b.len()
    };
    &&& eq_ci(a.skip(a.len() - m), b.skip(b.len() - m))
    &&& (a.len() == b.len() || (a.len() < b.len() && b[b.len() - a.len() - 1] == '.') || (
    a.len() > b.len() && a[a.len() - b.len() - 1] == '.'))
}

/// ASCII case folding identifies two characters exactly when they are the
/// same character or the upper- and lower-case forms of one letter: digits,
/// punctuation and every other character stay distinct, and each of `A-Z`
/// meets its lower-case letter.
pub proof fn lemma_lower_same_iff(a: char, b: char)
    ensures
        (lower(a) == lower(b)) <==> (a == b || ('A' <= a && a <= 'Z' && b as int == a as int
            + 32) || ('A' <= b && b <= 'Z' && a as int == b as int + 32)),
{
}

/// Two texts are equal up to ASCII case exactly when they have the same
/// length and at each position hold the same character or the two cases of
/// one letter.
pub proof fn lemma_eq_ci_iff(a: Seq<char>, b: Seq<char>)
    ensures
        eq_ci(a, b) <==> (a.len() == b.len() && forall|i: int|
            0 <= i < a.len() ==> (a[i] == b[i] || ('A' <= a[i] && a[i] <= 'Z' && b[i] as int
                == a[i] as int + 32) || ('A' <= b[i] && b[i] <= 'Z' && a[i] as int == b[i] as int
                + 32))),
{
    assert forall|i: int| 0 <= i < a.len() && i < b.len() implies (lower(a[i]) == lower(b[i]))
        <==> (a[i] == b[i] || ('A' <= a[i] && a[i] <= 'Z' && b[i] as int == a[i] as int + 32) || (
    'A' <= b[i] && b[i] <= 'Z' && a[i] as int == b[i] as int + 32)) by {
        lemma_lower_same_iff(a[i], b[i]);
    }
}

pub proof fn lemma_eq_ci_push(p: Seq<char>, q: Seq<char>, x: char, y: char)
    ensures
        eq_ci(p.push(x), q.push(y)) == (eq_ci(p, q) && lower(x) == lower(y)),
{
    if eq_ci(p.push(x), q.push(y)) {
        assert(lower(p.push(x)[p.len() as int]) == lower(q.push(y)[p.len() as int]));
        assert forall|i: int| 0 <= i < p.len() implies #[trigger] lower(p[i]) == lower(q[i]) by {
            assert(lower(p.push(x)[i]) == lower(q.push(y)[i]));
        }
    }
    if eq_ci(p, q) && lower(x) == lower(y) {
        assert forall|i: int| 0 <= i < p.len() + 1 implies #[trigger] lower(p.push(x)[i]) == lower(
            q.push(y)[i],
        ) by {
            if i < p.len() {
                assert(lower(p[i]) == lower(q[i]));
            }
        }
    }
}

/// `right_aligned_agree` on empty text.
pub proof fn lemma_right_aligned_empty(a: Seq<char>, b: Seq<char>)
    requires
        a.len() == 0 || b.len() == 0,
    ensures
        right_aligned_agree(a, b) == (if a.len() == 0 {
            b.len() == 0 || b.last() == '.'
        } else {
            a.last() == '.'
        }),
{
    assert(a.skip(a.len() as int) =~= Seq::<char>::empty());
    assert(b.skip(b.len() as int) =~= Seq::<char>::empty());
    if a.len() == 0 && b.len() > 0 {
        assert(b[b.len() - 1] == b.last());
    }
    if b.len() == 0 && a.len() > 0 {
        assert(a[a.len() - 1] == a.last());
    }
}

/// `right_aligned_agree` on non-empty text: the last characters, then the rest.
pub proof fn lemma_right_aligned_step(a: Seq<char>, b: Seq<char>)
    requires
        a.len() > 0,
        b.len() > 0,
    ensures
        right_aligned_agree(a, b) == (lower(a.last()) == lower(b.last()) && right_aligned_agree(
            a.drop_last(),
            b.drop_last(),
        )),
{
    let m: int = if a.len() < b.len() {
        a.len() as int
    } else {
        b.len() as int
    };
    let a0 = a.drop_last();
    let b0 = b.drop_last();
    let sa = a.skip(a.len() - m);
    let sb = b.skip(b.len() - m);
    let sa0 = a0.skip(a0.len() - (m - 1));
    let sb0 = b0.skip(b0.len() - (m - 1));
    assert(sa0.push(a.last()) =~= sa);
    assert(sb0.push(b.last()) =~= sb);
    lemma_eq_ci_push(sa0, sb0, a.last(), b.last());
    if a.len() < b.len() {
        assert(b0[b0.len() - a0.len() - 1] == b[b.len() - a.len() - 1]);
    }
    if a.len() > b.len() {
        assert(a0[a0.len() - b0.len() - 1] == a[a.len() - b.len() - 1]);
    }
}

/// ASCII case-insensitive equality of two ASCII texts.
pub fn eq_ignore_ascii_case(a: &str, b: &str) -> (r: bool)
    requires
        a.is_ascii(),
        b.is_ascii(),
    ensures
        r == eq_ci(a@, b@),
{
    proof {
        broadcast use vstd::string::is_ascii_spec_bytes;

    }
    let ab = a.as_bytes();
    let bb = b.as_bytes();
    let n = ab.len();
    if n != bb.len() {
        return false;
    }
    let mut k: usize = 0;
    while k < n
        invariant
            n == a@.len(),
            n == b@.len(),
            ab@.len() == a@.len(),
            forall|j: int| 0 <= j < ab@.len() ==> #[trigger] ab@[j] == a@[j] as u8,
            bb@.len() == b@.len(),
            forall|j: int| 0 <= j < bb@.len() ==> #[trigger] bb@[j] == b@[j] as u8,
            a.is_ascii(),
            b.is_ascii(),
            k <= n,
            forall|j: int| 0 <= j < k ==> #[trigger] lower(a@[j]) == lower(b@[j]),
        decreases n - k,
    {
        assert(a@[k as int] == ab@[k as int] as char) by {
            assert(a@[k as int] <= '\u{7f}');
        }
        assert(b@[k as int] == bb@[k as int] as char) by {
            assert(b@[k as int] <= '\u{7f}');
        }
        if lower_byte(ab[k]) != lower_byte(bb[k]) {
            return false;
        }
        k = k + 1;
    }
    true
}

/// Equality of two ASCII texts.
pub fn ascii_eq(a: &str, b: &str) -> (r: bool)
    requires
        a.is_ascii(),
        b.is_ascii(),
    ensures
        r == (a@ == b@),
{
    proof {
        broadcast use vstd::string::is_ascii_spec_bytes;

    }
    let ab = a.as_bytes();
    let bb = b.as_bytes();
    let n = ab.len();
    if n != bb.len() {
        return false;
    }
    let mut k: usize = 0;
    while k < n
        invariant
            n == a@.len(),
            n == b@.len(),
            ab@.len() == a@.len(),
            forall|j: int| 0 <= j < ab@.len() ==> #[trigger] ab@[j] == a@[j] as u8,
            bb@.len() == b@.len(),
            forall|j: int| 0 <= j < bb@.len() ==> #[trigger] bb@[j] == b@[j] as u8,
            a.is_ascii(),
            b.is_ascii(),
            k <= n,
            forall|j: int| 0 <= j < k ==> #[trigger] a@[j] == b@[j],
        decreases n - k,
    {
        assert(a@[k as int] == ab@[k as int] as char) by {
            assert(a@[k as int] <= '\u{7f}');
        }
        assert(b@[k as int] == bb@[k as int] as char) by {
            assert(b@[k as int] <= '\u{7f}');
        }
        if ab[k] != bb[k] {
            return false;
        }
        k = k + 1;
    }
    assert(a@ =~= b@);
    true
}

/// Whether two ASCII texts agree when aligned at their right ends (see
/// `right_aligned_agree`).
pub fn agree_right_aligned(a: &str, b: &str) -> (r: bool)
    requires
        a.is_ascii(),
        b.is_ascii(),
    ensures
        r == right_aligned_agree(a@, b@),
{
    proof {
        broadcast use vstd::string::is_ascii_spec_bytes;

    }
    let ab = a.as_bytes();
    let bb = b.as_bytes();
    let la = ab.len();
    let lb = bb.len();
    let m = if la < lb {
        la
    } else {
        lb
    };
    let ghost sa = a@.skip(la - m);
    let ghost sb = b@.skip(lb - m);
    let mut k: usize = 0;
    while k < m
        invariant
            la == a@.len(),
            lb == b@.len(),
            m <= la,
            m <= lb,
            m == la || m == lb,
            sa == a@.skip(la - m),
            sb == b@.skip(lb - m),
            ab@.len() == a@.len(),
            forall|j: int| 0 <= j < ab@.len() ==> #[trigger] ab@[j] == a@[j] as u8,
            bb@.len() == b@.len(),
            forall|j: int| 0 <= j < bb@.len() ==> #[trigger] bb@[j] == b@[j] as u8,
            a.is_ascii(),
            b.is_ascii(),
            k <= m,
            forall|j: int| 0 <= j < k ==> #[trigger] lower(sa[j]) == lower(sb[j]),
        decreases m - k,
    {
        let ia = la - m + k;
        let ib = lb - m + k;
        assert(a@[ia as int] == ab@[ia as int] as char) by {
            assert(a@[ia as int] <= '\u{7f}');
        }
        assert(b@[ib as int] == bb@[ib as int] as char) by {
            assert(b@[ib as int] <= '\u{7f}');
        }
        if lower_byte(ab[ia]) != lower_byte(bb[ib]) {
            assert(lower(sa[k as int]) != lower(sb[k as int]));
            return false;
        }
        k = k + 1;
    }
    if la == lb {
        true
    } else if la < lb {
        assert(b@[lb - la - 1] <= '\u{7f}');
        bb[lb - la - 1] == 46u8
    } else {
        assert(a@[la - lb - 1] <= '\u{7f}');
        ab[la - lb - 1] == 46u8
    }
}

/// Text that holds a character holds a first occurrence of it.
pub proof fn lemma_first_occurrence(s: Seq<char>, c: char) -> (k: int)
    requires
        s.contains(c),
    ensures
        0 <= k < s.len(),
        s[k] == c,
        !s.take(k).contains(c),
    decreases s.len(),
{
    if s[0] == c {
        assert(s.take(0) =~= Seq::<char>::empty());
        0
    } else {
        let j = choose|j: int| 0 <= j < s.len() && s[j] == c;
        assert(s.drop_first()[j - 1] == c);
        let k0 = lemma_first_occurrence(s.drop_first(), c);
        assert(!s.take(k0 + 1).contains(c)) by {
            if s.take(k0 + 1).contains(c) {
                let i = choose|i: int| 0 <= i < k0 + 1 && #[trigger] s.take(k0 + 1)[i] == c;
                assert(i != 0);
                assert(s.drop_first().take(k0)[i - 1] == c);
            }
        }
        k0 + 1
    }
}

/// ASCII lower-casing of one byte.
pub fn lower_byte(b: u8) -> (r: u8)
    ensures
        r as int == lower(b as char),
{
    if b >= 65 && b <= 90 {
        b + 32
    } else {
        b
    }
}

pub fn is_alnum_byte(b: u8) -> (r: bool)
    ensures
        r == is_alnum(b as char),
{
    (b >= 97 && b <= 122) || (b >= 65 && b <= 90) || (b >= 48 && b <= 57)
}

} // verus!
