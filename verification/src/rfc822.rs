//! RFC 822 mailboxes (`local-part@domain`) and name constraints on them.
use vstd::prelude::*;

use crate::dns::{lemma_valid_name_ascii, rlabels_agree, valid_dns_name, DNSName};
use crate::ia5::IA5String;
use crate::text::{
    eq_ci, is_alnum, is_alnum_byte, lemma_first_occurrence, lemma_split_at_first,
    lemma_split_cover, lemma_split_no_sep, lemma_split_nonempty, lemma_split_prefix,
    lemma_split_push, split,
};

verus! {

/// An `atext` character of RFC 2822: `a-zA-Z0-9` or one of
/// ``!#$%&'*+-/=?^_`{|}~``.
pub open spec fn is_atext(c: char) -> bool {
    is_alnum(c) || c == '!' || c == '#' || c == '$' || c == '%' || c == '&' || c == '\'' || c
        == '*' || c == '+' || c == '-' || c == '/' || c == '=' || c == '?' || c == '^' || c == '_'
        || c == '`' || c == '{' || c == '|' || c == '}' || c == '~'
}

/// An atom: one or more `atext` characters.
pub open spec fn valid_atom(a: Seq<char>) -> bool {
    a.len() > 0 && forall|j: int| 0 <= j < a.len() ==> #[trigger] is_atext(a[j])
}

/// A dot-string local part: ASCII text whose pieces between dots are atoms.
pub open spec fn valid_local_part(l: Seq<char>) -> bool {
    &&& vstd::utf8::is_ascii_chars(l)
    &&& forall|k: int| 0 <= k < split(l, '.').len() ==> #[trigger] valid_atom(split(l, '.')[k])
}

/// What precedes the first `@`.
pub open spec fn mailbox_part(s: Seq<char>) -> Seq<char> {
    split(s, '@')[0]
}

/// What follows the first `@`.
pub open spec fn domain_part(s: Seq<char>) -> Seq<char> {
    s.skip(split(s, '@')[0].len() + 1int)
}

/// A mailbox `local-part@domain`: the text holds `@`, what precedes the first
/// `@` is a dot-string local part, and what follows it is a DNS name.
pub open spec fn valid_rfc822_name(s: Seq<char>) -> bool {
    &&& split(s, '@').len() > 1
    &&& valid_local_part(mailbox_part(s))
    &&& valid_dns_name(domain_part(s))
}

/// A text that holds `@` is its mailbox part, `@`, then its domain part.
pub proof fn lemma_rfc822_parts(s: Seq<char>)
    requires
        split(s, '@').len() > 1,
    ensures
        s =~= mailbox_part(s).push('@') + domain_part(s),
{
    if !s.contains('@') {
        lemma_split_no_sep(s, '@');
    }
    let k = lemma_first_occurrence(s, '@');
    lemma_split_at_first(s, k, '@');
    assert(s.take(k).push('@') + s.skip(k + 1) =~= s);
}

/// The characters beside ASCII letters and digits that RFC 2822 admits in
/// an atom.
pub open spec fn atext_specials() -> Seq<char> {
    seq!['!', '#', '$', '%', '&', '\'', '*', '+', '-', '/', '=', '?', '^', '_', '`', '{', '|', '}', '~']
}

/// An `atext` character is an ASCII letter, a digit, or one of
/// `atext_specials()`; nothing else (no `.`, `@`, space, `"` or `;`).
pub proof fn lemma_atext_chars(c: char)
    ensures
        is_atext(c) <==> (('a' <= c && c <= 'z') || ('A' <= c && c <= 'Z') || ('0' <= c && c <= '9') || atext_specials().contains(c)),
{
    let sp = atext_specials();
    assert(sp.len() == 19);
        assert(atext_specials()[0] == '!');
        assert(atext_specials()[1] == '#');
        assert(atext_specials()[2] == '$');
        assert(atext_specials()[3] == '%');
        assert(atext_specials()[4] == '&');
        assert(atext_specials()[5] == '\'');
        assert(atext_specials()[6] == '*');
        assert(atext_specials()[7] == '+');
        assert(atext_specials()[8] == '-');
        assert(atext_specials()[9] == '/');
        assert(atext_specials()[10] == '=');
        assert(atext_specials()[11] == '?');
        assert(atext_specials()[12] == '^');
        assert(atext_specials()[13] == '_');
        assert(atext_specials()[14] == '`');
        assert(atext_specials()[15] == '{');
        assert(atext_specials()[16] == '|');
        assert(atext_specials()[17] == '}');
        assert(atext_specials()[18] == '~');
    if sp.contains(c) {
        let k = choose|k: int| 0 <= k < sp.len() && sp[k] == c;
        assert(is_atext(sp[k]));
    }
    if is_atext(c) && !(('a' <= c && c <= 'z') || ('A' <= c && c <= 'Z') || ('0' <= c && c <= '9')) {
        if c == '!' {
            assert(sp[0] == c);
        }
        if c == '#' {
            assert(sp[1] == c);
        }
        if c == '$' {
            assert(sp[2] == c);
        }
        if c == '%' {
            assert(sp[3] == c);
        }
        if c == '&' {
            assert(sp[4] == c);
        }
        if c == '\'' {
            assert(sp[5] == c);
        }
        if c == '*' {
            assert(sp[6] == c);
        }
        if c == '+' {
            assert(sp[7] == c);
        }
        if c == '-' {
            assert(sp[8] == c);
        }
        if c == '/' {
            assert(sp[9] == c);
        }
        if c == '=' {
            assert(sp[10] == c);
        }
        if c == '?' {
            assert(sp[11] == c);
        }
        if c == '^' {
            assert(sp[12] == c);
        }
        if c == '_' {
            assert(sp[13] == c);
        }
        if c == '`' {
            assert(sp[14] == c);
        }
        if c == '{' {
            assert(sp[15] == c);
        }
        if c == '|' {
            assert(sp[16] == c);
        }
        if c == '}' {
            assert(sp[17] == c);
        }
        if c == '~' {
            assert(sp[18] == c);
        }
    }
}

/// Every character of a valid local part is `.`, an ASCII letter, a digit,
/// or one of `atext_specials()`, in every dot-separated piece; the local
/// part is not empty and does not start with `.`.
pub proof fn lemma_local_part_chars(l: Seq<char>)
    requires
        valid_local_part(l),
    ensures
        l.len() > 0,
        l[0] != '.',
        forall|i: int|
            0 <= i < l.len() ==> #[trigger] l[i] == '.' || ('a' <= l[i] && l[i] <= 'z') || ('A'
                <= l[i] && l[i] <= 'Z') || ('0' <= l[i] && l[i] <= '9') || atext_specials().contains(
                l[i],
            ),
{
    lemma_split_nonempty(l, '.');
    assert(valid_atom(split(l, '.')[0]));
    if l.len() == 0 {
        assert(split(l, '.') =~= seq![Seq::<char>::empty()]);
    }
    lemma_split_prefix(l, 1, '.');
    let t = l.take(1);
    assert(Seq::<char>::empty().push(l[0]) =~= t);
    lemma_split_push(Seq::<char>::empty(), l[0], '.');
    assert(split(Seq::<char>::empty(), '.') =~= seq![Seq::<char>::empty()]);
    if l[0] == '.' {
        assert(split(t, '.').len() == 2);
        assert(split(l, '.')[0] == split(t, '.')[0]);
    }
    assert forall|i: int| 0 <= i < l.len() implies #[trigger] l[i] == '.' || ('a' <= l[i] && l[i]
        <= 'z') || ('A' <= l[i] && l[i] <= 'Z') || ('0' <= l[i] && l[i] <= '9')
        || atext_specials().contains(l[i]) by {
        if l[i] != '.' {
            let (k, j) = lemma_split_cover(l, '.', i);
            assert(valid_atom(split(l, '.')[k]));
            assert(is_atext(split(l, '.')[k][j]));
            lemma_atext_chars(l[i]);
        }
    }
}

/// A non-empty local part of ASCII letters, digits and `atext_specials()`,
/// then `@`, then a valid DNS name, is a valid mailbox with those parts.
pub proof fn lemma_atext_mailbox(l: Seq<char>, d: Seq<char>)
    requires
        l.len() > 0,
        forall|i: int|
            0 <= i < l.len() ==> ('a' <= #[trigger] l[i] && l[i] <= 'z') || ('A' <= l[i] && l[i]
                <= 'Z') || ('0' <= l[i] && l[i] <= '9') || atext_specials().contains(l[i]),
        valid_dns_name(d),
    ensures
        valid_rfc822_name(l.push('@') + d),
        mailbox_part(l.push('@') + d) == l,
        domain_part(l.push('@') + d) == d,
{
    let s = l.push('@') + d;
    let k = l.len() as int;
    assert forall|i: int| 0 <= i < l.len() implies #[trigger] is_atext(l[i]) by {
        lemma_atext_chars(l[i]);
    }
    lemma_atext_chars('@');
    lemma_atext_chars('.');
    assert(s.take(k) =~= l);
    assert(s.skip(k + 1) =~= d);
    assert(s[k] == '@');
    assert(!l.contains('@')) by {
        if l.contains('@') {
            let i = choose|i: int| 0 <= i < l.len() && l[i] == '@';
            assert(is_atext(l[i]));
        }
    }
    lemma_split_at_first(s, k, '@');
    assert(!l.contains('.')) by {
        if l.contains('.') {
            let i = choose|i: int| 0 <= i < l.len() && l[i] == '.';
            assert(is_atext(l[i]));
        }
    }
    lemma_split_no_sep(l, '.');
    assert(valid_atom(l));
    assert(vstd::utf8::is_ascii_chars(l)) by {
        assert forall|i: int| 0 <= i < l.len() implies '\0' <= #[trigger] l[i] <= '\u{7f}' by {
            assert(is_atext(l[i]));
        }
    }
    assert(valid_local_part(l));
}

fn is_atext_byte(b: u8) -> (r: bool)
    ensures
        r == is_atext(b as char),
{
    is_alnum_byte(b) || b == 33 || b == 35 || b == 36 || b == 37 || b == 38 || b == 39 || b == 42
        || b == 43 || b == 45 || b == 47 || b == 61 || b == 63 || b == 94 || b == 95 || b == 96
        || b == 123 || b == 124 || b == 125 || b == 126
}

/// Whether every piece of an ASCII text between dots is an atom.
fn dot_atoms_valid(local: &str) -> (r: bool)
    requires
        local.is_ascii(),
    ensures
        r == valid_local_part(local@),
{
    proof {
        broadcast use vstd::string::is_ascii_spec_bytes;

    }
    let bytes = local.as_bytes();
    let n = bytes.len();
    let ghost s = local@;
    assert(n == s.len());
    assert forall|j: int| 0 <= j < n implies #[trigger] s[j] == bytes@[j] as char by {
        assert(s[j] as u8 == bytes@[j]);
        assert(s[j] <= '\u{7f}');
    }
    let mut start: usize = 0;
    let mut i: usize = 0;
    proof {
        assert(s.take(0) =~= Seq::<char>::empty());
        assert(s.subrange(0, 0) =~= Seq::<char>::empty());
    }
    while i < n
        invariant
            n == s.len(),
            s == local@,
            bytes@.len() == n,
            forall|j: int| 0 <= j < n ==> #[trigger] s[j] == bytes@[j] as char,
            0 <= start <= i <= n,
            split(s.take(i as int), '.').last() =~= s.subrange(start as int, i as int),
            forall|k: int|
                0 <= k < split(s.take(i as int), '.').len() - 1 ==> #[trigger] valid_atom(
                    split(s.take(i as int), '.')[k],
                ),
            forall|j: int| start <= j < i ==> #[trigger] is_atext(s[j]),
        decreases n - i,
    {
        let c = bytes[i];
        let ghost pre = split(s.take(i as int), '.');
        proof {
            lemma_split_nonempty(s.take(i as int), '.');
            assert(s.take(i as int).push(s[i as int]) =~= s.take(i + 1));
            lemma_split_push(s.take(i as int), s[i as int], '.');
        }
        if c == 46u8 {
            if i == start {
                proof {
                    lemma_split_prefix(s, i + 1, '.');
                    assert(split(s, '.')[pre.len() - 1] == pre.last());
                    assert(!valid_atom(split(s, '.')[pre.len() - 1]));
                }
                return false;
            }
            proof {
                let l = s.subrange(start as int, i as int);
                assert forall|j: int| 0 <= j < l.len() implies #[trigger] is_atext(l[j]) by {
                    assert(l[j] == s[start + j]);
                }
                assert(valid_atom(l));
                assert(s.subrange(i + 1, i + 1) =~= Seq::<char>::empty());
            }
            start = i + 1;
        } else {
            if !is_atext_byte(c) {
                proof {
                    let l = s.subrange(start as int, i + 1);
                    assert(split(s.take(i + 1), '.').last() =~= l);
                    lemma_split_prefix(s, i + 1, '.');
                    let m = split(s.take(i + 1), '.').len() - 1;
                    let rest = split(s.skip(i + 1), '.').first();
                    assert((l + rest)[i - start] == s[i as int]);
                    assert(!valid_atom(split(s, '.')[m]));
                }
                return false;
            }
            proof {
                assert(split(s.take(i + 1), '.').last() =~= s.subrange(start as int, i + 1));
                assert(forall|k: int|
                    0 <= k < pre.len() - 1 ==> split(s.take(i + 1), '.')[k] == pre[k]);
            }
        }
        i = i + 1;
    }
    proof {
        assert(s.take(n as int) =~= s);
        lemma_split_nonempty(s, '.');
    }
    if start == n {
        proof {
            let p = split(s, '.');
            assert(!valid_atom(p[p.len() - 1]));
        }
        return false;
    }
    proof {
        let p = split(s, '.');
        let l = s.subrange(start as int, n as int);
        assert forall|j: int| 0 <= j < l.len() implies #[trigger] is_atext(l[j]) by {
            assert(l[j] == s[start + j]);
        }
        assert(valid_atom(p[p.len() - 1]));
        assert forall|k: int| 0 <= k < p.len() implies #[trigger] valid_atom(p[k]) by {
            if k < p.len() - 1 {
            }
        }
    }
    true
}

/// An email address `mailbox@domain`, the `Mailbox` rule of RFC 2821 without
/// the quoted-string form of the local part.
pub struct RFC822Name<'a> {
    pub mailbox: IA5String<'a>,
    pub domain: DNSName<'a>,
}

impl<'a> RFC822Name<'a> {
    /// `Some` exactly when `value` is a valid mailbox; the mailbox holds what
    /// precedes the first `@`, the domain what follows it.
    pub fn new(value: &'a str) -> (res: Option<RFC822Name<'a>>)
        ensures
            res is Some <==> valid_rfc822_name(value@),
            res matches Some(n) ==> n.mailbox@ == mailbox_part(value@) && n.domain@
                == domain_part(value@),
    {
        let ghost s = value@;
        if !value.is_ascii() {
            proof {
                if valid_rfc822_name(s) {
                    if !s.contains('@') {
                        lemma_split_no_sep(s, '@');
                    }
                    let k = lemma_first_occurrence(s, '@');
                    lemma_split_at_first(s, k, '@');
                    lemma_valid_name_ascii(domain_part(s));
                    assert forall|i: int| 0 <= i < s.len() implies '\0' <= #[trigger] s[i]
                        <= '\u{7f}' by {
                        if i < k {
                            assert(s[i] == s.take(k)[i]);
                        } else if i > k {
                            assert(s[i] == s.skip(k + 1)[i - k - 1]);
                        }
                    }
                }
            }
            return None;
        }
        proof {
            broadcast use vstd::string::is_ascii_spec_bytes;

        }
        let bytes = value.as_bytes();
        let n = bytes.len();
        assert(n == s.len());
        let mut k: usize = 0;
        while k < n && bytes[k] != 64u8
            invariant
                n == s.len(),
                bytes@.len() == n,
                forall|j: int| 0 <= j < n ==> #[trigger] bytes@[j] == s[j] as u8,
                vstd::utf8::is_ascii_chars(s),
                k <= n,
                !s.take(k as int).contains('@'),
            decreases n - k,
        {
            assert(s[k as int] != '@') by {
                assert(s[k as int] <= '\u{7f}');
            }
            assert(!s.take(k + 1).contains('@')) by {
                if s.take(k + 1).contains('@') {
                    let j = choose|j: int| 0 <= j < k + 1 && #[trigger] s.take(k + 1)[j] == '@';
                    if j < k {
                        assert(s.take(k as int)[j] == '@');
                    }
                }
            }
            k = k + 1;
        }
        if k == n {
            proof {
                assert(s.take(n as int) =~= s);
                lemma_split_no_sep(s, '@');
            }
            return None;
        }
        proof {
            assert(s[k as int] == '@') by {
                assert(s[k as int] <= '\u{7f}');
            }
            lemma_split_at_first(s, k as int, '@');
        }
        let local_part = value.substring_ascii(0, k);
        let domain = value.substring_ascii(k + 1, n);
        let mailbox = match IA5String::new(local_part) {
            Some(m) => m,
            None => return None,
        };
        if !dot_atoms_valid(mailbox.as_str()) {
            return None;
        }
        match DNSName::new(domain) {
            Some(domain) => Some(RFC822Name { mailbox, domain }),
            None => None,
        }
    }
}

impl<'a> PartialEq for RFC822Name<'a> {
    /// The mailboxes are equal, and the domains are equal up to ASCII case.
    fn eq(&self, other: &Self) -> (r: bool) {
        self.mailbox == other.mailbox && self.domain == other.domain
    }
}

impl<'a> vstd::std_specs::cmp::PartialEqSpecImpl for RFC822Name<'a> {
    open spec fn obeys_eq_spec() -> bool {
        true
    }

    open spec fn eq_spec(&self, other: &RFC822Name<'a>) -> bool {
        self.mailbox@ == other.mailbox@ && eq_ci(self.domain@, other.domain@)
    }
}

/// A name constraint on email addresses.
pub enum RFC822Constraint<'a> {
    /// An exact match on one email address.
    Exact(RFC822Name<'a>),
    /// Any mailbox on a domain.
    OnDomain(DNSName<'a>),
    /// Any mailbox on a subdomain of a domain (not on the domain itself).
    InDomain(DNSName<'a>),
}

/// The text starts with `.`.
pub open spec fn has_dot_prefix(s: Seq<char>) -> bool {
    s.len() >= 1 && s[0] == '.'
}

impl<'a> RFC822Constraint<'a> {
    /// `.` followed by a DNS name gives a constraint within that domain; else
    /// a valid mailbox gives an exact constraint; else a DNS name gives a
    /// constraint on that domain; anything else gives `None`.
    pub fn new(constraint: &'a str) -> (res: Option<RFC822Constraint<'a>>)
        ensures
            has_dot_prefix(constraint@) ==> (res is Some <==> valid_dns_name(
                constraint@.skip(1),
            )),
            has_dot_prefix(constraint@) ==> (res matches Some(c) ==> c matches RFC822Constraint::InDomain(
                d,
            ) && d@ == constraint@.skip(1)),
            !has_dot_prefix(constraint@) && valid_rfc822_name(constraint@) ==> (res matches Some(
                c,
            ) && c matches RFC822Constraint::Exact(e) && e.mailbox@ == mailbox_part(constraint@)
                && e.domain@ == domain_part(constraint@)),
            !has_dot_prefix(constraint@) && !valid_rfc822_name(constraint@) ==> (res is Some
                <==> valid_dns_name(constraint@)),
            !has_dot_prefix(constraint@) && !valid_rfc822_name(constraint@) ==> (res matches Some(
                c,
            ) ==> c matches RFC822Constraint::OnDomain(d) && d@ == constraint@),
    {
        let n = constraint.unicode_len();
        if n >= 1 && constraint.get_char(0) == '.' {
            match DNSName::new(constraint.substring_char(1, n)) {
                Some(d) => Some(RFC822Constraint::InDomain(d)),
                None => None,
            }
        } else if let Some(email) = RFC822Name::new(constraint) {
            Some(RFC822Constraint::Exact(email))
        } else {
            match DNSName::new(constraint) {
                Some(d) => Some(RFC822Constraint::OnDomain(d)),
                None => None,
            }
        }
    }

    /// An exact constraint matches an equal address (equal mailbox, domain
    /// equal up to ASCII case); a domain constraint matches any mailbox on a
    /// domain equal to it up to ASCII case; a within-domain constraint
    /// matches any mailbox on a subdomain of it.
    pub fn matches(&self, email: &RFC822Name<'_>) -> (res: bool)
        ensures
            res == match self {
                RFC822Constraint::Exact(p) => p.mailbox@ == email.mailbox@ && eq_ci(
                    p.domain@,
                    email.domain@,
                ),
                RFC822Constraint::OnDomain(d) => eq_ci(email.domain@, d@),
                RFC822Constraint::InDomain(d) => email.domain@.len() > d@.len() && rlabels_agree(
                    email.domain@,
                    d@,
                ),
            },
    {
        match self {
            RFC822Constraint::Exact(pat) => pat.mailbox == email.mailbox && pat.domain
                == email.domain,
            RFC822Constraint::OnDomain(pat) => email.domain == *pat,
            RFC822Constraint::InDomain(pat) => email.domain.is_subdomain_of(pat),
        }
    }
}

} // verus!
