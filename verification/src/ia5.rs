//! ASN.1 `IA5String` text: text of ASCII characters only.
use vstd::prelude::*;

verus! {

/// Asks the `asn1` crate whether `s` may be held as an ASN.1 `IA5String`.
///
/// Calls `asn1::IA5String::new` and reports whether it gave a value. The
/// crate's source accepts exactly the text whose bytes are all ASCII, which
/// is what the contract claims.
#[verifier::external_body]
fn asn1_accepts_ia5(s: &str) -> (ok: bool)
    ensures
        ok == s.is_ascii(),
{
    asn1::IA5String::new(s).is_some()
}

/// Text that holds only ASCII characters, as an ASN.1 `IA5String` does.
#[derive(Clone, Copy, Debug)]
pub struct IA5String<'a>(&'a str);

impl<'a> View for IA5String<'a> {
    type V = Seq<char>;

    closed spec fn view(&self) -> Seq<char> {
        self.0@
    }
}

impl<'a> IA5String<'a> {
    #[verifier::type_invariant]
    spec fn wf(self) -> bool {
        self.0.is_ascii()
    }

    /// `Some` exactly when every character of `s` is ASCII; the value holds `s`.
    pub fn new(s: &'a str) -> (res: Option<IA5String<'a>>)
        ensures
            res is Some <==> s.is_ascii(),
            res matches Some(v) ==> v@ == s@,
    {
        if asn1_accepts_ia5(s) {
            Some(IA5String(s))
        } else {
            None
        }
    }

    /// The text.
    pub fn as_str(&self) -> (res: &'a str)
        ensures
            res@ == self@,
            res.is_ascii(),
    {
        proof {
            use_type_invariant(self);
        }
        self.0
    }
}

impl<'a> PartialEq for IA5String<'a> {
    /// Equal when the texts are equal.
    fn eq(&self, other: &Self) -> (r: bool) {
        crate::text::ascii_eq(self.as_str(), other.as_str())
    }
}

impl<'a> vstd::std_specs::cmp::PartialEqSpecImpl for IA5String<'a> {
    open spec fn obeys_eq_spec() -> bool {
        true
    }

    open spec fn eq_spec(&self, other: &IA5String<'a>) -> bool {
        self@ == other@
    }
}

} // verus!
