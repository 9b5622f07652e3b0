use cryptography_x509_verification::{
    DNSConstraint, DNSName, DNSPattern, IA5String, IPAddress, IPConstraint, RFC822Constraint,
    RFC822Name,
};

fn name(s: &str) -> DNSName<'_> {
    DNSName::new(s).unwrap()
}

fn v4(octets: [u8; 4]) -> IPAddress {
    IPAddress::from_bytes(&octets).unwrap()
}

fn v6(groups: [u16; 8]) -> IPAddress {
    let mut octets = Vec::new();
    for g in groups {
        octets.extend_from_slice(&g.to_be_bytes());
    }
    IPAddress::from_bytes(&octets).unwrap()
}

#[test]
fn ia5_accepts_only_ascii() {
    assert!(IA5String::new("").is_some());
    assert_eq!(IA5String::new("abc~\x7f").unwrap().as_str(), "abc~\x7f");
    assert!(IA5String::new("é").is_none());
    assert!(IA5String::new("abc\u{80}").is_none());
    assert_eq!(IA5String::new("abc").unwrap(), IA5String::new("abc").unwrap());
    assert_ne!(IA5String::new("abc").unwrap(), IA5String::new("ABC").unwrap());
}

#[test]
fn dnsname_length_limits() {
    // 3 labels of 63 characters and one of 61: 253 characters in all.
    let label = "a".repeat(63);
    let long = format!("{}.{}.{}.{}", label, label, label, "b".repeat(61));
    assert_eq!(long.len(), 253);
    assert_eq!(DNSName::new(&long).unwrap().as_str(), long);
    let too_long = format!("{}.{}.{}.{}", label, label, label, "b".repeat(62));
    assert_eq!(DNSName::new(&too_long), None);
    assert!(DNSName::new("a").is_some());
    assert!(DNSName::new("a--b.c-d.e0").is_some());
    assert!(DNSName::new("a_b.com").is_none());
    assert!(DNSName::new("é.com").is_none());
}

#[test]
fn dnsname_equality_is_an_equivalence() {
    let a = name("Example.COM");
    let b = name("eXAMPLE.com");
    let c = name("example.com");
    assert!(a == a);
    assert!(a == b && b == a);
    assert!(a == b && b == c && a == c);
    assert!(name("example.co") != name("example.com"));
}

#[test]
fn dnsname_parent_drops_first_label() {
    let n = name("a.b.example.com");
    let p = n.parent().unwrap();
    assert_eq!(p.as_str(), "b.example.com");
    assert_eq!(p.parent().unwrap().as_str(), "example.com");
    assert!(n.is_subdomain_of(&p));
    assert!(p.is_subdomain_of(&p.parent().unwrap()));
    assert_eq!(name("com").parent(), None);
}

#[test]
fn dnsname_subdomain_is_transitive_and_strict() {
    let a = name("x.y.example.com");
    let b = name("y.EXAMPLE.com");
    let c = name("com");
    assert!(a.is_subdomain_of(&b));
    assert!(b.is_subdomain_of(&c));
    assert!(a.is_subdomain_of(&c));
    assert!(!a.is_subdomain_of(&a));
    assert!(!name("xexample.com").is_subdomain_of(&name("example.com")));
}

#[test]
fn dnsconstraint_is_name_or_labels_added_on_left() {
    let c = DNSConstraint::new("Example.com").unwrap();
    assert!(c.matches(&name("example.COM")));
    assert!(c.matches(&name("a.b.EXAMPLE.com")));
    assert!(!c.matches(&name("aexample.com")));
    assert!(!c.matches(&name("example.com.au")));
    // A subdomain of a constraint's name is matched by it.
    let sub = name("mail.example.com");
    assert!(sub.is_subdomain_of(&name("example.com")));
    assert!(c.matches(&sub));
}

#[test]
fn dnspattern_wildcard_adds_exactly_one_label() {
    let p = DNSPattern::new("*.Example.com").unwrap();
    assert_eq!(p.inner_name().as_str(), "Example.com");
    assert!(p.matches(&name("www.example.com")));
    assert!(name("www.example.com").is_subdomain_of(p.inner_name()));
    assert!(!p.matches(&name("a.www.example.com")));
    let e = DNSPattern::new("example.com").unwrap();
    assert_eq!(e.inner_name().as_str(), "example.com");
    assert!(DNSPattern::new("**.example.com").is_none());
    assert!(DNSPattern::new("*.*.example.com").is_none());
}

#[test]
fn ipaddress_from_bytes_lengths() {
    for len in 0..40 {
        let bytes = vec![1u8; len];
        assert_eq!(IPAddress::from_bytes(&bytes).is_some(), len == 4 || len == 16);
    }
    // An IPv4 address never equals an IPv6 address.
    assert_ne!(v4([0, 0, 0, 1]), v6([0, 0, 0, 0, 0, 0, 0, 1]));
}

#[test]
fn ipaddress_mask_keeps_prefix_bits() {
    let a = v4([192, 0, 2, 255]);
    for p in 0..=40u8 {
        assert_eq!(a.mask(p).mask(p), a.mask(p));
    }
    assert_eq!(a.mask(25), v4([192, 0, 2, 128]));
    assert_eq!(a.mask(1), v4([128, 0, 0, 0]));
    assert_eq!(a.mask(255), a);
    let b = v6([0xffff; 8]);
    assert_eq!(b.mask(1), v6([0x8000, 0, 0, 0, 0, 0, 0, 0]));
    assert_eq!(b.mask(127), v6([0xffff, 0xffff, 0xffff, 0xffff, 0xffff, 0xffff, 0xffff, 0xfffe]));
    assert_eq!(b.mask(0), v6([0; 8]));
}

#[test]
fn ipaddress_prefix_of_netmasks() {
    assert_eq!(v4([0, 0, 0, 0]).as_prefix(), Some(0));
    assert_eq!(v4([255, 255, 255, 255]).as_prefix(), Some(32));
    assert_eq!(v4([128, 0, 0, 0]).as_prefix(), Some(1));
    assert_eq!(v4([255, 255, 255, 254]).as_prefix(), Some(31));
    assert_eq!(v4([0, 0, 0, 1]).as_prefix(), None);
    assert_eq!(v6([0xffff; 8]).as_prefix(), Some(128));
    assert_eq!(v6([0; 8]).as_prefix(), Some(0));
    assert_eq!(v6([0xffff, 0xfe00, 0, 0, 0, 0, 0, 0]).as_prefix(), Some(23));
    assert_eq!(v6([0xffff, 0xfe00, 0, 0, 0, 0, 0, 1]).as_prefix(), None);
    // Every network mask gives back its prefix length.
    for p in 0..=32u8 {
        assert_eq!(v4([255, 255, 255, 255]).mask(p).as_prefix(), Some(p));
    }
    for p in 0..=128u8 {
        assert_eq!(v6([0xffff; 8]).mask(p).as_prefix(), Some(p));
    }
}

#[test]
fn ipconstraint_contains_its_network() {
    let c = IPConstraint::from_bytes(b"\x0a\x01\x02\x03\xff\x00\x00\x00").unwrap();
    assert!(c.matches(&v4([10, 0, 0, 0])));
    assert!(c.matches(&v4([10, 1, 2, 3])));
    assert!(c.matches(&v4([10, 255, 255, 255])));
    assert!(!c.matches(&v4([11, 0, 0, 0])));
    // A zero-length prefix matches every address of the same kind only.
    let all = IPConstraint::from_bytes(b"\x0a\x01\x02\x03\x00\x00\x00\x00").unwrap();
    assert!(all.matches(&v4([1, 2, 3, 4])));
    assert!(!all.matches(&v6([0; 8])));
    // The two halves must be of one kind of address.
    assert_eq!(IPConstraint::from_bytes(&[0xffu8; 16]), None);
}

#[test]
fn rfc822name_is_mailbox_at_domain() {
    for address in ["a@b", "x.y!z@Sub.Example.com", "1@2.3"] {
        let n = RFC822Name::new(address).unwrap();
        assert_eq!(format!("{}@{}", n.mailbox.as_str(), n.domain.as_str()), address);
    }
    assert!(RFC822Name::new("a@b.").is_none());
    assert!(RFC822Name::new("a..b@c").is_none());
    assert!(RFC822Name::new("a@b@c").is_none());
    assert!(RFC822Name::new("é@example.com").is_none());
    assert!(RFC822Name::new("a b@example.com").is_none());
}

#[test]
fn rfc822name_equality() {
    let a = RFC822Name::new("foo@example.com").unwrap();
    assert!(a == RFC822Name::new("foo@EXAMPLE.com").unwrap());
    assert!(a != RFC822Name::new("Foo@example.com").unwrap());
    assert!(a != RFC822Name::new("foo@example.org").unwrap());
}

#[test]
fn rfc822constraint_kinds() {
    assert!(matches!(
        RFC822Constraint::new(".example.com"),
        Some(RFC822Constraint::InDomain(d)) if d.as_str() == "example.com"
    ));
    assert!(matches!(
        RFC822Constraint::new("example.com"),
        Some(RFC822Constraint::OnDomain(d)) if d.as_str() == "example.com"
    ));
    assert!(matches!(
        RFC822Constraint::new("me@example.com"),
        Some(RFC822Constraint::Exact(e)) if e.mailbox.as_str() == "me" && e.domain.as_str() == "example.com"
    ));
    assert!(RFC822Constraint::new(".").is_none());
    assert!(RFC822Constraint::new("").is_none());
    // A within-domain constraint and an on-domain constraint on the same
    // domain never match the same address.
    let within = RFC822Constraint::new(".example.com").unwrap();
    let on = RFC822Constraint::new("example.com").unwrap();
    for address in ["a@example.com", "a@b.example.com", "a@com"] {
        let e = RFC822Name::new(address).unwrap();
        assert!(!(within.matches(&e) && on.matches(&e)));
    }
}

#[test]
fn documented_examples() {
    assert_eq!(DNSName::new("foo.com").unwrap(), DNSName::new("FOO.com").unwrap());
    let domain = DNSName::new("foo.example.com").unwrap();
    assert_eq!(domain.parent().unwrap().as_str(), "example.com");

    let example_com = DNSName::new("example.com").unwrap();
    let badexample_com = DNSName::new("badexample.com").unwrap();
    let foo_example_com = DNSName::new("foo.example.com").unwrap();
    assert!(DNSConstraint::new(example_com.as_str()).unwrap().matches(&example_com));
    assert!(DNSConstraint::new(example_com.as_str()).unwrap().matches(&foo_example_com));
    assert!(!DNSConstraint::new(example_com.as_str()).unwrap().matches(&badexample_com));

    // 192.0.2.1 kept to 24 bits is 192.0.2.0.
    assert_eq!(v4([192, 0, 2, 1]).mask(24), v4([192, 0, 2, 0]));

    let range = IPConstraint::from_bytes(b"\xc6\x33\x64\x00\xff\xff\xff\x00").unwrap();
    // 198.51.100.42
    assert!(range.matches(&v4([198, 51, 100, 42])));

    // `InDomain("example.com")` matches `foo@bar.example.com` but not `foo@example.com`.
    let in_domain = RFC822Constraint::new(".example.com").unwrap();
    assert!(in_domain.matches(&RFC822Name::new("foo@bar.example.com").unwrap()));
    assert!(!in_domain.matches(&RFC822Name::new("foo@example.com").unwrap()));
}

#[test]
fn ipaddress_prefix_needs_leading_contiguous_bits() {
    // A set bit after a clear bit: no prefix length.
    assert_eq!(v4([255, 0, 255, 0]).as_prefix(), None);
    assert_eq!(v4([127, 255, 255, 255]).as_prefix(), None);
    assert_eq!(v6([0x7fff, 0xffff, 0, 0, 0, 0, 0, 0]).as_prefix(), None);
    // First n bits set, the rest clear: prefix length n.
    assert_eq!(v4([255, 255, 240, 0]).as_prefix(), Some(20));
    assert_eq!(v6([0xffff, 0xffff, 0xffff, 0xffff, 0xffff, 0xffff, 0xffff, 0xc000]).as_prefix(), Some(114));
}
