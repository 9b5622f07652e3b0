use cryptography_x509_verification::{
    DNSConstraint, DNSName, DNSPattern, IPAddress, IPConstraint, RFC822Constraint, RFC822Name,
};

/// An IPv4 address from its four octets.
fn v4(octets: [u8; 4]) -> IPAddress {
    IPAddress::from_bytes(&octets).unwrap()
}

/// An IPv6 address from its eight 16-bit groups.
fn v6(groups: [u16; 8]) -> IPAddress {
    let mut octets = Vec::new();
    for g in groups {
        octets.extend_from_slice(&g.to_be_bytes());
    }
    IPAddress::from_bytes(&octets).unwrap()
}

#[test]
fn test_dnsname_debug_trait() {
    // Just to get coverage on the `Debug` derive.
    assert_eq!(
        "DNSName(IA5String(\"example.com\"))",
        format!("{:?}", DNSName::new("example.com").unwrap())
    );
}

#[test]
fn test_dnsname_new() {
    assert_eq!(DNSName::new(""), None);
    assert_eq!(DNSName::new("."), None);
    assert_eq!(DNSName::new(".."), None);
    assert_eq!(DNSName::new(".a."), None);
    assert_eq!(DNSName::new("a.a."), None);
    assert_eq!(DNSName::new(".a"), None);
    assert_eq!(DNSName::new("a."), None);
    assert_eq!(DNSName::new("a.."), None);
    assert_eq!(DNSName::new(" "), None);
    assert_eq!(DNSName::new("\t"), None);
    assert_eq!(DNSName::new(" whitespace "), None);
    assert_eq!(DNSName::new("white. space"), None);
    assert_eq!(DNSName::new("!badlabel!"), None);
    assert_eq!(DNSName::new("bad!label"), None);
    assert_eq!(DNSName::new("goodlabel.!badlabel!"), None);
    assert_eq!(DNSName::new("-foo.bar.example.com"), None);
    assert_eq!(DNSName::new("foo-.bar.example.com"), None);
    assert_eq!(DNSName::new("foo.-bar.example.com"), None);
    assert_eq!(DNSName::new("foo.bar-.example.com"), None);
    assert_eq!(DNSName::new(&"a".repeat(64)), None);
    assert_eq!(DNSName::new("⚠️"), None);
    assert_eq!(DNSName::new(".foo.example"), None);
    assert_eq!(DNSName::new(".example.com"), None);

    let long_valid_label = "a".repeat(63);
    let long_name = std::iter::repeat(long_valid_label)
        .take(5)
        .collect::<Vec<_>>()
        .join(".");
    assert_eq!(DNSName::new(&long_name), None);

    assert_eq!(
        DNSName::new(&"a".repeat(63)).unwrap().as_str(),
        "a".repeat(63)
    );
    assert_eq!(DNSName::new("example.com").unwrap().as_str(), "example.com");
    assert_eq!(
        DNSName::new("123.example.com").unwrap().as_str(),
        "123.example.com"
    );
    assert_eq!(DNSName::new("EXAMPLE.com").unwrap().as_str(), "EXAMPLE.com");
    assert_eq!(DNSName::new("EXAMPLE.COM").unwrap().as_str(), "EXAMPLE.COM");
    assert_eq!(
        DNSName::new("xn--bcher-kva.example").unwrap().as_str(),
        "xn--bcher-kva.example"
    );
}

#[test]
fn test_dnsname_equality() {
    assert_ne!(
        DNSName::new("foo.example.com").unwrap(),
        DNSName::new("example.com").unwrap()
    );

    // DNS name comparisons are case insensitive.
    assert_eq!(
        DNSName::new("EXAMPLE.COM").unwrap(),
        DNSName::new("example.com").unwrap()
    );
    assert_eq!(
        DNSName::new("ExAmPLe.CoM").unwrap(),
        DNSName::new("eXaMplE.cOm").unwrap()
    );
}

#[test]
fn test_dnsname_parent() {
    assert_eq!(DNSName::new("localhost").unwrap().parent(), None);
    assert_eq!(
        DNSName::new("example.com").unwrap().parent().unwrap(),
        DNSName::new("com").unwrap()
    );
    assert_eq!(
        DNSName::new("foo.example.com").unwrap().parent().unwrap(),
        DNSName::new("example.com").unwrap()
    );
}

#[test]
fn test_dnsname_is_subdomain_of() {
    for (sup, sub, check) in &[
        // good cases
        ("example.com", "sub.example.com", true),
        ("example.com", "a.b.example.com", true),
        ("sub.example.com", "sub.sub.example.com", true),
        ("sub.example.com", "sub.sub.sub.example.com", true),
        ("com", "example.com", true),
        ("example.com", "com.example.com", true),
        ("example.com", "com.example.example.com", true),
        // bad cases
        ("example.com", "example.com", false),
        ("example.com", "com", false),
        ("sub.example.com", "example.com", false),
        ("sub.sub.example.com", "sub.sub.example.com", false),
        ("sub.sub.example.com", "example.com", false),
        ("com.example.com", "com.example.com", false),
        ("com.example.example.com", "com.example.example.com", false),
    ] {
        let sup = DNSName::new(sup).unwrap();
        let sub = DNSName::new(sub).unwrap();

        assert_eq!(sub.is_subdomain_of(&sup), *check);
    }
}

#[test]
fn test_dnspattern_new() {
    assert_eq!(DNSPattern::new("*"), None);
    assert_eq!(DNSPattern::new("*."), None);
    assert_eq!(DNSPattern::new("f*o.example.com"), None);
    assert_eq!(DNSPattern::new("*oo.example.com"), None);
    assert_eq!(DNSPattern::new("fo*.example.com"), None);
    assert_eq!(DNSPattern::new("foo.*.example.com"), None);
    assert_eq!(DNSPattern::new("*.foo.*.example.com"), None);

    assert_eq!(
        DNSPattern::new("example.com").unwrap(),
        DNSPattern::Exact(DNSName::new("example.com").unwrap())
    );
    assert_eq!(
        DNSPattern::new("*.example.com").unwrap(),
        DNSPattern::Wildcard(DNSName::new("example.com").unwrap())
    );
}

#[test]
fn test_dnspattern_matches() {
    let exactly_localhost = DNSPattern::new("localhost").unwrap();
    let any_localhost = DNSPattern::new("*.localhost").unwrap();
    let exactly_example_com = DNSPattern::new("example.com").unwrap();
    let any_example_com = DNSPattern::new("*.example.com").unwrap();

    // Exact patterns match only the exact name.
    assert!(exactly_localhost.matches(&DNSName::new("localhost").unwrap()));
    assert!(exactly_localhost.matches(&DNSName::new("LOCALHOST").unwrap()));
    assert!(exactly_example_com.matches(&DNSName::new("example.com").unwrap()));
    assert!(exactly_example_com.matches(&DNSName::new("EXAMPLE.com").unwrap()));
    assert!(!exactly_example_com.matches(&DNSName::new("foo.example.com").unwrap()));

    // Wildcard patterns match any subdomain, but not the parent or nested subdomains.
    assert!(any_example_com.matches(&DNSName::new("foo.example.com").unwrap()));
    assert!(any_example_com.matches(&DNSName::new("bar.example.com").unwrap()));
    assert!(any_example_com.matches(&DNSName::new("BAZ.example.com").unwrap()));
    assert!(!any_example_com.matches(&DNSName::new("example.com").unwrap()));
    assert!(!any_example_com.matches(&DNSName::new("foo.bar.example.com").unwrap()));
    assert!(!any_example_com.matches(&DNSName::new("foo.bar.baz.example.com").unwrap()));
    assert!(!any_localhost.matches(&DNSName::new("localhost").unwrap()));
}

#[test]
fn test_dnsconstraint_new() {
    assert!(DNSConstraint::new("").is_none());
    assert!(DNSConstraint::new(".").is_none());
    assert!(DNSConstraint::new("*.").is_none());
    assert!(DNSConstraint::new("*").is_none());
    assert!(DNSConstraint::new(".example").is_none());
    assert!(DNSConstraint::new("*.example").is_none());
    assert!(DNSConstraint::new("*.example.com").is_none());

    assert!(DNSConstraint::new("example").is_some());
    assert!(DNSConstraint::new("example.com").is_some());
    assert!(DNSConstraint::new("foo.example.com").is_some());
}

#[test]
fn test_dnsconstraint_matches() {
    let example_com = DNSConstraint::new("example.com").unwrap();

    // Exact domain and arbitrary subdomains match.
    assert!(example_com.matches(&DNSName::new("example.com").unwrap()));
    assert!(example_com.matches(&DNSName::new("foo.example.com").unwrap()));
    assert!(example_com.matches(&DNSName::new("foo.bar.baz.quux.example.com").unwrap()));

    // Parent domains, distinct domains, and substring domains do not match.
    assert!(!example_com.matches(&DNSName::new("com").unwrap()));
    assert!(!example_com.matches(&DNSName::new("badexample.com").unwrap()));
    assert!(!example_com.matches(&DNSName::new("wrong.com").unwrap()));
}

#[test]
fn test_ipaddress_from_bytes() {
    let ipv4 = b"\xc0\x00\x02\x01";
    let ipv6 = b"\x20\x01\x0d\xb8\x00\x00\x00\x00\
                 \x00\x00\x00\x00\x00\x00\x00\x01";
    let bad = b"\xde\xad";

    assert_eq!(
        IPAddress::from_bytes(ipv4).unwrap(),
        v4([192, 0, 2, 1]) /* 192.0.2.1 */,
    );
    assert_eq!(
        IPAddress::from_bytes(ipv6).unwrap(),
        v6([0x2001, 0xdb8, 0x0, 0x0, 0x0, 0x0, 0x0, 0x1]) /* 2001:db8::1 */,
    );
    assert_eq!(IPAddress::from_bytes(bad), None);
}

#[test]
fn test_ipaddress_as_prefix() {
    let ipv4 = v4([255, 255, 255, 0]) /* 255.255.255.0 */;
    let ipv6 = v6([0xffff, 0xffff, 0xffff, 0xffff, 0x0, 0x0, 0x0, 0x0]) /* ffff:ffff:ffff:ffff:: */;
    let ipv4_nonmask = v4([192, 0, 2, 1]) /* 192.0.2.1 */;
    let ipv6_nonmask = v6([0x2001, 0xdb8, 0x0, 0x0, 0x0, 0x0, 0x0, 0x1]) /* 2001:db8::1 */;

    assert_eq!(ipv4.as_prefix(), Some(24));
    assert_eq!(ipv6.as_prefix(), Some(64));
    assert_eq!(ipv4_nonmask.as_prefix(), None);
    assert_eq!(ipv6_nonmask.as_prefix(), None);
}

#[test]
fn test_ipaddress_mask() {
    let ipv4 = v4([192, 0, 2, 252]) /* 192.0.2.252 */;
    let ipv6 = v6([0x2001, 0xdb8, 0x0, 0x0, 0x0, 0x0, 0xf00, 0x1ba]) /* 2001:db8::f00:01ba */;

    assert_eq!(ipv4.mask(0), v4([0, 0, 0, 0]) /* 0.0.0.0 */);
    assert_eq!(ipv4.mask(64), ipv4);
    assert_eq!(ipv4.mask(32), ipv4);
    assert_eq!(ipv4.mask(24), v4([192, 0, 2, 0]) /* 192.0.2.0 */);
    assert_eq!(ipv6.mask(0), v6([0x0, 0x0, 0x0, 0x0, 0x0, 0x0, 0x0, 0x0]) /* ::0 */);
    assert_eq!(ipv6.mask(130), ipv6);
    assert_eq!(ipv6.mask(128), ipv6);
    assert_eq!(ipv6.mask(64), v6([0x2001, 0xdb8, 0x0, 0x0, 0x0, 0x0, 0x0, 0x0]) /* 2001:db8:: */);
    assert_eq!(
        ipv6.mask(103),
        v6([0x2001, 0xdb8, 0x0, 0x0, 0x0, 0x0, 0xe00, 0x0]) /* 2001:db8::e00:0 */
    );
}

#[test]
fn test_ipconstraint_from_bytes() {
    let ipv4_bad = b"\xc0\xa8\x01\x01\xff\xfe\xff\x00";
    let ipv4_bad_many_bits = b"\xc0\xa8\x01\x01\xff\xfc\xff\x00";
    let ipv4_bad_octet = b"\xc0\xa8\x01\x01\x00\xff\xff\xff";
    let ipv6_bad = b"\
        \x26\x01\x00\x00\x00\x00\x00\x01\
        \x00\x00\x00\x00\x00\x00\x00\x00\
        \x00\x00\x00\x00\x00\x00\x00\x01\
        \x00\x00\x00\x00\x00\x00\x00\x00";
    let ipv6_good = b"\
        \x20\x01\x0d\xb8\x00\x00\x00\x00\
        \x00\x00\x00\x00\x00\x00\x00\x01\
        \xf0\x00\x00\x00\x00\x00\x00\x00\
        \x00\x00\x00\x00\x00\x00\x00\x00";
    let bad = b"\xff\xff\xff";

    assert_eq!(IPConstraint::from_bytes(ipv4_bad), None);
    assert_eq!(IPConstraint::from_bytes(ipv4_bad_many_bits), None);
    assert_eq!(IPConstraint::from_bytes(ipv4_bad_octet), None);
    assert_eq!(IPConstraint::from_bytes(ipv6_bad), None);
    assert_ne!(IPConstraint::from_bytes(ipv6_good), None);
    assert_eq!(IPConstraint::from_bytes(bad), None);

    // 192.168.1.1/16
    let ipv4_with_extra = b"\xc0\xa8\x01\x01\xff\xff\x00\x00";
    assert_ne!(IPConstraint::from_bytes(ipv4_with_extra), None);

    // 192.168.0.0/16
    let ipv4_masked = b"\xc0\xa8\x00\x00\xff\xff\x00\x00";
    assert_eq!(
        IPConstraint::from_bytes(ipv4_with_extra),
        IPConstraint::from_bytes(ipv4_masked)
    );
}

#[test]
fn test_ipconstraint_matches() {
    // 192.168.1.1/16
    let ipv4 = IPConstraint::from_bytes(b"\xc0\xa8\x01\x01\xff\xff\x00\x00").unwrap();
    let ipv4_32 = IPConstraint::from_bytes(b"\xc0\x00\x02\xde\xff\xff\xff\xff").unwrap();
    let ipv6 = IPConstraint::from_bytes(
        b"\x26\x00\x0d\xb8\x00\x00\x00\x00\
          \x00\x00\x00\x00\x00\x00\x00\x01\
          \xff\xff\xff\xff\x00\x00\x00\x00\
          \x00\x00\x00\x00\x00\x00\x00\x00",
    )
    .unwrap();
    let ipv6_128 = IPConstraint::from_bytes(
        b"\x26\x00\x0d\xb8\x00\x00\x00\x00\
          \x00\x00\x00\x00\xff\x00\xde\xde\
          \xff\xff\xff\xff\xff\xff\xff\xff\
          \xff\xff\xff\xff\xff\xff\xff\xff",
    )
    .unwrap();

    assert!(ipv4.matches(&v4([192, 168, 0, 50]) /* 192.168.0.50 */));
    assert!(!ipv4.matches(&v4([192, 160, 0, 50]) /* 192.160.0.50 */));
    assert!(ipv4_32.matches(&v4([192, 0, 2, 222]) /* 192.0.2.222 */));
    assert!(!ipv4_32.matches(&v4([192, 5, 2, 222]) /* 192.5.2.222 */));
    assert!(!ipv4_32.matches(&v4([192, 0, 2, 1]) /* 192.0.2.1 */));
    assert!(ipv6.matches(&v6([0x2600, 0xdb8, 0x0, 0x0, 0x0, 0x0, 0x0, 0xabba]) /* 2600:db8::abba */));
    assert!(ipv6_128.matches(&v6([0x2600, 0xdb8, 0x0, 0x0, 0x0, 0x0, 0xff00, 0xdede]) /* 2600:db8::ff00:dede */));
    assert!(!ipv6_128.matches(&v6([0x2600, 0x0, 0x0, 0x0, 0x0, 0x0, 0xff00, 0xdede]) /* 2600::ff00:dede */));
    assert!(!ipv6_128.matches(&v6([0x2600, 0xdb8, 0x0, 0x0, 0x0, 0x0, 0xff00, 0x0]) /* 2600:db8::ff00:0 */));
}

#[test]
fn test_rfc822name() {
    for bad_case in &[
        "",
        // Missing local-part.
        "@example.com",
        " @example.com",
        "  @example.com",
        // Missing domain cases.
        "foo",
        "foo@",
        "foo@ ",
        "foo@  ",
        // Invalid domains.
        "foo@!!!",
        "foo@white space",
        "foo@🙈",
        // Invalid local part (empty mailbox sections).
        ".@example.com",
        "foo.@example.com",
        ".foo@example.com",
        ".foo.@example.com",
        ".f.o.o.@example.com",
        // Invalid local part (@ in mailbox).
        "lol@lol@example.com",
        "lol\\@lol@example.com",
        "example@example.com@example.com",
        "@@example.com",
        // Invalid local part (invalid characters).
        "lol\"lol@example.com",
        "lol;lol@example.com",
        "🙈@example.com",
        // Intentionally unsupported quoted local parts.
        "\"validbutunsupported\"@example.com",
    ] {
        assert!(RFC822Name::new(bad_case).is_none());
    }

    // Each good case is (address, (mailbox, domain)).
    for (address, (mailbox, domain)) in &[
        // Normal mailboxes.
        ("foo@example.com", ("foo", "example.com")),
        ("foo.bar@example.com", ("foo.bar", "example.com")),
        ("foo.bar.baz@example.com", ("foo.bar.baz", "example.com")),
        ("1.2.3.4.5@example.com", ("1.2.3.4.5", "example.com")),
        // Mailboxes with special but valid characters.
        ("{legal}@example.com", ("{legal}", "example.com")),
        ("{&*.legal}@example.com", ("{&*.legal}", "example.com")),
        ("``````````@example.com", ("``````````", "example.com")),
        ("hello?@sub.example.com", ("hello?", "sub.example.com")),
    ] {
        let parsed = RFC822Name::new(&address).unwrap();
        assert_eq!(&parsed.mailbox.as_str(), mailbox);
        assert_eq!(&parsed.domain.as_str(), domain);
    }
}

#[test]
fn test_rfc822constraint_new() {
    for (case, valid) in &[
        // good cases
        ("foo@example.com", true),
        ("foo.bar@example.com", true),
        ("foo!bar@example.com", true),
        ("example.com", true),
        ("sub.example.com", true),
        ("foo@sub.example.com", true),
        ("foo.bar@sub.example.com", true),
        ("foo!bar@sub.example.com", true),
        (".example.com", true),
        (".sub.example.com", true),
        // bad cases
        ("@example.com", false),
        ("@@example.com", false),
        ("foo@.example.com", false),
        (".foo@example.com", false),
        (".foo.@example.com", false),
        ("foo.@example.com", false),
        ("invaliddomain!", false),
        ("..example.com", false),
        ("foo..example.com", false),
        (".foo..example.com", false),
        ("..foo..example.com", false),
    ] {
        assert_eq!(RFC822Constraint::new(case).is_some(), *valid);
    }
}

#[test]
fn test_rfc822constraint_matches() {
    {
        let exact = RFC822Constraint::new("foo@example.com").unwrap();

        // Ordinary exact match.
        assert!(exact.matches(&RFC822Name::new("foo@example.com").unwrap()));
        // Case changes are okay in the domain.
        assert!(exact.matches(&RFC822Name::new("foo@EXAMPLE.com").unwrap()));

        // Case changes are not okay in the mailbox.
        assert!(!exact.matches(&RFC822Name::new("Foo@example.com").unwrap()));
        assert!(!exact.matches(&RFC822Name::new("FOO@example.com").unwrap()));

        // Different mailboxes and domains do not match.
        assert!(!exact.matches(&RFC822Name::new("foo.bar@example.com").unwrap()));
        assert!(!exact.matches(&RFC822Name::new("foo@sub.example.com").unwrap()));
    }

    {
        let on_domain = RFC822Constraint::new("example.com").unwrap();

        // Ordinary domain matches.
        assert!(on_domain.matches(&RFC822Name::new("foo@example.com").unwrap()));
        assert!(on_domain.matches(&RFC822Name::new("bar@example.com").unwrap()));
        assert!(on_domain.matches(&RFC822Name::new("foo.bar@example.com").unwrap()));
        assert!(on_domain.matches(&RFC822Name::new("foo!bar@example.com").unwrap()));
        // Case changes are okay in the domain and in the mailbox,
        // since any mailbox on the domain is okay.
        assert!(on_domain.matches(&RFC822Name::new("foo@EXAMPLE.com").unwrap()));
        assert!(on_domain.matches(&RFC822Name::new("FOO@example.com").unwrap()));

        // Subdomains and other domains do not match.
        assert!(!on_domain.matches(&RFC822Name::new("foo@sub.example.com").unwrap()));
        assert!(!on_domain.matches(&RFC822Name::new("foo@localhost").unwrap()));
    }

    {
        let in_domain = RFC822Constraint::new(".example.com").unwrap();

        // Any subdomain and mailbox matches.
        assert!(in_domain.matches(&RFC822Name::new("foo@sub.example.com").unwrap()));
        assert!(in_domain.matches(&RFC822Name::new("foo@sub.sub.example.com").unwrap()));
        assert!(in_domain.matches(&RFC822Name::new("foo@com.example.example.com").unwrap()));
        assert!(in_domain.matches(&RFC822Name::new("foo.bar@com.example.example.com").unwrap()));
        assert!(in_domain.matches(&RFC822Name::new("foo!bar@com.example.example.com").unwrap()));
        assert!(in_domain.matches(&RFC822Name::new("bar@com.example.example.com").unwrap()));
        // Case changes are okay in the subdomains and in the mailbox, since any mailbox
        // in the domain is okay.
        assert!(in_domain.matches(&RFC822Name::new("foo@SUB.example.com").unwrap()));
        assert!(in_domain.matches(&RFC822Name::new("foo@sub.EXAMPLE.com").unwrap()));
        assert!(in_domain.matches(&RFC822Name::new("foo@sub.example.COM").unwrap()));
        assert!(in_domain.matches(&RFC822Name::new("FOO@sub.example.COM").unwrap()));
        assert!(in_domain.matches(&RFC822Name::new("FOO@sub.example.com").unwrap()));

        // Superdomains and other domains do not match.
        assert!(!in_domain.matches(&RFC822Name::new("foo@example.com").unwrap()));
        assert!(!in_domain.matches(&RFC822Name::new("foo@com").unwrap()));
    }
}
