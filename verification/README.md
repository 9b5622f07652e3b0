# cryptography-x509-verification name types

Verified types for X.509 name matching:

- `src/text.rs`: character classes, ASCII case folding, and `split`, the
  specification of cutting text at a separator, with its lemmas; the
  byte-level checks on ASCII text used by the other modules.
- `src/ia5.rs`: `IA5String`, ASCII-only text (the check is made by the
  `asn1` crate).
- `src/dns.rs`: `DNSName`, `DNSPattern` (exact or `*.` wildcard) and
  `DNSConstraint`, with the laws of name matching.
- `src/ip.rs`: `IPAddress` (IPv4/IPv6 as 32/128-bit values), network masks,
  and `IPConstraint` (CIDR ranges).
- `src/rfc822.rs`: `RFC822Name` (`mailbox@domain`) and `RFC822Constraint`.
- `app/lib.rs`: conversions from `std::net` addresses and IP address text.
