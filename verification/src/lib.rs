//! Name and address types used in X.509 name matching: DNS names, DNS
//! wildcard patterns and name constraints, IP addresses and CIDR ranges,
//! and RFC 822 mailboxes and their constraints.
pub mod text;
pub mod ia5;
pub mod dns;
pub mod ip;
pub mod rfc822;

pub use dns::{DNSConstraint, DNSName, DNSPattern};
pub use ia5::IA5String;
pub use ip::{IPAddress, IPConstraint};
pub use rfc822::{RFC822Constraint, RFC822Name};
