//! IP addresses and CIDR-style address ranges.
use vstd::prelude::*;

verus! {

/// The number that a sequence of octets spells in network byte order.
pub open spec fn be_value(b: Seq<u8>) -> nat
    decreases b.len(),
{
    if b.len() == 0 {
        0
    } else {
        (be_value(b.drop_last()) * 256 + b.last()) as nat
    }
}

/// 256 to the power `n`.
pub open spec fn pow256(n: nat) -> nat
    decreases n,
{
    if n == 0 {
        1
    } else {
        256 * pow256((n - 1) as nat)
    }
}

proof fn lemma_be_value_bound(b: Seq<u8>)
    ensures
        be_value(b) < pow256(b.len()),
    decreases b.len(),
{
    if b.len() > 0 {
        lemma_be_value_bound(b.drop_last());
    }
}

proof fn lemma_pow256_mono(i: nat, j: nat)
    requires
        i <= j,
    ensures
        pow256(i) <= pow256(j),
    decreases j,
{
    if i < j {
        lemma_pow256_mono(i, (j - 1) as nat);
    }
}

proof fn lemma_pow256_values()
    ensures
        pow256(4) == 0x1_0000_0000,
        pow256(16) == 0x1_0000_0000_0000_0000_0000_0000_0000_0000,
{
    reveal_with_fuel(pow256, 17);
}

/// The number spelled by at most 16 octets in network byte order.
fn be_from_octets(b: &[u8]) -> (v: u128)
    requires
        b@.len() <= 16,
    ensures
        v == be_value(b@),
{
    let mut v: u128 = 0;
    let mut i: usize = 0;
    proof {
        lemma_pow256_values();
        assert(b@.take(0) =~= Seq::<u8>::empty());
    }
    while i < b.len()
        invariant
            i <= b@.len() <= 16,
            v == be_value(b@.take(i as int)),
            v < pow256(i as nat),
            pow256(16) == 0x1_0000_0000_0000_0000_0000_0000_0000_0000,
        decreases b@.len() - i,
    {
        proof {
            assert(b@.take(i + 1).drop_last() =~= b@.take(i as int));
            lemma_pow256_mono((i + 1) as nat, 16);
            assert(pow256((i + 1) as nat) == 256 * pow256(i as nat));
        }
        v = v * 256 + b[i] as u128;
        i = i + 1;
    }
    proof {
        assert(b@.take(i as int) =~= b@);
    }
    v
}

/// Octets appended after others shift the number those spell left by 8 bits
/// per appended octet: network byte order, most significant octet first.
pub proof fn lemma_be_value_append(a: Seq<u8>, b: Seq<u8>)
    ensures
        be_value(a + b) == be_value(a) * pow256(b.len()) + be_value(b),
    decreases b.len(),
{
    if b.len() == 0 {
        assert(a + b =~= a);
        assert(be_value(b) == 0);
        assert(pow256(0) == 1);
    } else {
        let b0 = b.drop_last();
        lemma_be_value_append(a, b0);
        assert(be_value(a + b) == be_value((a + b).drop_last()) * 256 + (a + b).last());
        assert(be_value(b) == be_value(b0) * 256 + b.last());
        assert((a + b).drop_last() =~= a + b0);
        assert((a + b).last() == b.last());
        let x = be_value(a);
        let p = pow256(b0.len());
        assert(pow256(b.len()) == 256 * p);
        assert((x * p + be_value(b0)) * 256 + b.last() == x * (256 * p) + (be_value(b0) * 256
            + b.last())) by (nonlinear_arith);
    }
}

/// Four octets `a.b.c.d` give the IPv4 address `a * 2^24 + b * 2^16 + c * 2^8 + d`.
pub proof fn lemma_ipv4_octets(a: u8, b: u8, c: u8, d: u8)
    ensures
        value_of_octets(seq![a, b, c, d]) == IpValue::V4(
            (a * 16777216 + b * 65536 + c * 256 + d) as u32,
        ),
{
    let s = seq![a, b, c, d];
    assert(s.drop_last() =~= seq![a, b, c]);
    assert(seq![a, b, c].drop_last() =~= seq![a, b]);
    assert(seq![a, b].drop_last() =~= seq![a]);
    assert(seq![a].drop_last() =~= Seq::<u8>::empty());
    assert(be_value(Seq::<u8>::empty()) == 0);
    assert(be_value(seq![a]) == be_value(seq![a].drop_last()) * 256 + a);
    assert(be_value(seq![a]) == a);
    assert(be_value(seq![a, b]) == a * 256 + b);
    assert(be_value(seq![a, b, c]) == (a * 256 + b) * 256 + c);
    assert(be_value(s) == ((a * 256 + b) * 256 + c) * 256 + d);
}

/// The value of an IP address: 32 bits for IPv4, 128 bits for IPv6, most
/// significant bit first.
#[derive(Clone, Copy, Debug, PartialEq, Eq, Structural)]
pub enum IpValue {
    V4(u32),
    V6(u128),
}

/// The address spelled by 4 (IPv4) or 16 (IPv6) octets in network byte order.
pub open spec fn value_of_octets(b: Seq<u8>) -> IpValue {
    if b.len() == 4 {
        IpValue::V4(be_value(b) as u32)
    } else {
        IpValue::V6(be_value(b) as u128)
    }
}

/// The number of bits of an address.
pub open spec fn width(a: IpValue) -> nat {
    match a {
        IpValue::V4(_) => 32,
        IpValue::V6(_) => 128,
    }
}

/// The 32-bit value whose first `p` bits are set and the others clear.
pub open spec fn mask32(p: u32) -> u32 {
    if p >= 32 {
        0xffff_ffffu32
    } else {
        !(0xffff_ffffu32 >> p)
    }
}

/// The 128-bit value whose first `p` bits are set and the others clear.
pub open spec fn mask128(p: u128) -> u128 {
    if p >= 128 {
        0xffff_ffff_ffff_ffff_ffff_ffff_ffff_ffffu128
    } else {
        !(0xffff_ffff_ffff_ffff_ffff_ffff_ffff_ffffu128 >> p)
    }
}

/// The address with only its first `p` bits kept.
pub open spec fn masked(a: IpValue, p: u8) -> IpValue {
    match a {
        IpValue::V4(x) => IpValue::V4(x & mask32(p as u32)),
        IpValue::V6(x) => IpValue::V6(x & mask128(p as u128)),
    }
}

/// The address is a network mask of `p` bits: its first `p` bits are set,
/// all others clear.
pub open spec fn is_netmask(a: IpValue, p: u8) -> bool {
    match a {
        IpValue::V4(x) => p <= 32 && x == mask32(p as u32),
        IpValue::V6(x) => p <= 128 && x == mask128(p as u128),
    }
}

/// The prefix length of an address that is a network mask, if it is one.
pub open spec fn prefix_of(a: IpValue) -> Option<u8> {
    if exists|p: u8| is_netmask(a, p) {
        Some(choose|p: u8| is_netmask(a, p))
    } else {
        None
    }
}

/// The number of leading one bits of `x`.
fn leading_ones_u32(x: u32) -> (l: u32)
    ensures
        l <= 32,
        x & mask32(l) == mask32(l),
        l == 32 || (x >> ((31 - l) as u32)) & 1 == 0,
{
    let mut l: u32 = 0;
    assert(x & mask32(0) == mask32(0)) by (bit_vector);
    while l < 32 && (x >> (31 - l)) & 1 == 1
        invariant
            l <= 32,
            x & mask32(l) == mask32(l),
        decreases 32 - l,
    {
        assert(x & mask32((l + 1) as u32) == mask32((l + 1) as u32)) by (bit_vector)
            requires
                l < 32,
                x & mask32(l) == mask32(l),
                (x >> ((31 - l) as u32)) & 1 == 1,
        ;
        l = l + 1;
    }
    assert(l == 32 || (x >> ((31 - l) as u32)) & 1 == 0) by (bit_vector)
        requires
            l <= 32,
            l == 32 || (x >> ((31 - l) as u32)) & 1 != 1,
    ;
    l
}

/// The number of leading one bits of `x`.
fn leading_ones_u128(x: u128) -> (l: u128)
    ensures
        l <= 128,
        x & mask128(l) == mask128(l),
        l == 128 || (x >> ((127 - l) as u128)) & 1 == 0,
{
    let mut l: u128 = 0;
    assert(x & mask128(0) == mask128(0)) by (bit_vector);
    while l < 128 && (x >> (127 - l)) & 1 == 1
        invariant
            l <= 128,
            x & mask128(l) == mask128(l),
        decreases 128 - l,
    {
        assert(x & mask128((l + 1) as u128) == mask128((l + 1) as u128)) by (bit_vector)
            requires
                l < 128,
                x & mask128(l) == mask128(l),
                (x >> ((127 - l) as u128)) & 1 == 1,
        ;
        l = l + 1;
    }
    assert(l == 128 || (x >> ((127 - l) as u128)) & 1 == 0) by (bit_vector)
        requires
            l <= 128,
            l == 128 || (x >> ((127 - l) as u128)) & 1 != 1,
    ;
    l
}

/// The mask of the first `prefix` bits of a 32-bit value: all ones shifted
/// right, then left, by the number of bits past the prefix.
fn prefix_mask_u32(prefix: u8) -> (m: u32)
    ensures
        m == mask32(prefix as u32),
{
    let k = 32u8.saturating_sub(prefix) as u32;
    let m = if k < 32 {
        (u32::MAX >> k) << k
    } else {
        0
    };
    assert(m == mask32(prefix as u32)) by (bit_vector)
        requires
            k == (if prefix >= 32 {
                0u32
            } else {
                (32 - prefix) as u32
            }),
            m == (if k < 32 {
                (0xffff_ffffu32 >> k) << k
            } else {
                0u32
            }),
    ;
    m
}

/// The mask of the first `prefix` bits of a 128-bit value.
fn prefix_mask_u128(prefix: u8) -> (m: u128)
    ensures
        m == mask128(prefix as u128),
{
    let k = 128u8.saturating_sub(prefix) as u128;
    let m = if k < 128 {
        (u128::MAX >> k) << k
    } else {
        0
    };
    assert(m == mask128(prefix as u128)) by (bit_vector)
        requires
            k == (if prefix >= 128 {
                0u128
            } else {
                (128 - prefix) as u128
            }),
            m == (if k < 128 {
                (0xffff_ffff_ffff_ffff_ffff_ffff_ffff_ffffu128 >> k) << k
            } else {
                0u128
            }),
    ;
    m
}

/// A network mask has a single prefix length.
pub proof fn lemma_netmask_unique(a: IpValue, p: u8, q: u8)
    requires
        is_netmask(a, p),
        is_netmask(a, q),
    ensures
        p == q,
{
    match a {
        IpValue::V4(x) => {
            let pp = p as u32;
            let qq = q as u32;
            assert(pp == qq) by (bit_vector)
                requires
                    pp <= 32,
                    qq <= 32,
                    mask32(pp) == mask32(qq),
            ;
        },
        IpValue::V6(x) => {
            let pp = p as u128;
            let qq = q as u128;
            assert(pp == qq) by (bit_vector)
                requires
                    pp <= 128,
                    qq <= 128,
                    mask128(pp) == mask128(qq),
            ;
        },
    }
}

/// Keeping the first `p` bits of an address twice is keeping them once; so
/// the network address of a range is inside the range.
pub proof fn lemma_masked_idempotent(a: IpValue, p: u8)
    ensures
        masked(masked(a, p), p) == masked(a, p),
{
    match a {
        IpValue::V4(x) => {
            let m = mask32(p as u32);
            assert((x & m) & m == x & m) by (bit_vector);
        },
        IpValue::V6(x) => {
            let m = mask128(p as u128);
            assert((x & m) & m == x & m) by (bit_vector);
        },
    }
}

/// Keeping at least as many bits as an address has leaves it unchanged;
/// keeping none clears it; the result is of the same kind as the address.
pub proof fn lemma_masked_extremes(a: IpValue, p: u8)
    ensures
        p as nat >= width(a) ==> masked(a, p) == a,
        masked(a, 0) == (match a {
            IpValue::V4(_) => IpValue::V4(0),
            IpValue::V6(_) => IpValue::V6(0),
        }),
        width(masked(a, p)) == width(a),
{
    match a {
        IpValue::V4(x) => {
            let pp = p as u32;
            assert(pp >= 32 ==> x & mask32(pp) == x) by (bit_vector);
            assert(x & mask32(0) == 0) by (bit_vector);
        },
        IpValue::V6(x) => {
            let pp = p as u128;
            assert(pp >= 128 ==> x & mask128(pp) == x) by (bit_vector);
            assert(x & mask128(0) == 0) by (bit_vector);
        },
    }
}

/// A network mask of `p` bits has prefix length `p`.
pub proof fn lemma_prefix_of_netmask(a: IpValue, p: u8)
    requires
        is_netmask(a, p),
    ensures
        prefix_of(a) == Some(p),
{
    let q = choose|q: u8| is_netmask(a, q);
    lemma_netmask_unique(a, q, p);
}

/// Bit `i` of a 32-bit value, counting from the most significant bit (bit 0).
pub open spec fn bit32(x: u32, i: u32) -> bool {
    (x >> ((31 - i) as u32)) & 1 == 1
}

/// The bits of the mask of `p` bits: the first `p` set, the others clear.
proof fn lemma_mask32_bits(p: u32, i: u32)
    requires
        p <= 32,
        i < 32,
    ensures
        bit32(mask32(p), i) == (i < p),
{
    let m = mask32(p);
    assert(((m >> ((31 - i) as u32)) & 1 == 1) == (i < p)) by (bit_vector)
        requires
            p <= 32,
            i < 32,
            m == (if p >= 32 {
                0xffff_ffffu32
            } else {
                !(0xffff_ffffu32 >> p)
            }),
    ;
}

/// Values with the same bits from bit `31 - s` down are equal once shifted
/// right by `s`.
proof fn lemma_bits32_ext_from(x: u32, y: u32, s: u32)
    requires
        s < 32,
        forall|i: u32| i < 32 ==> #[trigger] bit32(x, i) == bit32(y, i),
    ensures
        x >> s == y >> s,
    decreases 31 - s,
{
    let i = (31 - s) as u32;
    assert(bit32(x, i) == bit32(y, i));
    if s == 31 {
        assert(x >> s == y >> s) by (bit_vector)
            requires
                s == 31,
                ((x >> s) & 1 == 1) == ((y >> s) & 1 == 1),
        ;
    } else {
        lemma_bits32_ext_from(x, y, (s + 1) as u32);
        let t = (s + 1) as u32;
        assert(x >> s == y >> s) by (bit_vector)
            requires
                s < 31,
                t == s + 1,
                x >> t == y >> t,
                ((x >> s) & 1 == 1) == ((y >> s) & 1 == 1),
        ;
    }
}

/// Values with the same bits are equal.
proof fn lemma_bits32_ext(x: u32, y: u32)
    requires
        forall|i: u32| i < 32 ==> #[trigger] bit32(x, i) == bit32(y, i),
    ensures
        x == y,
{
    lemma_bits32_ext_from(x, y, 0);
    assert(x == y) by (bit_vector)
        requires
            x >> 0u32 == y >> 0u32,
    ;
}

/// The index of the first clear bit of `x` at or after bit `i` (32 when none).
spec fn first_clear32(x: u32, i: u32) -> u32
    decreases 32 - i,
{
    if i >= 32 {
        32
    } else if !bit32(x, i) {
        i
    } else {
        first_clear32(x, (i + 1) as u32)
    }
}

proof fn lemma_first_clear32(x: u32, i: u32)
    requires
        i <= 32,
    ensures
        i <= first_clear32(x, i) <= 32,
        first_clear32(x, i) < 32 ==> !bit32(x, first_clear32(x, i)),
        forall|j: u32| i <= j < first_clear32(x, i) ==> #[trigger] bit32(x, j),
    decreases 32 - i,
{
    if i < 32 && bit32(x, i) {
        lemma_first_clear32(x, (i + 1) as u32);
    }
}

/// A 32-bit value is the mask of `p` bits exactly when its first `p` bits
/// are set and the others clear; it is the mask of no length exactly when
/// a set bit comes after a clear bit.
pub proof fn lemma_netmask32_bits(x: u32, p: u32)
    ensures
        (p <= 32 && x == mask32(p)) == (p <= 32 && forall|i: u32|
            i < 32 ==> (#[trigger] bit32(x, i) == (i < p))),
        (forall|q: u32| q <= 32 ==> x != #[trigger] mask32(q)) == (exists|i: u32, j: u32|
            i < j < 32 && !#[trigger] bit32(x, i) && #[trigger] bit32(x, j)),
{
    if p <= 32 && x == mask32(p) {
        assert forall|i: u32| i < 32 implies (#[trigger] bit32(x, i) == (i < p)) by {
            lemma_mask32_bits(p, i);
        }
    }
    if p <= 32 && forall|i: u32| i < 32 ==> (#[trigger] bit32(x, i) == (i < p)) {
        assert forall|i: u32| i < 32 implies #[trigger] bit32(x, i) == bit32(mask32(p), i) by {
            lemma_mask32_bits(p, i);
        }
        lemma_bits32_ext(x, mask32(p));
    }
    if exists|i: u32, j: u32| i < j < 32 && !#[trigger] bit32(x, i) && #[trigger] bit32(x, j) {
        let (i, j) = choose|i: u32, j: u32|
            i < j < 32 && !#[trigger] bit32(x, i) && #[trigger] bit32(x, j);
        assert forall|q: u32| q <= 32 implies x != #[trigger] mask32(q) by {
            if x == mask32(q) {
                lemma_mask32_bits(q, i);
                lemma_mask32_bits(q, j);
            }
        }
    } else {
        lemma_first_clear32(x, 0);
        let f = first_clear32(x, 0);
        assert forall|i: u32| i < 32 implies #[trigger] bit32(x, i) == bit32(mask32(f), i) by {
            lemma_mask32_bits(f, i);
            if i > f && bit32(x, i) {
                assert(!bit32(x, f) && bit32(x, i));
            }
        }
        lemma_bits32_ext(x, mask32(f));
        assert(x == mask32(f));
    }
}

/// Bit `i` of a 128-bit value, counting from the most significant bit (bit 0).
pub open spec fn bit128(x: u128, i: u128) -> bool {
    (x >> ((127 - i) as u128)) & 1 == 1
}

/// The bits of the mask of `p` bits: the first `p` set, the others clear.
proof fn lemma_mask128_bits(p: u128, i: u128)
    requires
        p <= 128,
        i < 128,
    ensures
        bit128(mask128(p), i) == (i < p),
{
    let m = mask128(p);
    assert(((m >> ((127 - i) as u128)) & 1 == 1) == (i < p)) by (bit_vector)
        requires
            p <= 128,
            i < 128,
            m == (if p >= 128 {
                0xffff_ffff_ffff_ffff_ffff_ffff_ffff_ffffu128
            } else {
                !(0xffff_ffff_ffff_ffff_ffff_ffff_ffff_ffffu128 >> p)
            }),
    ;
}

/// Values with the same bits from bit `127 - s` down are equal once shifted
/// right by `s`.
proof fn lemma_bits128_ext_from(x: u128, y: u128, s: u128)
    requires
        s < 128,
        forall|i: u128| i < 128 ==> #[trigger] bit128(x, i) == bit128(y, i),
    ensures
        x >> s == y >> s,
    decreases 127 - s,
{
    let i = (127 - s) as u128;
    assert(bit128(x, i) == bit128(y, i));
    if s == 127 {
        assert(x >> s == y >> s) by (bit_vector)
            requires
                s == 127,
                ((x >> s) & 1 == 1) == ((y >> s) & 1 == 1),
        ;
    } else {
        lemma_bits128_ext_from(x, y, (s + 1) as u128);
        let t = (s + 1) as u128;
        assert(x >> s == y >> s) by (bit_vector)
            requires
                s < 127,
                t == s + 1,
                x >> t == y >> t,
                ((x >> s) & 1 == 1) == ((y >> s) & 1 == 1),
        ;
    }
}

/// Values with the same bits are equal.
proof fn lemma_bits128_ext(x: u128, y: u128)
    requires
        forall|i: u128| i < 128 ==> #[trigger] bit128(x, i) == bit128(y, i),
    ensures
        x == y,
{
    lemma_bits128_ext_from(x, y, 0);
    assert(x == y) by (bit_vector)
        requires
            x >> 0u128 == y >> 0u128,
    ;
}

/// The index of the first clear bit of `x` at or after bit `i` (128 when none).
spec fn first_clear128(x: u128, i: u128) -> u128
    decreases 128 - i,
{
    if i >= 128 {
        128
    } else if !bit128(x, i) {
        i
    } else {
        first_clear128(x, (i + 1) as u128)
    }
}

proof fn lemma_first_clear128(x: u128, i: u128)
    requires
        i <= 128,
    ensures
        i <= first_clear128(x, i) <= 128,
        first_clear128(x, i) < 128 ==> !bit128(x, first_clear128(x, i)),
        forall|j: u128| i <= j < first_clear128(x, i) ==> #[trigger] bit128(x, j),
    decreases 128 - i,
{
    if i < 128 && bit128(x, i) {
        lemma_first_clear128(x, (i + 1) as u128);
    }
}

/// A 128-bit value is the mask of `p` bits exactly when its first `p` bits
/// are set and the others clear; it is the mask of no length exactly when
/// a set bit comes after a clear bit.
pub proof fn lemma_netmask128_bits(x: u128, p: u128)
    ensures
        (p <= 128 && x == mask128(p)) == (p <= 128 && forall|i: u128|
            i < 128 ==> (#[trigger] bit128(x, i) == (i < p))),
        (forall|q: u128| q <= 128 ==> x != #[trigger] mask128(q)) == (exists|i: u128, j: u128|
            i < j < 128 && !#[trigger] bit128(x, i) && #[trigger] bit128(x, j)),
{
    if p <= 128 && x == mask128(p) {
        assert forall|i: u128| i < 128 implies (#[trigger] bit128(x, i) == (i < p)) by {
            lemma_mask128_bits(p, i);
        }
    }
    if p <= 128 && forall|i: u128| i < 128 ==> (#[trigger] bit128(x, i) == (i < p)) {
        assert forall|i: u128| i < 128 implies #[trigger] bit128(x, i) == bit128(mask128(p), i) by {
            lemma_mask128_bits(p, i);
        }
        lemma_bits128_ext(x, mask128(p));
    }
    if exists|i: u128, j: u128| i < j < 128 && !#[trigger] bit128(x, i) && #[trigger] bit128(x, j) {
        let (i, j) = choose|i: u128, j: u128|
            i < j < 128 && !#[trigger] bit128(x, i) && #[trigger] bit128(x, j);
        assert forall|q: u128| q <= 128 implies x != #[trigger] mask128(q) by {
            if x == mask128(q) {
                lemma_mask128_bits(q, i);
                lemma_mask128_bits(q, j);
            }
        }
    } else {
        lemma_first_clear128(x, 0);
        let f = first_clear128(x, 0);
        assert forall|i: u128| i < 128 implies #[trigger] bit128(x, i) == bit128(mask128(f), i) by {
            lemma_mask128_bits(f, i);
            if i > f && bit128(x, i) {
                assert(!bit128(x, f) && bit128(x, i));
            }
        }
        lemma_bits128_ext(x, mask128(f));
        assert(x == mask128(f));
    }
}
/// Bit `i` of an address, counting from the most significant bit (bit 0).
pub open spec fn addr_bit(a: IpValue, i: int) -> bool {
    match a {
        IpValue::V4(x) => bit32(x, i as u32),
        IpValue::V6(x) => bit128(x, i as u128),
    }
}

/// An address has prefix length `n` exactly when `n` is at most its width
/// and its first `n` bits are set and the others clear; it has none exactly
/// when a set bit comes after a clear bit.
pub proof fn lemma_prefix_of_bits(a: IpValue, n: u8)
    ensures
        (prefix_of(a) == Some(n)) == (n <= width(a) && forall|i: int|
            0 <= i < width(a) ==> (#[trigger] addr_bit(a, i) == (i < n))),
        (prefix_of(a) is None) == (exists|i: int, j: int|
            0 <= i < j < width(a) && !#[trigger] addr_bit(a, i) && #[trigger] addr_bit(a, j)),
{
    if prefix_of(a) == Some(n) {
        let q = choose|q: u8| is_netmask(a, q);
        assert(is_netmask(a, n));
    }
    if is_netmask(a, n) {
        lemma_prefix_of_netmask(a, n);
    }
    if exists|p: u8| is_netmask(a, p) {
        let q = choose|q: u8| is_netmask(a, q);
        assert(prefix_of(a) is Some);
    }
    match a {
        IpValue::V4(x) => {
            lemma_netmask32_bits(x, n as u32);
            let bits_u = forall|i: u32| i < 32 ==> (#[trigger] bit32(x, i) == (i < n as u32));
            let bits_i = forall|i: int| 0 <= i < 32 ==> (#[trigger] addr_bit(a, i) == (i < n));
            if bits_u {
                assert forall|i: int| 0 <= i < 32 implies (#[trigger] addr_bit(a, i) == (i < n)) by {
                    assert(bit32(x, i as u32) == ((i as u32) < n as u32));
                }
            }
            if bits_i {
                assert forall|i: u32| i < 32 implies (#[trigger] bit32(x, i) == (i < n as u32)) by {
                    assert(addr_bit(a, i as int) == (i < n));
                }
            }
            let none_u = forall|q: u32| q <= 32 ==> x != #[trigger] mask32(q);
            if none_u {
                assert forall|p: u8| !is_netmask(a, p) by {
                    if p <= 32 {
                        assert(x != mask32(p as u32));
                    }
                }
            } else {
                let q = choose|q: u32| !(q <= 32 ==> x != #[trigger] mask32(q));
                assert(is_netmask(a, q as u8));
            }
            let ex_u = exists|i: u32, j: u32| i < j < 32 && !#[trigger] bit32(x, i) && #[trigger] bit32(x, j);
            if ex_u {
                let (i, j) = choose|i: u32, j: u32| i < j < 32 && !#[trigger] bit32(x, i) && #[trigger] bit32(x, j);
                assert(!addr_bit(a, i as int) && addr_bit(a, j as int));
            }
            if exists|i: int, j: int| 0 <= i < j < 32 && !#[trigger] addr_bit(a, i) && #[trigger] addr_bit(a, j) {
                let (i, j) = choose|i: int, j: int| 0 <= i < j < 32 && !#[trigger] addr_bit(a, i) && #[trigger] addr_bit(a, j);
                assert(!bit32(x, i as u32) && bit32(x, j as u32));
            }
        },
        IpValue::V6(x) => {
            lemma_netmask128_bits(x, n as u128);
            let bits_u = forall|i: u128| i < 128 ==> (#[trigger] bit128(x, i) == (i < n as u128));
            let bits_i = forall|i: int| 0 <= i < 128 ==> (#[trigger] addr_bit(a, i) == (i < n));
            if bits_u {
                assert forall|i: int| 0 <= i < 128 implies (#[trigger] addr_bit(a, i) == (i < n)) by {
                    assert(bit128(x, i as u128) == ((i as u128) < n as u128));
                }
            }
            if bits_i {
                assert forall|i: u128| i < 128 implies (#[trigger] bit128(x, i) == (i < n as u128)) by {
                    assert(addr_bit(a, i as int) == (i < n));
                }
            }
            let none_u = forall|q: u128| q <= 128 ==> x != #[trigger] mask128(q);
            if none_u {
                assert forall|p: u8| !is_netmask(a, p) by {
                    if p <= 128 {
                        assert(x != mask128(p as u128));
                    }
                }
            } else {
                let q = choose|q: u128| !(q <= 128 ==> x != #[trigger] mask128(q));
                assert(is_netmask(a, q as u8));
            }
            let ex_u = exists|i: u128, j: u128| i < j < 128 && !#[trigger] bit128(x, i) && #[trigger] bit128(x, j);
            if ex_u {
                let (i, j) = choose|i: u128, j: u128| i < j < 128 && !#[trigger] bit128(x, i) && #[trigger] bit128(x, j);
                assert(!addr_bit(a, i as int) && addr_bit(a, j as int));
            }
            if exists|i: int, j: int| 0 <= i < j < 128 && !#[trigger] addr_bit(a, i) && #[trigger] addr_bit(a, j) {
                let (i, j) = choose|i: int, j: int| 0 <= i < j < 128 && !#[trigger] addr_bit(a, i) && #[trigger] addr_bit(a, j);
                assert(!bit128(x, i as u128) && bit128(x, j as u128));
            }
        },
    }
}

/// An IP address (IPv4 or IPv6).
#[derive(Clone, Copy, Debug, PartialEq, Eq, Structural)]
pub struct IPAddress(IpValue);

impl View for IPAddress {
    type V = IpValue;

    closed spec fn view(&self) -> IpValue {
        self.0
    }
}

impl IPAddress {
    /// 4 octets give an IPv4 address and 16 octets an IPv6 address, in
    /// network byte order; other lengths give `None`.
    pub fn from_bytes(b: &[u8]) -> (res: Option<IPAddress>)
        ensures
            res is Some <==> (b@.len() == 4 || b@.len() == 16),
            res matches Some(a) ==> a@ == value_of_octets(b@),
    {
        proof {
            lemma_be_value_bound(b@);
            lemma_pow256_values();
        }
        if b.len() == 4 {
            let v = be_from_octets(b);
            Some(IPAddress(IpValue::V4(v as u32)))
        } else if b.len() == 16 {
            let v = be_from_octets(b);
            Some(IPAddress(IpValue::V6(v)))
        } else {
            None
        }
    }

    /// If the address is a network mask (its set bits form one run that
    /// starts at the most significant bit), the number of set bits.
    pub fn as_prefix(&self) -> (res: Option<u8>)
        ensures
            res == prefix_of(self@),
            res matches Some(p) ==> is_netmask(self@, p),
            res is None ==> forall|p: u8| !is_netmask(self@, p),
    {
        let a = self.0;
        let (found, len) = match a {
            IpValue::V4(x) => {
                let l = leading_ones_u32(x);
                let m = prefix_mask_u32(l as u8);
                proof {
                    assert forall|p: u8| is_netmask(a, p) implies p as u32 == l by {
                        let pp = p as u32;
                        assert(pp == l) by (bit_vector)
                            requires
                                pp <= 32,
                                x == mask32(pp),
                                l <= 32,
                                x & mask32(l) == mask32(l),
                                l == 32 || (x >> ((31 - l) as u32)) & 1 == 0,
                        ;
                    }
                }
                (x == m, l as u8)
            },
            IpValue::V6(x) => {
                let l = leading_ones_u128(x);
                let m = prefix_mask_u128(l as u8);
                proof {
                    assert forall|p: u8| is_netmask(a, p) implies p as u128 == l by {
                        let pp = p as u128;
                        assert(pp == l) by (bit_vector)
                            requires
                                pp <= 128,
                                x == mask128(pp),
                                l <= 128,
                                x & mask128(l) == mask128(l),
                                l == 128 || (x >> ((127 - l) as u128)) & 1 == 0,
                        ;
                    }
                }
                (x == m, l as u8)
            },
        };
        if found {
            proof {
                assert(is_netmask(a, len));
                let q = choose|p: u8| is_netmask(a, p);
                lemma_netmask_unique(a, q, len);
            }
            Some(len)
        } else {
            None
        }
    }

    /// The address with only its first `prefix` bits kept (all of them when
    /// `prefix` is at least the width of the address).
    pub fn mask(&self, prefix: u8) -> (res: IPAddress)
        ensures
            res@ == masked(self@, prefix),
    {
        match self.0 {
            IpValue::V4(a) => IPAddress(IpValue::V4(a & prefix_mask_u32(prefix))),
            IpValue::V6(a) => IPAddress(IpValue::V6(a & prefix_mask_u128(prefix))),
        }
    }
}

/// The first half of the octets that encode an address range: the address.
pub open spec fn address_octets(b: Seq<u8>) -> Seq<u8> {
    b.take(b.len() as int / 2)
}

/// The second half of the octets that encode an address range: the mask.
pub open spec fn mask_octets(b: Seq<u8>) -> Seq<u8> {
    b.skip(b.len() as int / 2)
}

/// A CIDR-style IP address range: a network address and a prefix length.
#[derive(Debug, PartialEq, Eq, Structural)]
pub struct IPConstraint {
    address: IPAddress,
    prefix: u8,
}

impl IPConstraint {
    /// The network address of the range.
    pub closed spec fn network(&self) -> IpValue {
        self.address@
    }

    /// The prefix length of the range.
    pub closed spec fn prefix_len(&self) -> u8 {
        self.prefix
    }

    /// 8 octets (IPv4) or 32 octets (IPv6): an address, then a network mask.
    /// The mask must be a single run of set bits from the most significant
    /// bit; the range is the address kept to the mask's prefix length.
    pub fn from_bytes(b: &[u8]) -> (res: Option<IPConstraint>)
        ensures
            res is Some <==> ((b@.len() == 8 || b@.len() == 32) && prefix_of(
                value_of_octets(mask_octets(b@)),
            ) is Some),
            res matches Some(c) ==> Some(c.prefix_len()) == prefix_of(
                value_of_octets(mask_octets(b@)),
            ),
            res matches Some(c) ==> c.network() == masked(
                value_of_octets(address_octets(b@)),
                c.prefix_len(),
            ),
    {
        let n = b.len();
        let slice_idx: usize = if n == 8 {
            4
        } else if n == 32 {
            16
        } else {
            return None;
        };
        let mask_part = vstd::slice::slice_subrange(b, slice_idx, n);
        let addr_part = vstd::slice::slice_subrange(b, 0, slice_idx);
        proof {
            assert(mask_part@ =~= mask_octets(b@));
            assert(addr_part@ =~= address_octets(b@));
        }
        let prefix = match IPAddress::from_bytes(mask_part) {
            Some(m) => match m.as_prefix() {
                Some(p) => p,
                None => return None,
            },
            None => return None,
        };
        let address = match IPAddress::from_bytes(addr_part) {
            Some(a) => a.mask(prefix),
            None => return None,
        };
        Some(IPConstraint { address, prefix })
    }

    /// Whether `addr`, kept to the range's prefix length, is the network
    /// address.
    pub fn matches(&self, addr: &IPAddress) -> (res: bool)
        ensures
            res == (self.network() == masked(addr@, self.prefix_len())),
    {
        self.address == addr.mask(self.prefix)
    }
}

} // verus!
