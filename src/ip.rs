//! IP addresses and CIDR networks as plain integers, with the block arithmetic
//! that classification needs.

use vstd::arithmetic::div_mod::lemma_fundamental_div_mod;
use vstd::arithmetic::power2::{lemma2_to64, lemma_pow2_adds, lemma_pow2_pos, lemma_pow2_strictly_increases, lemma_pow2_unfold, pow2};
use vstd::prelude::*;
use vstd::string::*;

verus! {

/// An IP address: an IPv4 address as its 32-bit value, an IPv6 address as
/// its 128-bit value.
#[derive(Clone, Copy, PartialEq, Eq, Structural, PartialOrd, Ord, Hash, Debug)]
pub enum IpAddr {
    V4(u32),
    V6(u128),
}

/// A CIDR network: an address and a prefix length. The address may carry
/// host bits (`10.0.0.5/24` is kept as written).
#[derive(Clone, Copy, PartialEq, Eq, Structural, PartialOrd, Ord, Hash, Debug)]
pub struct IpNet {
    pub addr: IpAddr,
    pub prefix_len: u8,
}

/// Width in bits of an address family.
pub open spec fn family_bits(a: IpAddr) -> nat {
    match a {
        IpAddr::V4(_) => 32,
        IpAddr::V6(_) => 128,
    }
}

/// The numeric value of an address.
pub open spec fn addr_value(a: IpAddr) -> nat {
    match a {
        IpAddr::V4(x) => x as nat,
        IpAddr::V6(x) => x as nat,
    }
}

pub open spec fn same_family(a: IpAddr, b: IpAddr) -> bool {
    family_bits(a) == family_bits(b)
}

/// The address of family `like` whose value is `v`.
pub open spec fn addr_of_family(like: IpAddr, v: int) -> IpAddr {
    match like {
        IpAddr::V4(_) => IpAddr::V4(v as u32),
        IpAddr::V6(_) => IpAddr::V6(v as u128),
    }
}

impl IpNet {
    /// The prefix length fits the address family.
    pub open spec fn wf(self) -> bool {
        self.prefix_len as nat <= family_bits(self.addr)
    }

    /// Number of host bits: the family width less the prefix length.
    pub open spec fn host_bits(self) -> nat {
        (family_bits(self.addr) - self.prefix_len as nat) as nat
    }

    /// Number of addresses in the block.
    pub open spec fn size(self) -> nat {
        pow2(self.host_bits())
    }

    /// Value of the block's first address (the network address).
    pub open spec fn first(self) -> nat {
        (addr_value(self.addr) / self.size()) * self.size()
    }

    /// Value of the block's last address (the broadcast address).
    pub open spec fn last(self) -> int {
        self.first() + self.size() - 1
    }

    /// The block holds address `a`.
    pub open spec fn holds_addr(self, a: IpAddr) -> bool {
        &&& same_family(self.addr, a)
        &&& self.first() <= addr_value(a) <= self.last()
    }

    /// The block holds the whole block of `m`.
    pub open spec fn holds_net(self, m: IpNet) -> bool {
        &&& same_family(self.addr, m.addr)
        &&& self.first() <= m.first()
        &&& m.last() <= self.last()
    }
}

/// Largest prefix length of the family of `a`.
pub fn max_prefix_len(a: &IpAddr) -> (r: u8)
    ensures
        r as nat == family_bits(*a),
{
    match a {
        IpAddr::V4(_) => 32,
        IpAddr::V6(_) => 128,
    }
}

proof fn lemma_pow2_facts()
    ensures
        pow2(32) == 0x1_0000_0000nat,
        pow2(128) == 0x1_0000_0000_0000_0000_0000_0000_0000_0000nat,
{
    lemma2_to64();
    vstd::arithmetic::power2::lemma_pow2_adds(64, 64);
}

/// Membership of `v` in the block of `n`, stated by division.
proof fn lemma_block_by_div(n: IpNet, v: nat)
    requires
        n.wf(),
    ensures
        (n.first() <= v <= n.last()) <==> v / n.size() == addr_value(n.addr) / n.size(),
{
    let s = n.size() as int;
    lemma_pow2_pos(n.host_bits());
    let q = addr_value(n.addr) as int / s;
    lemma_fundamental_div_mod(v as int, s);
    lemma_fundamental_div_mod(addr_value(n.addr) as int, s);
    assert(n.first() == q * s);
    if q * s <= v <= q * s + s - 1 {
        vstd::arithmetic::div_mod::lemma_div_multiples_vanish_fancy(q, (v - q * s) as int, s);
        assert(v as int == s * q + (v - q * s));
    }
    if v / n.size() == q {
        assert(v as int == s * q + (v as int) % s);
    }
}

/// Values of the two families stay below the family's size.
proof fn lemma_value_bound(a: IpAddr)
    ensures
        addr_value(a) < pow2(family_bits(a)),
{
    lemma_pow2_facts();
}

/// `2^h`, for `h` below 128.
fn pow2_u128(h: u8) -> (r: u128)
    requires
        h < 128,
    ensures
        r as nat == pow2(h as nat),
{
    let mut r: u128 = 1;
    let mut i: u8 = 0;
    proof {
        vstd::arithmetic::power2::lemma_pow2(0);
        vstd::arithmetic::power2::lemma2_to64();
    }
    while i < h
        invariant
            i <= h < 128,
            r as nat == pow2(i as nat),
        decreases h - i,
    {
        proof {
            lemma_pow2_unfold((i + 1) as nat);
            lemma_pow2_strictly_increases((i + 1) as nat, 128);
            lemma_pow2_facts();
        }
        r = r * 2;
        i = i + 1;
    }
    r
}

/// The value of an address, widened.
fn value_u128(a: &IpAddr) -> (r: u128)
    ensures
        r as nat == addr_value(*a),
{
    match a {
        IpAddr::V4(x) => *x as u128,
        IpAddr::V6(x) => *x,
    }
}

/// Whether the block of `n` holds address `a` (containment of an address in
/// a network).
pub fn net_contains_addr(n: &IpNet, a: &IpAddr) -> (r: bool)
    requires
        n.wf(),
    ensures
        r == n.holds_addr(*a),
{
    if max_prefix_len(&n.addr) != max_prefix_len(a) {
        return false;
    }
    let h: u8 = max_prefix_len(&n.addr) - n.prefix_len;
    let x = value_u128(&n.addr);
    let y = value_u128(a);
    proof {
        lemma_block_by_div(*n, addr_value(*a));
        lemma_pow2_facts();
    }
    if h == 128 {
        proof {
            vstd::arithmetic::div_mod::lemma_basic_div(x as int, pow2(128) as int);
            vstd::arithmetic::div_mod::lemma_basic_div(y as int, pow2(128) as int);
        }
        true
    } else {
        let s = pow2_u128(h);
        proof {
            lemma_pow2_pos(h as nat);
        }
        x / s == y / s
    }
}

/// Whether the block of `n` holds the whole block of `m` (containment of a
/// network in a network).
pub fn net_contains_net(n: &IpNet, m: &IpNet) -> (r: bool)
    requires
        n.wf(),
        m.wf(),
    ensures
        r == n.holds_net(*m),
{
    if max_prefix_len(&n.addr) != max_prefix_len(&m.addr) {
        return false;
    }
    proof {
        lemma_block_nesting(*n, *m);
    }
    if m.prefix_len < n.prefix_len {
        false
    } else {
        net_contains_addr(n, &m.addr)
    }
}

/// A block lies inside another of the same family exactly when its prefix is
/// no shorter and its address lies inside the other.
proof fn lemma_block_nesting(n: IpNet, m: IpNet)
    requires
        n.wf(),
        m.wf(),
        same_family(n.addr, m.addr),
    ensures
        n.holds_net(m) <==> (m.prefix_len >= n.prefix_len && n.holds_addr(m.addr)),
{
    let hn = n.host_bits();
    let hm = m.host_bits();
    lemma_pow2_pos(hn);
    lemma_pow2_pos(hm);
    lemma_block_bounds(n);
    lemma_block_bounds(m);
    if m.prefix_len >= n.prefix_len && n.holds_addr(m.addr) {
        // the block of m is aligned to its own size, which divides the size of n's block
        lemma_pow2_adds((hn - hm) as nat, hm);
        let k = pow2((hn - hm) as nat) as int;
        let sm = m.size() as int;
        assert(n.size() as int == k * sm);
        let vm = addr_value(m.addr) as int;
        vstd::arithmetic::div_mod::lemma_div_denominator(vm, sm, k);
        vstd::arithmetic::div_mod::lemma_div_multiples_vanish(vm / sm, sm);
        vstd::arithmetic::div_mod::lemma_div_denominator((vm / sm) * sm, sm, k);
        assert((vm / sm) * sm == sm * (vm / sm)) by (nonlinear_arith);
        assert((m.first() as int) / (n.size() as int) == vm / (n.size() as int));
        lemma_block_by_div(n, m.first());
        lemma_block_by_div(n, addr_value(m.addr));
        lemma_aligned_within(n.first() as int, n.size() as int, m.first() as int, sm, k);
    }
    if m.prefix_len < n.prefix_len {
        lemma_pow2_strictly_increases(hn, hm);
    }
}

/// The first address of a block is at most its address, and the block fits
/// in the family.
proof fn lemma_block_bounds(n: IpNet)
    requires
        n.wf(),
    ensures
        n.first() <= addr_value(n.addr) <= n.last(),
        (n.first() as int) % (n.size() as int) == 0,
        n.last() < pow2(family_bits(n.addr)),
{
    let s = n.size() as int;
    let v = addr_value(n.addr) as int;
    lemma_pow2_pos(n.host_bits());
    lemma_fundamental_div_mod(v, s);
    vstd::arithmetic::div_mod::lemma_mod_multiples_basic(v / s, s);
    lemma_value_bound(n.addr);
    lemma_pow2_adds(n.host_bits(), n.prefix_len as nat);
    let k = pow2(n.prefix_len as nat) as int;
    assert(pow2(family_bits(n.addr)) as int == s * k);
    vstd::arithmetic::div_mod::lemma_div_is_ordered_by_denominator(v, s, s);
    lemma_div_lt(v, s, k);
}

/// `v < s * k` gives `v / s < k`, so `(v / s) * s + s <= s * k`.
proof fn lemma_div_lt(v: int, s: int, k: int)
    requires
        0 <= v < s * k,
        s > 0,
    ensures
        (v / s) * s + s <= s * k,
{
    vstd::arithmetic::div_mod::lemma_div_pos_is_pos(v, s);
    if v / s >= k {
        lemma_fundamental_div_mod(v, s);
        vstd::arithmetic::mul::lemma_mul_inequality(k, v / s, s);
        vstd::arithmetic::div_mod::lemma_mod_pos_bound(v, s);
        assert(false) by (nonlinear_arith)
            requires
                v == s * (v / s) + v % s,
                v % s >= 0,
                k * s <= (v / s) * s,
                v < s * k,
        ;
    }
    assert((v / s) * s + s <= s * k) by (nonlinear_arith)
        requires
            v / s < k,
            s > 0,
    ;
}

/// An aligned block of size `sm` that starts inside an aligned block of size
/// `k * sm` ends inside it too.
proof fn lemma_aligned_within(a: int, sn: int, b: int, sm: int, k: int)
    requires
        sm > 0,
        k > 0,
        sn == k * sm,
        a % sn == 0,
        b % sm == 0,
        a <= b <= a + sn - 1,
    ensures
        b + sm - 1 <= a + sn - 1,
{
    vstd::arithmetic::div_mod::lemma_mod_mod(a, sm, k);
    assert(a % sm == 0) by {
        vstd::arithmetic::div_mod::lemma_fundamental_div_mod(a, sn);
        assert(a == sn * (a / sn));
        assert(a == sm * (k * (a / sn))) by (nonlinear_arith)
            requires
                a == sn * (a / sn),
                sn == k * sm,
        ;
        vstd::arithmetic::div_mod::lemma_mod_multiples_basic(k * (a / sn), sm);
        assert(sm * (k * (a / sn)) == (k * (a / sn)) * sm) by (nonlinear_arith);
    }
    vstd::arithmetic::div_mod::lemma_fundamental_div_mod(a, sm);
    vstd::arithmetic::div_mod::lemma_fundamental_div_mod(b, sm);
    let qa = a / sm;
    let qb = b / sm;
    assert(a == sm * qa);
    assert(b == sm * qb);
    assert(sm * qb <= sm * qa + k * sm - 1);
    assert(qb <= qa + k - 1) by (nonlinear_arith)
        requires
            sm * qb <= sm * qa + k * sm - 1,
            sm > 0,
    ;
    assert(sm * qb + sm <= sm * qa + k * sm) by (nonlinear_arith)
        requires
            qb <= qa + k - 1,
            sm > 0,
    ;
}

/// Why a prefix length was refused.
#[derive(Clone, Copy, PartialEq, Eq, Structural, Debug)]
pub enum PrefixError {
    /// The prefix length exceeds the address family's width.
    TooLong,
    /// A subnet prefix length is shorter than the network's own.
    ShorterThanNetwork,
}

/// The network of prefix `prefix_len` that holds `addr`, with its host bits
/// cleared; refused when the prefix exceeds the family's width.
pub fn network_of(addr: IpAddr, prefix_len: u8) -> (r: Result<IpNet, PrefixError>)
    ensures
        prefix_len as nat > family_bits(addr) <==> r is Err,
        r is Err ==> r == Err::<IpNet, PrefixError>(PrefixError::TooLong),
        r matches Ok(n) ==> {
            &&& n.prefix_len == prefix_len
            &&& same_family(n.addr, addr)
            &&& addr_value(n.addr) == (IpNet { addr, prefix_len }).first()
        },
{
    let bits = max_prefix_len(&addr);
    if prefix_len > bits {
        return Err(PrefixError::TooLong);
    }
    let n = IpNet { addr, prefix_len };
    let h: u8 = bits - prefix_len;
    let x = value_u128(&addr);
    proof {
        lemma_block_bounds(n);
        lemma_pow2_facts();
    }
    let first: u128 = if h == 128 {
        proof {
            vstd::arithmetic::div_mod::lemma_basic_div(x as int, pow2(128) as int);
        }
        0
    } else {
        let s = pow2_u128(h);
        proof {
            lemma_pow2_pos(h as nat);
            lemma_fundamental_div_mod(x as int, s as int);
            vstd::arithmetic::div_mod::lemma_mod_pos_bound(x as int, s as int);
            assert((x as int / s as int) * s as int == s as int * (x as int / s as int)) by (nonlinear_arith);
        }
        x - x % s
    };
    let a = match addr {
        IpAddr::V4(_) => IpAddr::V4(first as u32),
        IpAddr::V6(_) => IpAddr::V6(first),
    };
    Ok(IpNet { addr: a, prefix_len })
}

/// What std's `Ipv4Addr::from_str` reads from a text: the address's value.
pub uninterp spec fn parsed_v4(s: Seq<char>) -> Option<u32>;

/// What std's `Ipv6Addr::from_str` reads from a text: the address's value.
pub uninterp spec fn parsed_v6(s: Seq<char>) -> Option<u128>;

/// What ipnet's `IpNet::from_str` reads from a text.
pub uninterp spec fn parsed_net(s: Seq<char>) -> Option<IpNet>;

/// Relies on std's `Ipv4Addr::from_str` for the dotted-quad syntax.
/// ipnet's `Ipv4Net::new` (which accepts any address with prefix 32) only
/// fixes the parsed type as `Ipv4Addr`; its `addr` hands the address back.
#[verifier::external_body]
fn parse_v4(s: &str) -> (r: Option<u32>)
    ensures
        r == parsed_v4(s@),
{
    s.parse().ok().and_then(|a| ipnet::Ipv4Net::new(a, 32).ok()).map(|n| u32::from(n.addr()))
}

/// Relies on std's `Ipv6Addr::from_str` for the IPv6 text syntax.
/// ipnet's `Ipv6Net::new` (which accepts any address with prefix 128) only
/// fixes the parsed type as `Ipv6Addr`; its `addr` hands the address back.
#[verifier::external_body]
fn parse_v6(s: &str) -> (r: Option<u128>)
    ensures
        r == parsed_v6(s@),
{
    s.parse().ok().and_then(|a| ipnet::Ipv6Net::new(a, 128).ok()).map(|n| u128::from(n.addr()))
}

/// Relies on ipnet's `IpNet::from_str` for the `address/prefix` syntax; its
/// parser refuses a prefix longer than the family's width.
#[verifier::external_body]
fn parse_net_text(s: &str) -> (r: Option<IpNet>)
    ensures
        r == parsed_net(s@),
        r matches Some(n) ==> n.wf(),
{
    s.parse::<ipnet::IpNet>().ok().map(|n| match n {
        ipnet::IpNet::V4(n) => IpNet { addr: IpAddr::V4(u32::from(n.addr())), prefix_len: n.prefix_len() },
        ipnet::IpNet::V6(n) => IpNet { addr: IpAddr::V6(u128::from(n.addr())), prefix_len: n.prefix_len() },
    })
}

/// The address that std's parser reads from a text: IPv4 syntax first, then
/// IPv6 syntax.
pub open spec fn addr_parse(s: Seq<char>) -> Option<IpAddr> {
    match parsed_v4(s) {
        Some(x) => Some(IpAddr::V4(x)),
        None => match parsed_v6(s) {
            Some(x) => Some(IpAddr::V6(x)),
            None => None,
        },
    }
}

/// Parses an IP address of either family.
pub fn parse_addr(s: &str) -> (r: Option<IpAddr>)
    ensures
        r == addr_parse(s@),
{
    match parse_v4(s) {
        Some(x) => Some(IpAddr::V4(x)),
        None => match parse_v6(s) {
            Some(x) => Some(IpAddr::V6(x)),
            None => None,
        },
    }
}

/// A network that ipnet reads from a text, with its prefix fitting the
/// family.
pub open spec fn net_parse(s: Seq<char>) -> Option<IpNet> {
    match parsed_net(s) {
        Some(n) => if n.wf() {
            Some(n)
        } else {
            None
        },
        None => None,
    }
}

/// Parses a network in `address/prefix` form.
pub fn parse_net(s: &str) -> (r: Option<IpNet>)
    ensures
        r == net_parse(s@),
        r matches Some(n) ==> n.wf(),
{
    match parse_net_text(s) {
        Some(n) => if n.is_valid() {
            Some(n)
        } else {
            None
        },
        None => None,
    }
}

impl IpNet {
    /// Whether the prefix length fits the address family.
    pub fn is_valid(&self) -> (r: bool)
        ensures
            r == self.wf(),
    {
        self.prefix_len <= max_prefix_len(&self.addr)
    }
}


/// The text that std's `Display` gives an IPv6 address.
pub uninterp spec fn v6_text(x: u128) -> Seq<char>;


/// Appends decimal digit `d`.
fn push_digit(s: &mut String, d: u32)
    requires
        d < 10,
    ensures
        final(s)@ == old(s)@.push(digit_char(d as nat)),
{
    proof {
        reveal_strlit("0");
        reveal_strlit("1");
        reveal_strlit("2");
        reveal_strlit("3");
        reveal_strlit("4");
        reveal_strlit("5");
        reveal_strlit("6");
        reveal_strlit("7");
        reveal_strlit("8");
        reveal_strlit("9");
    }
    let t = if d == 0 {
        "0"
    } else if d == 1 {
        "1"
    } else if d == 2 {
        "2"
    } else if d == 3 {
        "3"
    } else if d == 4 {
        "4"
    } else if d == 5 {
        "5"
    } else if d == 6 {
        "6"
    } else if d == 7 {
        "7"
    } else if d == 8 {
        "8"
    } else {
        "9"
    };
    assert(t@ =~= seq![digit_char(d as nat)]);
    s.append(t);
    assert(s@ =~= old(s)@.push(digit_char(d as nat)));
}

/// Appends `n` in decimal.
fn push_decimal(s: &mut String, n: u32)
    requires
        n < 256,
    ensures
        final(s)@ == old(s)@ + decimal(n as nat),
{
    let ghost start = s@;
    if n >= 100 {
        push_digit(s, n / 100);
    }
    if n >= 10 {
        push_digit(s, (n / 10) % 10);
    }
    push_digit(s, n % 10);
    proof {
        let m = n as nat;
        if m >= 100 {
            assert(decimal(m / 100) == seq![digit_char(m / 100)]);
            assert((m / 10) / 10 == m / 100);
            assert(decimal(m / 10) == decimal(m / 100).push(digit_char((m / 10) % 10)));
        } else if m >= 10 {
            assert(decimal(m / 10) == seq![digit_char(m / 10)]);
            assert((m / 10) % 10 == m / 10);
        }
        assert(s@ =~= start + decimal(m));
    }
}

/// The IPv4 address in dotted-quad form.
fn format_v4(x: u32) -> (r: String)
    ensures
        r@ == v4_text(x),
{
    proof {
        reveal_strlit(".");
    }
    let mut r = String::new();
    push_decimal(&mut r, x / 0x100_0000);
    r.append(".");
    push_decimal(&mut r, (x / 0x1_0000) % 0x100);
    r.append(".");
    push_decimal(&mut r, (x / 0x100) % 0x100);
    r.append(".");
    push_decimal(&mut r, x % 0x100);
    assert(r@ =~= v4_text(x));
    r
}

/// Relies on std's `Display` for `Ipv6Addr` (RFC 5952 form). ipnet's
/// `Ipv6Net::new` (which accepts any address with prefix 128) only fixes
/// the converted type as `Ipv6Addr`; its `addr` hands the address back.
#[verifier::external_body]
fn format_v6(x: u128) -> (r: String)
    ensures
        r@ == v6_text(x),
{
    ipnet::Ipv6Net::new(x.into(), 128).unwrap().addr().to_string()
}

/// Relies on ipnet's `Display` for `Ipv4Net` and `Ipv6Net`, which write
/// the address (std's `Display`), a slash, and the prefix length in decimal.
#[verifier::external_body]
fn format_net(n: &IpNet) -> (r: String)
    requires
        n.wf(),
    ensures
        r@ == net_text(*n),
{
    match n.addr {
        IpAddr::V4(x) => ipnet::Ipv4Net::new(x.into(), n.prefix_len).unwrap().to_string(),
        IpAddr::V6(x) => ipnet::Ipv6Net::new(x.into(), n.prefix_len).unwrap().to_string(),
    }
}

/// The text form of an address.
pub open spec fn addr_to_text(a: IpAddr) -> Seq<char> {
    match a {
        IpAddr::V4(x) => v4_text(x),
        IpAddr::V6(x) => v6_text(x),
    }
}

/// A decimal digit.
pub open spec fn digit_char(d: nat) -> char {
    if d == 0 {
        '0'
    } else if d == 1 {
        '1'
    } else if d == 2 {
        '2'
    } else if d == 3 {
        '3'
    } else if d == 4 {
        '4'
    } else if d == 5 {
        '5'
    } else if d == 6 {
        '6'
    } else if d == 7 {
        '7'
    } else if d == 8 {
        '8'
    } else {
        '9'
    }
}

/// A number in decimal, without leading zeros.
pub open spec fn decimal(n: nat) -> Seq<char>
    decreases n,
{
    if n < 10 {
        seq![digit_char(n)]
    } else {
        decimal(n / 10).push(digit_char(n % 10))
    }
}

/// An IPv4 address in dotted-quad form: its four octets, most significant
/// first, in decimal, joined by dots.
pub open spec fn v4_text(x: u32) -> Seq<char> {
    let v = x as nat;
    decimal(v / 0x100_0000) + seq!['.'] + decimal((v / 0x1_0000) % 0x100) + seq!['.'] + decimal(
        (v / 0x100) % 0x100,
    ) + seq!['.'] + decimal(v % 0x100)
}

/// A network in CIDR form: the address's text, a slash, and the prefix
/// length in decimal.
pub open spec fn net_text(n: IpNet) -> Seq<char> {
    addr_to_text(n.addr) + seq!['/'] + decimal(n.prefix_len as nat)
}

impl IpAddr {
    /// The address in its usual text form.
    pub fn to_text(&self) -> (r: String)
        ensures
            r@ == addr_to_text(*self),
    {
        match self {
            IpAddr::V4(x) => format_v4(*x),
            IpAddr::V6(x) => format_v6(*x),
        }
    }
}

impl IpNet {
    /// The network in CIDR form, `address/prefix`.
    pub fn to_text(&self) -> (r: String)
        requires
            self.wf(),
        ensures
            r@ == net_text(*self),
    {
        format_net(self)
    }
}

/// Value of the `i`-th block of prefix `q` inside the block of `n`.
pub open spec fn subnet_value(n: IpNet, q: nat, i: int) -> int {
    n.first() + i * pow2((family_bits(n.addr) - q) as nat)
}

/// The blocks of prefix `q` inside the block of `n`, in ascending order.
pub open spec fn subnets_spec(n: IpNet, q: u8) -> Seq<IpNet> {
    Seq::new(
        pow2((q - n.prefix_len) as nat),
        |i: int| IpNet { addr: addr_of_family(n.addr, subnet_value(n, q as nat, i)), prefix_len: q },
    )
}

/// Relies on ipnet's `Ipv4Net::subnets`: from the network address to the
/// broadcast address, the `2^(q - p)` blocks of prefix `q` in order.
#[verifier::external_body]
fn v4_subnet_addrs(x: u32, p: u8, q: u8) -> (r: Vec<u32>)
    requires
        p <= q <= 32,
    ensures
        r@.len() == pow2((q - p) as nat),
        forall|i: int|
            0 <= i < r@.len() ==> r@[i] as int == subnet_value(
                IpNet { addr: IpAddr::V4(x), prefix_len: p },
                q as nat,
                i,
            ),
{
    let net = ipnet::Ipv4Net::new(x.into(), p).unwrap();
    net.subnets(q).unwrap().map(|s| u32::from(s.addr())).collect()
}

/// Relies on ipnet's `Ipv6Net::subnets`: from the network address to the
/// broadcast address, the `2^(q - p)` blocks of prefix `q` in order.
#[verifier::external_body]
fn v6_subnet_addrs(x: u128, p: u8, q: u8) -> (r: Vec<u128>)
    requires
        p <= q <= 128,
        q - p < 64,
    ensures
        r@.len() == pow2((q - p) as nat),
        forall|i: int|
            0 <= i < r@.len() ==> r@[i] as int == subnet_value(
                IpNet { addr: IpAddr::V6(x), prefix_len: p },
                q as nat,
                i,
            ),
{
    let net = ipnet::Ipv6Net::new(x.into(), p).unwrap();
    net.subnets(q).unwrap().map(|s| u128::from(s.addr())).collect()
}

/// Addresses left out at each end of an IPv4 host range of prefix `p`.
pub open spec fn v4_host_skip(p: u8) -> int {
    if p < 31 { 1 } else { 0 }
}

/// Length of an IPv4 host range of prefix `p`.
pub open spec fn v4_host_count(p: u8) -> int {
    pow2((32 - p) as nat) - 2 * v4_host_skip(p)
}

/// Relies on ipnet's `Ipv4Net::hosts`: the addresses from the network
/// address to the broadcast address, both left out when the prefix is
/// shorter than 31.
#[verifier::external_body]
fn v4_host_addrs(x: u32, p: u8) -> (r: Vec<u32>)
    requires
        p <= 32,
    ensures
        r@.len() == v4_host_count(p),
        forall|i: int|
            0 <= i < r@.len() ==> r@[i] as int == (IpNet { addr: IpAddr::V4(x), prefix_len: p }).first()
                + v4_host_skip(p) + i,
{
    ipnet::Ipv4Net::new(x.into(), p).unwrap().hosts().map(u32::from).collect()
}

/// Relies on ipnet's `Ipv6Net::hosts`: every address from the network
/// address to the last address of the block.
#[verifier::external_body]
fn v6_host_addrs(x: u128, p: u8) -> (r: Vec<u128>)
    requires
        64 < p <= 128,
    ensures
        r@.len() == (IpNet { addr: IpAddr::V6(x), prefix_len: p }).size(),
        forall|i: int|
            0 <= i < r@.len() ==> r@[i] as int == (IpNet { addr: IpAddr::V6(x), prefix_len: p }).first()
                + i,
{
    ipnet::Ipv6Net::new(x.into(), p).unwrap().hosts().map(u128::from).collect()
}

/// Subnet enumeration stays within a count that a vector can hold.
pub open spec fn subnet_count_fits(n: IpNet, prefix_len: u8) -> bool {
    (prefix_len as int) - (n.prefix_len as int) < 64
}

/// Whether `n` has subnets of prefix `prefix_len`: refused when the prefix
/// is shorter than the network's own, or longer than the family's width.
pub fn check_subnet_prefix(n: &IpNet, prefix_len: u8) -> (r: Result<(), PrefixError>)
    ensures
        prefix_len < n.prefix_len ==> r == Err::<(), PrefixError>(PrefixError::ShorterThanNetwork),
        n.prefix_len <= prefix_len && prefix_len as nat > family_bits(n.addr) ==> r == Err::<
            (),
            PrefixError,
        >(PrefixError::TooLong),
        n.prefix_len <= prefix_len && prefix_len as nat <= family_bits(n.addr) ==> r is Ok,
{
    if prefix_len < n.prefix_len {
        Err(PrefixError::ShorterThanNetwork)
    } else if prefix_len > max_prefix_len(&n.addr) {
        Err(PrefixError::TooLong)
    } else {
        Ok(())
    }
}

/// The subnets of prefix `prefix_len` of `n`, in ascending order. Refused
/// when the prefix is shorter than the network's own, or longer than the
/// family's width.
pub fn subnets(n: &IpNet, prefix_len: u8) -> (r: Result<Vec<IpNet>, PrefixError>)
    requires
        n.wf(),
        subnet_count_fits(*n, prefix_len),
    ensures
        prefix_len < n.prefix_len ==> r == Err::<Vec<IpNet>, PrefixError>(
            PrefixError::ShorterThanNetwork,
        ),
        n.prefix_len <= prefix_len && prefix_len as nat > family_bits(n.addr) ==> r == Err::<
            Vec<IpNet>,
            PrefixError,
        >(PrefixError::TooLong),
        n.prefix_len <= prefix_len && prefix_len as nat <= family_bits(n.addr) ==> (r matches Ok(v)
            && v@ == subnets_spec(*n, prefix_len)),
{
    match check_subnet_prefix(n, prefix_len) {
        Err(e) => {
            return Err(e);
        },
        Ok(()) => {},
    }
    let ghost want = subnets_spec(*n, prefix_len);
    let mut out: Vec<IpNet> = Vec::new();
    match n.addr {
        IpAddr::V4(x) => {
            let v = v4_subnet_addrs(x, n.prefix_len, prefix_len);
            let mut i: usize = 0;
            while i < v.len()
                invariant
                    i <= v@.len(),
                    v@.len() == want.len(),
                    want == subnets_spec(*n, prefix_len),
                    n.addr == IpAddr::V4(x),
                    forall|j: int| 0 <= j < v@.len() ==> v@[j] as int == subnet_value(*n, prefix_len as nat, j),
                    out@ =~= want.take(i as int),
                decreases v@.len() - i,
            {
                assert(subnet_value(*n, prefix_len as nat, i as int) == v@[i as int] as int);
                assert((v@[i as int] as int) as u32 == v@[i as int]);
                assert(want[i as int] == IpNet { addr: IpAddr::V4(v@[i as int]), prefix_len });
                out.push(IpNet { addr: IpAddr::V4(v[i]), prefix_len });
                i = i + 1;
                assert(out@ =~= want.take(i as int));
            }
            assert(out@ =~= want);
        },
        IpAddr::V6(x) => {
            let v = v6_subnet_addrs(x, n.prefix_len, prefix_len);
            let mut i: usize = 0;
            while i < v.len()
                invariant
                    i <= v@.len(),
                    v@.len() == want.len(),
                    want == subnets_spec(*n, prefix_len),
                    n.addr == IpAddr::V6(x),
                    forall|j: int| 0 <= j < v@.len() ==> v@[j] as int == subnet_value(*n, prefix_len as nat, j),
                    out@ =~= want.take(i as int),
                decreases v@.len() - i,
            {
                assert(subnet_value(*n, prefix_len as nat, i as int) == v@[i as int] as int);
                assert((v@[i as int] as int) as u128 == v@[i as int]);
                assert(want[i as int] == IpNet { addr: IpAddr::V6(v@[i as int]), prefix_len });
                out.push(IpNet { addr: IpAddr::V6(v[i]), prefix_len });
                i = i + 1;
                assert(out@ =~= want.take(i as int));
            }
            assert(out@ =~= want);
        },
    }
    Ok(out)
}

/// The addresses of the block of `n`: all of them when `all` holds; else
/// ipnet's host range, which leaves out the network and broadcast addresses
/// of an IPv4 network with a prefix shorter than 31.
pub open spec fn hosts_spec(n: IpNet, all: bool) -> Seq<IpAddr> {
    let skip = host_skip(n, all);
    Seq::new((n.size() - 2 * skip) as nat, |i: int| addr_of_family(n.addr, n.first() + skip + i))
}

/// Addresses left out at each end of the host range: one for an IPv4
/// network with a prefix shorter than 31, unless all are asked for.
pub open spec fn host_skip(n: IpNet, all: bool) -> int {
    if !all && family_bits(n.addr) == 32 && n.prefix_len < 31 {
        1
    } else {
        0
    }
}

/// Host enumeration stays within a count that a vector can hold.
pub open spec fn host_count_fits(n: IpNet) -> bool {
    n.host_bits() < 64
}

/// The host addresses of `n`, in ascending order; with `all`, the network
/// and broadcast addresses too.
pub fn hosts(n: &IpNet, all: bool) -> (r: Vec<IpAddr>)
    requires
        n.wf(),
        host_count_fits(*n),
    ensures
        r@ == hosts_spec(*n, all),
{
    let ghost want = hosts_spec(*n, all);
    let mut out: Vec<IpAddr> = Vec::new();
    proof {
        lemma2_to64();
    }
    match n.addr {
        IpAddr::V4(x) => {
            let v = if all {
                let v = v4_subnet_addrs(x, n.prefix_len, 32);
                assert forall|j: int| 0 <= j < v@.len() implies v@[j] as int == n.first() + j by {
                    assert(j * pow2(0) == j);
                }
                v
            } else {
                v4_host_addrs(x, n.prefix_len)
            };
            let ghost skip: int = if !all && n.prefix_len < 31 { 1 } else { 0 };
            proof {
                if !all && n.prefix_len < 31 {
                    lemma_pow2_adds(2, (n.host_bits() - 2) as nat);
                    lemma2_to64();
                    lemma_pow2_pos((n.host_bits() - 2) as nat);
                }
            }
            let mut i: usize = 0;
            while i < v.len()
                invariant
                    i <= v@.len(),
                    v@.len() == want.len(),
                    want == hosts_spec(*n, all),
                    n.addr == IpAddr::V4(x),
                    skip == (if !all && n.prefix_len < 31 { 1int } else { 0int }),
                    forall|j: int| 0 <= j < v@.len() ==> v@[j] as int == n.first() + skip + j,
                    out@ =~= want.take(i as int),
                decreases v@.len() - i,
            {
                assert((v@[i as int] as int) as u32 == v@[i as int]);
                assert(want[i as int] == IpAddr::V4(v@[i as int]));
                out.push(IpAddr::V4(v[i]));
                i = i + 1;
                assert(out@ =~= want.take(i as int));
            }
            assert(out@ =~= want);
        },
        IpAddr::V6(x) => {
            let v = if all {
                let v = v6_subnet_addrs(x, n.prefix_len, 128);
                assert forall|j: int| 0 <= j < v@.len() implies v@[j] as int == n.first() + j by {
                    assert(j * pow2(0) == j);
                }
                v
            } else {
                v6_host_addrs(x, n.prefix_len)
            };
            let mut i: usize = 0;
            while i < v.len()
                invariant
                    i <= v@.len(),
                    v@.len() == want.len(),
                    want == hosts_spec(*n, all),
                    n.addr == IpAddr::V6(x),
                    forall|j: int| 0 <= j < v@.len() ==> v@[j] as int == n.first() + j,
                    out@ =~= want.take(i as int),
                decreases v@.len() - i,
            {
                assert((v@[i as int] as int) as u128 == v@[i as int]);
                assert(want[i as int] == IpAddr::V6(v@[i as int]));
                out.push(IpAddr::V6(v[i]));
                i = i + 1;
                assert(out@ =~= want.take(i as int));
            }
            assert(out@ =~= want);
        },
    }
    out
}

/// The value of the first address of `n`'s block.
fn first_u128(n: &IpNet) -> (r: u128)
    requires
        n.wf(),
    ensures
        r as int == n.first(),
{
    match network_of(n.addr, n.prefix_len) {
        Ok(m) => value_u128(&m.addr),
        Err(_) => 0,
    }
}

/// `2^k - 1`, for `k` up to 128.
fn pow2_minus_one(k: u8) -> (r: u128)
    requires
        k <= 128,
    ensures
        r as int == pow2(k as nat) - 1,
{
    if k == 128 {
        proof {
            lemma_pow2_facts();
        }
        u128::MAX
    } else {
        let p = pow2_u128(k);
        proof {
            lemma_pow2_pos(k as nat);
        }
        p - 1
    }
}

/// Index of the last subnet of prefix `prefix_len` of `n`: there are
/// `2^(prefix_len - n.prefix_len)` of them.
pub fn subnet_last_index(n: &IpNet, prefix_len: u8) -> (r: u128)
    requires
        n.wf(),
        n.prefix_len <= prefix_len,
        prefix_len as nat <= family_bits(n.addr),
    ensures
        r as int == subnets_spec(*n, prefix_len).len() - 1,
{
    pow2_minus_one(prefix_len - n.prefix_len)
}

/// The `i`-th subnet of prefix `prefix_len` of `n`, in ascending order.
pub fn subnet_at(n: &IpNet, prefix_len: u8, i: u128) -> (r: IpNet)
    requires
        n.wf(),
        n.prefix_len <= prefix_len,
        prefix_len as nat <= family_bits(n.addr),
        i < subnets_spec(*n, prefix_len).len(),
    ensures
        r == subnets_spec(*n, prefix_len)[i as int],
{
    let bits = max_prefix_len(&n.addr);
    let first = first_u128(n);
    let hq: u8 = bits - prefix_len;
    let hp: u8 = bits - n.prefix_len;
    let k: u8 = prefix_len - n.prefix_len;
    proof {
        lemma_block_bounds(*n);
        lemma_pow2_adds(k as nat, hq as nat);
        lemma_pow2_pos(hq as nat);
        lemma_pow2_facts();
    }
    let v: u128 = if hq == 128 {
        proof {
            lemma2_to64();
            assert(i == 0);
        }
        first
    } else {
        let step = pow2_u128(hq);
        proof {
            let big = pow2(k as nat) as int;
            let st = step as int;
            assert(big * st == pow2(hp as nat));
            assert(i as int * st <= (big - 1) * st) by (nonlinear_arith)
                requires
                    i < big,
                    st > 0,
            ;
            assert((big - 1) * st == big * st - st) by (nonlinear_arith);
            assert(i as int * st <= u128::MAX);
        }
        first + i * step
    };
    proof {
        assert(subnet_value(*n, prefix_len as nat, i as int) == v as int);
        assert(v < pow2(family_bits(n.addr)));
    }
    let a = match n.addr {
        IpAddr::V4(_) => IpAddr::V4(v as u32),
        IpAddr::V6(_) => IpAddr::V6(v),
    };
    IpNet { addr: a, prefix_len }
}

/// Index of the last host address of `n` (see `hosts_spec`).
pub fn host_last_index(n: &IpNet, all: bool) -> (r: u128)
    requires
        n.wf(),
    ensures
        r as int == hosts_spec(*n, all).len() - 1,
{
    let h: u8 = max_prefix_len(&n.addr) - n.prefix_len;
    let last = pow2_minus_one(h);
    let skip: u128 = match n.addr {
        IpAddr::V4(_) => if !all && n.prefix_len < 31 {
            1
        } else {
            0
        },
        IpAddr::V6(_) => 0,
    };
    proof {
        if skip == 1 {
            lemma_pow2_adds(2, (h - 2) as nat);
            lemma2_to64();
            lemma_pow2_pos((h - 2) as nat);
        }
        lemma_pow2_pos(h as nat);
    }
    last - 2 * skip
}

/// The `i`-th host address of `n`, in ascending order (see `hosts_spec`).
pub fn host_at(n: &IpNet, all: bool, i: u128) -> (r: IpAddr)
    requires
        n.wf(),
        i < hosts_spec(*n, all).len(),
    ensures
        r == hosts_spec(*n, all)[i as int],
{
    let first = first_u128(n);
    let skip: u128 = match n.addr {
        IpAddr::V4(_) => if !all && n.prefix_len < 31 {
            1
        } else {
            0
        },
        IpAddr::V6(_) => 0,
    };
    proof {
        lemma_block_bounds(*n);
        lemma_pow2_facts();
        lemma_pow2_pos(n.host_bits());
        assert(skip as int == host_skip(*n, all));
        if skip == 1 {
            lemma_pow2_adds(2, (n.host_bits() - 2) as nat);
            lemma2_to64();
            lemma_pow2_pos((n.host_bits() - 2) as nat);
        }
        assert(i as int + skip as int <= n.size() - 1);
        assert(first as int + skip as int + i as int <= n.last());
    }
    let v = first + skip + i;
    let a = match n.addr {
        IpAddr::V4(_) => IpAddr::V4(v as u32),
        IpAddr::V6(_) => IpAddr::V6(v),
    };
    a
}

} // verus!
