//! Socket addresses as plain values, read from text and written as text the
//! way `SocketAddr::from_str` and `SocketAddr`'s `Display` do.
//!
//! Reading follows the standard library's address grammar step by step: an
//! IPv4 address (four decimal octets without leading zeros) and a port, or an
//! IPv6 address in brackets (up to eight hexadecimal groups, one `::`, an
//! optional trailing IPv4 part, an optional `%` scope id) and a port.
use vstd::prelude::*;
use crate::text::{chars_of, join, push_char, push_str};
use crate::numbers::{decimal, push_decimal, is_digit, digit_value, digit_char, lemma_decimal_roundtrip};
use crate::text::{Sep, free_of, lemma_join_first, lemma_join_free, lemma_free_concat};

verus! {

/// A socket address as plain values: the address in network order, the port,
/// and for IPv6 the flow information and scope id.
#[allow(inconsistent_fields)]
#[derive(Clone, Copy, Debug, PartialEq, Eq, Structural)]
pub enum ClientAddr {
    V4 { ip: u32, port: u16 },
    V6 { ip: u128, port: u16, flowinfo: u32, scope_id: u32 },
}

impl View for ClientAddr {
    type V = ClientAddr;

    open spec fn view(&self) -> ClientAddr {
        *self
    }
}

/// The value of `c` as a digit in base `radix` (10 or 16), if it is one.
pub open spec fn digit_of(c: char, radix: nat) -> Option<nat> {
    let v = c as u32;
    if 0x30 <= v <= 0x39 {
        Some((v - 0x30) as nat)
    } else if radix == 16 && 0x61 <= v <= 0x66 {
        Some((v - 0x61 + 10) as nat)
    } else if radix == 16 && 0x41 <= v <= 0x46 {
        Some((v - 0x41 + 10) as nat)
    } else {
        None
    }
}

/// How many digits in base `radix` follow from `pos` on.
pub open spec fn run_len(s: Seq<char>, pos: int, radix: nat) -> nat
    decreases s.len() - pos,
{
    if 0 <= pos < s.len() && digit_of(s[pos], radix) is Some {
        1 + run_len(s, pos + 1, radix)
    } else {
        0
    }
}

/// The value of the `n` digits from `pos` on.
pub open spec fn run_value(s: Seq<char>, pos: int, n: nat, radix: nat) -> nat
    decreases n,
{
    if n == 0 {
        0
    } else {
        run_value(s, pos, (n - 1) as nat, radix) * radix + digit_of(s[pos + n - 1], radix)->Some_0
    }
}

/// A number read from `pos` on: all the digits there, at least one and at
/// most `max_digits` of them (no limit when it is zero), without a leading
/// zero unless allowed, and no larger than `max`; with the position after it.
#[verifier::opaque]
pub open spec fn read_number(
    s: Seq<char>,
    pos: int,
    radix: nat,
    max_digits: nat,
    allow_zero_prefix: bool,
    max: nat,
) -> Option<(nat, int)> {
    let n = run_len(s, pos, radix);
    if n == 0 || (max_digits > 0 && n > max_digits) || (!allow_zero_prefix && s[pos] == '0' && n
        > 1) || run_value(s, pos, n, radix) > max {
        None
    } else {
        Some((run_value(s, pos, n, radix), pos + n))
    }
}

/// The position after the character `c` at `pos`, if it is there.
pub open spec fn after_char(s: Seq<char>, pos: int, c: char) -> Option<int> {
    if 0 <= pos < s.len() && s[pos] == c {
        Some(pos + 1)
    } else {
        None
    }
}

/// An octet of an IPv4 address.
pub open spec fn read_octet(s: Seq<char>, pos: int) -> Option<(nat, int)> {
    read_number(s, pos, 10, 3, false, 255)
}

/// An octet after a `.`.
pub open spec fn read_dot_octet(s: Seq<char>, pos: int) -> Option<(nat, int)> {
    match after_char(s, pos, '.') {
        Some(q) => read_octet(s, q),
        None => None,
    }
}

/// An IPv4 address, as its 32-bit value.
pub open spec fn read_ipv4(s: Seq<char>, pos: int) -> Option<(nat, int)> {
    match read_octet(s, pos) {
        None => None,
        Some((a, p1)) => match read_dot_octet(s, p1) {
            None => None,
            Some((b, p2)) => match read_dot_octet(s, p2) {
                None => None,
                Some((c, p3)) => match read_dot_octet(s, p3) {
                    None => None,
                    Some((d, p4)) => Some((((a * 256 + b) * 256 + c) * 256 + d, p4)),
                },
            },
        },
    }
}

/// What follows a `:` unless it is the first part.
pub open spec fn after_separator(s: Seq<char>, pos: int, first: bool) -> Option<int> {
    if first {
        Some(pos)
    } else {
        after_char(s, pos, ':')
    }
}

/// An embedded IPv4 address as a part of an IPv6 address.
pub open spec fn read_part_ipv4(s: Seq<char>, pos: int, first: bool) -> Option<(nat, int)> {
    match after_separator(s, pos, first) {
        Some(q) => read_ipv4(s, q),
        None => None,
    }
}

/// A hexadecimal group as a part of an IPv6 address.
pub open spec fn read_part_group(s: Seq<char>, pos: int, first: bool) -> Option<(nat, int)> {
    match after_separator(s, pos, first) {
        Some(q) => read_number(s, q, 16, 4, true, 0xffff),
        None => None,
    }
}

/// The groups of an IPv6 address read from `pos` on, as parts `i` up to
/// `limit`: as many groups as there are, and an embedded IPv4 address as the
/// last two when at least two parts are left; whether that happened; and the
/// position after them.
pub open spec fn read_groups(s: Seq<char>, pos: int, i: nat, limit: nat) -> (Seq<nat>, bool, int)
    decreases limit - i,
{
    if i >= limit {
        (Seq::empty(), false, pos)
    } else {
        let v4 = if i + 1 < limit {
            read_part_ipv4(s, pos, i == 0)
        } else {
            None
        };
        match v4 {
            Some((ip, p)) => (seq![ip / 65536, ip % 65536], true, p),
            None => match read_part_group(s, pos, i == 0) {
                Some((g, p)) => {
                    let rest = read_groups(s, p, i + 1, limit);
                    (seq![g] + rest.0, rest.1, rest.2)
                },
                None => (Seq::empty(), false, pos),
            },
        }
    }
}

/// An IPv6 address as its eight groups: eight groups, or fewer, a `::`, and
/// fewer again, the gap filled with zero groups.
pub open spec fn read_ipv6(s: Seq<char>, pos: int) -> Option<(Seq<nat>, int)> {
    let head = read_groups(s, pos, 0, 8);
    if head.0.len() == 8 {
        Some((head.0, head.2))
    } else if head.1 {
        None
    } else {
        match after_char(s, head.2, ':') {
            None => None,
            Some(p1) => match after_char(s, p1, ':') {
                None => None,
                Some(p2) => {
                    let tail = read_groups(s, p2, 0, (7 - head.0.len()) as nat);
                    Some(
                        (
                            head.0 + Seq::new(
                                (8 - head.0.len() - tail.0.len()) as nat,
                                |k: int| 0nat,
                            ) + tail.0,
                            tail.2,
                        ),
                    )
                },
            },
        }
    }
}

/// The 128-bit value of groups of sixteen bits, the first the highest.
pub open spec fn groups_value(gs: Seq<nat>) -> nat
    decreases gs.len(),
{
    if gs.len() == 0 {
        0
    } else {
        groups_value(gs.drop_last()) * 65536 + gs.last()
    }
}

/// A port after a `:`.
pub open spec fn read_port(s: Seq<char>, pos: int) -> Option<(nat, int)> {
    match after_char(s, pos, ':') {
        Some(q) => read_number(s, q, 10, 0, true, 0xffff),
        None => None,
    }
}

/// A scope id after a `%`.
pub open spec fn read_scope(s: Seq<char>, pos: int) -> Option<(nat, int)> {
    match after_char(s, pos, '%') {
        Some(q) => read_number(s, q, 10, 0, true, 0xffff_ffff),
        None => None,
    }
}

/// An IPv4 socket address from the start of `s`.
pub open spec fn read_socket_v4(s: Seq<char>) -> Option<(ClientAddr, int)> {
    match read_ipv4(s, 0) {
        None => None,
        Some((ip, p)) => match read_port(s, p) {
            None => None,
            Some((port, q)) => Some((ClientAddr::V4 { ip: ip as u32, port: port as u16 }, q)),
        },
    }
}

/// An IPv6 socket address from the start of `s`.
pub open spec fn read_socket_v6(s: Seq<char>) -> Option<(ClientAddr, int)> {
    match after_char(s, 0, '[') {
        None => None,
        Some(p0) => match read_ipv6(s, p0) {
            None => None,
            Some((gs, p1)) => {
                let scope = match read_scope(s, p1) {
                    Some((x, q)) => (x, q),
                    None => (0nat, p1),
                };
                match after_char(s, scope.1, ']') {
                    None => None,
                    Some(p3) => match read_port(s, p3) {
                        None => None,
                        Some((port, q)) => Some(
                            (
                                ClientAddr::V6 {
                                    ip: groups_value(gs) as u128,
                                    port: port as u16,
                                    flowinfo: 0,
                                    scope_id: scope.0 as u32,
                                },
                                q,
                            ),
                        ),
                    },
                }
            },
        },
    }
}

/// What `SocketAddr::from_str` gives for `s`: an IPv4 socket address if one
/// starts the text, else an IPv6 one; either must take the whole text.
#[verifier::opaque]
pub open spec fn parse_socket_addr(s: Seq<char>) -> Option<ClientAddr> {
    match read_socket_v4(s) {
        Some((a, p)) => if p == s.len() {
            Some(a)
        } else {
            None
        },
        None => match read_socket_v6(s) {
            Some((a, p)) => if p == s.len() {
                Some(a)
            } else {
                None
            },
            None => None,
        },
    }
}

/// A machine result seen as values of the specification.
pub open spec fn num_view(r: Option<(u64, usize)>) -> Option<(nat, int)> {
    match r {
        Some((v, q)) => Some((v as nat, q as int)),
        None => None,
    }
}

/// Machine groups seen as values of the specification.
pub open spec fn nat_seq(v: Seq<u64>) -> Seq<nat> {
    v.map_values(|x: u64| x as nat)
}

fn digit_value_of(c: char, radix: u32) -> (r: Option<u32>)
    requires
        radix == 10 || radix == 16,
    ensures
        match r {
            Some(d) => digit_of(c, radix as nat) == Some(d as nat) && d < radix,
            None => digit_of(c, radix as nat) is None,
        },
{
    let v = c as u32;
    if 0x30 <= v && v <= 0x39 {
        Some(v - 0x30)
    } else if radix == 16 && 0x61 <= v && v <= 0x66 {
        Some(v - 0x61 + 10)
    } else if radix == 16 && 0x41 <= v && v <= 0x46 {
        Some(v - 0x41 + 10)
    } else {
        None
    }
}

proof fn lemma_run_len_bound(s: Seq<char>, pos: int, radix: nat)
    requires
        0 <= pos <= s.len(),
    ensures
        pos + run_len(s, pos, radix) <= s.len(),
        forall|k: int| pos <= k < pos + run_len(s, pos, radix) ==> digit_of(#[trigger] s[k], radix) is Some,
    decreases s.len() - pos,
{
    if pos < s.len() && digit_of(s[pos], radix) is Some {
        lemma_run_len_bound(s, pos + 1, radix);
    }
}

proof fn lemma_run_value_grows(s: Seq<char>, pos: int, k: nat, n: nat, radix: nat)
    requires
        k <= n,
        radix >= 1,
    ensures
        run_value(s, pos, k, radix) <= run_value(s, pos, n, radix),
    decreases n - k,
{
    if k < n {
        lemma_run_value_grows(s, pos, k, (n - 1) as nat, radix);
        let v = run_value(s, pos, (n - 1) as nat, radix);
        assert(v * radix >= v) by (nonlinear_arith)
            requires
                radix >= 1,
        ;
    }
}

/// How many digits follow from `pos` on.
fn run_length(s: &Vec<char>, pos: usize, radix: u32) -> (n: usize)
    requires
        pos <= s.len(),
        radix == 10 || radix == 16,
    ensures
        n == run_len(s@, pos as int, radix as nat),
        pos + n <= s.len(),
{
    let mut j = pos;
    proof {
        lemma_run_len_bound(s@, pos as int, radix as nat);
    }
    while j < s.len() && digit_value_of(s[j], radix).is_some()
        invariant
            pos <= j <= s.len(),
            radix == 10 || radix == 16,
            run_len(s@, pos as int, radix as nat) == (j - pos) + run_len(s@, j as int, radix as nat),
        decreases s.len() - j,
    {
        j = j + 1;
    }
    j - pos
}

/// Reads a number from `pos` on (see [`read_number`]).
fn read_number_at(
    s: &Vec<char>,
    pos: usize,
    radix: u32,
    max_digits: usize,
    allow_zero_prefix: bool,
    max: u64,
) -> (r: Option<(u64, usize)>)
    requires
        pos <= s.len(),
        radix == 10 || radix == 16,
        max <= u32::MAX,
    ensures
        num_view(r) == read_number(s@, pos as int, radix as nat, max_digits as nat, allow_zero_prefix, max as nat),
        r matches Some((v, q)) ==> v <= max && q <= s.len(),
{
    proof {
        reveal(read_number);
    }
    let n = run_length(s, pos, radix);
    if n == 0 || (max_digits > 0 && n > max_digits) {
        return None;
    }
    if !allow_zero_prefix && s[pos] == '0' && n > 1 {
        return None;
    }
    proof {
        lemma_run_len_bound(s@, pos as int, radix as nat);
    }
    let mut acc: u64 = 0;
    let mut k: usize = 0;
    while k < n
        invariant
            0 <= k <= n,
            pos + n <= s.len(),
            n == run_len(s@, pos as int, radix as nat),
            radix == 10 || radix == 16,
            max <= u32::MAX,
            acc <= max,
            acc == run_value(s@, pos as int, k as nat, radix as nat),
            forall|j: int| pos <= j < pos + n ==> digit_of(#[trigger] s@[j], radix as nat) is Some,
        decreases n - k,
    {
        let d = match digit_value_of(s[pos + k], radix) {
            Some(d) => d,
            None => {
                assert(digit_of(s@[pos + k], radix as nat) is Some);
                return None;
            },
        };
        assert(acc * (radix as u64) <= 0xffff_ffff * 16) by (nonlinear_arith)
            requires
                acc <= 0xffff_ffff,
                radix <= 16,
        ;
        let next = acc * (radix as u64) + (d as u64);
        assert(next == run_value(s@, pos as int, (k + 1) as nat, radix as nat));
        if next > max {
            proof {
                reveal(read_number);
                lemma_run_value_grows(s@, pos as int, (k + 1) as nat, n as nat, radix as nat);
            }
            return None;
        }
        acc = next;
        k = k + 1;
    }
    Some((acc, pos + n))
}

fn after_char_at(s: &Vec<char>, pos: usize, c: char) -> (r: Option<usize>)
    requires
        pos <= s.len(),
    ensures
        match r {
            Some(q) => after_char(s@, pos as int, c) == Some(q as int) && q <= s.len(),
            None => after_char(s@, pos as int, c) is None,
        },
{
    if pos < s.len() && s[pos] == c {
        Some(pos + 1)
    } else {
        None
    }
}

fn read_octet_at(s: &Vec<char>, pos: usize) -> (r: Option<(u64, usize)>)
    requires
        pos <= s.len(),
    ensures
        num_view(r) == read_octet(s@, pos as int),
        r matches Some((v, q)) ==> v <= 255 && q <= s.len(),
{
    read_number_at(s, pos, 10, 3, false, 255)
}

fn read_dot_octet_at(s: &Vec<char>, pos: usize) -> (r: Option<(u64, usize)>)
    requires
        pos <= s.len(),
    ensures
        num_view(r) == read_dot_octet(s@, pos as int),
        r matches Some((v, q)) ==> v <= 255 && q <= s.len(),
{
    match after_char_at(s, pos, '.') {
        Some(q) => read_octet_at(s, q),
        None => None,
    }
}

fn read_ipv4_at(s: &Vec<char>, pos: usize) -> (r: Option<(u64, usize)>)
    requires
        pos <= s.len(),
    ensures
        num_view(r) == read_ipv4(s@, pos as int),
        r matches Some((v, q)) ==> v <= u32::MAX && q <= s.len(),
{
    let (a, p1) = match read_octet_at(s, pos) {
        Some(x) => x,
        None => return None,
    };
    let (b, p2) = match read_dot_octet_at(s, p1) {
        Some(x) => x,
        None => return None,
    };
    let (c, p3) = match read_dot_octet_at(s, p2) {
        Some(x) => x,
        None => return None,
    };
    let (d, p4) = match read_dot_octet_at(s, p3) {
        Some(x) => x,
        None => return None,
    };
    assert(((a * 256 + b) * 256 + c) * 256 + d <= u32::MAX) by (nonlinear_arith)
        requires
            a <= 255 && b <= 255 && c <= 255 && d <= 255,
    ;
    Some((((a * 256 + b) * 256 + c) * 256 + d, p4))
}

fn after_separator_at(s: &Vec<char>, pos: usize, first: bool) -> (r: Option<usize>)
    requires
        pos <= s.len(),
    ensures
        match r {
            Some(q) => after_separator(s@, pos as int, first) == Some(q as int) && q <= s.len(),
            None => after_separator(s@, pos as int, first) is None,
        },
{
    if first {
        Some(pos)
    } else {
        after_char_at(s, pos, ':')
    }
}

fn read_part_ipv4_at(s: &Vec<char>, pos: usize, first: bool) -> (r: Option<(u64, usize)>)
    requires
        pos <= s.len(),
    ensures
        num_view(r) == read_part_ipv4(s@, pos as int, first),
        r matches Some((v, q)) ==> v <= u32::MAX && q <= s.len(),
{
    match after_separator_at(s, pos, first) {
        Some(q) => read_ipv4_at(s, q),
        None => None,
    }
}

fn read_part_group_at(s: &Vec<char>, pos: usize, first: bool) -> (r: Option<(u64, usize)>)
    requires
        pos <= s.len(),
    ensures
        num_view(r) == read_part_group(s@, pos as int, first),
        r matches Some((v, q)) ==> v <= 0xffff && q <= s.len(),
{
    match after_separator_at(s, pos, first) {
        Some(q) => read_number_at(s, q, 16, 4, true, 0xffff),
        None => None,
    }
}

/// Reads the groups of an IPv6 address (see [`read_groups`]).
fn read_groups_at(s: &Vec<char>, pos: usize, i: usize, limit: usize) -> (r: (Vec<u64>, bool, usize))
    requires
        pos <= s.len(),
        i <= limit <= 8,
    ensures
        (nat_seq(r.0@), r.1, r.2 as int) == read_groups(s@, pos as int, i as nat, limit as nat),
        r.2 <= s.len(),
        r.0@.len() <= limit - i,
        forall|k: int| 0 <= k < r.0@.len() ==> #[trigger] r.0@[k] <= 0xffff,
    decreases limit - i,
{
    if i >= limit {
        let v: Vec<u64> = Vec::new();
        assert(nat_seq(v@) =~= Seq::<nat>::empty());
        return (v, false, pos);
    }
    let v4 = if i + 1 < limit {
        read_part_ipv4_at(s, pos, i == 0)
    } else {
        None
    };
    match v4 {
        Some((ip, p)) => {
            let mut v: Vec<u64> = Vec::new();
            v.push(ip / 65536);
            v.push(ip % 65536);
            assert(nat_seq(v@) =~= seq![(ip as nat) / 65536, (ip as nat) % 65536]);
            (v, true, p)
        },
        None => match read_part_group_at(s, pos, i == 0) {
            Some((g, p)) => {
                let (rest, found, q) = read_groups_at(s, p, i + 1, limit);
                let mut v: Vec<u64> = Vec::new();
                v.push(g);
                let ghost rest_seq = rest@;
                let mut rest = rest;
                v.append(&mut rest);
                assert(v@ =~= seq![g] + rest_seq);
                assert(nat_seq(v@) =~= seq![g as nat] + nat_seq(rest_seq));
                (v, found, q)
            },
            None => {
                let v: Vec<u64> = Vec::new();
                assert(nat_seq(v@) =~= Seq::<nat>::empty());
                (v, false, pos)
            },
        },
    }
}

/// Reads an IPv6 address as its eight groups (see [`read_ipv6`]).
fn read_ipv6_at(s: &Vec<char>, pos: usize) -> (r: Option<(Vec<u64>, usize)>)
    requires
        pos <= s.len(),
    ensures
        match r {
            Some((gs, q)) => read_ipv6(s@, pos as int) == Some((nat_seq(gs@), q as int)) && q <= s.len()
                && gs@.len() == 8 && forall|k: int| 0 <= k < 8 ==> #[trigger] gs@[k] <= 0xffff,
            None => read_ipv6(s@, pos as int) is None,
        },
{
    let (head, head_v4, p) = read_groups_at(s, pos, 0, 8);
    if head.len() == 8 {
        return Some((head, p));
    }
    if head_v4 {
        return None;
    }
    let p1 = match after_char_at(s, p, ':') {
        Some(q) => q,
        None => return None,
    };
    let p2 = match after_char_at(s, p1, ':') {
        Some(q) => q,
        None => return None,
    };
    let (tail, _, q) = read_groups_at(s, p2, 0, 7 - head.len());
    let gap = 8 - head.len() - tail.len();
    let mut gs = head;
    let ghost head_seq = gs@;
    let mut k: usize = 0;
    while k < gap
        invariant
            k <= gap,
            gs@ == head_seq + Seq::new(k as nat, |j: int| 0u64),
        decreases gap - k,
    {
        gs.push(0);
        k = k + 1;
        assert(gs@ =~= head_seq + Seq::new(k as nat, |j: int| 0u64));
    }
    let ghost before_tail = gs@;
    let mut tail = tail;
    let ghost tail_seq = tail@;
    gs.append(&mut tail);
    assert(nat_seq(gs@) =~= nat_seq(head_seq) + Seq::new(gap as nat, |j: int| 0nat) + nat_seq(tail_seq));
    Some((gs, q))
}

/// `65536` to the power `n`.
pub open spec fn pow_group(n: nat) -> nat
    decreases n,
{
    if n == 0 {
        1
    } else {
        pow_group((n - 1) as nat) * 65536
    }
}

proof fn lemma_groups_value_bound(gs: Seq<nat>)
    requires
        forall|k: int| 0 <= k < gs.len() ==> #[trigger] gs[k] <= 0xffff,
    ensures
        groups_value(gs) < pow_group(gs.len()),
    decreases gs.len(),
{
    if gs.len() > 0 {
        let init = gs.drop_last();
        assert forall|k: int| 0 <= k < init.len() implies #[trigger] init[k] <= 0xffff by {
            assert(init[k] == gs[k]);
        }
        lemma_groups_value_bound(init);
        let v = groups_value(init);
        let p = pow_group(init.len());
        let g = gs.last();
        assert(gs[gs.len() - 1] <= 0xffff);
        assert(v * 65536 + g < p * 65536) by (nonlinear_arith)
            requires
                v < p,
                g <= 0xffff,
        ;
    }
}

/// The 128-bit value of eight groups.
fn groups_to_u128(gs: &Vec<u64>) -> (r: u128)
    requires
        gs@.len() == 8,
        forall|k: int| 0 <= k < 8 ==> #[trigger] gs@[k] <= 0xffff,
    ensures
        r as nat == groups_value(nat_seq(gs@)),
{
    let mut acc: u128 = 0;
    let ghost all = nat_seq(gs@);
    assert(pow_group(8) == 0x1_0000_0000_0000_0000_0000_0000_0000_0000) by {
        reveal_with_fuel(pow_group, 9);
    }
    for k in 0..8usize
        invariant
            gs@.len() == 8,
            all == nat_seq(gs@),
            forall|j: int| 0 <= j < 8 ==> #[trigger] gs@[j] <= 0xffff,
            pow_group(8) == 0x1_0000_0000_0000_0000_0000_0000_0000_0000,
            acc as nat == groups_value(all.take(k as int)),
    {
        let ghost pre = all.take(k as int);
        assert(all.take(k + 1).drop_last() =~= pre);
        assert(forall|j: int| 0 <= j < all.take(k + 1).len() ==> #[trigger] all.take(k + 1)[j] <= 0xffff);
        proof {
            lemma_groups_value_bound(all.take(k + 1));
            lemma_pow_group_grows((k + 1) as nat, 8);
        }
        acc = acc * 65536 + (gs[k] as u128);
    }
    assert(all.take(8) =~= all);
    acc
}

proof fn lemma_pow_group_grows(a: nat, b: nat)
    requires
        a <= b,
    ensures
        pow_group(a) <= pow_group(b),
    decreases b - a,
{
    if a < b {
        lemma_pow_group_grows(a, (b - 1) as nat);
        let p = pow_group((b - 1) as nat);
        assert(p <= p * 65536) by (nonlinear_arith);
    }
}

fn read_port_at(s: &Vec<char>, pos: usize) -> (r: Option<(u64, usize)>)
    requires
        pos <= s.len(),
    ensures
        num_view(r) == read_port(s@, pos as int),
        r matches Some((v, q)) ==> v <= 0xffff && q <= s.len(),
{
    match after_char_at(s, pos, ':') {
        Some(q) => read_number_at(s, q, 10, 0, true, 0xffff),
        None => None,
    }
}

fn read_scope_at(s: &Vec<char>, pos: usize) -> (r: Option<(u64, usize)>)
    requires
        pos <= s.len(),
    ensures
        num_view(r) == read_scope(s@, pos as int),
        r matches Some((v, q)) ==> v <= 0xffff_ffff && q <= s.len(),
{
    match after_char_at(s, pos, '%') {
        Some(q) => read_number_at(s, q, 10, 0, true, 0xffff_ffff),
        None => None,
    }
}

/// What `SocketAddr::from_str` gives for `text`.
pub fn parse_addr(text: &str) -> (r: Option<ClientAddr>)
    ensures
        r == parse_socket_addr(text@),
{
    proof {
        reveal(parse_socket_addr);
    }
    let s = chars_of(text);
    if let Some((ip, p)) = read_ipv4_at(&s, 0) {
        if let Some((port, q)) = read_port_at(&s, p) {
            let a = ClientAddr::V4 { ip: ip as u32, port: port as u16 };
            return if q == s.len() {
                Some(a)
            } else {
                None
            };
        }
    }
    let p0 = match after_char_at(&s, 0, '[') {
        Some(q) => q,
        None => return None,
    };
    let (gs, p1) = match read_ipv6_at(&s, p0) {
        Some(x) => x,
        None => return None,
    };
    let (scope, p2) = match read_scope_at(&s, p1) {
        Some(x) => x,
        None => (0, p1),
    };
    let p3 = match after_char_at(&s, p2, ']') {
        Some(q) => q,
        None => return None,
    };
    let (port, q) = match read_port_at(&s, p3) {
        Some(x) => x,
        None => return None,
    };
    let ip = groups_to_u128(&gs);
    let a = ClientAddr::V6 { ip, port: port as u16, flowinfo: 0, scope_id: scope as u32 };
    if q == s.len() {
        Some(a)
    } else {
        None
    }
}

/// The lower-case hexadecimal digit of a value below sixteen.
pub open spec fn hex_char(d: nat) -> char {
    if d < 10 {
        (d + 0x30) as char
    } else {
        (d - 10 + 0x61) as char
    }
}

/// The lower-case hexadecimal digits of `n`, as `{:x}` writes them.
pub open spec fn hex(n: nat) -> Seq<char>
    decreases n,
{
    if n < 16 {
        seq![hex_char(n)]
    } else {
        hex(n / 16).push(hex_char(n % 16))
    }
}

/// The last `k` groups of sixteen bits of `x`, the highest first.
pub open spec fn low_groups(x: nat, k: nat) -> Seq<nat>
    decreases k,
{
    if k == 0 {
        Seq::empty()
    } else {
        low_groups(x / 65536, (k - 1) as nat).push(x % 65536)
    }
}

/// The eight groups of an IPv6 address.
pub open spec fn segments(ip: nat) -> Seq<nat> {
    low_groups(ip, 8)
}

/// The dotted text of an IPv4 address.
pub open spec fn ipv4_text(ip: nat) -> Seq<char> {
    decimal(ip / 16777216) + seq!['.'] + decimal((ip / 65536) % 256) + seq!['.'] + decimal(
        (ip / 256) % 256,
    ) + seq!['.'] + decimal(ip % 256)
}

/// Groups in hexadecimal with `:` between them.
pub open spec fn hex_groups(gs: Seq<nat>) -> Seq<char> {
    join(gs.map_values(|g: nat| hex(g)), ':')
}

/// After looking at the first `i` groups: the longest run of zero groups so
/// far (the first of equal ones) and the run that ends at `i`, each as start
/// and length.
pub open spec fn zero_runs(gs: Seq<nat>, i: nat) -> ((nat, nat), (nat, nat))
    decreases i,
{
    if i == 0 {
        ((0, 0), (0, 0))
    } else {
        let prev = zero_runs(gs, (i - 1) as nat);
        if gs[i - 1] == 0 {
            let cur = if prev.1.1 == 0 {
                ((i - 1) as nat, 1nat)
            } else {
                (prev.1.0, prev.1.1 + 1)
            };
            let longest = if cur.1 > prev.0.1 {
                cur
            } else {
                prev.0
            };
            (longest, cur)
        } else {
            (prev.0, (0nat, 0nat))
        }
    }
}

/// Whether an IPv6 address is an IPv4 address mapped into IPv6
/// (`::ffff:a.b.c.d`).
pub open spec fn is_v4_mapped(g: Seq<nat>) -> bool {
    g[0] == 0 && g[1] == 0 && g[2] == 0 && g[3] == 0 && g[4] == 0 && g[5] == 0xffff
}

/// The text of an IPv6 address: an IPv4-mapped address as `::ffff:` and the
/// dotted IPv4 address; otherwise the groups in hexadecimal, the longest run
/// of two or more zero groups written as `::`.
pub open spec fn ipv6_text(ip: nat) -> Seq<char> {
    let g = segments(ip);
    if is_v4_mapped(g) {
        seq![':', ':', 'f', 'f', 'f', 'f', ':'] + ipv4_text(g[6] * 65536 + g[7])
    } else {
        let z = zero_runs(g, 8).0;
        if z.1 > 1 {
            hex_groups(g.take(z.0 as int)) + seq![':', ':'] + hex_groups(g.skip((z.0 + z.1) as int))
        } else {
            hex_groups(g)
        }
    }
}

/// The text of a socket address, as `SocketAddr`'s `Display` writes it.
#[verifier::opaque]
pub open spec fn addr_text(a: ClientAddr) -> Seq<char> {
    match a {
        ClientAddr::V4 { ip, port } => ipv4_text(ip as nat) + seq![':'] + decimal(port as nat),
        ClientAddr::V6 { ip, port, scope_id, .. } => seq!['['] + ipv6_text(ip as nat) + (if scope_id
            == 0 {
            Seq::empty()
        } else {
            seq!['%'] + decimal(scope_id as nat)
        }) + seq![']', ':'] + decimal(port as nat),
    }
}

fn hex_char_of(d: u64) -> (c: char)
    requires
        d < 16,
    ensures
        c == hex_char(d as nat),
{
    let b: u8 = if d < 10 {
        (d + 0x30) as u8
    } else {
        (d - 10 + 0x61) as u8
    };
    let c = b as char;
    assert(c as u32 == b as u32);
    c
}

/// Appends the hexadecimal digits of `n`.
fn push_hex(s: &mut String, n: u64)
    ensures
        final(s)@ == old(s)@ + hex(n as nat),
    decreases n,
{
    if n >= 16 {
        push_hex(s, n / 16);
    }
    let c = hex_char_of(n % 16);
    push_char(s, c);
    assert(final(s)@ =~= old(s)@ + hex(n as nat));
}

/// Appends the dotted text of an IPv4 address.
fn push_ipv4(s: &mut String, ip: u64)
    requires
        ip <= u32::MAX,
    ensures
        final(s)@ == old(s)@ + ipv4_text(ip as nat),
{
    push_decimal(s, ip / 16777216);
    push_char(s, '.');
    push_decimal(s, (ip / 65536) % 256);
    push_char(s, '.');
    push_decimal(s, (ip / 256) % 256);
    push_char(s, '.');
    push_decimal(s, ip % 256);
    assert(final(s)@ =~= old(s)@ + ipv4_text(ip as nat));
}

/// Appends groups in hexadecimal with `:` between them.
fn push_hex_groups(s: &mut String, gs: &Vec<u64>, lo: usize, hi: usize)
    requires
        lo <= hi <= gs.len(),
    ensures
        final(s)@ == old(s)@ + hex_groups(nat_seq(gs@).subrange(lo as int, hi as int)),
{
    let ghost start = s@;
    let mut k = lo;
    while k < hi
        invariant
            lo <= k <= hi <= gs.len(),
            s@ == start + hex_groups(nat_seq(gs@).subrange(lo as int, k as int)),
        decreases hi - k,
    {
        let ghost part = nat_seq(gs@).subrange(lo as int, k + 1);
        let ghost hs = part.map_values(|g: nat| hex(g));
        assert(part.drop_last() =~= nat_seq(gs@).subrange(lo as int, k as int));
        assert(hs.drop_last() =~= part.drop_last().map_values(|g: nat| hex(g)));
        assert(hs.last() == hex(gs@[k as int] as nat));
        if k > lo {
            push_char(s, ':');
        }
        push_hex(s, gs[k]);
        k = k + 1;
        assert(s@ =~= start + hex_groups(nat_seq(gs@).subrange(lo as int, k as int)));
    }
}

/// The eight groups of a 128-bit value.
fn segments_of(ip: u128) -> (gs: Vec<u64>)
    ensures
        nat_seq(gs@) == segments(ip as nat),
        gs@.len() == 8,
{
    let mut x = ip;
    let mut rev: Vec<u64> = Vec::new();
    let mut k: usize = 0;
    while k < 8
        invariant
            k <= 8,
            rev@.len() == k,
            low_groups(ip as nat, 8) == low_groups(x as nat, (8 - k) as nat) + nat_seq(rev@).reverse(),
        decreases 8 - k,
    {
        let g = (x % 65536) as u64;
        assert(low_groups(x as nat, (8 - k) as nat) == low_groups((x / 65536) as nat, (7 - k) as nat).push(
            (x % 65536) as nat,
        ));
        let ghost old_rev = rev@;
        rev.push(g);
        x = x / 65536;
        k = k + 1;
        assert(nat_seq(rev@).reverse() =~= seq![g as nat] + nat_seq(old_rev).reverse());
        assert(low_groups(ip as nat, 8) =~= low_groups(x as nat, (8 - k) as nat) + nat_seq(rev@).reverse());
    }
    let mut gs: Vec<u64> = Vec::new();
    let mut j: usize = 0;
    while j < 8
        invariant
            j <= 8,
            rev@.len() == 8,
            nat_seq(gs@) == nat_seq(rev@).reverse().take(j as int),
        decreases 8 - j,
    {
        let ghost old_gs = gs@;
        assert(nat_seq(rev@).reverse()[j as int] == rev@[7 - j] as nat);
        gs.push(rev[7 - j]);
        assert(nat_seq(gs@) =~= nat_seq(old_gs).push(rev@[7 - j] as nat));
        assert(nat_seq(rev@).reverse().take(j + 1) =~= nat_seq(rev@).reverse().take(j as int).push(rev@[7 - j] as nat));
        j = j + 1;
        assert(nat_seq(gs@) =~= nat_seq(rev@).reverse().take(j as int));
    }
    assert(low_groups(x as nat, 0) =~= Seq::<nat>::empty());
    assert(nat_seq(rev@).reverse().take(8) =~= nat_seq(rev@).reverse());
    gs
}

/// Appends the text of an IPv6 address.
fn push_ipv6(s: &mut String, ip: u128)
    ensures
        final(s)@ == old(s)@ + ipv6_text(ip as nat),
{
    let gs = segments_of(ip);
    let ghost g = segments(ip as nat);
    assert(forall|k: int| 0 <= k < 8 ==> #[trigger] g[k] == gs@[k] as nat);
    if gs[0] == 0 && gs[1] == 0 && gs[2] == 0 && gs[3] == 0 && gs[4] == 0 && gs[5] == 0xffff {
        push_str(s, "::ffff:");
        proof {
            reveal_strlit("::ffff:");
        }
        proof {
            lemma_low_groups_bound(ip as nat, 8);
            assert(g[6] < 65536 && g[7] < 65536);
        }
        push_ipv4(s, gs[6] * 65536 + gs[7]);
        return;
    }
    let mut longest_start: usize = 0;
    let mut longest_len: usize = 0;
    let mut cur_start: usize = 0;
    let mut cur_len: usize = 0;
    let mut k: usize = 0;
    while k < 8
        invariant
            k <= 8,
            gs@.len() == 8,
            g == nat_seq(gs@),
            zero_runs(g, k as nat) == ((longest_start as nat, longest_len as nat), (cur_start as nat, cur_len as nat)),
            longest_start + longest_len <= k,
            cur_len <= k,
        decreases 8 - k,
    {
        if gs[k] == 0 {
            if cur_len == 0 {
                cur_start = k;
            }
            cur_len = cur_len + 1;
            if cur_len > longest_len {
                longest_start = cur_start;
                longest_len = cur_len;
            }
        } else {
            cur_start = 0;
            cur_len = 0;
        }
        k = k + 1;
        proof {
            lemma_zero_runs_shape(g, k as nat);
        }
    }
    if longest_len > 1 {
        push_hex_groups(s, &gs, 0, longest_start);
        push_char(s, ':');
        push_char(s, ':');
        push_hex_groups(s, &gs, longest_start + longest_len, 8);
        assert(g.take(longest_start as int) =~= nat_seq(gs@).subrange(0, longest_start as int));
        assert(g.skip(longest_start + longest_len) =~= nat_seq(gs@).subrange(longest_start + longest_len, 8));
    } else {
        push_hex_groups(s, &gs, 0, 8);
        assert(g =~= nat_seq(gs@).subrange(0, 8));
    }
}

proof fn lemma_zero_runs_shape(g: Seq<nat>, i: nat)
    ensures
        zero_runs(g, i).0.0 + zero_runs(g, i).0.1 <= i,
        zero_runs(g, i).1.0 + zero_runs(g, i).1.1 <= i,
        zero_runs(g, i).1.1 > 0 ==> zero_runs(g, i).1.0 + zero_runs(g, i).1.1 == i,
    decreases i,
{
    if i > 0 {
        lemma_zero_runs_shape(g, (i - 1) as nat);
    }
}

proof fn lemma_low_groups_bound(x: nat, k: nat)
    ensures
        low_groups(x, k).len() == k,
        forall|j: int| 0 <= j < k ==> #[trigger] low_groups(x, k)[j] < 65536,
    decreases k,
{
    if k > 0 {
        lemma_low_groups_bound(x / 65536, (k - 1) as nat);
    }
}

/// The text of a socket address, as `SocketAddr`'s `Display` writes it.
pub fn addr_to_string(a: &ClientAddr) -> (r: String)
    ensures
        r@ == addr_text(*a),
{
    proof {
        reveal(addr_text);
    }
    let mut r = String::new();
    match a {
        ClientAddr::V4 { ip, port } => {
            push_ipv4(&mut r, *ip as u64);
            push_char(&mut r, ':');
            push_decimal(&mut r, *port as u64);
        },
        ClientAddr::V6 { ip, port, scope_id, .. } => {
            push_char(&mut r, '[');
            push_ipv6(&mut r, *ip);
            if *scope_id != 0 {
                push_char(&mut r, '%');
                push_decimal(&mut r, *scope_id as u64);
            }
            push_char(&mut r, ']');
            push_char(&mut r, ':');
            push_decimal(&mut r, *port as u64);
        },
    }
    assert(r@ =~= addr_text(*a));
    r
}

proof fn lemma_run_len_exact(s: Seq<char>, pos: int, k: nat, radix: nat)
    requires
        0 <= pos,
        pos + k <= s.len(),
        forall|j: int| pos <= j < pos + k ==> digit_of(#[trigger] s[j], radix) is Some,
        pos + k == s.len() || digit_of(s[pos + k], radix) is None,
    ensures
        run_len(s, pos, radix) == k,
    decreases k,
{
    if k > 0 {
        assert(digit_of(s[pos], radix) is Some);
        lemma_run_len_exact(s, pos + 1, (k - 1) as nat, radix);
    }
}

proof fn lemma_decimal_digits(n: nat)
    ensures
        decimal(n).len() > 0,
        forall|i: int| 0 <= i < decimal(n).len() ==> is_digit(#[trigger] decimal(n)[i]),
        decimal(n)[0] == '0' ==> n == 0,
        n < 1000 ==> decimal(n).len() <= 3,
    decreases n,
{
    lemma_decimal_roundtrip(n, n);
    let c = digit_char(n % 10);
    assert(c as u32 == n % 10 + 0x30);
    if n >= 10 {
        lemma_decimal_digits(n / 10);
        assert(decimal(n)[0] == decimal(n / 10)[0]);
        if n < 1000 {
            lemma_decimal_digits(n / 10);
            if n / 10 >= 10 {
                lemma_decimal_digits(n / 100);
                assert(n / 10 / 10 < 10);
            }
        }
    }
}

proof fn lemma_run_value_decimal(s: Seq<char>, pos: int, n: nat)
    requires
        0 <= pos,
        pos + decimal(n).len() <= s.len(),
        s.subrange(pos, pos + decimal(n).len()) == decimal(n),
    ensures
        run_value(s, pos, decimal(n).len(), 10) == n,
    decreases n,
{
    let d = decimal(n);
    let last = pos + d.len() - 1;
    assert(s[last] == d[d.len() - 1]);
    let c = digit_char(n % 10);
    assert(c as u32 == n % 10 + 0x30);
    assert(d.last() == c);
    assert(digit_of(c, 10) == Some((n % 10) as nat));
    if n >= 10 {
        let e = decimal(n / 10);
        assert(d.drop_last() == e);
        assert(s.subrange(pos, pos + e.len()) =~= e) by {
            assert forall|j: int| 0 <= j < e.len() implies s.subrange(pos, pos + e.len())[j] == e[j] by {
                assert(s[pos + j] == d[j]);
            }
        }
        lemma_run_value_decimal(s, pos, n / 10);
        assert((n / 10) * 10 + n % 10 == n);
    } else {
        assert(d.len() == 1);
        assert(run_value(s, pos, 0, 10) == 0);
    }
}

/// Reading the decimal digits of `n` at `pos`, when no digit follows them.
proof fn lemma_read_decimal(
    s: Seq<char>,
    pos: int,
    n: nat,
    max_digits: nat,
    allow_zero_prefix: bool,
    max: nat,
)
    requires
        0 <= pos,
        pos + decimal(n).len() <= s.len(),
        s.subrange(pos, pos + decimal(n).len()) == decimal(n),
        pos + decimal(n).len() == s.len() || !is_digit(s[pos + decimal(n).len()]),
        n <= max,
        max_digits == 0 || decimal(n).len() <= max_digits,
    ensures
        read_number(s, pos, 10, max_digits, allow_zero_prefix, max) == Some(
            (n, pos + decimal(n).len()),
        ),
{
    reveal(read_number);
    let d = decimal(n);
    lemma_decimal_digits(n);
    assert forall|j: int| pos <= j < pos + d.len() implies digit_of(#[trigger] s[j], 10) is Some by {
        assert(s[j] == d[j - pos]);
        assert(is_digit(d[j - pos]));
    }
    lemma_run_len_exact(s, pos, d.len(), 10);
    lemma_run_value_decimal(s, pos, n);
    assert(s[pos] == d[0]);
}

/// An IPv4 address with its octets split off.
proof fn lemma_octets(ip: nat)
    requires
        ip <= u32::MAX,
    ensures
        ((ip / 16777216 * 256 + (ip / 65536) % 256) * 256 + (ip / 256) % 256) * 256 + ip % 256 == ip,
        ip / 16777216 <= 255,
{
    assert(ip == (ip / 256) * 256 + ip % 256);
    assert(ip / 256 == (ip / 65536) * 256 + (ip / 256) % 256) by {
        assert(ip / 256 / 256 == ip / 65536) by {
            vstd::arithmetic::div_mod::lemma_div_denominator(ip as int, 256, 256);
        }
    }
    assert(ip / 65536 == (ip / 16777216) * 256 + (ip / 65536) % 256) by {
        assert(ip / 65536 / 256 == ip / 16777216) by {
            vstd::arithmetic::div_mod::lemma_div_denominator(ip as int, 65536, 256);
        }
    }
}

/// The text of an IPv4 address at `pos` reads back as the address.
proof fn lemma_read_ipv4_text(s: Seq<char>, pos: int, ip: nat)
    requires
        ip <= u32::MAX,
        0 <= pos,
        pos + ipv4_text(ip).len() <= s.len(),
        s.subrange(pos, pos + ipv4_text(ip).len()) == ipv4_text(ip),
        pos + ipv4_text(ip).len() == s.len() || !is_digit(s[pos + ipv4_text(ip).len()]),
    ensures
        read_ipv4(s, pos) == Some((ip, pos + ipv4_text(ip).len())),
{
    let a = ip / 16777216;
    let b = (ip / 65536) % 256;
    let c = (ip / 256) % 256;
    let d = ip % 256;
    lemma_octets(ip);
    let da = decimal(a);
    let db = decimal(b);
    let dc = decimal(c);
    let dd = decimal(d);
    lemma_decimal_digits(a);
    lemma_decimal_digits(b);
    lemma_decimal_digits(c);
    lemma_decimal_digits(d);
    let t = ipv4_text(ip);
    assert(t =~= da + seq!['.'] + db + seq!['.'] + dc + seq!['.'] + dd);
    let p1: int = pos + da.len() + 1;
    let p2: int = p1 + db.len() + 1;
    let p3: int = p2 + dc.len() + 1;
    let e: int = p3 + dd.len();
    assert(e == pos + t.len());
    assert(s.subrange(pos, pos + da.len()) =~= da) by {
        assert forall|j: int| 0 <= j < da.len() implies s.subrange(pos, pos + da.len())[j] == da[j] by {
            assert(s[pos + j] == t[j]);
        }
    }
    assert(s[pos + da.len()] == t[da.len() as int]);
    assert(s.subrange(p1, p1 + db.len()) =~= db) by {
        assert forall|j: int| 0 <= j < db.len() implies s.subrange(p1, p1 + db.len())[j] == db[j] by {
            assert(s[p1 + j] == t[p1 - pos + j]);
        }
    }
    assert(s[p1 + db.len()] == t[p1 - pos + db.len()]);
    assert(s.subrange(p2, p2 + dc.len()) =~= dc) by {
        assert forall|j: int| 0 <= j < dc.len() implies s.subrange(p2, p2 + dc.len())[j] == dc[j] by {
            assert(s[p2 + j] == t[p2 - pos + j]);
        }
    }
    assert(s[p2 + dc.len()] == t[p2 - pos + dc.len()]);
    assert(s.subrange(p3, p3 + dd.len()) =~= dd) by {
        assert forall|j: int| 0 <= j < dd.len() implies s.subrange(p3, p3 + dd.len())[j] == dd[j] by {
            assert(s[p3 + j] == t[p3 - pos + j]);
        }
    }
    lemma_read_decimal(s, pos, a, 3, false, 255);
    lemma_read_decimal(s, p1, b, 3, false, 255);
    lemma_read_decimal(s, p2, c, 3, false, 255);
    lemma_read_decimal(s, p3, d, 3, false, 255);
}

/// The text of an IPv4 address is digits and dots.
proof fn lemma_ipv4_text_plain(ip: nat)
    ensures
        ipv4_text(ip).len() > 0,
        forall|i: int| 0 <= i < ipv4_text(ip).len() ==> is_digit(#[trigger] ipv4_text(ip)[i])
            || ipv4_text(ip)[i] == '.',
{
    let da = decimal(ip / 16777216);
    let db = decimal((ip / 65536) % 256);
    let dc = decimal((ip / 256) % 256);
    let dd = decimal(ip % 256);
    lemma_decimal_digits(ip / 16777216);
    lemma_decimal_digits((ip / 65536) % 256);
    lemma_decimal_digits((ip / 256) % 256);
    lemma_decimal_digits(ip % 256);
    let t = ipv4_text(ip);
    let a1 = da + seq!['.'];
    let a2 = a1 + db + seq!['.'];
    let a3 = a2 + dc + seq!['.'];
    assert(t == a3 + dd);
    assert forall|i: int| 0 <= i < t.len() implies is_digit(#[trigger] t[i]) || t[i] == '.' by {
        if i < da.len() {
            assert(t[i] == da[i]);
        } else if i < a1.len() {
        } else if i < a1.len() + db.len() {
            assert(t[i] == db[i - a1.len()]);
        } else if i < a2.len() {
        } else if i < a2.len() + dc.len() {
            assert(t[i] == dc[i - a2.len()]);
        } else if i < a3.len() {
        } else {
            assert(t[i] == dd[i - a3.len()]);
        }
    }
}

/// The text of an IPv4 socket address reads back as the address; it is not
/// empty and holds no space.
proof fn law_addr_roundtrip_v4(ip: u32, port: u16)
    ensures
        parse_socket_addr(addr_text(ClientAddr::V4 { ip, port })) == Some(ClientAddr::V4 { ip, port }),
        addr_text(ClientAddr::V4 { ip, port }).len() > 0,
        free_of(addr_text(ClientAddr::V4 { ip, port }), Sep::Space),
{
    reveal(addr_text);
    reveal(parse_socket_addr);
    let t = ipv4_text(ip as nat);
    let dp = decimal(port as nat);
    lemma_decimal_digits(port as nat);
    lemma_ipv4_text_plain(ip as nat);
    let s = addr_text(ClientAddr::V4 { ip, port });
    assert(s == t + seq![':'] + dp);
    let p: int = t.len() as int;
    assert(s.subrange(0, p) =~= t);
    assert(s[p] == ':');
    lemma_read_ipv4_text(s, 0, ip as nat);
    assert(s.subrange(p + 1, p + 1 + dp.len()) =~= dp);
    lemma_read_decimal(s, p + 1, port as nat, 0, true, 0xffff);
    assert(read_port(s, p) == Some((port as nat, s.len() as int)));
    assert(read_socket_v4(s) == Some((ClientAddr::V4 { ip, port }, s.len() as int)));
    assert forall|i: int| 0 <= i < s.len() implies !Sep::Space.accepts(#[trigger] s[i]) by {
        if i < p {
            assert(s[i] == t[i]);
        } else if i > p {
            assert(s[i] == dp[i - p - 1]);
        }
    }
}

/// The hexadecimal digits of `n` are hex digits with the values of its
/// places; a group takes at most four of them.
proof fn lemma_hex_digits(n: nat)
    ensures
        hex(n).len() > 0,
        forall|i: int| 0 <= i < hex(n).len() ==> digit_of(#[trigger] hex(n)[i], 16) is Some,
        n <= 0xffff ==> hex(n).len() <= 4,
    decreases n,
{
    let d = n % 16;
    let c = hex_char(d);
    if d < 10 {
        assert(c as u32 == d + 0x30);
    } else {
        assert(c as u32 == d - 10 + 0x61);
    }
    assert(digit_of(c, 16) is Some);
    if n >= 16 {
        lemma_hex_digits(n / 16);
        assert forall|i: int| 0 <= i < hex(n).len() implies digit_of(#[trigger] hex(n)[i], 16) is Some by {
            if i < hex(n).len() - 1 {
                assert(hex(n)[i] == hex(n / 16)[i]);
            }
        }
        if n <= 0xffff {
            if n / 16 >= 16 {
                lemma_hex_digits(n / 256);
                assert(n / 16 / 16 == n / 256);
                if n / 256 >= 16 {
                    lemma_hex_digits(n / 4096);
                    assert(n / 256 / 16 == n / 4096);
                    assert(n / 4096 < 16);
                }
            }
        }
    }
}

proof fn lemma_run_value_hex(s: Seq<char>, pos: int, n: nat)
    requires
        0 <= pos,
        pos + hex(n).len() <= s.len(),
        s.subrange(pos, pos + hex(n).len()) == hex(n),
    ensures
        run_value(s, pos, hex(n).len(), 16) == n,
    decreases n,
{
    let h = hex(n);
    let last = pos + h.len() - 1;
    assert(s[last] == h[h.len() - 1]);
    let d = n % 16;
    let c = hex_char(d);
    if d < 10 {
        assert(c as u32 == d + 0x30);
    } else {
        assert(c as u32 == d - 10 + 0x61);
    }
    assert(h.last() == c);
    assert(digit_of(c, 16) == Some(d));
    if n >= 16 {
        let e = hex(n / 16);
        assert(h.drop_last() == e);
        assert(s.subrange(pos, pos + e.len()) =~= e) by {
            assert forall|j: int| 0 <= j < e.len() implies s.subrange(pos, pos + e.len())[j] == e[j] by {
                assert(s[pos + j] == h[j]);
            }
        }
        lemma_run_value_hex(s, pos, n / 16);
        assert((n / 16) * 16 + n % 16 == n);
    } else {
        assert(h.len() == 1);
        assert(run_value(s, pos, 0, 16) == 0);
    }
}

/// Reading the hexadecimal digits of a group at `pos`, when no hex digit
/// follows them; an IPv4 address cannot be read there unless a `.` follows.
proof fn lemma_read_hex(s: Seq<char>, pos: int, n: nat)
    requires
        n <= 0xffff,
        0 <= pos,
        pos + hex(n).len() <= s.len(),
        s.subrange(pos, pos + hex(n).len()) == hex(n),
        pos + hex(n).len() == s.len() || digit_of(s[pos + hex(n).len()], 16) is None,
    ensures
        read_number(s, pos, 16, 4, true, 0xffff) == Some((n, pos + hex(n).len())),
        (pos + hex(n).len() == s.len() || s[pos + hex(n).len()] != '.') ==> read_ipv4(s, pos) is None,
{
    reveal(read_number);
    let h = hex(n);
    lemma_hex_digits(n);
    assert forall|j: int| pos <= j < pos + h.len() implies digit_of(#[trigger] s[j], 16) is Some by {
        assert(s[j] == h[j - pos]);
    }
    lemma_run_len_exact(s, pos, h.len(), 16);
    lemma_run_value_hex(s, pos, n);
    let e = pos + h.len();
    if e == s.len() || s[e] != '.' {
        lemma_run_len_bound(s, pos, 10);
        let r = run_len(s, pos, 10);
        if r > h.len() {
            assert(digit_of(s[e], 10) is Some);
        }
        assert(r <= h.len());
        if pos + r < e {
            assert(digit_of(s[pos + r], 16) is Some);
            assert(s[pos + r] != '.');
        }
        if read_octet(s, pos) is Some {
            assert(read_octet(s, pos)->Some_0.1 == pos + r);
            assert(read_dot_octet(s, pos + r) is None);
        }
    }
}

/// The text of the groups `rest` read as parts `i` on: a `:` before them
/// unless they start the address.
pub open spec fn groups_text(i: nat, rest: Seq<nat>) -> Seq<char> {
    if rest.len() == 0 {
        Seq::empty()
    } else if i > 0 {
        seq![':'] + hex_groups(rest)
    } else {
        hex_groups(rest)
    }
}

/// A position at which reading groups stops: no hex digit and no `.`, and
/// after a `:` no hex digit either.
pub open spec fn stops_at(s: Seq<char>, e: int) -> bool {
    &&& 0 <= e < s.len()
    &&& s[e] != '.'
    &&& digit_of(s[e], 16) is None
    &&& s[e] == ':' ==> e + 1 < s.len() && digit_of(s[e + 1], 16) is None
}

/// Nothing is read as a number or an address where no hex digit stands.
proof fn lemma_nothing_at(s: Seq<char>, q: int)
    requires
        0 <= q < s.len(),
        digit_of(s[q], 16) is None,
    ensures
        read_number(s, q, 16, 4, true, 0xffff) is None,
        read_ipv4(s, q) is None,
{
    reveal(read_number);
    assert(run_len(s, q, 16) == 0);
    assert(digit_of(s[q], 10) is None);
    assert(run_len(s, q, 10) == 0);
}

/// The groups of a text read back as the groups.
proof fn lemma_read_groups_text(s: Seq<char>, q: int, i: nat, limit: nat, rest: Seq<nat>)
    requires
        i + rest.len() <= limit,
        forall|k: int| 0 <= k < rest.len() ==> #[trigger] rest[k] <= 0xffff,
        0 <= q,
        q + groups_text(i, rest).len() <= s.len(),
        s.subrange(q, q + groups_text(i, rest).len()) == groups_text(i, rest),
        stops_at(s, q + groups_text(i, rest).len()),
    ensures
        read_groups(s, q, i, limit) == (rest, false, q + groups_text(i, rest).len()),
    decreases rest.len(),
{
    let t = groups_text(i, rest);
    if rest.len() == 0 {
        if i < limit {
            if i > 0 {
                if s[q] == ':' {
                    lemma_nothing_at(s, q + 1);
                }
            } else {
                lemma_nothing_at(s, q);
            }
        }
    } else {
        let g = rest[0];
        let h = hex(g);
        let rest2 = rest.drop_first();
        let hs = rest.map_values(|x: nat| hex(x));
        assert(hs[0] == h);
        if rest.len() >= 2 {
            lemma_join_first(hs, ':');
            assert(hs.drop_first() =~= rest2.map_values(|x: nat| hex(x)));
        } else {
            assert(hex_groups(rest) == h);
        }
        assert(hex_groups(rest) == h + groups_text(i + 1, rest2));
        let q0: int = if i > 0 {
            q + 1
        } else {
            q
        };
        if i > 0 {
            assert(s[q] == t[0]);
        }
        let q1 = q0 + h.len();
        let t2 = groups_text(i + 1, rest2);
        assert(t == (if i > 0 {
            seq![':']
        } else {
            Seq::empty()
        }) + h + t2);
        assert(s.subrange(q0, q1) =~= h) by {
            assert forall|j: int| 0 <= j < h.len() implies s.subrange(q0, q1)[j] == h[j] by {
                assert(s[q0 + j] == t[q0 - q + j]);
            }
        }
        assert(s.subrange(q1, q1 + t2.len()) =~= t2) by {
            assert forall|j: int| 0 <= j < t2.len() implies s.subrange(q1, q1 + t2.len())[j] == t2[j] by {
                assert(s[q1 + j] == t[q1 - q + j]);
            }
        }
        assert(q1 + t2.len() == q + t.len());
        if rest2.len() > 0 {
            assert(s[q1] == t2[0]);
            assert(t2[0] == ':');
        }
        assert(rest[0] <= 0xffff);
        lemma_read_hex(s, q0, g);
        assert forall|k: int| 0 <= k < rest2.len() implies #[trigger] rest2[k] <= 0xffff by {
            assert(rest2[k] == rest[k + 1]);
        }
        lemma_read_groups_text(s, q1, i + 1, limit, rest2);
        assert(seq![g] + rest2 =~= rest);
    }
}

proof fn lemma_zero_runs(g: Seq<nat>, i: nat)
    requires
        i <= g.len(),
    ensures
        zero_runs(g, i).0.0 + zero_runs(g, i).0.1 <= i,
        forall|k: int| zero_runs(g, i).0.0 <= k < zero_runs(g, i).0.0 + zero_runs(g, i).0.1 ==> #[trigger] g[k] == 0,
        zero_runs(g, i).1.0 + zero_runs(g, i).1.1 <= i,
        forall|k: int| zero_runs(g, i).1.0 <= k < zero_runs(g, i).1.0 + zero_runs(g, i).1.1 ==> #[trigger] g[k] == 0,
        zero_runs(g, i).1.1 > 0 ==> zero_runs(g, i).1.0 + zero_runs(g, i).1.1 == i,
    decreases i,
{
    if i > 0 {
        lemma_zero_runs(g, (i - 1) as nat);
    }
}

proof fn lemma_groups_value_low(x: nat, k: nat)
    ensures
        groups_value(low_groups(x, k)) == x % pow_group(k),
        pow_group(k) > 0,
    decreases k,
{
    if k == 0 {
        assert(low_groups(x, 0) =~= Seq::<nat>::empty());
    } else {
        lemma_groups_value_low(x / 65536, (k - 1) as nat);
        let p = pow_group((k - 1) as nat);
        assert(low_groups(x, k).drop_last() == low_groups(x / 65536, (k - 1) as nat));
        vstd::arithmetic::div_mod::lemma_mod_breakdown(x as int, 65536, p as int);
        assert(pow_group(k) == p * 65536);
        assert(65536 * p == p * 65536) by (nonlinear_arith);
        assert(65536 * ((x / 65536) % p) == ((x / 65536) % p) * 65536) by (nonlinear_arith);
    }
}

/// The eight groups of an address give the address back.
proof fn lemma_segments(ip: u128)
    ensures
        segments(ip as nat).len() == 8,
        forall|k: int| 0 <= k < 8 ==> #[trigger] segments(ip as nat)[k] < 65536,
        groups_value(segments(ip as nat)) == ip as nat,
{
    lemma_low_groups_bound(ip as nat, 8);
    lemma_groups_value_low(ip as nat, 8);
    assert(pow_group(8) == 0x1_0000_0000_0000_0000_0000_0000_0000_0000) by {
        reveal_with_fuel(pow_group, 9);
    }
}

/// What reading an IPv6 address from the text of `ip` needs: the text at
/// `pos`, followed by a character that is neither a hex digit, a `:` nor a `.`.
pub open spec fn ipv6_placed(s: Seq<char>, pos: int, ip: u128) -> bool {
    &&& 0 <= pos
    &&& pos + ipv6_text(ip as nat).len() <= s.len()
    &&& s.subrange(pos, pos + ipv6_text(ip as nat).len()) == ipv6_text(ip as nat)
    &&& stops_at(s, pos + ipv6_text(ip as nat).len())
    &&& s[pos + ipv6_text(ip as nat).len()] != ':'
}

#[verifier::spinoff_prover]
proof fn lemma_read_ipv6_mapped(s: Seq<char>, pos: int, ip: u128)
    requires
        ipv6_placed(s, pos, ip),
        is_v4_mapped(segments(ip as nat)),
    ensures
        read_ipv6(s, pos) == Some((segments(ip as nat), pos + ipv6_text(ip as nat).len())),
{
    let t = ipv6_text(ip as nat);
    let e = pos + t.len();
    let g = segments(ip as nat);
    lemma_segments(ip);
    let v = g[6] * 65536 + g[7];
    let four = ipv4_text(v);
    let pre = seq![':', ':', 'f', 'f', 'f', 'f', ':'];
    assert(t == pre + four);
    assert(v <= u32::MAX);
    assert(s[pos] == t[0] && s[pos + 1] == t[1]);
    assert(s[pos] == ':' && s[pos + 1] == ':');
    assert(digit_of(s[pos], 16) is None);
    assert(digit_of(s[pos + 1], 16) is None);
    assert(s.subrange(pos, pos) =~= groups_text(0, Seq::<nat>::empty()));
    lemma_read_groups_text(s, pos, 0, 8, Seq::<nat>::empty());
    let p2 = pos + 2;
    let ffff = hex(0xffff);
    assert(ffff =~= seq!['f', 'f', 'f', 'f']) by {
        reveal_with_fuel(hex, 5);
        assert(hex_char(15) as u32 == 0x66);
    }
    assert(s.subrange(p2, p2 + 4) =~= ffff) by {
        assert forall|j: int| 0 <= j < 4 implies s.subrange(p2, p2 + 4)[j] == ffff[j] by {
            assert(s[p2 + j] == t[2 + j]);
        }
    }
    assert(s[p2 + 4] == t[6]);
    lemma_read_hex(s, p2, 0xffff);
    let p4 = p2 + 5;
    assert(s.subrange(p4, p4 + four.len()) =~= four) by {
        assert forall|j: int| 0 <= j < four.len() implies s.subrange(p4, p4 + four.len())[j] == four[j] by {
            assert(s[p4 + j] == t[7 + j]);
        }
    }
    assert(p4 + four.len() == e);
    assert(digit_of(s[e], 10) is None);
    lemma_read_ipv4_text(s, p4, v);
    assert(read_part_ipv4(s, p2 + 4, false) == Some((v, e)));
    assert(read_groups(s, p2 + 4, 1, 7) == (seq![v / 65536, v % 65536], true, e));
    assert(read_part_group(s, p2, true) == Some((0xffffnat, p2 + 4)));
    assert(read_part_ipv4(s, p2, true) is None);
    let tail = seq![0xffffnat, v / 65536, v % 65536];
    assert(read_groups(s, p2, 0, 7) == (seq![0xffffnat] + seq![v / 65536, v % 65536], true, e));
    assert(seq![0xffffnat] + seq![v / 65536, v % 65536] =~= tail);
    assert(v / 65536 == g[6] && v % 65536 == g[7]);
    assert(Seq::<nat>::empty() + Seq::new(5, |k: int| 0nat) + tail =~= g);
}

#[verifier::spinoff_prover]
proof fn lemma_read_ipv6_compressed(s: Seq<char>, pos: int, ip: u128)
    requires
        ipv6_placed(s, pos, ip),
        !is_v4_mapped(segments(ip as nat)),
        zero_runs(segments(ip as nat), 8).0.1 > 1,
    ensures
        read_ipv6(s, pos) == Some((segments(ip as nat), pos + ipv6_text(ip as nat).len())),
{
    let t = ipv6_text(ip as nat);
    let e = pos + t.len();
    let g = segments(ip as nat);
    lemma_segments(ip);
    let z = zero_runs(g, 8).0;
    lemma_zero_runs(g, 8);
    let a = g.take(z.0 as int);
    let b = g.skip((z.0 + z.1) as int);
    let ha = hex_groups(a);
    let hb = hex_groups(b);
    assert(groups_text(0, a) == ha) by {
        if a.len() == 0 {
            assert(a.map_values(|x: nat| hex(x)) =~= Seq::<Seq<char>>::empty());
        }
    }
    assert(groups_text(0, b) == hb) by {
        if b.len() == 0 {
            assert(b.map_values(|x: nat| hex(x)) =~= Seq::<Seq<char>>::empty());
        }
    }
    assert(t == ha + seq![':', ':'] + hb);
    let e1 = pos + ha.len();
    assert(s.subrange(pos, e1) =~= ha) by {
        assert forall|j: int| 0 <= j < ha.len() implies s.subrange(pos, e1)[j] == ha[j] by {
            assert(s[pos + j] == t[j]);
        }
    }
    assert(s[e1] == t[ha.len() as int]);
    assert(s[e1 + 1] == t[ha.len() as int + 1]);
    assert(s[e1] == ':' && s[e1 + 1] == ':');
    assert(digit_of(s[e1 + 1], 16) is None);
    assert forall|k: int| 0 <= k < a.len() implies #[trigger] a[k] <= 0xffff by {
        assert(a[k] == g[k]);
    }
    lemma_read_groups_text(s, pos, 0, 8, a);
    let p2 = e1 + 2;
    assert(s.subrange(p2, e) =~= hb) by {
        assert forall|j: int| 0 <= j < hb.len() implies s.subrange(p2, e)[j] == hb[j] by {
            assert(s[p2 + j] == t[ha.len() + 2 + j]);
        }
    }
    assert forall|k: int| 0 <= k < b.len() implies #[trigger] b[k] <= 0xffff by {
        assert(b[k] == g[k + z.0 + z.1]);
    }
    lemma_read_groups_text(s, p2, 0, (7 - a.len()) as nat, b);
    assert(a + Seq::new((8 - a.len() - b.len()) as nat, |k: int| 0nat) + b =~= g);
}

/// The text of an IPv6 address at `pos` reads back as its groups, when a
/// character that is neither a hex digit, a `:` nor a `.` follows it.
proof fn lemma_read_ipv6_text(s: Seq<char>, pos: int, ip: u128)
    requires
        ipv6_placed(s, pos, ip),
    ensures
        read_ipv6(s, pos) == Some((segments(ip as nat), pos + ipv6_text(ip as nat).len())),
{
    let g = segments(ip as nat);
    lemma_segments(ip);
    if is_v4_mapped(g) {
        lemma_read_ipv6_mapped(s, pos, ip);
    } else if zero_runs(g, 8).0.1 > 1 {
        lemma_read_ipv6_compressed(s, pos, ip);
    } else {
        let t = ipv6_text(ip as nat);
        assert(groups_text(0, g) == t);
        assert forall|k: int| 0 <= k < g.len() implies #[trigger] g[k] <= 0xffff by {}
        lemma_read_groups_text(s, pos, 0, 8, g);
    }
}

/// The text of an IPv6 address is hex digits, `:` and `.`; it holds no space.
proof fn lemma_ipv6_text_plain(ip: u128)
    ensures
        free_of(ipv6_text(ip as nat), Sep::Space),
{
    let g = segments(ip as nat);
    lemma_segments(ip);
    if is_v4_mapped(g) {
        let v = g[6] * 65536 + g[7];
        lemma_ipv4_text_plain(v);
        let four = ipv4_text(v);
        assert forall|i: int| 0 <= i < four.len() implies !Sep::Space.accepts(#[trigger] four[i]) by {
            assert(is_digit(four[i]) || four[i] == '.');
        }
        lemma_free_concat(seq![':', ':', 'f', 'f', 'f', 'f', ':'], four, Sep::Space);
    } else {
        assert forall|gs: Seq<nat>| true implies free_of(#[trigger] hex_groups(gs), Sep::Space) by {
            let hs = gs.map_values(|x: nat| hex(x));
            assert forall|k: int| 0 <= k < hs.len() implies free_of(#[trigger] hs[k], Sep::Space) by {
                lemma_hex_digits(gs[k]);
                assert forall|j: int| 0 <= j < hs[k].len() implies !Sep::Space.accepts(#[trigger] hs[k][j]) by {
                    assert(digit_of(hs[k][j], 16) is Some);
                }
            }
            lemma_join_free(hs, ':', Sep::Space);
        }
        let z = zero_runs(g, 8).0;
        if z.1 > 1 {
            let ha = hex_groups(g.take(z.0 as int));
            let hb = hex_groups(g.skip((z.0 + z.1) as int));
            lemma_free_concat(ha, seq![':', ':'], Sep::Space);
            lemma_free_concat(ha + seq![':', ':'], hb, Sep::Space);
        }
    }
}

/// The text of an IPv6 socket address without flow information reads back as
/// the address; it is not empty and holds no space.
proof fn law_addr_roundtrip_v6(ip: u128, port: u16, scope_id: u32)
    ensures
        parse_socket_addr(addr_text(ClientAddr::V6 { ip, port, flowinfo: 0, scope_id })) == Some(
            ClientAddr::V6 { ip, port, flowinfo: 0, scope_id },
        ),
        addr_text(ClientAddr::V6 { ip, port, flowinfo: 0, scope_id }).len() > 0,
        free_of(addr_text(ClientAddr::V6 { ip, port, flowinfo: 0, scope_id }), Sep::Space),
{
    reveal(addr_text);
    reveal(parse_socket_addr);
    let a = ClientAddr::V6 { ip, port, flowinfo: 0, scope_id };
    let t = ipv6_text(ip as nat);
    let scope = if scope_id == 0 {
        Seq::<char>::empty()
    } else {
        seq!['%'] + decimal(scope_id as nat)
    };
    let dp = decimal(port as nat);
    lemma_decimal_digits(port as nat);
    lemma_decimal_digits(scope_id as nat);
    let s = addr_text(a);
    assert(s == seq!['['] + t + scope + seq![']', ':'] + dp);
    let e: int = t.len() as int + 1;
    assert(s.subrange(1, e) =~= t);
    assert(s[e] == (if scope_id == 0 {
        ']'
    } else {
        '%'
    }));
    assert(digit_of(s[0], 16) is None);
    lemma_nothing_at(s, 0);
    lemma_read_ipv6_text(s, 1, ip);
    let e2: int = e + scope.len();
    if scope_id != 0 {
        let ds = decimal(scope_id as nat);
        assert(s.subrange(e + 1, e2) =~= ds);
        assert(s[e2] == ']');
        lemma_read_decimal(s, e + 1, scope_id as nat, 0, true, 0xffff_ffff);
        assert(read_scope(s, e) == Some((scope_id as nat, e2)));
    } else {
        assert(read_scope(s, e) is None);
    }
    assert(s[e2] == ']' && s[e2 + 1] == ':');
    assert(s.subrange(e2 + 2, e2 + 2 + dp.len()) =~= dp);
    assert(s.len() == e2 + 2 + dp.len());
    lemma_read_decimal(s, e2 + 2, port as nat, 0, true, 0xffff);
    lemma_segments(ip);
    assert(read_socket_v6(s) == Some((a, s.len() as int)));
    lemma_ipv6_text_plain(ip);
    assert forall|i: int| 0 <= i < s.len() implies !Sep::Space.accepts(#[trigger] s[i]) by {
        if 1 <= i < e {
            assert(s[i] == t[i - 1]);
        } else if e <= i < e2 {
            if i > e {
                assert(s[i] == decimal(scope_id as nat)[i - e - 1]);
                assert(is_digit(decimal(scope_id as nat)[i - e - 1]));
            }
        } else if i >= e2 + 2 {
            assert(s[i] == dp[i - e2 - 2]);
            assert(is_digit(dp[i - e2 - 2]));
        }
    }
}

/// Whether the text of an address says all of it: the text of an IPv6
/// address leaves out its flow information.
pub open spec fn fully_written(a: ClientAddr) -> bool {
    match a {
        ClientAddr::V4 { .. } => true,
        ClientAddr::V6 { flowinfo, .. } => flowinfo == 0,
    }
}

/// The text of an address reads back as the address, when the text says all
/// of it; it is not empty and holds no space.
pub proof fn law_addr_roundtrip(a: ClientAddr)
    requires
        fully_written(a),
    ensures
        parse_socket_addr(addr_text(a)) == Some(a),
        addr_text(a).len() > 0,
        free_of(addr_text(a), Sep::Space),
{
    match a {
        ClientAddr::V4 { ip, port } => law_addr_roundtrip_v4(ip, port),
        ClientAddr::V6 { ip, port, scope_id, .. } => law_addr_roundtrip_v6(ip, port, scope_id),
    }
}

/// Leading `0` digits do not change the value of a run of hex digits.
proof fn lemma_run_value_skip_zero(s: Seq<char>, pos: int, m: nat)
    requires
        0 <= pos < s.len(),
        s[pos] == '0',
    ensures
        run_value(s, pos, m + 1, 16) == run_value(s, pos + 1, m, 16),
    decreases m,
{
    if m == 0 {
        assert(run_value(s, pos, 0, 16) == 0);
        assert(digit_of('0', 16) == Some(0nat));
    } else {
        lemma_run_value_skip_zero(s, pos, (m - 1) as nat);
        assert(pos + (m + 1) - 1 == (pos + 1) + m - 1);
    }
}

proof fn lemma_run_value_skip_zeros(s: Seq<char>, pos: int, z: nat, m: nat)
    requires
        0 <= pos,
        pos + z <= s.len(),
        forall|j: int| pos <= j < pos + z ==> #[trigger] s[j] == '0',
    ensures
        run_value(s, pos, z + m, 16) == run_value(s, pos + z, m, 16),
    decreases z,
{
    if z > 0 {
        assert(s[pos] == '0');
        lemma_run_value_skip_zero(s, pos, (z - 1 + m) as nat);
        lemma_run_value_skip_zeros(s, pos + 1, (z - 1) as nat, m);
    }
}

/// A group of an IPv6 address written as its hexadecimal digits reads as its
/// value, first in the address or after a `:`.
pub proof fn law_group_reads_hex(s: Seq<char>, pos: int, g: nat)
    requires
        g <= 0xffff,
        0 <= pos,
        pos + hex(g).len() <= s.len(),
        s.subrange(pos, pos + hex(g).len()) == hex(g),
        pos + hex(g).len() == s.len() || digit_of(s[pos + hex(g).len()], 16) is None,
    ensures
        read_part_group(s, pos, true) == Some((g, pos + hex(g).len())),
        pos >= 1 && s[pos - 1] == ':' ==> read_part_group(s, pos - 1, false) == Some(
            (g, pos + hex(g).len()),
        ),
{
    lemma_read_hex(s, pos, g);
}

/// A group written with leading zeros, up to four digits in all, reads as the
/// same value as without them.
pub proof fn law_group_leading_zeros(s: Seq<char>, pos: int, z: nat, g: nat)
    requires
        g <= 0xffff,
        0 <= pos,
        z + hex(g).len() <= 4,
        pos + z + hex(g).len() <= s.len(),
        forall|j: int| pos <= j < pos + z ==> #[trigger] s[j] == '0',
        s.subrange(pos + z, pos + z + hex(g).len()) == hex(g),
        pos + z + hex(g).len() == s.len() || digit_of(s[pos + z + hex(g).len()], 16) is None,
    ensures
        read_part_group(s, pos, true) == Some((g, pos + z + hex(g).len())),
        read_part_group(s, pos, true) == read_part_group(s, pos + z, true),
{
    reveal(read_number);
    let h = hex(g);
    lemma_hex_digits(g);
    lemma_read_hex(s, pos + z, g);
    let n = z + h.len();
    assert forall|j: int| pos <= j < pos + n implies digit_of(#[trigger] s[j], 16) is Some by {
        if j < pos + z {
            assert(s[j] == '0');
        } else {
            assert(s[j] == h[j - pos - z]);
        }
    }
    lemma_run_len_exact(s, pos, n, 16);
    lemma_run_value_hex(s, pos + z, g);
    lemma_run_value_skip_zeros(s, pos, z, h.len());
}

/// A group written with four hexadecimal digits, padded with leading zeros.
pub open spec fn pad4(g: nat) -> Seq<char> {
    Seq::new((4 - hex(g).len()) as nat, |i: int| '0') + hex(g)
}

/// Groups written with four digits each, with `:` between them: the fully
/// written form of an IPv6 address.
pub open spec fn padded_groups(gs: Seq<nat>) -> Seq<char> {
    join(gs.map_values(|g: nat| pad4(g)), ':')
}

/// The padded groups `rest` as parts `i` on: a `:` before them unless they
/// start the address.
pub open spec fn padded_text(i: nat, rest: Seq<nat>) -> Seq<char> {
    if rest.len() == 0 {
        Seq::empty()
    } else if i > 0 {
        seq![':'] + padded_groups(rest)
    } else {
        padded_groups(rest)
    }
}

/// A padded group reads as its value; no IPv4 address is read there unless a
/// `.` follows.
proof fn lemma_read_pad(s: Seq<char>, pos: int, g: nat)
    requires
        g <= 0xffff,
        0 <= pos,
        pos + 4 <= s.len(),
        s.subrange(pos, pos + 4) == pad4(g),
        pos + 4 == s.len() || digit_of(s[pos + 4], 16) is None,
    ensures
        pad4(g).len() == 4,
        read_number(s, pos, 16, 4, true, 0xffff) == Some((g, pos + 4)),
        (pos + 4 == s.len() || s[pos + 4] != '.') ==> read_ipv4(s, pos) is None,
{
    let h = hex(g);
    lemma_hex_digits(g);
    let z = (4 - h.len()) as nat;
    let p = pad4(g);
    assert(p.len() == 4);
    assert forall|j: int| pos <= j < pos + z implies #[trigger] s[j] == '0' by {
        assert(s[j] == p[j - pos]);
    }
    assert(s.subrange(pos + z, pos + 4) =~= h) by {
        assert forall|j: int| 0 <= j < h.len() implies s.subrange(pos + z, pos + 4)[j] == h[j] by {
            assert(s[pos + z + j] == p[z + j]);
        }
    }
    law_group_leading_zeros(s, pos, z, g);
    if pos + 4 == s.len() || s[pos + 4] != '.' {
        reveal(read_number);
        assert forall|j: int| pos <= j < pos + 4 implies digit_of(#[trigger] s[j], 16) is Some by {
            if j < pos + z {
                assert(s[j] == '0');
            } else {
                assert(s[j] == h[j - pos - z]);
            }
        }
        lemma_run_len_bound(s, pos, 10);
        let r = run_len(s, pos, 10);
        if r > 4 {
            assert(digit_of(s[pos + 4], 10) is Some);
        }
        if pos + r < pos + 4 {
            assert(digit_of(s[pos + r], 16) is Some);
            assert(s[pos + r] != '.');
        }
        if read_octet(s, pos) is Some {
            assert(read_octet(s, pos)->Some_0.1 == pos + r);
            assert(read_dot_octet(s, pos + r) is None);
        }
    }
}

/// Padded groups read back as the groups.
proof fn lemma_read_padded_groups(s: Seq<char>, q: int, i: nat, limit: nat, rest: Seq<nat>)
    requires
        i + rest.len() <= limit,
        forall|k: int| 0 <= k < rest.len() ==> #[trigger] rest[k] <= 0xffff,
        0 <= q,
        q + padded_text(i, rest).len() <= s.len(),
        s.subrange(q, q + padded_text(i, rest).len()) == padded_text(i, rest),
        stops_at(s, q + padded_text(i, rest).len()),
    ensures
        read_groups(s, q, i, limit) == (rest, false, q + padded_text(i, rest).len()),
    decreases rest.len(),
{
    let t = padded_text(i, rest);
    if rest.len() == 0 {
        if i < limit {
            if i > 0 {
                if s[q] == ':' {
                    lemma_nothing_at(s, q + 1);
                }
            } else {
                lemma_nothing_at(s, q);
            }
        }
    } else {
        let g = rest[0];
        let h = pad4(g);
        let rest2 = rest.drop_first();
        let hs = rest.map_values(|x: nat| pad4(x));
        assert(hs[0] == h);
        if rest.len() >= 2 {
            lemma_join_first(hs, ':');
            assert(hs.drop_first() =~= rest2.map_values(|x: nat| pad4(x)));
        } else {
            assert(padded_groups(rest) == h);
        }
        assert(padded_groups(rest) == h + padded_text(i + 1, rest2));
        let q0: int = if i > 0 {
            q + 1
        } else {
            q
        };
        if i > 0 {
            assert(s[q] == t[0]);
        }
        lemma_hex_digits(g);
        assert(h.len() == 4);
        let q1 = q0 + 4;
        let t2 = padded_text(i + 1, rest2);
        assert(t == (if i > 0 {
            seq![':']
        } else {
            Seq::empty()
        }) + h + t2);
        assert(s.subrange(q0, q1) =~= h) by {
            assert forall|j: int| 0 <= j < 4 implies s.subrange(q0, q1)[j] == h[j] by {
                assert(s[q0 + j] == t[q0 - q + j]);
            }
        }
        assert(s.subrange(q1, q1 + t2.len()) =~= t2) by {
            assert forall|j: int| 0 <= j < t2.len() implies s.subrange(q1, q1 + t2.len())[j] == t2[j] by {
                assert(s[q1 + j] == t[q1 - q + j]);
            }
        }
        assert(q1 + t2.len() == q + t.len());
        if rest2.len() > 0 {
            assert(s[q1] == t2[0]);
            assert(t2[0] == ':');
        }
        assert(rest[0] <= 0xffff);
        lemma_read_pad(s, q0, g);
        assert forall|k: int| 0 <= k < rest2.len() implies #[trigger] rest2[k] <= 0xffff by {
            assert(rest2[k] == rest[k + 1]);
        }
        lemma_read_padded_groups(s, q1, i + 1, limit, rest2);
        assert(seq![g] + rest2 =~= rest);
    }
}

/// The fully written form of an IPv6 socket address, every group written
/// with four digits (leading zeros included) and no `::`, reads as the
/// address, as `SocketAddr::from_str` reads it.
pub proof fn law_addr_full_form(ip: u128, port: u16)
    ensures
        parse_socket_addr(seq!['['] + padded_groups(segments(ip as nat)) + seq![']', ':'] + decimal(
            port as nat,
        )) == Some(ClientAddr::V6 { ip, port, flowinfo: 0, scope_id: 0 }),
{
    reveal(parse_socket_addr);
    let g = segments(ip as nat);
    lemma_segments(ip);
    let t = padded_groups(g);
    let dp = decimal(port as nat);
    lemma_decimal_digits(port as nat);
    let s = seq!['['] + t + seq![']', ':'] + dp;
    assert(padded_text(0, g) == t);
    let e: int = t.len() as int + 1;
    assert(s.subrange(1, e) =~= t);
    assert(s[e] == ']');
    assert(digit_of(s[0], 16) is None);
    lemma_nothing_at(s, 0);
    assert forall|k: int| 0 <= k < g.len() implies #[trigger] g[k] <= 0xffff by {}
    lemma_read_padded_groups(s, 1, 0, 8, g);
    assert(read_ipv6(s, 1) == Some((g, e)));
    assert(read_scope(s, e) is None);
    assert(s[e + 1] == ':');
    assert(s.subrange(e + 2, e + 2 + dp.len()) =~= dp);
    assert(s.len() == e + 2 + dp.len());
    lemma_read_decimal(s, e + 2, port as nat, 0, true, 0xffff);
    assert(read_socket_v6(s) == Some((ClientAddr::V6 { ip, port, flowinfo: 0, scope_id: 0 }, s.len() as int)));
}

} // verus!
