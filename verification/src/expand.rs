//! Target expansion: parses a textual target specification — a single
//! address of either family, or an address/prefix range — and enumerates
//! the range's usable addresses, dropping the first and last enumerated
//! address (the network identifier and the broadcast address).

use vstd::arithmetic::div_mod::lemma_fundamental_div_mod;
use vstd::arithmetic::power2::{
    lemma2_to64, lemma2_to64_rest, lemma_pow2_adds, lemma_pow2_pos,
    lemma_pow2_strictly_increases, lemma_pow2_unfold, pow2,
};
use vstd::prelude::*;

use crate::text::{
    all_digits, all_hex_digits, dec_val, hex_val, lemma_split_at_sep, lemma_split_no_sep,
    parse_decimal, parse_hex_quad, split_chars, split_on, str_chars,
};
use crate::{Addr, InputError};

verus! {

/// The text of one address octet: one to three digits, no leading zero,
/// value at most 255.
pub open spec fn is_octet_text(s: Seq<char>) -> bool {
    &&& 1 <= s.len() <= 3
    &&& all_digits(s)
    &&& (s.len() > 1 ==> s[0] != '0')
    &&& dec_val(s) <= 255
}

/// Numeric address encoded by four octet values, most significant first.
pub open spec fn ipv4_from_octets(b0: int, b1: int, b2: int, b3: int) -> int {
    b0 * 0x1000000 + b1 * 0x10000 + b2 * 0x100 + b3
}

/// The address a dotted-quad string denotes, if it is one.
pub open spec fn spec_ipv4(s: Seq<char>) -> Option<u32> {
    let parts = split_on(s, '.');
    if parts.len() == 4 && is_octet_text(parts[0]) && is_octet_text(parts[1]) && is_octet_text(
        parts[2],
    ) && is_octet_text(parts[3]) {
        Some(
            ipv4_from_octets(
                dec_val(parts[0]),
                dec_val(parts[1]),
                dec_val(parts[2]),
                dec_val(parts[3]),
            ) as u32,
        )
    } else {
        None
    }
}

/// The text of a 32-bit prefix length: one or two digits with value at
/// most 32.
pub open spec fn is_prefix4_text(s: Seq<char>) -> bool {
    &&& 1 <= s.len() <= 2
    &&& all_digits(s)
    &&& dec_val(s) <= 32
}

/// The text of a 128-bit prefix length: one to three digits with value at
/// most 128.
pub open spec fn is_prefix6_text(s: Seq<char>) -> bool {
    &&& 1 <= s.len() <= 3
    &&& all_digits(s)
    &&& dec_val(s) <= 128
}

/// The text of one address octet in the range form, where leading zeros
/// are allowed.
pub open spec fn is_octet_net_text(s: Seq<char>) -> bool {
    &&& 1 <= s.len() <= 3
    &&& all_digits(s)
    &&& dec_val(s) <= 255
}

/// The address a dotted-quad string denotes in the range form.
pub open spec fn spec_ipv4_net(s: Seq<char>) -> Option<u32> {
    let parts = split_on(s, '.');
    if parts.len() == 4 && is_octet_net_text(parts[0]) && is_octet_net_text(parts[1])
        && is_octet_net_text(parts[2]) && is_octet_net_text(parts[3]) {
        Some(
            ipv4_from_octets(
                dec_val(parts[0]),
                dec_val(parts[1]),
                dec_val(parts[2]),
                dec_val(parts[3]),
            ) as u32,
        )
    } else {
        None
    }
}

/// Parses one octet of a dotted quad.
pub fn parse_octet(part: &Vec<char>) -> (r: Option<u8>)
    ensures
        r is Some <==> is_octet_text(part@),
        r is Some ==> r->0 as int == dec_val(part@),
{
    if part.len() < 1 || part.len() > 3 {
        return None;
    }
    if part.len() > 1 && part[0] == '0' {
        return None;
    }
    match parse_decimal(part) {
        Some(v) => {
            if v <= 255 {
                Some(v as u8)
            } else {
                None
            }
        },
        None => None,
    }
}

/// Parses a 32-bit prefix length.
pub fn parse_prefix(part: &Vec<char>) -> (r: Option<u8>)
    ensures
        r is Some <==> is_prefix4_text(part@),
        r is Some ==> r->0 as int == dec_val(part@),
{
    if part.len() < 1 || part.len() > 2 {
        return None;
    }
    match parse_decimal(part) {
        Some(v) => {
            if v <= 32 {
                Some(v as u8)
            } else {
                None
            }
        },
        None => None,
    }
}

/// Parses a 128-bit prefix length.
pub fn parse_prefix6(part: &Vec<char>) -> (r: Option<u8>)
    ensures
        r is Some <==> is_prefix6_text(part@),
        r is Some ==> r->0 as int == dec_val(part@),
{
    if part.len() < 1 || part.len() > 3 {
        return None;
    }
    match parse_decimal(part) {
        Some(v) => {
            if v <= 128 {
                Some(v as u8)
            } else {
                None
            }
        },
        None => None,
    }
}

/// Parses one octet of the range form's dotted quad.
pub fn parse_octet_net(part: &Vec<char>) -> (r: Option<u8>)
    ensures
        r is Some <==> is_octet_net_text(part@),
        r is Some ==> r->0 as int == dec_val(part@),
{
    if part.len() < 1 || part.len() > 3 {
        return None;
    }
    match parse_decimal(part) {
        Some(v) => {
            if v <= 255 {
                Some(v as u8)
            } else {
                None
            }
        },
        None => None,
    }
}

/// Parses the range form's dotted-quad address.
pub fn parse_ipv4_net_chars(s: &Vec<char>) -> (r: Option<u32>)
    ensures
        r == spec_ipv4_net(s@),
{
    let parts = split_chars(s, '.');
    proof {
        assert(parts.deep_view().len() == parts@.len());
        assert(forall|i: int|
            0 <= i < parts@.len() ==> parts.deep_view()[i] == #[trigger] parts@[i]@);
    }
    if parts.len() != 4 {
        return None;
    }
    let b0 = parse_octet_net(&parts[0]);
    let b1 = parse_octet_net(&parts[1]);
    let b2 = parse_octet_net(&parts[2]);
    let b3 = parse_octet_net(&parts[3]);
    match (b0, b1, b2, b3) {
        (Some(v0), Some(v1), Some(v2), Some(v3)) => {
            let r: u32 = (v0 as u32) * 0x1000000 + (v1 as u32) * 0x10000 + (v2 as u32) * 0x100 + (
            v3 as u32);
            Some(r)
        },
        _ => None,
    }
}

/// Parses a dotted-quad address.
pub fn parse_ipv4_chars(s: &Vec<char>) -> (r: Option<u32>)
    ensures
        r == spec_ipv4(s@),
{
    let parts = split_chars(s, '.');
    proof {
        assert(parts.deep_view().len() == parts@.len());
        assert(forall|i: int|
            0 <= i < parts@.len() ==> parts.deep_view()[i] == #[trigger] parts@[i]@);
    }
    if parts.len() != 4 {
        return None;
    }
    let b0 = parse_octet(&parts[0]);
    let b1 = parse_octet(&parts[1]);
    let b2 = parse_octet(&parts[2]);
    let b3 = parse_octet(&parts[3]);
    match (b0, b1, b2, b3) {
        (Some(v0), Some(v1), Some(v2), Some(v3)) => {
            let r: u32 = (v0 as u32) * 0x1000000 + (v1 as u32) * 0x10000 + (v2 as u32) * 0x100 + (
            v3 as u32);
            Some(r)
        },
        _ => None,
    }
}

/// The text of one hexadecimal address group: one to four hex digits.
pub open spec fn is_group_text(s: Seq<char>) -> bool {
    &&& 1 <= s.len() <= 4
    &&& all_hex_digits(s)
}

/// Whether the parts in `[from, to)` are all hexadecimal address groups.
pub open spec fn groups_ok(p: Seq<Seq<char>>, from: int, to: int) -> bool {
    forall|i: int| from <= i < to ==> is_group_text(#[trigger] p[i])
}

/// The group values of the parts in `[from, to)`.
pub open spec fn group_vals(p: Seq<Seq<char>>, from: int, to: int) -> Seq<u16> {
    Seq::new((to - from) as nat, |i: int| hex_val(p[from + i]) as u16)
}

/// `n` zero-valued groups.
pub open spec fn zero_groups(n: int) -> Seq<u16> {
    Seq::new(n as nat, |i: int| 0u16)
}

/// The address value eight groups denote, most significant first.
pub open spec fn fold_groups(gs: Seq<u16>) -> int
    decreases gs.len(),
{
    if gs.len() == 0 {
        0
    } else {
        fold_groups(gs.drop_last()) * 0x10000 + gs.last()
    }
}

/// Index of the first empty part, or -1 if none is empty.
pub open spec fn first_empty_at(p: Seq<Seq<char>>) -> int
    decreases p.len(),
{
    if p.len() == 0 {
        -1
    } else if p[0].len() == 0 {
        0
    } else if first_empty_at(p.drop_first()) == -1 {
        -1
    } else {
        1 + first_empty_at(p.drop_first())
    }
}

/// `first_empty_at` is -1 exactly when no part is empty, and otherwise
/// points at the first empty part.
pub proof fn lemma_first_empty_at(p: Seq<Seq<char>>)
    ensures
        first_empty_at(p) == -1 <==> (forall|i: int| 0 <= i < p.len() ==> (#[trigger] p[i]).len() != 0),
        first_empty_at(p) != -1 ==> {
            &&& 0 <= first_empty_at(p) < p.len()
            &&& p[first_empty_at(p)].len() == 0
            &&& forall|i: int| 0 <= i < first_empty_at(p) ==> (#[trigger] p[i]).len() != 0
        },
    decreases p.len(),
{
    if p.len() == 0 {
    } else if p[0].len() == 0 {
    } else {
        lemma_first_empty_at(p.drop_first());
        let t = p.drop_first();
        if first_empty_at(t) == -1 {
            assert forall|i: int| 0 <= i < p.len() implies (#[trigger] p[i]).len() != 0 by {
                if i > 0 {
                    assert(p[i] == t[i - 1]);
                }
            }
        } else {
            assert(p[1 + first_empty_at(t)] == t[first_empty_at(t)]);
            assert forall|i: int| 0 <= i < 1 + first_empty_at(t) implies (#[trigger] p[i]).len()
                != 0 by {
                if i > 0 {
                    assert(p[i] == t[i - 1]);
                }
            }
        }
    }
}

/// The address a hexadecimal-group string denotes, if it is one: eight
/// colon-separated groups, or fewer with one `"::"` standing for the
/// missing zero groups.  `max_named` is how many named groups a compressed
/// form may carry: 7 for a single address, 8 for the range form.
pub open spec fn spec_ipv6(s: Seq<char>, max_named: int) -> Option<u128> {
    let p = split_on(s, ':');
    let n = p.len() as int;
    let fe = first_empty_at(p);
    if n == 8 && groups_ok(p, 0, 8) {
        Some(fold_groups(group_vals(p, 0, 8)) as u128)
    } else if n >= 3 && p[0].len() == 0 && p[1].len() == 0 {
        if n == 3 && p[2].len() == 0 {
            Some(0)
        } else if groups_ok(p, 2, n) && n - 2 <= max_named {
            Some(fold_groups(zero_groups(8 - (n - 2)) + group_vals(p, 2, n)) as u128)
        } else {
            None
        }
    } else if n >= 3 && p[n - 1].len() == 0 && p[n - 2].len() == 0 && groups_ok(p, 0, n - 2) && n
        - 2 <= max_named && n - 2 <= 7 {
        Some(fold_groups(group_vals(p, 0, n - 2) + zero_groups(8 - (n - 2))) as u128)
    } else if n >= 3 && 1 <= fe <= n - 2 && groups_ok(p, 0, fe) && groups_ok(p, fe + 1, n) && n - 1
        <= max_named {
        Some(
            fold_groups(
                group_vals(p, 0, fe) + zero_groups(8 - (n - 1)) + group_vals(p, fe + 1, n),
            ) as u128,
        )
    } else {
        None
    }
}

/// Parses the parts in `[from, to)` as hexadecimal groups, appending their
/// values to `out`.
fn parse_groups_range(parts: &Vec<Vec<char>>, from: usize, to: usize, out: &mut Vec<u16>) -> (ok:
    bool)
    requires
        from <= to <= parts@.len(),
    ensures
        ok <==> groups_ok(parts.deep_view(), from as int, to as int),
        ok ==> final(out)@ == old(out)@ + group_vals(parts.deep_view(), from as int, to as int),
{
    let ghost dv = parts.deep_view();
    let ghost base = out@;
    proof {
        assert(dv.len() == parts@.len());
        assert(forall|i: int| 0 <= i < parts@.len() ==> dv[i] == #[trigger] parts@[i]@);
    }
    let mut i: usize = from;
    while i < to
        invariant
            from <= i <= to <= parts@.len(),
            dv == parts.deep_view(),
            dv.len() == parts@.len(),
            forall|j: int| 0 <= j < parts@.len() ==> dv[j] == #[trigger] parts@[j]@,
            groups_ok(dv, from as int, i as int),
            out@ == base + group_vals(dv, from as int, i as int),
        decreases to - i,
    {
        match parse_hex_quad(&parts[i]) {
            Some(g) => {
                out.push(g);
                proof {
                    assert(out@ =~= base + group_vals(dv, from as int, i + 1));
                }
            },
            None => {
                assert(!is_group_text(dv[i as int]));
                return false;
            },
        }
        i = i + 1;
    }
    true
}


/// The value of eight groups, most significant first.
fn fold_groups_exec(gs: &Vec<u16>) -> (r: u128)
    requires
        gs@.len() == 8,
    ensures
        r as int == fold_groups(gs@),
{
    let mut v: u128 = 0;
    let mut i: usize = 0;
    proof {
        assert(gs@.take(0) =~= Seq::<u16>::empty());
        lemma2_to64();
    }
    while i < 8
        invariant
            gs@.len() == 8,
            i <= 8,
            v as int == fold_groups(gs@.take(i as int)),
            (v as int) < pow2((16 * i) as nat),
        decreases 8 - i,
    {
        proof {
            assert(gs@.take(i + 1).drop_last() =~= gs@.take(i as int));
            assert(gs@.take(i + 1).last() == gs@[i as int]);
            lemma_pow2_adds((16 * i) as nat, 16);
            lemma_pow2_adds(64, 64);
            lemma2_to64();
            if 16 * i + 16 < 128 {
                lemma_pow2_strictly_increases((16 * i + 16) as nat, 128);
            }
            assert(pow2(128) == 0x100000000000000000000000000000000);
        }
        v = v * 0x10000 + (gs[i] as u128);
        i = i + 1;
    }
    proof {
        assert(gs@.take(8) =~= gs@);
    }
    v
}

/// `n` zero-valued groups, as a vector.
fn zeros_vec(n: usize) -> (r: Vec<u16>)
    ensures
        r@ == zero_groups(n as int),
{
    let mut r: Vec<u16> = Vec::new();
    let mut i: usize = 0;
    while i < n
        invariant
            i <= n,
            r@ == zero_groups(i as int),
        decreases n - i,
    {
        r.push(0);
        i = i + 1;
        assert(r@ =~= zero_groups(i as int));
    }
    r
}

/// Parses a hexadecimal-group address string.
pub fn parse_ipv6_chars(s: &Vec<char>, net_form: bool) -> (r: Option<u128>)
    ensures
        r == spec_ipv6(s@, if net_form { 8int } else { 7int }),
{
    let parts = split_chars(s, ':');
    let ghost dv = parts.deep_view();
    proof {
        assert(dv.len() == parts@.len());
        assert(forall|i: int| 0 <= i < parts@.len() ==> dv[i] == #[trigger] parts@[i]@);
        lemma_first_empty_at(dv);
    }
    let n = parts.len();
    let max_named: usize = if net_form {
        8
    } else {
        7
    };
    if n == 8 {
        let mut g8: Vec<u16> = Vec::new();
        if parse_groups_range(&parts, 0, 8, &mut g8) {
            proof {
                assert(g8@ =~= group_vals(dv, 0, 8));
            }
            let v = fold_groups_exec(&g8);
            return Some(v);
        }
    }
    if n < 3 {
        return None;
    }
    if parts[0].len() == 0 && parts[1].len() == 0 {
        if n == 3 && parts[2].len() == 0 {
            return Some(0);
        }
        if n - 2 > max_named {
            return None;
        }
        let mut full = zeros_vec(8 - (n - 2));
        if parse_groups_range(&parts, 2, n, &mut full) {
            proof {
                assert(full@ =~= zero_groups(8 - (n - 2)) + group_vals(dv, 2, n as int));
            }
            let v = fold_groups_exec(&full);
            return Some(v);
        }
        return None;
    }
    if parts[n - 1].len() == 0 && parts[n - 2].len() == 0 {
        if n - 2 > max_named || n - 2 > 7 {
            return None;
        }
        let mut full: Vec<u16> = Vec::new();
        if parse_groups_range(&parts, 0, n - 2, &mut full) {
            let mut zs = zeros_vec(8 - (n - 2));
            full.append(&mut zs);
            proof {
                assert(full@ =~= group_vals(dv, 0, n - 2) + zero_groups(8 - (n - 2)));
            }
            let v = fold_groups_exec(&full);
            return Some(v);
        }
        return None;
    }
    // one empty part inside: find the first empty part
    let mut fe: usize = 0;
    while fe < n && parts[fe].len() != 0
        invariant
            fe <= n,
            n == parts@.len(),
            dv == parts.deep_view(),
            dv.len() == parts@.len(),
            forall|i: int| 0 <= i < parts@.len() ==> dv[i] == #[trigger] parts@[i]@,
            forall|i: int| 0 <= i < fe ==> dv[i].len() != 0,
        decreases n - fe,
    {
        fe = fe + 1;
    }
    proof {
        lemma_first_empty_at(dv);
        if fe < n {
            assert(dv[fe as int].len() == 0);
            assert(first_empty_at(dv) == fe);
        } else {
            assert(first_empty_at(dv) == -1);
        }
    }
    if fe >= n {
        return None;
    }
    if !(1 <= fe && fe <= n - 2) {
        return None;
    }
    if n - 1 > max_named {
        return None;
    }
    let mut full: Vec<u16> = Vec::new();
    if !parse_groups_range(&parts, 0, fe, &mut full) {
        return None;
    }
    let mut zs = zeros_vec(8 - (n - 1));
    full.append(&mut zs);
    if !parse_groups_range(&parts, fe + 1, n, &mut full) {
        return None;
    }
    proof {
        assert(full@ =~= group_vals(dv, 0, fe as int) + zero_groups(8 - (n - 1)) + group_vals(
            dv,
            fe + 1,
            n as int,
        ));
    }
    let v = fold_groups_exec(&full);
    Some(v)
}


/// Number of addresses a range with this prefix length covers.
pub open spec fn range_size(prefix: u8) -> int {
    pow2((32 - prefix) as nat) as int
}

/// First enumerated address of the range containing `addr`: the network
/// identifier.
pub open spec fn network_of(addr: u32, prefix: u8) -> int {
    addr - (addr as int % range_size(prefix))
}

/// Last enumerated address of the range containing `addr`: the broadcast
/// address.
pub open spec fn broadcast_of(addr: u32, prefix: u8) -> int {
    network_of(addr, prefix) + range_size(prefix) - 1
}

/// Number of usable addresses of a range: all of them but the first and the
/// last enumerated one, and none at all when fewer than two exist.
pub open spec fn usable_count(prefix: u8) -> int {
    if range_size(prefix) >= 2 {
        range_size(prefix) - 2
    } else {
        0
    }
}

/// The usable addresses of the range containing `addr`, in numeric order.
pub open spec fn range_hosts(addr: u32, prefix: u8) -> Seq<u32> {
    Seq::new(usable_count(prefix) as nat, |i: int| (network_of(addr, prefix) + 1 + i) as u32)
}

/// The range's addresses all fit below `2^32`: the network start is aligned,
/// so a whole range never crosses the end of the address space.
proof fn lemma_range_in_space(addr: u32, prefix: u8)
    requires
        prefix <= 32,
    ensures
        0 <= network_of(addr, prefix),
        network_of(addr, prefix) + range_size(prefix) <= 0x100000000,
    decreases 0int,
{
    let size = range_size(prefix);
    lemma_pow2_pos((32 - prefix) as nat);
    lemma_fundamental_div_mod(addr as int, size);
    let q = addr as int / size;
    lemma_pow2_adds((32 - prefix) as nat, prefix as nat);
    lemma2_to64();
    assert(pow2(32) == 0x100000000);
    assert(size * pow2(prefix as nat) == 0x100000000);
    assert(network_of(addr, prefix) == size * q);
    assert(0 <= addr as int % size < size);
    assert(size * q <= addr);
    assert(size * q >= 0) by (nonlinear_arith)
        requires
            size > 0,
            size * q <= addr,
            addr < size * (addr as int / size) + size,
            q == addr as int / size,
    {
    }
    assert(q < pow2(prefix as nat)) by (nonlinear_arith)
        requires
            size > 0,
            size * q <= addr as int,
            (addr as int) < size * pow2(prefix as nat),
    {
    }
    assert(size * (q + 1) <= size * pow2(prefix as nat)) by (nonlinear_arith)
        requires
            size > 0,
            q + 1 <= pow2(prefix as nat),
    {
    }
    assert(size * (q + 1) == size * q + size) by (nonlinear_arith);
}

/// The usable addresses never include the range's first or last enumerated
/// address, and there are exactly `max(0, 2^(32-prefix) - 2)` of them.
pub proof fn lemma_range_excludes_bounds(addr: u32, prefix: u8)
    requires
        prefix <= 32,
    ensures
        range_hosts(addr, prefix).len() == usable_count(prefix),
        forall|i: int|
            0 <= i < range_hosts(addr, prefix).len() ==> #[trigger] range_hosts(addr, prefix)[i]
                != network_of(addr, prefix) && range_hosts(addr, prefix)[i] != broadcast_of(
                addr,
                prefix,
            ),
{
    lemma_range_in_space(addr, prefix);
    let net = network_of(addr, prefix);
    let size = range_size(prefix);
    assert forall|i: int| 0 <= i < range_hosts(addr, prefix).len() implies #[trigger] range_hosts(
        addr,
        prefix,
    )[i] != network_of(addr, prefix) && range_hosts(addr, prefix)[i] != broadcast_of(
        addr,
        prefix,
    ) by {
        assert(range_hosts(addr, prefix)[i] == (net + 1 + i) as u32);
        assert(net + 1 + i < net + size - 1 + 1);
        assert((net + 1 + i) as u32 == net + 1 + i);
    }
}

/// Enumerates the usable addresses of the range containing `addr`.
pub fn expand_range(addr: u32, prefix: u8) -> (r: Vec<u32>)
    requires
        prefix <= 32,
    ensures
        r@ == range_hosts(addr, prefix),
{
    let mut size: u64 = 1;
    let mut e: u8 = 0;
    proof {
        assert(pow2(0) == 1) by {
            lemma2_to64();
        }
    }
    while e < 32 - prefix
        invariant
            prefix <= 32,
            e <= 32 - prefix,
            size == pow2(e as nat),
        decreases 32 - prefix - e,
    {
        proof {
            lemma_pow2_unfold((e + 1) as nat);
            if (e as nat) < 32 {
                lemma_pow2_strictly_increases(e as nat, 32);
                lemma2_to64();
            }
        }
        size = size * 2;
        e = e + 1;
    }
    proof {
        lemma_pow2_pos((32 - prefix) as nat);
        lemma_range_in_space(addr, prefix);
    }
    let a64: u64 = addr as u64;
    let rem: u64 = a64 % size;
    proof {
        lemma_fundamental_div_mod(a64 as int, size as int);
        assert((size as int) * (a64 as int / size as int) >= 0) by (nonlinear_arith)
            requires
                size > 0,
                (size as int) * (a64 as int / size as int) == a64 - (a64 as int % size as int),
                0 <= a64 as int % size as int <= a64 as int,
        {
        }
    }
    let net: u64 = a64 - rem;
    let count: u64 = if size >= 2 {
        size - 2
    } else {
        0
    };
    assert(net == network_of(addr, prefix));
    assert(count == usable_count(prefix));
    let mut r: Vec<u32> = Vec::new();
    let mut k: u64 = 0;
    while k < count
        invariant
            count == usable_count(prefix),
            net == network_of(addr, prefix),
            net + count + 1 <= 0x100000000,
            k <= count,
            r@.len() == k,
            forall|j: int| 0 <= j < k ==> #[trigger] r@[j] == (net + 1 + j) as u32,
        decreases count - k,
    {
        let v: u64 = net + 1 + k;
        #[verifier::truncate]
        let v32: u32 = v as u32;
        r.push(v32);
        k = k + 1;
    }
    proof {
        assert(r@ =~= range_hosts(addr, prefix));
    }
    r
}

/// Whether `c` occurs in `s`.
pub fn contains_char(s: &Vec<char>, c: char) -> (r: bool)
    ensures
        r <==> s@.contains(c),
{
    let mut i: usize = 0;
    while i < s.len()
        invariant
            i <= s@.len(),
            forall|j: int| 0 <= j < i ==> s@[j] != c,
        decreases s@.len() - i,
    {
        if s[i] == c {
            assert(s@.contains(c));
            return true;
        }
        i = i + 1;
    }
    false
}

/// Number of addresses a 128-bit range with this prefix length covers.
pub open spec fn range_size6(prefix: u8) -> int {
    pow2((128 - prefix) as nat) as int
}

/// First enumerated address of the 128-bit range containing `addr`.
pub open spec fn network_of6(addr: u128, prefix: u8) -> int {
    addr - (addr as int % range_size6(prefix))
}

/// Last enumerated address of the 128-bit range containing `addr`.
pub open spec fn broadcast_of6(addr: u128, prefix: u8) -> int {
    network_of6(addr, prefix) + range_size6(prefix) - 1
}

/// Number of usable addresses of a 128-bit range: all but the first and
/// the last enumerated one.
pub open spec fn usable_count6(prefix: u8) -> int {
    if range_size6(prefix) >= 2 {
        range_size6(prefix) - 2
    } else {
        0
    }
}

/// The usable addresses of the 128-bit range containing `addr`, in order.
pub open spec fn range_hosts6(addr: u128, prefix: u8) -> Seq<u128> {
    Seq::new(usable_count6(prefix) as nat, |i: int| (network_of6(addr, prefix) + 1 + i) as u128)
}

/// The 128-bit range never crosses the end of its address space.
proof fn lemma_range_in_space6(addr: u128, prefix: u8)
    requires
        prefix <= 128,
    ensures
        0 <= network_of6(addr, prefix),
        network_of6(addr, prefix) + range_size6(prefix) <= 0x100000000000000000000000000000000,
{
    let size = range_size6(prefix);
    lemma_pow2_pos((128 - prefix) as nat);
    lemma_fundamental_div_mod(addr as int, size);
    let q = addr as int / size;
    lemma_pow2_adds((128 - prefix) as nat, prefix as nat);
    lemma_pow2_adds(64, 64);
    lemma2_to64();
    assert(pow2(128) == 0x100000000000000000000000000000000);
    assert(size * pow2(prefix as nat) == 0x100000000000000000000000000000000);
    assert(network_of6(addr, prefix) == size * q);
    assert(0 <= addr as int % size < size);
    assert(size * q <= addr);
    assert(size * q >= 0) by (nonlinear_arith)
        requires
            size > 0,
            size * q <= addr,
            addr < size * (addr as int / size) + size,
            q == addr as int / size,
    {
    }
    assert(q < pow2(prefix as nat)) by (nonlinear_arith)
        requires
            size > 0,
            size * q <= addr as int,
            (addr as int) < size * pow2(prefix as nat),
    {
    }
    assert(size * (q + 1) <= size * pow2(prefix as nat)) by (nonlinear_arith)
        requires
            size > 0,
            q + 1 <= pow2(prefix as nat),
    {
    }
    assert(size * (q + 1) == size * q + size) by (nonlinear_arith);
}

/// The usable addresses of a 128-bit range never include the range's first
/// or last enumerated address, and there are exactly
/// `max(0, 2^(128-prefix) - 2)` of them.
pub proof fn lemma_range_excludes_bounds6(addr: u128, prefix: u8)
    requires
        prefix <= 128,
    ensures
        range_hosts6(addr, prefix).len() == usable_count6(prefix),
        forall|i: int|
            0 <= i < range_hosts6(addr, prefix).len() ==> #[trigger] range_hosts6(addr, prefix)[i]
                != network_of6(addr, prefix) && range_hosts6(addr, prefix)[i] != broadcast_of6(
                addr,
                prefix,
            ),
{
    lemma_range_in_space6(addr, prefix);
    let net = network_of6(addr, prefix);
    let size = range_size6(prefix);
    assert forall|i: int| 0 <= i < range_hosts6(addr, prefix).len() implies #[trigger] range_hosts6(
        addr,
        prefix,
    )[i] != network_of6(addr, prefix) && range_hosts6(addr, prefix)[i] != broadcast_of6(
        addr,
        prefix,
    ) by {
        assert(range_hosts6(addr, prefix)[i] == (net + 1 + i) as u128);
        assert(net + 1 + i < net + size - 1 + 1);
        assert((net + 1 + i) as u128 == net + 1 + i);
    }
}

/// Enumerates the usable addresses of the 128-bit range containing `addr`.
pub fn expand_range6(addr: u128, prefix: u8) -> (r: Vec<u128>)
    requires
        prefix <= 128,
    ensures
        r@ == range_hosts6(addr, prefix),
{
    proof {
        lemma_range_in_space6(addr, prefix);
        lemma_pow2_adds(64, 64);
        lemma2_to64();
        assert(pow2(128) == 0x100000000000000000000000000000000);
    }
    let net: u128;
    let count: u128;
    if prefix == 0 {
        proof {
            vstd::arithmetic::div_mod::lemma_small_mod(addr as nat, pow2(128));
        }
        net = 0;
        count = 0xfffffffffffffffffffffffffffffffe;
    } else {
        let mut size: u128 = 1;
        let mut e: u8 = 0;
        proof {
            assert(pow2(0) == 1);
        }
        while e < 128 - prefix
            invariant
                1 <= prefix <= 128,
                e <= 128 - prefix,
                size == pow2(e as nat),
            decreases 128 - prefix - e,
        {
            proof {
                lemma_pow2_unfold((e + 1) as nat);
                if (e as nat) < 127 {
                    lemma_pow2_strictly_increases(e as nat, 127);
                }
                lemma_pow2_adds(64, 63);
                lemma2_to64();
                lemma2_to64_rest();
                assert(pow2(127) == 0x80000000000000000000000000000000);
            }
            size = size * 2;
            e = e + 1;
        }
        proof {
            lemma_pow2_pos((128 - prefix) as nat);
        }
        let rem: u128 = addr % size;
        proof {
            lemma_fundamental_div_mod(addr as int, size as int);
            assert((size as int) * (addr as int / size as int) >= 0) by (nonlinear_arith)
                requires
                    size > 0,
                    (size as int) * (addr as int / size as int) == addr - (addr as int
                        % size as int),
                    0 <= addr as int % size as int <= addr as int,
            {
            }
        }
        net = addr - rem;
        count = if size >= 2 {
            size - 2
        } else {
            0
        };
    }
    assert(net == network_of6(addr, prefix));
    assert(count == usable_count6(prefix));
    let mut r: Vec<u128> = Vec::new();
    let mut k: u128 = 0;
    while k < count
        invariant
            count == usable_count6(prefix),
            net == network_of6(addr, prefix),
            net + count + 1 <= 0x100000000000000000000000000000000,
            k <= count,
            r@.len() == k,
            forall|j: int| 0 <= j < k ==> #[trigger] r@[j] == (net + 1 + j) as u128,
        decreases count - k,
    {
        let v: u128 = net + 1 + k;
        r.push(v);
        k = k + 1;
    }
    proof {
        assert(r@ =~= range_hosts6(addr, prefix));
    }
    r
}

/// 32-bit addresses, wrapped into the shared address type.
pub open spec fn addrs4(xs: Seq<u32>) -> Seq<Addr> {
    xs.map_values(|x: u32| Addr::V4(x))
}

/// 128-bit addresses, wrapped into the shared address type.
pub open spec fn addrs6(xs: Seq<u128>) -> Seq<Addr> {
    xs.map_values(|x: u128| Addr::V6(x))
}

/// Wraps 32-bit addresses into the shared address type.
fn map_addrs4(xs: Vec<u32>) -> (r: Vec<Addr>)
    ensures
        r@ == addrs4(xs@),
{
    let mut r: Vec<Addr> = Vec::new();
    let mut i: usize = 0;
    while i < xs.len()
        invariant
            i <= xs@.len(),
            r@ == addrs4(xs@.take(i as int)),
        decreases xs@.len() - i,
    {
        r.push(Addr::V4(xs[i]));
        i = i + 1;
        assert(r@ =~= addrs4(xs@.take(i as int)));
    }
    assert(xs@.take(xs@.len() as int) =~= xs@);
    r
}

/// Wraps 128-bit addresses into the shared address type.
fn map_addrs6(xs: Vec<u128>) -> (r: Vec<Addr>)
    ensures
        r@ == addrs6(xs@),
{
    let mut r: Vec<Addr> = Vec::new();
    let mut i: usize = 0;
    while i < xs.len()
        invariant
            i <= xs@.len(),
            r@ == addrs6(xs@.take(i as int)),
        decreases xs@.len() - i,
    {
        r.push(Addr::V6(xs[i]));
        i = i + 1;
        assert(r@ =~= addrs6(xs@.take(i as int)));
    }
    assert(xs@.take(xs@.len() as int) =~= xs@);
    r
}

/// The address and prefix length a range specification denotes, if it is
/// one: an address and a prefix length separated by a single `'/'`, the
/// dotted-quad form tried first.
pub open spec fn spec_net(s: Seq<char>) -> Option<(Addr, u8)> {
    let parts = split_on(s, '/');
    if parts.len() == 2 {
        if spec_ipv4_net(parts[0]) is Some && is_prefix4_text(parts[1]) {
            Some((Addr::V4(spec_ipv4_net(parts[0])->0), dec_val(parts[1]) as u8))
        } else if spec_ipv6(parts[0], 8) is Some && is_prefix6_text(parts[1]) {
            Some((Addr::V6(spec_ipv6(parts[0], 8)->0), dec_val(parts[1]) as u8))
        } else {
            None
        }
    } else {
        None
    }
}

/// What a target specification expands to: the usable addresses of a range
/// when it holds a range delimiter, the single address otherwise, or the
/// input error that names the branch that failed.
pub open spec fn expand_spec(s: Seq<char>) -> Result<Seq<Addr>, InputError> {
    if s.contains('/') {
        match spec_net(s) {
            Some((Addr::V4(a), p)) => Ok(addrs4(range_hosts(a, p))),
            Some((Addr::V6(a), p)) => Ok(addrs6(range_hosts6(a, p))),
            None => Err(InputError::InvalidRange),
        }
    } else {
        if spec_ipv4(s) is Some {
            Ok(seq![Addr::V4(spec_ipv4(s)->0)])
        } else if spec_ipv6(s, 7) is Some {
            Ok(seq![Addr::V6(spec_ipv6(s, 7)->0)])
        } else {
            Err(InputError::InvalidAddress)
        }
    }
}

/// Expands a textual target specification into the ordered address list to
/// scan.  A specification with a range delimiter must be a valid
/// address/prefix range; any other must be a valid single address, of
/// either family.  A range covering fewer than two usable addresses yields
/// an empty list, not an error.
pub fn expand(target: &str) -> (r: Result<Vec<Addr>, InputError>)
    ensures
        r is Ok <==> expand_spec(target@) is Ok,
        r is Ok ==> r->Ok_0@ == expand_spec(target@)->Ok_0,
        r is Err ==> r->Err_0 == expand_spec(target@)->Err_0,
{
    let chars = str_chars(target);
    if contains_char(&chars, '/') {
        let parts = split_chars(&chars, '/');
        proof {
            assert(parts.deep_view().len() == parts@.len());
            assert(forall|i: int|
                0 <= i < parts@.len() ==> parts.deep_view()[i] == #[trigger] parts@[i]@);
        }
        if parts.len() != 2 {
            return Err(InputError::InvalidRange);
        }
        let a4 = parse_ipv4_net_chars(&parts[0]);
        let p4 = parse_prefix(&parts[1]);
        match (a4, p4) {
            (Some(a), Some(p)) => {
                proof {
                    crate::text::lemma_dec_val_nonneg(parts@[1]@);
                }
                return Ok(map_addrs4(expand_range(a, p)));
            },
            _ => {},
        }
        let a6 = parse_ipv6_chars(&parts[0], true);
        let p6 = parse_prefix6(&parts[1]);
        match (a6, p6) {
            (Some(a), Some(p)) => {
                proof {
                    crate::text::lemma_dec_val_nonneg(parts@[1]@);
                }
                Ok(map_addrs6(expand_range6(a, p)))
            },
            _ => Err(InputError::InvalidRange),
        }
    } else {
        match parse_ipv4_chars(&chars) {
            Some(a) => {
                let mut v: Vec<Addr> = Vec::new();
                v.push(Addr::V4(a));
                assert(v@ =~= seq![Addr::V4(a)]);
                return Ok(v);
            },
            None => {},
        }
        match parse_ipv6_chars(&chars, false) {
            Some(a) => {
                let mut v: Vec<Addr> = Vec::new();
                v.push(Addr::V6(a));
                assert(v@ =~= seq![Addr::V6(a)]);
                Ok(v)
            },
            None => Err(InputError::InvalidAddress),
        }
    }
}

/// The digit character for a value below ten.
pub open spec fn digit_char(d: int) -> char {
    if d == 0 { '0' }
    else if d == 1 { '1' }
    else if d == 2 { '2' }
    else if d == 3 { '3' }
    else if d == 4 { '4' }
    else if d == 5 { '5' }
    else if d == 6 { '6' }
    else if d == 7 { '7' }
    else if d == 8 { '8' }
    else { '9' }
}

/// Decimal rendering of a non-negative number, no leading zeros.
pub open spec fn dec_text(n: int) -> Seq<char>
    decreases n,
{
    if n <= 9 {
        seq![digit_char(n)]
    } else {
        dec_text(n / 10) + seq![digit_char(n % 10)]
    }
}

/// Dotted-quad rendering of an address.
pub open spec fn ipv4_text(a: u32) -> Seq<char> {
    dec_text(a as int / 0x1000000) + seq!['.'] + dec_text((a as int / 0x10000) % 0x100)
        + seq!['.'] + dec_text((a as int / 0x100) % 0x100) + seq!['.'] + dec_text(a as int % 0x100)
}

/// The digit character for a value below ten.
pub fn digit_str(d: u32) -> (r: &'static str)
    requires
        d <= 9,
    ensures
        r@ == seq![digit_char(d as int)],
{
    proof {
        reveal_strlit("0");
        reveal_strlit("1");
        reveal_strlit("2");
        reveal_strlit("3");
        reveal_strlit("4");
        reveal_strlit("5");
        reveal_strlit("6");
        reveal_strlit("7");
        reveal_strlit("8");
        reveal_strlit("9");
    }
    let r = match d {
        0 => "0",
        1 => "1",
        2 => "2",
        3 => "3",
        4 => "4",
        5 => "5",
        6 => "6",
        7 => "7",
        8 => "8",
        _ => "9",
    };
    assert(r@ =~= seq![digit_char(d as int)]);
    r
}

/// Decimal rendering of one octet value.
pub fn dec_octet_string(n: u32) -> (r: String)
    requires
        n <= 255,
    ensures
        r@ == dec_text(n as int),
{
    let mut s = String::new();
    if n >= 100 {
        s.append(digit_str(n / 100));
        s.append(digit_str((n / 10) % 10));
        s.append(digit_str(n % 10));
        proof {
            assert(n as int / 10 / 10 == n as int / 100) by (nonlinear_arith);
            assert(10 <= n as int / 10 <= 25);
            assert(n as int / 100 <= 9);
            assert(dec_text(n as int) == dec_text(n as int / 10) + seq![digit_char(n as int % 10)]);
            assert(dec_text(n as int / 10) == dec_text(n as int / 10 / 10) + seq![
                digit_char((n as int / 10) % 10),
            ]);
            assert(dec_text(n as int / 100) == seq![digit_char(n as int / 100)]);
            assert(s@ =~= dec_text(n as int));
        }
    } else if n >= 10 {
        s.append(digit_str(n / 10));
        s.append(digit_str(n % 10));
        proof {
            assert(dec_text(n as int) == dec_text(n as int / 10) + seq![digit_char(n as int % 10)]);
            assert(s@ =~= dec_text(n as int));
        }
    } else {
        s.append(digit_str(n));
        assert(s@ =~= dec_text(n as int));
    }
    s
}

/// Dotted-quad rendering of an address: the textual form used when a name
/// lookup fails.
pub fn ipv4_to_string(a: u32) -> (r: String)
    ensures
        r@ == ipv4_text(a),
{
    proof {
        reveal_strlit(".");
    }
    let b0: u32 = a / 0x1000000;
    let b1: u32 = (a / 0x10000) % 0x100;
    let b2: u32 = (a / 0x100) % 0x100;
    let b3: u32 = a % 0x100;
    let mut s = dec_octet_string(b0);
    s.append(".");
    let s1 = dec_octet_string(b1);
    s.append(s1.as_str());
    s.append(".");
    let s2 = dec_octet_string(b2);
    s.append(s2.as_str());
    s.append(".");
    let s3 = dec_octet_string(b3);
    s.append(s3.as_str());
    proof {
        assert("."@ =~= seq!['.']);
        assert(s@ =~= ipv4_text(a));
    }
    s
}


/// Decimal rendering is faithful: it writes only digits, no leading zero,
/// and reads back to the same value.
proof fn lemma_dec_text_digits(n: int)
    requires
        n >= 0,
    ensures
        all_digits(dec_text(n)),
        dec_val(dec_text(n)) == n,
        n >= 1 ==> dec_text(n)[0] != '0',
        dec_text(n).len() >= 1,
        n <= 9 ==> dec_text(n).len() == 1,
        n <= 99 ==> dec_text(n).len() <= 2,
        n <= 255 ==> dec_text(n).len() <= 3,
    decreases n,
{
    if n <= 9 {
        assert(dec_text(n) =~= seq![digit_char(n)]);
        let s1 = seq![digit_char(n)];
        assert(s1.drop_last() =~= Seq::<char>::empty());
        assert(dec_val(Seq::<char>::empty()) == 0);
        assert(s1.last() == digit_char(n));
        assert(dec_val(s1) == crate::text::digit_val(digit_char(n)));
    } else {
        lemma_dec_text_digits(n / 10);
        lemma_fundamental_div_mod(n, 10);
        let head = dec_text(n / 10);
        let s = dec_text(n);
        assert(s == head + seq![digit_char(n % 10)]);
        assert(s.drop_last() =~= head);
        assert(s.last() == digit_char(n % 10));
        assert(dec_val(s) == dec_val(head) * 10 + crate::text::digit_val(digit_char(n % 10)));
        assert(all_digits(s)) by {
            assert forall|i: int| 0 <= i < s.len() implies crate::text::is_digit(
                #[trigger] s[i],
            ) by {
                if i < head.len() {
                    assert(s[i] == head[i]);
                }
            }
        }
        assert(s[0] == head[0]);
    }
}

/// A digit string never holds a separator.
proof fn lemma_digits_no_sep(s: Seq<char>, sep: char)
    requires
        all_digits(s),
        !crate::text::is_digit(sep),
    ensures
        !s.contains(sep),
{
    if s.contains(sep) {
        let i = choose|i: int| 0 <= i < s.len() && s[i] == sep;
        assert(crate::text::is_digit(s[i]));
    }
}

/// Rendering and parsing agree: the textual form of any address is exactly
/// the dotted quad that parses back to that address.  The fallback name a
/// failed lookup produces therefore always denotes the probed address in
/// the expander's own grammar.
pub proof fn lemma_text_round_trip(a: u32)
    ensures
        spec_ipv4(ipv4_text(a)) == Some(a),
{
    let b0 = a as int / 0x1000000;
    let b1 = (a as int / 0x10000) % 0x100;
    let b2 = (a as int / 0x100) % 0x100;
    let b3 = a as int % 0x100;
    assert(0 <= b0 <= 255) by (nonlinear_arith)
        requires
            0 <= a as int && (a as int) < 0x100000000,
            b0 == (a as int) / 0x1000000,
    {
    }
    lemma_dec_text_digits(b0);
    lemma_dec_text_digits(b1);
    lemma_dec_text_digits(b2);
    lemma_dec_text_digits(b3);
    let t0 = dec_text(b0);
    let t1 = dec_text(b1);
    let t2 = dec_text(b2);
    let t3 = dec_text(b3);
    lemma_digits_no_sep(t0, '.');
    lemma_digits_no_sep(t1, '.');
    lemma_digits_no_sep(t2, '.');
    lemma_digits_no_sep(t3, '.');
    let r2 = t2 + seq!['.'] + t3;
    let r1 = t1 + seq!['.'] + r2;
    assert(ipv4_text(a) =~= t0 + seq!['.'] + r1);
    lemma_split_at_sep(t0, r1, '.');
    lemma_split_at_sep(t1, r2, '.');
    lemma_split_at_sep(t2, t3, '.');
    lemma_split_no_sep(t3, '.');
    let parts = split_on(ipv4_text(a), '.');
    assert(parts =~= seq![t0] + (seq![t1] + (seq![t2] + seq![t3])));
    assert(parts.len() == 4);
    assert(parts[0] == t0 && parts[1] == t1 && parts[2] == t2 && parts[3] == t3);
    assert(is_octet_text(t0) && is_octet_text(t1) && is_octet_text(t2) && is_octet_text(t3));
    assert(ipv4_from_octets(b0, b1, b2, b3) == a) by {
        lemma_fundamental_div_mod(a as int, 0x100);
        lemma_fundamental_div_mod(a as int / 0x100, 0x100);
        lemma_fundamental_div_mod(a as int / 0x10000, 0x100);
        assert(a as int / 0x100 / 0x100 == a as int / 0x10000) by (nonlinear_arith);
        assert(a as int / 0x10000 / 0x100 == a as int / 0x1000000) by (nonlinear_arith);
    }
}


/// The hexadecimal digit character for a value below sixteen, lowercase.
pub open spec fn hex_digit_char(d: int) -> char {
    if d == 0 { '0' }
    else if d == 1 { '1' }
    else if d == 2 { '2' }
    else if d == 3 { '3' }
    else if d == 4 { '4' }
    else if d == 5 { '5' }
    else if d == 6 { '6' }
    else if d == 7 { '7' }
    else if d == 8 { '8' }
    else if d == 9 { '9' }
    else if d == 10 { 'a' }
    else if d == 11 { 'b' }
    else if d == 12 { 'c' }
    else if d == 13 { 'd' }
    else if d == 14 { 'e' }
    else { 'f' }
}

/// Hexadecimal rendering of a non-negative number, lowercase, no leading
/// zeros.
pub open spec fn hex_text(n: int) -> Seq<char>
    decreases n,
{
    if n <= 15 {
        seq![hex_digit_char(n)]
    } else {
        hex_text(n / 16) + seq![hex_digit_char(n % 16)]
    }
}

/// The eight 16-bit groups of an address, most significant first.
pub open spec fn groups_of(a: u128) -> Seq<u16> {
    Seq::new(8, |i: int| (((a as int) / (pow2((16 * (7 - i)) as nat) as int)) % 0x10000) as u16)
}

/// State of the zero-run scan after reading a prefix of the groups: the
/// start and length of the current run of zero groups, and the start and
/// length of the longest run seen (the first such run on a tie).
pub open spec fn run_state(gs: Seq<u16>) -> (int, int, int, int)
    decreases gs.len(),
{
    if gs.len() == 0 {
        (0, 0, 0, 0)
    } else {
        let st = run_state(gs.drop_last());
        let i = gs.len() - 1;
        if gs.last() == 0 {
            let ncs = if st.1 == 0 { i as int } else { st.0 };
            let ncl = st.1 + 1;
            if ncl > st.3 {
                (ncs, ncl, ncs, ncl)
            } else {
                (ncs, ncl, st.2, st.3)
            }
        } else {
            (0, 0, st.2, st.3)
        }
    }
}

/// Groups joined with `':'`, each in its hexadecimal form.
pub open spec fn join_groups(gs: Seq<u16>) -> Seq<char>
    decreases gs.len(),
{
    if gs.len() == 0 {
        Seq::empty()
    } else if gs.len() == 1 {
        hex_text(gs[0] as int)
    } else {
        join_groups(gs.drop_last()) + seq![':'] + hex_text(gs.last() as int)
    }
}

/// Textual form of a 128-bit address: hexadecimal groups joined with
/// `':'`, the first longest run of at least two zero groups compressed to
/// `"::"`.
pub open spec fn ipv6_text(a: u128) -> Seq<char> {
    let gs = groups_of(a);
    let st = run_state(gs);
    if st.3 > 1 {
        join_groups(gs.take(st.2)) + seq![':', ':'] + join_groups(gs.skip(st.2 + st.3))
    } else {
        join_groups(gs)
    }
}

/// Textual form of an address of either family.
pub open spec fn addr_text(a: Addr) -> Seq<char> {
    match a {
        Addr::V4(x) => ipv4_text(x),
        Addr::V6(x) => ipv6_text(x),
    }
}

/// The hexadecimal digit character for a value below sixteen.
pub fn hex_digit_str(d: u32) -> (r: &'static str)
    requires
        d <= 15,
    ensures
        r@ == seq![hex_digit_char(d as int)],
{
    proof {
        reveal_strlit("0");
        reveal_strlit("1");
        reveal_strlit("2");
        reveal_strlit("3");
        reveal_strlit("4");
        reveal_strlit("5");
        reveal_strlit("6");
        reveal_strlit("7");
        reveal_strlit("8");
        reveal_strlit("9");
        reveal_strlit("a");
        reveal_strlit("b");
        reveal_strlit("c");
        reveal_strlit("d");
        reveal_strlit("e");
        reveal_strlit("f");
    }
    let r = match d {
        0 => "0",
        1 => "1",
        2 => "2",
        3 => "3",
        4 => "4",
        5 => "5",
        6 => "6",
        7 => "7",
        8 => "8",
        9 => "9",
        10 => "a",
        11 => "b",
        12 => "c",
        13 => "d",
        14 => "e",
        _ => "f",
    };
    assert(r@ =~= seq![hex_digit_char(d as int)]);
    r
}

/// Hexadecimal rendering of one group value.
pub fn hex_group_string(n: u16) -> (r: String)
    ensures
        r@ == hex_text(n as int),
{
    let v: u32 = n as u32;
    let mut s = String::new();
    if v >= 0x1000 {
        s.append(hex_digit_str(v / 0x1000));
        s.append(hex_digit_str((v / 0x100) % 16));
        s.append(hex_digit_str((v / 16) % 16));
        s.append(hex_digit_str(v % 16));
        proof {
            assert(v as int / 16 / 16 == v as int / 0x100) by (nonlinear_arith);
            assert(v as int / 0x100 / 16 == v as int / 0x1000) by (nonlinear_arith);
            assert(hex_text(v as int) == hex_text(v as int / 16) + seq![hex_digit_char(
                v as int % 16,
            )]);
            assert(hex_text(v as int / 16) == hex_text(v as int / 0x100) + seq![hex_digit_char(
                (v as int / 16) % 16,
            )]);
            assert(hex_text(v as int / 0x100) == hex_text(v as int / 0x1000) + seq![hex_digit_char(
                (v as int / 0x100) % 16,
            )]);
            assert(hex_text(v as int / 0x1000) == seq![hex_digit_char(v as int / 0x1000)]);
            assert(s@ =~= hex_text(v as int));
        }
    } else if v >= 0x100 {
        s.append(hex_digit_str(v / 0x100));
        s.append(hex_digit_str((v / 16) % 16));
        s.append(hex_digit_str(v % 16));
        proof {
            assert(v as int / 16 / 16 == v as int / 0x100) by (nonlinear_arith);
            assert(hex_text(v as int) == hex_text(v as int / 16) + seq![hex_digit_char(
                v as int % 16,
            )]);
            assert(hex_text(v as int / 16) == hex_text(v as int / 0x100) + seq![hex_digit_char(
                (v as int / 16) % 16,
            )]);
            assert(hex_text(v as int / 0x100) == seq![hex_digit_char(v as int / 0x100)]);
            assert(s@ =~= hex_text(v as int));
        }
    } else if v >= 16 {
        s.append(hex_digit_str(v / 16));
        s.append(hex_digit_str(v % 16));
        proof {
            assert(hex_text(v as int) == hex_text(v as int / 16) + seq![hex_digit_char(
                v as int % 16,
            )]);
            assert(s@ =~= hex_text(v as int));
        }
    } else {
        s.append(hex_digit_str(v));
        assert(s@ =~= hex_text(v as int));
    }
    s
}

/// The eight groups of an address, most significant first.
fn split_groups(a: u128) -> (r: Vec<u16>)
    ensures
        r@ == groups_of(a),
        r@.len() == 8,
{
    proof {
        lemma2_to64();
        lemma2_to64_rest();
        lemma_pow2_adds(64, 48);
        lemma_pow2_adds(64, 32);
        lemma_pow2_adds(64, 16);
        assert(pow2(112) == 0x10000000000000000000000000000);
        assert(pow2(96) == 0x1000000000000000000000000);
        assert(pow2(80) == 0x100000000000000000000);
    }
    let mut r: Vec<u16> = Vec::new();
    r.push(((a / 0x10000000000000000000000000000) % 0x10000) as u16);
    r.push(((a / 0x1000000000000000000000000) % 0x10000) as u16);
    r.push(((a / 0x100000000000000000000) % 0x10000) as u16);
    r.push(((a / 0x10000000000000000) % 0x10000) as u16);
    r.push(((a / 0x1000000000000) % 0x10000) as u16);
    r.push(((a / 0x100000000) % 0x10000) as u16);
    r.push(((a / 0x10000) % 0x10000) as u16);
    r.push((a % 0x10000) as u16);
    proof {
        assert(r@[0] == groups_of(a)[0]);
        assert(r@[1] == groups_of(a)[1]);
        assert(r@[2] == groups_of(a)[2]);
        assert(r@[3] == groups_of(a)[3]);
        assert(r@[4] == groups_of(a)[4]);
        assert(r@[5] == groups_of(a)[5]);
        assert(r@[6] == groups_of(a)[6]);
        assert(pow2(0) == 1);
        assert((a as int) / (pow2(0) as int) == a as int);
        assert(r@[7] == groups_of(a)[7]);
        assert(r@ =~= groups_of(a));
    }
    r
}

/// Start and length of the first longest run of zero groups.
fn best_run(gs: &Vec<u16>) -> (r: (usize, usize))
    requires
        gs@.len() == 8,
    ensures
        r.0 as int == run_state(gs@).2,
        r.1 as int == run_state(gs@).3,
        r.0 + r.1 <= 8,
{
    let mut cs: usize = 0;
    let mut cl: usize = 0;
    let mut bs: usize = 0;
    let mut bl: usize = 0;
    let mut i: usize = 0;
    proof {
        assert(gs@.take(0) =~= Seq::<u16>::empty());
    }
    while i < 8
        invariant
            gs@.len() == 8,
            i <= 8,
            run_state(gs@.take(i as int)) == (cs as int, cl as int, bs as int, bl as int),
            cs + cl <= i,
            bs + bl <= i,
        decreases 8 - i,
    {
        proof {
            assert(gs@.take(i + 1).drop_last() =~= gs@.take(i as int));
            assert(gs@.take(i + 1).last() == gs@[i as int]);
        }
        if gs[i] == 0 {
            if cl == 0 {
                cs = i;
            }
            cl = cl + 1;
            if cl > bl {
                bs = cs;
                bl = cl;
            }
        } else {
            cs = 0;
            cl = 0;
        }
        i = i + 1;
    }
    proof {
        assert(gs@.take(8) =~= gs@);
    }
    (bs, bl)
}

/// Groups `[from, to)` joined with `':'`.
fn join_groups_exec(gs: &Vec<u16>, from: usize, to: usize) -> (r: String)
    requires
        from <= to <= gs@.len(),
    ensures
        r@ == join_groups(gs@.subrange(from as int, to as int)),
{
    let mut s = String::new();
    let mut i: usize = from;
    proof {
        reveal_strlit(":");
        assert(gs@.subrange(from as int, from as int) =~= Seq::<u16>::empty());
    }
    while i < to
        invariant
            from <= i <= to <= gs@.len(),
            s@ == join_groups(gs@.subrange(from as int, i as int)),
        decreases to - i,
    {
        proof {
            reveal_strlit(":");
            assert(gs@.subrange(from as int, i + 1).drop_last() =~= gs@.subrange(
                from as int,
                i as int,
            ));
            assert(gs@.subrange(from as int, i + 1).last() == gs@[i as int]);
            assert(":"@ =~= seq![':']);
        }
        if i > from {
            s.append(":");
        }
        let g = hex_group_string(gs[i]);
        s.append(g.as_str());
        assert(s@ =~= join_groups(gs@.subrange(from as int, i + 1)));
        i = i + 1;
    }
    s
}

/// Textual form of a 128-bit address, with the first longest zero run
/// compressed: the fallback name a failed lookup produces for it.
pub fn ipv6_to_string(a: u128) -> (r: String)
    ensures
        r@ == ipv6_text(a),
{
    let gs = split_groups(a);
    let (bs, bl) = best_run(&gs);
    if bl > 1 {
        proof {
            reveal_strlit("::");
            assert("::"@ =~= seq![':', ':']);
            assert(gs@.take(bs as int) =~= gs@.subrange(0, bs as int));
            assert(gs@.skip(bs + bl) =~= gs@.subrange((bs + bl) as int, 8));
        }
        let mut s = join_groups_exec(&gs, 0, bs);
        s.append("::");
        let tail = join_groups_exec(&gs, bs + bl, 8);
        s.append(tail.as_str());
        proof {
            assert(s@ =~= ipv6_text(a));
        }
        s
    } else {
        let s = join_groups_exec(&gs, 0, 8);
        proof {
            assert(gs@.subrange(0, 8) =~= gs@);
            assert(s@ =~= ipv6_text(a));
        }
        s
    }
}

/// Textual form of an address of either family.
pub fn addr_to_string(a: Addr) -> (r: String)
    ensures
        r@ == addr_text(a),
{
    match a {
        Addr::V4(x) => ipv4_to_string(x),
        Addr::V6(x) => ipv6_to_string(x),
    }
}

} // verus!
