//! Byte strings: equality, lexicographic order, and fixed-width integers.

use vstd::prelude::*;

verus! {

/// Lexicographic order on byte strings: the order in which the key tables are walked.
pub open spec fn lex_lt(a: Seq<u8>, b: Seq<u8>) -> bool
    decreases a.len(),
{
    if b.len() == 0 {
        false
    } else if a.len() == 0 {
        true
    } else if a[0] != b[0] {
        a[0] < b[0]
    } else {
        lex_lt(a.drop_first(), b.drop_first())
    }
}

/// `256` to the power `n`.
pub open spec fn pow256(n: nat) -> nat
    decreases n,
{
    if n == 0 {
        1
    } else {
        256 * pow256((n - 1) as nat)
    }
}

/// The number that `s` spells with its most significant byte first.
pub open spec fn be_value(s: Seq<u8>) -> nat
    decreases s.len(),
{
    if s.len() == 0 {
        0
    } else {
        s[0] as nat * pow256((s.len() - 1) as nat) + be_value(s.drop_first())
    }
}

/// The number that `s` spells with its least significant byte first.
pub open spec fn le_value(s: Seq<u8>) -> nat
    decreases s.len(),
{
    if s.len() == 0 {
        0
    } else {
        s[0] as nat + 256 * le_value(s.drop_first())
    }
}

/// The `n` low bytes of `x`, least significant first.
pub open spec fn le_bytes(x: nat, n: nat) -> Seq<u8>
    decreases n,
{
    if n == 0 {
        Seq::empty()
    } else {
        seq![(x % 256) as u8] + le_bytes(x / 256, (n - 1) as nat)
    }
}

/// The `n` low bytes of `x`, most significant first.
pub open spec fn be_bytes(x: nat, n: nat) -> Seq<u8>
    decreases n,
{
    if n == 0 {
        Seq::empty()
    } else {
        be_bytes(x / 256, (n - 1) as nat).push((x % 256) as u8)
    }
}

/// No byte string precedes itself.
pub proof fn lex_irreflexive(a: Seq<u8>)
    ensures
        !lex_lt(a, a),
    decreases a.len(),
{
    if a.len() > 0 {
        lex_irreflexive(a.drop_first());
    }
}

/// The lexicographic order is transitive.
pub proof fn lex_transitive(a: Seq<u8>, b: Seq<u8>, c: Seq<u8>)
    requires
        lex_lt(a, b),
        lex_lt(b, c),
    ensures
        lex_lt(a, c),
    decreases a.len(),
{
    if a.len() > 0 && b.len() > 0 && c.len() > 0 && a[0] == b[0] && b[0] == c[0] {
        lex_transitive(a.drop_first(), b.drop_first(), c.drop_first());
    }
}

/// Any two different byte strings are ordered.
pub proof fn lex_total(a: Seq<u8>, b: Seq<u8>)
    ensures
        a == b || lex_lt(a, b) || lex_lt(b, a),
    decreases a.len(),
{
    if a.len() > 0 && b.len() > 0 {
        lex_total(a.drop_first(), b.drop_first());
        if a[0] == b[0] && a.drop_first() == b.drop_first() {
            assert(a =~= seq![a[0]] + a.drop_first());
            assert(b =~= seq![b[0]] + b.drop_first());
        }
    } else if a.len() == 0 && b.len() == 0 {
        assert(a =~= b);
    }
}

/// Of two byte strings at most one precedes the other.
pub proof fn lex_asymmetric(a: Seq<u8>, b: Seq<u8>)
    requires
        lex_lt(a, b),
    ensures
        !lex_lt(b, a),
{
    if lex_lt(b, a) {
        lex_transitive(a, b, a);
        lex_irreflexive(a);
    }
}

/// A common prefix does not affect the order.
pub proof fn lex_common_prefix(p: Seq<u8>, a: Seq<u8>, b: Seq<u8>)
    ensures
        lex_lt(p + a, p + b) == lex_lt(a, b),
    decreases p.len(),
{
    if p.len() == 0 {
        assert(p + a =~= a);
        assert(p + b =~= b);
    } else {
        lex_common_prefix(p.drop_first(), a, b);
        assert((p + a).drop_first() =~= p.drop_first() + a);
        assert((p + b).drop_first() =~= p.drop_first() + b);
    }
}

/// Strings that differ within equally long prefixes are ordered by those prefixes.
pub proof fn lex_prefix_dominates(p: Seq<u8>, q: Seq<u8>, a: Seq<u8>, b: Seq<u8>)
    requires
        p.len() == q.len(),
        p != q,
    ensures
        lex_lt(p + a, q + b) == lex_lt(p, q),
    decreases p.len(),
{
    if p.len() == 0 {
        assert(p =~= q);
    } else if p[0] == q[0] {
        if p.drop_first() == q.drop_first() {
            assert(p =~= seq![p[0]] + p.drop_first());
            assert(q =~= seq![q[0]] + q.drop_first());
        }
        lex_prefix_dominates(p.drop_first(), q.drop_first(), a, b);
        assert((p + a).drop_first() =~= p.drop_first() + a);
        assert((q + b).drop_first() =~= q.drop_first() + b);
    }
}

proof fn be_value_bound(s: Seq<u8>)
    ensures
        be_value(s) < pow256(s.len()),
    decreases s.len(),
{
    if s.len() > 0 {
        be_value_bound(s.drop_first());
        let p = pow256((s.len() - 1) as nat);
        let d = s[0] as nat;
        assert(d * p + p <= 256 * p) by (nonlinear_arith)
            requires
                d <= 255,
                p >= 0,
        ;
    }
}

/// Big-endian byte order is numeric order: strings of one length are ordered as the
/// numbers they spell.
pub proof fn be_order_is_numeric(a: Seq<u8>, b: Seq<u8>)
    requires
        a.len() == b.len(),
    ensures
        lex_lt(a, b) <==> be_value(a) < be_value(b),
    decreases a.len(),
{
    if a.len() > 0 {
        let n = (a.len() - 1) as nat;
        be_order_is_numeric(a.drop_first(), b.drop_first());
        be_value_bound(a.drop_first());
        be_value_bound(b.drop_first());
        let p = pow256(n);
        let x = a[0] as nat;
        let y = b[0] as nat;
        let ra = be_value(a.drop_first());
        let rb = be_value(b.drop_first());
        if x < y {
            assert(x * p + p <= y * p) by (nonlinear_arith)
                requires
                    x + 1 <= y,
                    p >= 0,
            ;
        } else if y < x {
            assert(y * p + p <= x * p) by (nonlinear_arith)
                requires
                    y + 1 <= x,
                    p >= 0,
            ;
        }
    }
}

/// `le_bytes` has the width it was asked for, and spells the number it was given.
pub proof fn le_bytes_spell(x: nat, n: nat)
    requires
        x < pow256(n),
    ensures
        le_bytes(x, n).len() == n,
        le_value(le_bytes(x, n)) == x,
    decreases n,
{
    if n > 0 {
        le_bytes_spell(x / 256, (n - 1) as nat);
        let tail = le_bytes(x / 256, (n - 1) as nat);
        assert(le_bytes(x, n).drop_first() =~= tail);
    }
}

/// A string is the little-endian spelling of its own value.
pub proof fn le_bytes_of_value(s: Seq<u8>)
    ensures
        le_value(s) < pow256(s.len()),
        le_bytes(le_value(s), s.len()) == s,
    decreases s.len(),
{
    if s.len() > 0 {
        le_bytes_of_value(s.drop_first());
        assert(s =~= seq![s[0]] + s.drop_first());
    } else {
        assert(le_bytes(le_value(s), s.len()) =~= s);
    }
}

pub proof fn be_value_push(s: Seq<u8>, d: u8)
    ensures
        be_value(s.push(d)) == be_value(s) * 256 + d,
    decreases s.len(),
{
    if s.len() == 0 {
        assert(s.push(d).drop_first() =~= Seq::<u8>::empty());
        assert(be_value(Seq::<u8>::empty()) == 0);
        assert(pow256(0) == 1);
        assert(be_value(s.push(d)) == d as nat * pow256(0) + be_value(s.push(d).drop_first()));
    } else {
        be_value_push(s.drop_first(), d);
        assert(s.push(d).drop_first() =~= s.drop_first().push(d));
        let p = pow256((s.len() - 1) as nat);
        let x = s[0] as nat;
        let r = be_value(s.drop_first());
        assert(pow256(s.len()) == 256 * p);
        assert(x * (256 * p) + (r * 256 + d) == (x * p + r) * 256 + d) by (nonlinear_arith);
        assert(be_value(s) == x * p + r);
        assert(be_value(s.push(d)) == x * pow256(s.len()) + be_value(s.push(d).drop_first()));
    }
}

/// `be_bytes` has the width it was asked for, and spells the number it was given.
pub proof fn be_bytes_spell(x: nat, n: nat)
    requires
        x < pow256(n),
    ensures
        be_bytes(x, n).len() == n,
        be_value(be_bytes(x, n)) == x,
    decreases n,
{
    if n > 0 {
        be_bytes_spell(x / 256, (n - 1) as nat);
        be_value_push(be_bytes(x / 256, (n - 1) as nat), (x % 256) as u8);
    }
}

/// A string is the big-endian spelling of its own value.
pub proof fn be_bytes_of_value(s: Seq<u8>)
    ensures
        be_value(s) < pow256(s.len()),
        be_bytes(be_value(s), s.len()) == s,
    decreases s.len(),
{
    be_value_bound(s);
    if s.len() > 0 {
        let head = s.drop_last();
        be_bytes_of_value(head);
        be_value_push(head, s.last());
        assert(head.push(s.last()) =~= s);
    } else {
        assert(be_bytes(be_value(s), s.len()) =~= s);
    }
}

/// What every 64-bit and 32-bit number satisfies: it fits in its own width.
pub proof fn widths()
    ensures
        pow256(4) == 0x1_0000_0000,
        pow256(8) == 0x1_0000_0000_0000_0000,
{
    reveal_with_fuel(pow256, 9);
}

/// Different 32-bit numbers have different spellings, all of them four bytes long.
pub proof fn u32_spellings(a: u32, b: u32)
    ensures
        le_bytes(a as nat, 4).len() == 4,
        be_bytes(a as nat, 4).len() == 4,
        le_bytes(a as nat, 4) == le_bytes(b as nat, 4) ==> a == b,
        be_bytes(a as nat, 4) == be_bytes(b as nat, 4) ==> a == b,
{
    widths();
    le_bytes_spell(a as nat, 4);
    le_bytes_spell(b as nat, 4);
    be_bytes_spell(a as nat, 4);
    be_bytes_spell(b as nat, 4);
}

/// Different 64-bit numbers have different spellings, all of them eight bytes long.
pub proof fn u64_spellings(a: u64, b: u64)
    ensures
        le_bytes(a as nat, 8).len() == 8,
        be_bytes(a as nat, 8).len() == 8,
        le_bytes(a as nat, 8) == le_bytes(b as nat, 8) ==> a == b,
        be_bytes(a as nat, 8) == be_bytes(b as nat, 8) ==> a == b,
{
    widths();
    le_bytes_spell(a as nat, 8);
    le_bytes_spell(b as nat, 8);
    be_bytes_spell(a as nat, 8);
    be_bytes_spell(b as nat, 8);
}

/// Whether two byte strings hold the same bytes.
pub fn bytes_eq(a: &[u8], b: &[u8]) -> (same: bool)
    ensures
        same == (a@ == b@),
{
    if a.len() != b.len() {
        return false;
    }
    let mut i: usize = 0;
    while i < a.len()
        invariant
            i <= a.len(),
            a.len() == b.len(),
            forall|j: int| 0 <= j < i ==> a@[j] == b@[j],
        decreases a.len() - i,
    {
        if a[i] != b[i] {
            return false;
        }
        i += 1;
    }
    assert(a@ =~= b@);
    true
}

/// Whether `a` precedes `b` lexicographically.
pub fn bytes_lt(a: &[u8], b: &[u8]) -> (less: bool)
    ensures
        less == lex_lt(a@, b@),
{
    let mut i: usize = 0;
    assert(a@.skip(0) =~= a@);
    assert(b@.skip(0) =~= b@);
    while i < a.len() && i < b.len()
        invariant
            i <= a.len(),
            i <= b.len(),
            lex_lt(a@, b@) == lex_lt(a@.skip(i as int), b@.skip(i as int)),
        decreases a.len() - i,
    {
        if a[i] != b[i] {
            return a[i] < b[i];
        }
        assert(a@.skip(i as int).drop_first() =~= a@.skip(i + 1));
        assert(b@.skip(i as int).drop_first() =~= b@.skip(i + 1));
        i += 1;
    }
    i < b.len()
}

/// Little-endian bytes of a 64-bit number.
pub fn u64_to_le(x: u64) -> (out: [u8; 8])
    ensures
        out@ == le_bytes(x as nat, 8),
{
    let mut out: [u8; 8] = [0u8; 8];
    let mut rest: u64 = x;
    let mut i: usize = 0;
    assert(out@.take(0) + le_bytes(rest as nat, 8) =~= le_bytes(x as nat, 8));
    while i < 8
        invariant
            i <= 8,
            out@.take(i as int) + le_bytes(rest as nat, (8 - i) as nat) == le_bytes(x as nat, 8),
        decreases 8 - i,
    {
        let ghost before = out@;
        out[i] = (rest % 256) as u8;
        assert(out@.take(i + 1) + le_bytes((rest / 256) as nat, (8 - (i + 1)) as nat)
            =~= before.take(i as int) + le_bytes(rest as nat, (8 - i) as nat)) by {
            assert(out@.take(i + 1) =~= before.take(i as int).push((rest % 256) as u8));
        }
        rest = rest / 256;
        i += 1;
    }
    assert(out@.take(8) + le_bytes(rest as nat, 0) =~= out@);
    out
}

/// Big-endian bytes of a 64-bit number.
pub fn u64_to_be(x: u64) -> (out: [u8; 8])
    ensures
        out@ == be_bytes(x as nat, 8),
{
    let mut out: [u8; 8] = [0u8; 8];
    let mut rest: u64 = x;
    let mut i: usize = 8;
    assert(be_bytes(rest as nat, 8) + out@.skip(8) =~= be_bytes(x as nat, 8));
    while i > 0
        invariant
            i <= 8,
            be_bytes(rest as nat, i as nat) + out@.skip(i as int) == be_bytes(x as nat, 8),
        decreases i,
    {
        let ghost before = out@;
        i -= 1;
        out[i] = (rest % 256) as u8;
        assert(be_bytes((rest / 256) as nat, i as nat) + out@.skip(i as int)
            =~= be_bytes(rest as nat, (i + 1) as nat) + before.skip(i + 1)) by {
            assert(out@.skip(i as int) =~= seq![(rest % 256) as u8] + before.skip(i + 1));
        }
        rest = rest / 256;
    }
    assert(be_bytes(rest as nat, 0) + out@.skip(0) =~= out@);
    out
}

/// Little-endian bytes of a 32-bit number.
pub fn u32_to_le(x: u32) -> (out: [u8; 4])
    ensures
        out@ == le_bytes(x as nat, 4),
{
    let out: [u8; 4] = [
        (x % 256) as u8,
        (x / 256 % 256) as u8,
        (x / 256 / 256 % 256) as u8,
        (x / 256 / 256 / 256 % 256) as u8,
    ];
    proof {
        reveal_with_fuel(le_bytes, 5);
        assert(out@ =~= le_bytes(x as nat, 4));
    }
    out
}

/// Big-endian bytes of a 32-bit number.
pub fn u32_to_be(x: u32) -> (out: [u8; 4])
    ensures
        out@ == be_bytes(x as nat, 4),
{
    let out: [u8; 4] = [
        (x / 256 / 256 / 256 % 256) as u8,
        (x / 256 / 256 % 256) as u8,
        (x / 256 % 256) as u8,
        (x % 256) as u8,
    ];
    proof {
        reveal_with_fuel(be_bytes, 5);
        assert(out@ =~= be_bytes(x as nat, 4));
    }
    out
}

/// The 64-bit number that eight little-endian bytes spell.
pub fn u64_from_le(s: &[u8; 8]) -> (x: u64)
    ensures
        x == le_value(s@),
{
    proof {
        widths();
    }
    let mut x: u64 = 0;
    let mut i: usize = 8;
    assert(s@.skip(8) =~= Seq::<u8>::empty());
    while i > 0
        invariant
            i <= 8,
            x == le_value(s@.skip(i as int)),
        decreases i,
    {
        i -= 1;
        proof {
            let t = s@.skip(i as int);
            assert(t.drop_first() =~= s@.skip(i + 1));
            le_bytes_of_value(t);
            reveal_with_fuel(pow256, 9);
        }
        x = s[i] as u64 + 256 * x;
    }
    assert(s@.skip(0) =~= s@);
    x
}

/// The 64-bit number that eight big-endian bytes spell.
pub fn u64_from_be(s: &[u8; 8]) -> (x: u64)
    ensures
        x == be_value(s@),
{
    let mut x: u64 = 0;
    let mut i: usize = 0;
    assert(s@.take(0) =~= Seq::<u8>::empty());
    while i < 8
        invariant
            i <= 8,
            x == be_value(s@.take(i as int)),
        decreases 8 - i,
    {
        proof {
            let t = s@.take(i + 1);
            assert(t =~= s@.take(i as int).push(s@[i as int]));
            be_value_push(s@.take(i as int), s@[i as int]);
            be_value_bound(t);
            reveal_with_fuel(pow256, 9);
        }
        x = x * 256 + s[i] as u64;
        i += 1;
    }
    assert(s@.take(8) =~= s@);
    x
}

/// The 32-bit number that four little-endian bytes spell.
pub fn u32_from_le(s: &[u8; 4]) -> (x: u32)
    ensures
        x == le_value(s@),
{
    proof {
        reveal_with_fuel(le_value, 5);
    }
    s[0] as u32 + 256 * (s[1] as u32) + 65_536 * (s[2] as u32) + 16_777_216 * (s[3] as u32)
}

} // verus!
