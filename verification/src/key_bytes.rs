//! Byte strings as keys: their lexicographic order, and identifiers written
//! as sixteen big-endian bytes, which keeps the order of the identifiers.

use vstd::prelude::*;

verus! {

/// `k` is where `a` is seen to come before `b`: the two agree before `k`, and
/// at `k` either `a` has ended and `b` has not, or `a` holds the smaller byte.
pub open spec fn differs_at(a: Seq<u8>, b: Seq<u8>, k: int) -> bool {
    &&& 0 <= k <= a.len()
    &&& k < b.len()
    &&& forall|i: int| 0 <= i < k ==> a[i] == b[i]
    &&& k < a.len() ==> a[k] < b[k]
}

/// Lexicographic order of byte strings, strict.
pub open spec fn lex_less(a: Seq<u8>, b: Seq<u8>) -> bool {
    exists|k: int| differs_at(a, b, k)
}

/// 256 to the power of `n`.
pub open spec fn pow256(n: nat) -> nat
    decreases n,
{
    if n == 0 {
        1
    } else {
        256 * pow256((n - 1) as nat)
    }
}

/// The number that a byte string is the big-endian writing of.
pub open spec fn be_value(b: Seq<u8>) -> nat
    decreases b.len(),
{
    if b.len() == 0 {
        0
    } else {
        be_value(b.drop_last()) * 256 + b.last() as nat
    }
}

/// The last `n` base-256 digits of `x`, most significant first.
pub open spec fn be_digits(x: nat, n: nat) -> Seq<u8>
    decreases n,
{
    if n == 0 {
        Seq::empty()
    } else {
        be_digits(x / 256, (n - 1) as nat).push((x % 256) as u8)
    }
}

/// An identifier as sixteen bytes, most significant first.
pub open spec fn be_bytes(x: u128) -> Seq<u8> {
    be_digits(x as nat, 16)
}

/// 256 to the sixteenth is one more than the largest identifier.
pub proof fn lemma_pow256_16()
    ensures
        pow256(16) == 0x1_0000_0000_0000_0000_0000_0000_0000_0000,
        pow256(17) == 0x100_0000_0000_0000_0000_0000_0000_0000_0000,
{
    reveal_with_fuel(pow256, 18);
}

/// A byte string of `n` bytes writes a number below 256 to the `n`.
pub proof fn lemma_be_value_bound(b: Seq<u8>)
    ensures
        be_value(b) < pow256(b.len()),
    decreases b.len(),
{
    if b.len() > 0 {
        lemma_be_value_bound(b.drop_last());
    }
}

/// Writing a number that fits in `n` bytes and reading it back gives the
/// number.
pub proof fn lemma_be_digits_value(x: nat, n: nat)
    requires
        x < pow256(n),
    ensures
        be_digits(x, n).len() == n,
        be_value(be_digits(x, n)) == x,
    decreases n,
{
    if n > 0 {
        lemma_be_digits_value(x / 256, (n - 1) as nat);
        let d = be_digits(x, n);
        assert(d.drop_last() =~= be_digits(x / 256, (n - 1) as nat));
    }
}

/// Reading a byte string and writing the number back in as many bytes gives
/// the byte string.
pub proof fn lemma_be_value_digits(b: Seq<u8>)
    ensures
        be_digits(be_value(b), b.len()) == b,
    decreases b.len(),
{
    if b.len() > 0 {
        lemma_be_value_digits(b.drop_last());
        let v = be_value(b);
        assert(v / 256 == be_value(b.drop_last()));
        assert(v % 256 == b.last());
        assert(be_digits(v, b.len()) =~= b);
    }
}

/// The number written by two byte strings in a row.
pub proof fn lemma_be_value_concat(a: Seq<u8>, b: Seq<u8>)
    ensures
        be_value(a + b) == be_value(a) * pow256(b.len()) + be_value(b),
    decreases b.len(),
{
    if b.len() == 0 {
        assert(a + b =~= a);
        assert(pow256(0) == 1);
        assert(be_value(a) * 1 == be_value(a));
    } else {
        lemma_be_value_concat(a, b.drop_last());
        assert((a + b).drop_last() =~= a + b.drop_last());
        let p = pow256((b.len() - 1) as nat);
        let x = be_value(a);
        assert((a + b).last() == b.last());
        assert(pow256(b.len()) == 256 * p);
        assert(x * (256 * p) == (x * p) * 256) by (nonlinear_arith);
        assert(be_value(a + b) == (x * p + be_value(b.drop_last())) * 256 + b.last() as nat);
    }
}

/// Of two byte strings of one length, the one that comes first writes the
/// smaller number.
pub proof fn lemma_differs_at_value(a: Seq<u8>, b: Seq<u8>, k: int)
    requires
        a.len() == b.len(),
        differs_at(a, b, k),
    ensures
        be_value(a) < be_value(b),
    decreases a.len(),
{
    let n = a.len() as int;
    let a1 = a.drop_last();
    let b1 = b.drop_last();
    if k == n - 1 {
        assert(a1 =~= b1);
    } else {
        assert(differs_at(a1, b1, k));
        lemma_differs_at_value(a1, b1, k);
    }
}

/// Two different byte strings of one length differ somewhere first.
pub proof fn lemma_first_difference(a: Seq<u8>, b: Seq<u8>) -> (k: int)
    requires
        a.len() == b.len(),
        a != b,
    ensures
        0 <= k < a.len(),
        forall|i: int| 0 <= i < k ==> a[i] == b[i],
        a[k] != b[k],
    decreases a.len(),
{
    if a.len() == 0 {
        assert(a =~= b);
        0
    } else {
        let a1 = a.drop_last();
        let b1 = b.drop_last();
        if a1 == b1 {
            if a.last() == b.last() {
                assert(a =~= b) by {
                    assert forall|i: int| 0 <= i < a.len() implies a[i] == b[i] by {
                        if i < a.len() - 1 {
                            assert(a1[i] == b1[i]);
                        }
                    }
                }
            }
            assert forall|i: int| 0 <= i < a.len() - 1 implies a[i] == b[i] by {
                assert(a1[i] == b1[i]);
            }
            a.len() - 1
        } else {
            let k = lemma_first_difference(a1, b1);
            assert(a1[k] == a[k] && b1[k] == b[k]);
            assert forall|i: int| 0 <= i < k implies a[i] == b[i] by {
                assert(a1[i] == b1[i]);
            }
            k
        }
    }
}

/// On byte strings of one length, the lexicographic order is the order of
/// the numbers they write.
pub proof fn lemma_lex_is_value_order(a: Seq<u8>, b: Seq<u8>)
    requires
        a.len() == b.len(),
    ensures
        lex_less(a, b) <==> be_value(a) < be_value(b),
        a == b <==> be_value(a) == be_value(b),
{
    if lex_less(a, b) {
        let k = choose|k: int| differs_at(a, b, k);
        lemma_differs_at_value(a, b, k);
    }
    if a != b {
        let k = lemma_first_difference(a, b);
        if a[k] < b[k] {
            assert(differs_at(a, b, k));
            lemma_differs_at_value(a, b, k);
        } else {
            assert(differs_at(b, a, k));
            lemma_differs_at_value(b, a, k);
        }
    }
}

/// The sixteen bytes of an identifier write the identifier, and the bytes of
/// identifiers stand in the order of the identifiers.
pub proof fn lemma_be_bytes(x: u128, y: u128)
    ensures
        be_bytes(x).len() == 16,
        be_value(be_bytes(x)) == x,
        lex_less(be_bytes(x), be_bytes(y)) <==> x < y,
        be_bytes(x) == be_bytes(y) <==> x == y,
{
    lemma_pow256_16();
    lemma_be_digits_value(x as nat, 16);
    lemma_be_digits_value(y as nat, 16);
    lemma_lex_is_value_order(be_bytes(x), be_bytes(y));
}

/// Writes an identifier as sixteen bytes, most significant first.
pub fn id_to_bytes(x: u128) -> (r: [u8; 16])
    ensures
        r@ == be_bytes(x),
{
    let mut out: [u8; 16] = [0u8; 16];
    let mut rest: u128 = x;
    let mut i: usize = 16;
    assert(be_digits(rest as nat, 0) =~= out@.subrange(16, 16));
    while i > 0
        invariant
            0 <= i <= 16,
            be_digits(x as nat, 16) == be_digits(rest as nat, i as nat) + out@.subrange(
                i as int,
                16,
            ),
        decreases i,
    {
        i -= 1;
        let ghost before = out@;
        out[i] = (rest % 256) as u8;
        proof {
            let d = be_digits(rest as nat, (i + 1) as nat);
            assert(d == be_digits((rest / 256) as nat, i as nat).push((rest % 256) as u8));
            assert(out@.subrange(i as int, 16) =~= seq![(rest % 256) as u8] + before.subrange(
                i + 1,
                16,
            ));
            assert(d + before.subrange(i + 1, 16) =~= be_digits((rest / 256) as nat, i as nat)
                + out@.subrange(i as int, 16));
        }
        rest = rest / 256;
    }
    assert(be_digits(rest as nat, 0) + out@.subrange(0, 16) =~= out@);
    out
}

/// Reads the identifier that sixteen bytes of `bytes`, from `from` on, write.
pub fn id_from_bytes(bytes: &[u8], from: usize) -> (r: u128)
    requires
        from + 16 <= bytes.len(),
    ensures
        be_bytes(r) == bytes@.subrange(from as int, from + 16),
        r == be_value(bytes@.subrange(from as int, from + 16)),
{
    let ghost part = bytes@.subrange(from as int, from + 16);
    let mut acc: u128 = 0;
    let mut i: usize = 0;
    assert(part.take(0) =~= Seq::<u8>::empty());
    while i < 16
        invariant
            0 <= i <= 16,
            from + 16 <= bytes.len(),
            part == bytes@.subrange(from as int, from + 16),
            acc == be_value(part.take(i as int)),
        decreases 16 - i,
    {
        proof {
            let t = part.take(i + 1);
            assert(t.drop_last() =~= part.take(i as int));
            assert(t.last() == bytes@[from + i]);
            lemma_be_value_bound(t);
            lemma_pow256_16();
            lemma_pow256_grows((i + 1) as nat, 16);
        }
        acc = acc * 256 + bytes[from + i] as u128;
        i += 1;
    }
    proof {
        assert(part.take(16) =~= part);
        lemma_be_value_digits(part);
    }
    acc
}

/// Powers of 256 grow with the exponent.
pub proof fn lemma_pow256_grows(m: nat, n: nat)
    requires
        m <= n,
    ensures
        pow256(m) <= pow256(n),
        pow256(m) >= 1,
    decreases n,
{
    if m < n {
        lemma_pow256_grows(m, (n - 1) as nat);
    } else if m > 0 {
        lemma_pow256_grows((m - 1) as nat, (n - 1) as nat);
    }
}

/// Compares two byte strings: whether `a` comes strictly before `b`.
pub fn bytes_less(a: &[u8], b: &[u8]) -> (r: bool)
    ensures
        r == lex_less(a@, b@),
{
    let mut i: usize = 0;
    while i < a.len() && i < b.len()
        invariant
            0 <= i <= a.len(),
            i <= b.len(),
            forall|j: int| 0 <= j < i ==> a@[j] == b@[j],
        decreases a.len() - i,
    {
        if a[i] != b[i] {
            let less = a[i] < b[i];
            proof {
                if less {
                    assert(differs_at(a@, b@, i as int));
                } else {
                    lemma_differs_at_unique(a@, b@, i as int);
                }
            }
            return less;
        }
        i += 1;
    }
    proof {
        if i < b.len() {
            assert(differs_at(a@, b@, i as int));
        } else {
            lemma_differs_at_unique(a@, b@, i as int);
        }
    }
    i < b.len()
}

/// Where two byte strings agree up to `k` and `a` does not come first at `k`,
/// `a` does not come first at all.
pub proof fn lemma_differs_at_unique(a: Seq<u8>, b: Seq<u8>, k: int)
    requires
        0 <= k <= a.len(),
        k <= b.len(),
        forall|i: int| 0 <= i < k ==> a[i] == b[i],
        k == b.len() || (k < a.len() && a[k] > b[k]),
    ensures
        !lex_less(a, b),
{
    if lex_less(a, b) {
        let j = choose|j: int| differs_at(a, b, j);
        if j < k {
            assert(a[j] == b[j]);
        } else if j > k {
            assert(a[k] == b[k]);
        }
    }
}

} // verus!
