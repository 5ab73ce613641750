//! Numbers in groups of seven bits, least significant group first; every byte but the last has
//! its top bit set.
use vstd::prelude::*;

verus! {

/// The bytes of a number.
pub open spec fn leb(n: nat) -> Seq<u8>
    decreases n,
{
    if n < 128 {
        seq![n as u8]
    } else {
        seq![(n % 128 + 128) as u8] + leb(n / 128)
    }
}

/// Where the first byte without the top bit stands; the length where there is none.
pub open spec fn end_at(s: Seq<u8>) -> int
    decreases s.len(),
{
    if s.len() == 0 || s[0] < 128 {
        0
    } else {
        1 + end_at(s.drop_first())
    }
}

/// The number that groups of seven bits stand for.
pub open spec fn value_of(s: Seq<u8>) -> nat
    decreases s.len(),
{
    if s.len() == 0 {
        0
    } else {
        (s[0] % 128) as nat + 128 * value_of(s.drop_first())
    }
}

/// 128 to the power of `k`.
pub open spec fn pow128(k: nat) -> nat
    decreases k,
{
    if k == 0 {
        1
    } else {
        128 * pow128((k - 1) as nat)
    }
}

/// The end is where no earlier byte ends the number.
pub proof fn lemma_end_at(s: Seq<u8>, i: int)
    requires
        0 <= i <= s.len(),
        forall|k: int| 0 <= k < i ==> s[k] >= 128,
        i < s.len() ==> s[i] < 128,
    ensures
        end_at(s) == i,
    decreases s.len(),
{
    if s.len() > 0 && i > 0 {
        assert(s[0] >= 128);
        let rest = s.drop_first();
        assert forall|k: int| 0 <= k < i - 1 implies rest[k] >= 128 by {
            assert(rest[k] == s[k + 1]);
        }
        lemma_end_at(rest, i - 1);
    }
}

/// No byte before the end ends the number, and the one there does.
pub proof fn lemma_end_at_bounds(s: Seq<u8>)
    ensures
        0 <= end_at(s) <= s.len(),
        forall|k: int| 0 <= k < end_at(s) ==> s[k] >= 128,
        end_at(s) < s.len() ==> s[end_at(s)] < 128,
    decreases s.len(),
{
    if s.len() > 0 && s[0] >= 128 {
        let rest = s.drop_first();
        lemma_end_at_bounds(rest);
        assert forall|k: int| 0 <= k < end_at(s) implies s[k] >= 128 by {
            if k > 0 {
                assert(rest[k - 1] == s[k]);
            }
        }
    }
}

/// A number is read back from its bytes, whatever follows them.
pub proof fn lemma_leb_round_trip(n: nat, after: Seq<u8>)
    ensures
        leb(n).len() > 0,
        end_at(leb(n) + after) == leb(n).len() - 1,
        value_of(leb(n)) == n,
    decreases n,
{
    let s = leb(n) + after;
    if n < 128 {
        assert(s[0] == n as u8);
        assert(leb(n).drop_first() == Seq::<u8>::empty());
        reveal_with_fuel(value_of, 2);
    } else {
        let rest = leb(n / 128);
        lemma_leb_round_trip(n / 128, after);
        assert(leb(n)[0] == (n % 128 + 128) as u8);
        assert(s[0] == leb(n)[0]);
        assert(s.drop_first() == rest + after);
        assert(leb(n).drop_first() == rest);
    }
}

/// A number below 128^k takes at most k bytes.
pub proof fn lemma_leb_len(n: nat, k: nat)
    requires
        k > 0,
        n < pow128(k),
    ensures
        1 <= leb(n).len() <= k,
    decreases k,
{
    if n >= 128 {
        if k == 1 {
            reveal_with_fuel(pow128, 2);
        } else {
            assert(n / 128 < pow128((k - 1) as nat));
            lemma_leb_len(n / 128, (k - 1) as nat);
        }
    }
}

/// The last byte of a number above zero is not zero, and no byte before it is.
pub proof fn lemma_leb_bytes(n: nat)
    ensures
        leb(n).len() > 0,
        forall|i: int| 0 <= i < leb(n).len() - 1 ==> leb(n)[i] >= 128,
        leb(n).last() < 128,
        n > 0 ==> leb(n).last() > 0,
    decreases n,
{
    if n >= 128 {
        lemma_leb_bytes(n / 128);
        let rest = leb(n / 128);
        assert forall|i: int| 0 <= i < leb(n).len() - 1 implies leb(n)[i] >= 128 by {
            if i > 0 {
                assert(leb(n)[i] == rest[i - 1]);
            }
        }
        assert(leb(n).last() == rest.last());
    }
}

/// The number of k groups is below 128^k.
pub proof fn lemma_value_bound(s: Seq<u8>)
    ensures
        value_of(s) < pow128(s.len()),
    decreases s.len(),
{
    if s.len() > 0 {
        lemma_value_bound(s.drop_first());
    }
}

/// Powers that the integer widths need.
pub proof fn lemma_powers()
    ensures
        pow128(5) == 0x8_0000_0000,
        pow128(10) == 0x40_0000_0000_0000_0000,
{
    reveal_with_fuel(pow128, 11);
}

pub proof fn lemma_pow128_grows(a: nat, b: nat)
    requires
        a <= b,
    ensures
        pow128(a) <= pow128(b),
    decreases b,
{
    if a < b {
        lemma_pow128_grows(a, (b - 1) as nat);
    }
}

/// Appends a number.
pub fn push_leb(buf: &mut Vec<u8>, n: u64)
    ensures
        final(buf)@ == old(buf)@ + leb(n as nat),
    decreases n,
{
    if n < 128 {
        buf.push(n as u8);
        assert(buf@ == old(buf)@ + leb(n as nat));
    } else {
        buf.push((n % 128 + 128) as u8);
        push_leb(buf, n / 128);
        assert(buf@ == old(buf)@ + leb(n as nat));
    }
}

/// The offset from `from` of the byte that ends a number, looking at no more than `max` bytes.
pub fn find_end(data: &[u8], from: usize, max: usize) -> (r: Option<usize>)
    requires
        from <= data@.len(),
    ensures
        match r {
            Some(i) => i < max && from + i < data@.len() && i == end_at(
                data@.skip(from as int),
            ),
            None => end_at(data@.skip(from as int)) >= max || end_at(data@.skip(from as int))
                == data@.len() - from,
        },
{
    let mut i: usize = 0;
    let ghost s = data@.skip(from as int);
    while i < max && i < data.len() - from
        invariant
            from <= data@.len(),
            i <= data@.len() - from,
            i <= max,
            s == data@.skip(from as int),
            forall|k: int| 0 <= k < i ==> s[k] >= 128,
        decreases max - i,
    {
        if data[from + i] < 128 {
            proof {
                assert(s[i as int] == data@[from + i]);
                lemma_end_at(s, i as int);
            }
            return Some(i);
        }
        assert(s[i as int] == data@[from + i]);
        i = i + 1;
    }
    proof {
        lemma_end_at_bounds(s);
        if end_at(s) < i {
            assert(s[end_at(s)] < 128);
        }
    }
    None
}

/// The number of at most ten groups.
pub fn number_at(data: &[u8], from: usize, len: usize) -> (r: u128)
    requires
        from + len <= data@.len(),
        len <= 10,
    ensures
        r == value_of(data@.subrange(from as int, from + len)),
{
    let mut acc: u128 = 0;
    let mut i: usize = len;
    let ghost end = from + len;
    assert(data@.subrange(end as int, end as int) == Seq::<u8>::empty());
    while i > 0
        invariant
            i <= len <= 10,
            end == from + len,
            end <= data@.len(),
            acc == value_of(data@.subrange(from + i, end as int)),
            acc < pow128((len - i) as nat),
        decreases i,
    {
        proof {
            let s = data@.subrange(from + i - 1, end as int);
            assert(s.drop_first() == data@.subrange(from + i, end as int));
            lemma_value_bound(s);
            lemma_pow128_grows((len - i) as nat, 10);
            lemma_powers();
        }
        assert(from + i <= data.len());
        acc = (data[from + i - 1] % 128) as u128 + 128 * acc;
        i = i - 1;
    }
    acc
}

// ==================== Laws ====================

/// A number is written as its digits in base 128, least significant first, without needless ones;
/// every byte but the last has its top bit set.
pub proof fn law_groups_are_digits(n: nat, i: int)
    requires
        0 <= i < leb(n).len(),
    ensures
        leb(n)[i] % 128 == (n / pow128(i as nat)) % 128,
        leb(n)[i] >= 128 <==> i < leb(n).len() - 1,
        n < pow128(leb(n).len()),
        leb(n).len() > 1 ==> n >= pow128((leb(n).len() - 1) as nat),
    decreases n,
{
    lemma_leb_bytes(n);
    lemma_leb_round_trip(n, Seq::empty());
    lemma_value_bound(leb(n));
    assert(pow128(0) == 1);
    if n >= 128 {
        let rest = leb(n / 128);
        lemma_leb_bytes(n / 128);
        let last = (rest.len() - 1) as nat;
        law_groups_are_digits(n / 128, last as int);
        if rest.len() == 1 {
            assert(pow128(1) == 128) by {
                reveal_with_fuel(pow128, 2);
            }
        }
        if i > 0 {
            law_groups_are_digits(n / 128, i - 1);
            let p = pow128((i - 1) as nat);
            lemma_pow128_grows(0, (i - 1) as nat);
            vstd::arithmetic::div_mod::lemma_div_denominator(n as int, 128, p as int);
            assert(n / pow128(i as nat) == (n / 128) / p);
            assert(leb(n)[i] == rest[i - 1]);
        } else {
            assert(n / 1 == n);
        }
    } else {
        assert(n / 1 == n);
    }
}

/// The value of groups is the sum of their digits in base 128.
pub proof fn law_value_of_groups(s: Seq<u8>, b: u8)
    ensures
        value_of(Seq::<u8>::empty()) == 0,
        value_of(s.push(b)) == value_of(s) + (b % 128) * pow128(s.len()),
    decreases s.len(),
{
    let more = s.push(b);
    if s.len() == 0 {
        assert(more.drop_first() =~= Seq::<u8>::empty());
        reveal_with_fuel(value_of, 2);
        assert(pow128(0) == 1);
    } else {
        let rest = s.drop_first();
        law_value_of_groups(rest, b);
        assert(more.drop_first() =~= rest.push(b));
        let d = (b % 128) as int;
        let p = pow128(rest.len()) as int;
        assert(128 * (d * p) == d * (128 * p)) by (nonlinear_arith);
    }
}

/// A number ends at its first byte without the top bit.
pub proof fn law_number_ends(s: Seq<u8>)
    ensures
        0 <= end_at(s) <= s.len(),
        forall|k: int| 0 <= k < end_at(s) ==> s[k] >= 128,
        end_at(s) < s.len() ==> s[end_at(s)] < 128,
{
    lemma_end_at_bounds(s);
}

} // verus!
