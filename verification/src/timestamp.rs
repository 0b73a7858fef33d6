use vstd::prelude::*;

verus! {

/// A creation instant, counted in microseconds relative to the Unix epoch.
///
/// This is the sole ordering and pagination key of the store. Its canonical
/// text form, used inside cursors, is the plain signed decimal of `micros`.
#[derive(Clone, Copy, PartialEq, Eq, Structural, Debug)]
pub struct Timestamp {
    pub micros: i64,
}

/// The ASCII digits of `n`, most significant first, with no leading zero.
pub open spec fn dec_digits(n: nat) -> Seq<u8>
    decreases n,
{
    if n < 10 {
        seq![(48 + n) as u8]
    } else {
        dec_digits(n / 10).push((48 + n % 10) as u8)
    }
}

/// The canonical signed decimal form of `v`: a minus sign (byte 45) for
/// negative values, then the digits of the magnitude.
pub open spec fn dec_bytes(v: int) -> Seq<u8> {
    if v < 0 {
        seq![45u8] + dec_digits((-v) as nat)
    } else {
        dec_digits(v as nat)
    }
}

/// The numeric value of a digit string, most significant digit first.
pub open spec fn dec_val(s: Seq<u8>) -> int
    decreases s.len(),
{
    if s.len() == 0 {
        0
    } else {
        dec_val(s.drop_last()) * 10 + (s.last() - 48)
    }
}

pub open spec fn is_digits(s: Seq<u8>) -> bool {
    forall|i: int| 0 <= i < s.len() ==> 48 <= #[trigger] s[i] <= 57
}

/// A digit string is canonical when it is non-empty and has no leading zero.
pub open spec fn is_canonical_digits(s: Seq<u8>) -> bool {
    &&& s.len() > 0
    &&& is_digits(s)
    &&& (s.len() > 1 ==> s[0] != 48)
}

pub open spec fn pow10(n: nat) -> int
    decreases n,
{
    if n == 0 {
        1
    } else {
        10 * pow10((n - 1) as nat)
    }
}

/// The magnitude of `v` as a mathematical natural.
pub open spec fn magnitude(v: int) -> nat {
    if v < 0 {
        (-v) as nat
    } else {
        v as nat
    }
}

pub proof fn lemma_dec_digits_canonical(n: nat)
    ensures
        is_canonical_digits(dec_digits(n)),
        dec_val(dec_digits(n)) == n,
        n > 0 ==> dec_digits(n)[0] != 48,
        n == 0 ==> dec_digits(n) == seq![48u8],
    decreases n,
{
    if n < 10 {
        assert(dec_digits(n) =~= seq![(48 + n) as u8]);
        assert(dec_digits(n).drop_last() =~= Seq::<u8>::empty());
        assert(dec_val(Seq::<u8>::empty()) == 0);
        assert(dec_val(dec_digits(n)) == n);
    } else {
        lemma_dec_digits_canonical(n / 10);
        let d = dec_digits(n / 10);
        assert(dec_digits(n) == d.push((48 + n % 10) as u8));
        assert(dec_digits(n).drop_last() =~= d);
        assert(dec_val(dec_digits(n)) == dec_val(d) * 10 + n % 10);
        assert(dec_digits(n)[0] == d[0]);
    }
}

proof fn lemma_dec_digits_len(n: nat)
    ensures
        n < pow10(dec_digits(n).len()),
        n > 0 ==> pow10((dec_digits(n).len() - 1) as nat) <= n,
    decreases n,
{
    if n < 10 {
        assert(dec_digits(n).len() == 1);
        assert(pow10(1) == 10 * pow10(0));
    } else {
        lemma_dec_digits_len(n / 10);
        let l = dec_digits(n / 10).len();
        assert(dec_digits(n).len() == l + 1);
        assert(pow10(l + 1) == 10 * pow10(l));
        assert(n == 10 * (n / 10) + n % 10);
    }
}

/// Every digit string denotes a value in `[0, 10^len)`.
pub proof fn lemma_dec_val_bounds(s: Seq<u8>)
    requires
        is_digits(s),
    ensures
        0 <= dec_val(s) < pow10(s.len()),
        s.len() > 0 && s[0] != 48 ==> dec_val(s) >= 1,
    decreases s.len(),
{
    if s.len() == 0 {
    } else {
        let d = s.drop_last();
        assert(is_digits(d));
        lemma_dec_val_bounds(d);
        assert(pow10(s.len()) == 10 * pow10(d.len()));
        if s.len() > 1 {
            assert(d[0] == s[0]);
        }
    }
}

/// A canonical digit string denotes exactly one number: rendering its value
/// gives back the same string.
pub proof fn lemma_canonical_digits_round_trip(s: Seq<u8>)
    requires
        is_canonical_digits(s),
    ensures
        0 <= dec_val(s),
        dec_digits(dec_val(s) as nat) == s,
    decreases s.len(),
{
    lemma_dec_val_bounds(s);
    if s.len() == 1 {
        assert(s.drop_last() =~= Seq::<u8>::empty());
        assert(dec_val(Seq::<u8>::empty()) == 0);
        assert(dec_val(s) == s[0] - 48);
        assert(dec_digits(dec_val(s) as nat) =~= s);
    } else {
        let d = s.drop_last();
        assert(d[0] == s[0]);
        assert(is_canonical_digits(d));
        lemma_canonical_digits_round_trip(d);
        lemma_dec_val_bounds(d);
        let v: int = dec_val(s);
        let dv: int = dec_val(d);
        assert(v == dv * 10 + (s.last() - 48));
        assert(dv >= 1);
        assert(v / 10 == dv);
        assert(v % 10 == s.last() - 48);
        assert(dec_digits(v as nat) == dec_digits((v as nat) / 10).push(
            (48 + (v as nat) % 10) as u8,
        ));
        assert(dec_digits(v as nat) =~= s);
    }
}

proof fn lemma_pow10_monotone(a: nat, b: nat)
    requires
        a <= b,
    ensures
        0 < pow10(a) <= pow10(b),
    decreases b,
{
    if b == 0 {
    } else if a < b {
        lemma_pow10_monotone(a, (b - 1) as nat);
    } else {
        lemma_pow10_monotone((a - 1) as nat, (b - 1) as nat);
    }
}

proof fn lemma_pow10_19()
    ensures
        pow10(19) == 10000000000000000000,
{
    reveal_with_fuel(pow10, 21);
}

/// The full shape of the canonical rendering of one `i64`: its sign byte,
/// its digit part, that part's value, and its length bound.
proof fn lemma_shape(v: i64)
    ensures
        v >= 0 ==> dec_bytes(v as int) == dec_digits(magnitude(v as int)),
        v < 0 ==> dec_bytes(v as int) == seq![45u8] + dec_digits(magnitude(v as int)),
        is_canonical_digits(dec_digits(magnitude(v as int))),
        dec_val(dec_digits(magnitude(v as int))) == magnitude(v as int),
        v != 0 ==> dec_digits(magnitude(v as int))[0] != 48,
        v == 0 ==> dec_digits(magnitude(v as int)) == seq![48u8],
        dec_digits(magnitude(v as int)).len() <= 19,
{
    let m = magnitude(v as int);
    lemma_dec_digits_canonical(m);
    lemma_dec_digits_len(m);
    lemma_pow10_19();
    if dec_digits(m).len() > 19 {
        lemma_pow10_monotone(19, (dec_digits(m).len() - 1) as nat);
    }
}

fn push_digits(n: u64, out: &mut Vec<u8>)
    ensures
        final(out)@ == old(out)@ + dec_digits(n as nat),
    decreases n,
{
    if n < 10 {
        out.push(48 + n as u8);
        assert(out@ =~= old(out)@ + dec_digits(n as nat));
    } else {
        push_digits(n / 10, out);
        out.push(48 + (n % 10) as u8);
        assert(out@ =~= old(out)@ + dec_digits(n as nat));
    }
}

/// Renders `v` in its canonical signed decimal form.
pub fn encode_micros(v: i64) -> (r: Vec<u8>)
    ensures
        r@ == dec_bytes(v as int),
{
    let mut out: Vec<u8> = Vec::new();
    if v < 0 {
        out.push(45);
        let mag: u64 = if v == i64::MIN {
            9223372036854775808
        } else {
            (-v) as u64
        };
        assert(mag as nat == magnitude(v as int));
        push_digits(mag, &mut out);
        assert(out@ =~= dec_bytes(v as int));
    } else {
        push_digits(v as u64, &mut out);
        assert(out@ =~= dec_bytes(v as int));
    }
    out
}

proof fn lemma_pow10_small(n: nat)
    requires
        n <= 18,
    ensures
        pow10(n) <= 1000000000000000000,
{
    lemma_pow10_monotone(n, 18);
    reveal_with_fuel(pow10, 20);
}

/// Parses the canonical signed decimal form back into an `i64`, rejecting
/// everything else: empty input, stray characters, leading zeros, a bare or
/// zero-attached minus sign, and values outside the `i64` range.
pub fn parse_micros(b: &[u8]) -> (r: Option<i64>)
    ensures
        r matches Some(v) ==> b@ == dec_bytes(v as int),
        forall|v: i64| b@ == dec_bytes(v as int) ==> r == Some(v),
{
    if b.len() == 0 {
        proof {
            assert forall|v: i64| b@ != dec_bytes(v as int) by { lemma_shape(v) }
        }
        return None;
    }
    let neg = b[0] == 45;
    let start: usize = if neg { 1 } else { 0 };
    if b.len() == start {
        proof {
            assert forall|v: i64| b@ != dec_bytes(v as int) by { lemma_shape(v) }
        }
        return None;
    }
    if b[start] == 48 && (neg || b.len() - start > 1) {
        proof {
            assert forall|v: i64| b@ != dec_bytes(v as int) by { lemma_shape(v) }
        }
        return None;
    }
    if b.len() - start > 19 {
        proof {
            assert forall|v: i64| b@ != dec_bytes(v as int) by { lemma_shape(v) }
        }
        return None;
    }
    let mut acc: u64 = 0;
    let mut i: usize = start;
    while i < b.len()
        invariant
            start <= i <= b@.len(),
            start < b@.len(),
            b@.len() - start <= 19,
            start == if neg { 1int } else { 0int },
            neg <==> b@[0] == 45,
            is_digits(b@.subrange(start as int, i as int)),
            acc == dec_val(b@.subrange(start as int, i as int)),
            acc < pow10((i - start) as nat),
        decreases b@.len() - i,
    {
        let c: u8 = b[i];
        if c < 48 || c > 57 {
            proof {
                assert forall|v: i64| b@ != dec_bytes(v as int) by {
                    lemma_shape(v);
                    if b@ == dec_bytes(v as int) {
                        if v >= 0 {
                            assert(b@[i as int] == dec_digits(magnitude(v as int))[i as int]);
                        } else {
                            assert(b@[i as int] == dec_digits(magnitude(v as int))[i as int - 1]);
                        }
                    }
                }
            }
            return None;
        }
        proof {
            lemma_pow10_small((i - start) as nat);
            let pre = b@.subrange(start as int, i as int);
            let cur = b@.subrange(start as int, i as int + 1);
            assert(cur.drop_last() =~= pre);
            assert(cur.last() == c);
            assert(pow10((i + 1 - start) as nat) == 10 * pow10((i - start) as nat));
        }
        acc = acc * 10 + (c - 48) as u64;
        i = i + 1;
    }
    let ghost digits = b@.skip(start as int);
    proof {
        assert(b@.subrange(start as int, b@.len() as int) =~= digits);
        assert(is_canonical_digits(digits));
    }
    if neg {
        if acc > 9223372036854775808 {
            proof {
                assert forall|v: i64| b@ != dec_bytes(v as int) by {
                    lemma_shape(v);
                    if b@ == dec_bytes(v as int) {
                        assert(digits =~= dec_digits(magnitude(v as int)));
                    }
                }
            }
            return None;
        }
        let v: i64 = if acc == 9223372036854775808 {
            i64::MIN
        } else {
            proof {
                lemma_dec_val_bounds(digits);
            }
            -(acc as i64)
        };
        proof {
            lemma_dec_val_bounds(digits);
            lemma_canonical_digits_round_trip(digits);
            assert(magnitude(v as int) == acc as nat);
            assert(dec_digits(magnitude(v as int)) == digits);
            assert(b@ =~= seq![45u8] + digits);
            assert(b@ == dec_bytes(v as int));
            assert forall|v2: i64| b@ == dec_bytes(v2 as int) implies v2 == v by {
                lemma_shape(v2);
                if v2 >= 0 {
                    assert(b@[0] == dec_digits(magnitude(v2 as int))[0]);
                } else {
                    assert(digits =~= dec_digits(magnitude(v2 as int)));
                }
            }
        }
        Some(v)
    } else {
        if acc > 9223372036854775807 {
            proof {
                assert forall|v: i64| b@ != dec_bytes(v as int) by {
                    lemma_shape(v);
                    if b@ == dec_bytes(v as int) {
                        assert(digits =~= b@);
                        assert(digits == dec_digits(magnitude(v as int)));
                    }
                }
            }
            return None;
        }
        let v: i64 = acc as i64;
        proof {
            lemma_canonical_digits_round_trip(digits);
            assert(digits =~= b@);
            assert(dec_digits(magnitude(v as int)) == digits);
            assert(b@ == dec_bytes(v as int));
            assert forall|v2: i64| b@ == dec_bytes(v2 as int) implies v2 == v by {
                lemma_shape(v2);
                if v2 < 0 {
                    assert(b@[0] == 45);
                } else {
                    assert(b@ == dec_digits(magnitude(v2 as int)));
                }
            }
        }
        Some(v)
    }
}

} // verus!
