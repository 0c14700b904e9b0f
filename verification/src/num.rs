use vstd::prelude::*;

verus! {

broadcast use vstd::std_specs::vec::group_vec_axioms, vstd::seq::group_seq_axioms;

// Coordinate and size numerals are held in fixed-point decimal: an i64 count
// of thousandths of a document unit. Parsing accepts an optional sign, an
// integer part of at most nine digits and a decimal fraction, of which the
// first three digits are kept. Exponents and non-finite forms are rejected.

/// Strict bound on the magnitude of any parsed numeral, in thousandths.
pub const VAL_BOUND: i64 = 1_000_000_000_000;

pub open spec fn is_digit(b: u8) -> bool {
    48 <= b && b <= 57
}

pub open spec fn all_digits(s: Seq<u8>) -> bool {
    forall|i: int| 0 <= i < s.len() ==> is_digit(#[trigger] s[i])
}

/// Value of a digit string, most significant digit first.
pub open spec fn digits_val(s: Seq<u8>) -> int
    decreases s.len(),
{
    if s.len() == 0 {
        0
    } else {
        digits_val(s.drop_last()) * 10 + (s.last() - 48)
    }
}

pub open spec fn pow10(n: nat) -> int
    decreases n,
{
    if n == 0 {
        1
    } else {
        10 * pow10((n - 1) as nat)
    }
}

pub proof fn lemma_digits_val_bound(s: Seq<u8>)
    requires
        all_digits(s),
    ensures
        0 <= digits_val(s) < pow10(s.len()),
    decreases s.len(),
{
    if s.len() > 0 {
        assert(all_digits(s.drop_last())) by {
            assert(forall|i: int| 0 <= i < s.len() - 1 ==> s.drop_last()[i] == s[i]);
        }
        lemma_digits_val_bound(s.drop_last());
    }
}

/// Index of the first '.' byte, if any.
pub open spec fn dot_index(s: Seq<u8>) -> Option<int>
    decreases s.len(),
{
    if s.len() == 0 {
        None
    } else if s[0] == 46 {
        Some(0int)
    } else {
        match dot_index(s.drop_first()) {
            Some(i) => Some(i + 1),
            None => None,
        }
    }
}

proof fn lemma_dot_index_at(s: Seq<u8>, k: int)
    requires
        0 <= k <= s.len(),
        forall|j: int| 0 <= j < k ==> s[j] != 46,
        k < s.len() ==> s[k] == 46,
    ensures
        dot_index(s) == if k < s.len() {
            Some(k)
        } else {
            None::<int>
        },
    decreases k,
{
    if s.len() > 0 {
        if k == 0 {
        } else {
            lemma_dot_index_at(s.drop_first(), k - 1);
        }
    }
}

/// Thousandths encoded by a fraction digit string: its first three digits,
/// padded with zeros on the right.
pub open spec fn frac_milli(f: Seq<u8>) -> int {
    if f.len() >= 3 {
        digits_val(f.take(3))
    } else if f.len() == 2 {
        digits_val(f) * 10
    } else if f.len() == 1 {
        digits_val(f) * 100
    } else {
        0
    }
}

/// Unsigned numeral body: digits, or digits '.' digits, with at least one
/// digit in all and at most nine before the point.
pub open spec fn parse_body(b: Seq<u8>) -> Option<int> {
    match dot_index(b) {
        Some(d) => {
            let ip = b.take(d);
            let fp = b.skip(d + 1);
            if all_digits(ip) && all_digits(fp) && ip.len() + fp.len() >= 1 && ip.len() <= 9 {
                Some(digits_val(ip) * 1000 + frac_milli(fp))
            } else {
                None
            }
        },
        None => if all_digits(b) && 1 <= b.len() <= 9 {
            Some(digits_val(b) * 1000)
        } else {
            None
        },
    }
}

/// A numeral as thousandths of a unit: optional sign, then a decimal body.
pub open spec fn parse_spec(s: Seq<u8>) -> Option<int> {
    if s.len() == 0 {
        None
    } else if s[0] == 45 {
        match parse_body(s.drop_first()) {
            Some(v) => Some(-v),
            None => None,
        }
    } else if s[0] == 43 {
        parse_body(s.drop_first())
    } else {
        parse_body(s)
    }
}

pub proof fn lemma_parse_bound(s: Seq<u8>)
    ensures
        match parse_spec(s) {
            Some(v) => -VAL_BOUND < v < VAL_BOUND,
            None => true,
        },
{
    let b = if s.len() > 0 && (s[0] == 45 || s[0] == 43) {
        s.drop_first()
    } else {
        s
    };
    if s.len() > 0 {
        match dot_index(b) {
            Some(d) => {
                if parse_body(b) is Some {
                    lemma_digits_val_bound(b.take(d));
                    lemma_pow10_le(b.take(d).len(), 9);
                    lemma_pow10_vals();
                    lemma_frac_bound(b.skip(d + 1));
                }
            },
            None => {
                if parse_body(b) is Some {
                    lemma_digits_val_bound(b);
                    lemma_pow10_le(b.len(), 9);
                    lemma_pow10_vals();
                }
            },
        }
    }
}

proof fn lemma_pow10_vals()
    ensures
        pow10(0) == 1,
        pow10(1) == 10,
        pow10(2) == 100,
        pow10(3) == 1000,
        pow10(9) == 1_000_000_000,
{
    reveal_with_fuel(pow10, 10);
}

proof fn lemma_pow10_le(a: nat, b: nat)
    requires
        a <= b,
    ensures
        pow10(a) <= pow10(b),
        pow10(a) >= 1,
    decreases b,
{
    if b > 0 {
        if a == b {
            lemma_pow10_le((a - 1) as nat, (b - 1) as nat);
        } else {
            lemma_pow10_le(a, (b - 1) as nat);
        }
    }
}

proof fn lemma_frac_bound(f: Seq<u8>)
    requires
        all_digits(f),
    ensures
        0 <= frac_milli(f) <= 999,
{
    if f.len() >= 3 {
        assert(all_digits(f.take(3))) by {
            assert(forall|i: int| 0 <= i < 3 ==> f.take(3)[i] == f[i]);
        }
        lemma_digits_val_bound(f.take(3));
        lemma_pow10_vals();
    } else if f.len() == 2 {
        lemma_digits_val_bound(f);
        lemma_pow10_vals();
    } else if f.len() == 1 {
        lemma_digits_val_bound(f);
        lemma_pow10_vals();
    }
}

/// Parses a run of digits of `b` starting at `from`, stopping at `upto`.
fn digits_chunk(b: &[u8], from: usize, upto: usize) -> (r: Option<u64>)
    requires
        from <= upto <= b@.len(),
        upto - from <= 9,
    ensures
        match r {
            Some(v) => all_digits(b@.subrange(from as int, upto as int)) && v == digits_val(
                b@.subrange(from as int, upto as int),
            ),
            None => !all_digits(b@.subrange(from as int, upto as int)),
        },
{
    let ghost chunk = b@.subrange(from as int, upto as int);
    let mut acc: u64 = 0;
    let mut j: usize = from;
    proof {
        assert(b@.subrange(from as int, from as int) =~= chunk.take(0));
    }
    while j < upto
        invariant
            from <= j <= upto <= b@.len(),
            upto - from <= 9,
            chunk == b@.subrange(from as int, upto as int),
            all_digits(chunk.take(j - from)),
            acc == digits_val(chunk.take(j - from)),
            acc < 1_000_000_000,
        decreases upto - j,
    {
        let c = b[j];
        if c < 48 || c > 57 {
            proof {
                assert(chunk[j - from] == b@[j as int]);
            }
            return None;
        }
        proof {
            let t1 = chunk.take(j - from + 1);
            assert(t1.drop_last() =~= chunk.take(j - from));
            assert(t1.last() == b@[j as int]);
            assert(all_digits(t1)) by {
                assert(forall|i: int| 0 <= i < t1.len() - 1 ==> t1[i] == chunk.take(j - from)[i]);
            }
            lemma_digits_val_bound(t1);
            lemma_pow10_le(t1.len(), 9);
            lemma_pow10_vals();
        }
        acc = acc * 10 + ((c - 48) as u64);
        j = j + 1;
    }
    proof {
        assert(chunk.take(upto - from) =~= chunk);
    }
    Some(acc)
}

/// Parses a numeral into thousandths of a unit, exactly when the numeral is
/// well formed.
pub fn parse_num(s: &[u8]) -> (r: Option<i64>)
    ensures
        match r {
            Some(v) => parse_spec(s@) == Some(v as int) && -VAL_BOUND < v < VAL_BOUND,
            None => parse_spec(s@) is None,
        },
{
    proof {
        lemma_parse_bound(s@);
    }
    if s.len() == 0 {
        return None;
    }
    let neg = s[0] == 45;
    let st: usize = if s[0] == 45 || s[0] == 43 {
        1
    } else {
        0
    };
    let b = vstd::slice::slice_subrange(s, st, s.len());
    proof {
        if st == 1 {
            assert(b@ =~= s@.drop_first());
        } else {
            assert(b@ =~= s@);
        }
    }
    // locate the first '.'
    let mut k: usize = 0;
    while k < b.len() && b[k] != 46
        invariant
            k <= b@.len(),
            forall|j: int| 0 <= j < k ==> b@[j] != 46,
        decreases b@.len() - k,
    {
        k = k + 1;
    }
    proof {
        lemma_dot_index_at(b@, k as int);
    }
    let mag: u64;
    if k < b.len() {
        // fractional form
        let ghost ip = b@.take(k as int);
        let ghost fp = b@.skip(k as int + 1);
        if b.len() - (k + 1) == 0 && k == 0 {
            return None;
        }
        if k > 9 {
            // integer part too long: malformed
            return None;
        }
        proof {
            assert(b@.subrange(0, k as int) =~= ip);
        }
        let ipv = match digits_chunk(b, 0, k) {
            Some(v) => v,
            None => {
                return None;
            },
        };
        // every fraction digit must be a digit
        let mut j: usize = k + 1;
        while j < b.len()
            invariant
                k as int + 1 <= j <= b@.len(),
                ip == b@.take(k as int),
                fp == b@.skip(k as int + 1),
                dot_index(b@) == Some(k as int),
                (s@[0] == 45 || s@[0] == 43) ==> b@ == s@.drop_first(),
                !(s@[0] == 45 || s@[0] == 43) ==> b@ == s@,
                s@.len() > 0,
                forall|i: int| 0 <= i < j - (k + 1) ==> is_digit(#[trigger] fp[i]),
            decreases b@.len() - j,
        {
            let c = b[j];
            if c < 48 || c > 57 {
                proof {
                    assert(fp[j - (k + 1)] == b@[j as int]);
                    assert(!all_digits(fp));
                }
                return None;
            }
            proof {
                assert(fp[j - (k + 1)] == b@[j as int]);
            }
            j = j + 1;
        }
        proof {
            assert(all_digits(fp));
        }
        // first three fraction digits, padded
        let flen = b.len() - (k + 1);
        let take = if flen > 3 {
            3
        } else {
            flen
        };
        proof {
            assert(b@.subrange(k as int + 1, k as int + 1 + take as int) =~= fp.take(take as int));
            if flen >= 3 {
            } else {
                assert(fp.take(take as int) =~= fp);
            }
        }
        let fraw = match digits_chunk(b, k + 1, k + 1 + take) {
            Some(v) => v,
            None => {
                proof {
                    assert(!all_digits(fp.take(take as int)));
                    assert(false);
                }
                return None;
            },
        };
        let fv: u64 = if take == 3 {
            fraw
        } else if take == 2 {
            fraw * 10
        } else if take == 1 {
            fraw * 100
        } else {
            0
        };
        proof {
            lemma_digits_val_bound(fp.take(take as int));
            lemma_pow10_le(take as nat, 3);
            lemma_pow10_vals();
            assert(fv == frac_milli(fp));
            lemma_digits_val_bound(ip);
            lemma_pow10_le(ip.len(), 9);
            lemma_pow10_vals();
        }
        mag = ipv * 1000 + fv;
    } else {
        // plain integer form
        if b.len() == 0 || b.len() > 9 {
            return None;
        }
        proof {
            assert(b@.subrange(0, b@.len() as int) =~= b@);
        }
        let ipv = match digits_chunk(b, 0, b.len()) {
            Some(v) => v,
            None => {
                return None;
            },
        };
        proof {
            lemma_digits_val_bound(b@);
            lemma_pow10_le(b@.len(), 9);
            lemma_pow10_vals();
        }
        mag = ipv * 1000;
    }
    let v = mag as i64;
    if neg {
        Some(-v)
    } else {
        Some(v)
    }
}

/// Decimal digits of a non-negative value, most significant first.
pub open spec fn dec_digits(u: int) -> Seq<u8>
    decreases u,
{
    if u <= 9 {
        seq![(48 + if u >= 0 { u } else { 0 }) as u8]
    } else {
        dec_digits(u / 10).push((48 + u % 10) as u8)
    }
}

/// Fraction suffix written for `f` thousandths, trailing zeros trimmed.
pub open spec fn frac_bytes(f: int) -> Seq<u8> {
    if f % 100 == 0 {
        seq![46u8, (48 + f / 100) as u8]
    } else if f % 10 == 0 {
        seq![46u8, (48 + f / 100) as u8, (48 + (f / 10) % 10) as u8]
    } else {
        seq![46u8, (48 + f / 100) as u8, (48 + (f / 10) % 10) as u8, (48 + f % 10) as u8]
    }
}

/// Canonical decimal text of a value held in thousandths.
pub open spec fn format_spec(v: int) -> Seq<u8> {
    if v < 0 {
        seq![45u8] + format_mag(-v)
    } else {
        format_mag(v)
    }
}

pub open spec fn format_mag(u: int) -> Seq<u8> {
    if u % 1000 == 0 {
        dec_digits(u / 1000)
    } else {
        dec_digits(u / 1000) + frac_bytes(u % 1000)
    }
}

/// Appends the decimal digits of `u`.
fn push_digits(u: u64, out: &mut Vec<u8>)
    ensures
        final(out)@ == old(out)@ + dec_digits(u as int),
    decreases u,
{
    if u <= 9 {
        out.push(48 + (u as u8));
        proof {
            assert(out@ =~= old(out)@ + dec_digits(u as int));
        }
    } else {
        proof {
            assert(u / 10 < u) by (nonlinear_arith)
                requires
                    u >= 10,
            ;
        }
        push_digits(u / 10, out);
        out.push(48 + ((u % 10) as u8));
        proof {
            assert(out@ =~= old(out)@ + dec_digits(u as int));
        }
    }
}

/// Writes a value held in thousandths as its canonical decimal text.
pub fn format_num(v: i64) -> (r: Vec<u8>)
    requires
        v != i64::MIN,
    ensures
        r@ == format_spec(v as int),
{
    let mut out: Vec<u8> = Vec::new();
    let u: i64 = if v < 0 {
        out.push(45);
        -v
    } else {
        v
    };
    let uu = u as u64;
    let ip = uu / 1000;
    let f = uu % 1000;
    push_digits(ip, &mut out);
    if f != 0 {
        out.push(46);
        out.push(48 + ((f / 100) as u8));
        if f % 100 != 0 {
            out.push(48 + (((f / 10) % 10) as u8));
            if f % 10 != 0 {
                out.push(48 + ((f % 10) as u8));
            }
        }
    }
    proof {
        assert(out@ =~= format_spec(v as int));
    }
    out
}

/// Half of a width, the magnitude rounded toward zero.
pub open spec fn half_val(w: int) -> int {
    if w >= 0 {
        w / 2
    } else {
        -((-w) / 2)
    }
}

/// Halves a width, rounding its magnitude down.
pub fn half_width(w: i64) -> (r: i64)
    requires
        w != i64::MIN,
    ensures
        r == half_val(w as int),
{
    if w >= 0 {
        (((w as u64) / 2) as i64)
    } else {
        let m = (-w) as u64;
        -((m / 2) as i64)
    }
}

} // verus!
