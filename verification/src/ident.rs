use vstd::prelude::*;

verus! {

broadcast use vstd::std_specs::vec::group_vec_axioms, vstd::seq::group_seq_axioms;

/// The horizontal alignment encoded in an element identifier.
#[derive(Clone, Copy, PartialEq, Eq, Structural, Debug)]
pub enum Alignment {
    Left,
    Center,
    Right,
}

pub open spec fn is_digit_byte(b: u8) -> bool {
    48 <= b && b <= 57
}

/// The byte string with its trailing run of ASCII digits removed.
pub open spec fn strip_digits(s: Seq<u8>) -> Seq<u8>
    decreases s.len(),
{
    if s.len() > 0 && is_digit_byte(s.last()) {
        strip_digits(s.drop_last())
    } else {
        s
    }
}

/// Digits stripped, then exactly one trailing underscore if one remains.
pub open spec fn strip_suffix(s: Seq<u8>) -> Seq<u8> {
    let d = strip_digits(s);
    if d.len() > 0 && d.last() == 95 {
        d.drop_last()
    } else {
        d
    }
}

pub open spec fn ends_with(s: Seq<u8>, suffix: Seq<u8>) -> bool {
    s.len() >= suffix.len() && s.skip(s.len() - suffix.len()) == suffix
}

pub open spec fn kw_left() -> Seq<u8> {
    seq![108u8, 101u8, 102u8, 116u8]
}

pub open spec fn kw_center() -> Seq<u8> {
    seq![99u8, 101u8, 110u8, 116u8, 101u8, 114u8]
}

pub open spec fn kw_right() -> Seq<u8> {
    seq![114u8, 105u8, 103u8, 104u8, 116u8]
}

/// The alignment an identifier encodes: after suffix stripping, the first of
/// "left", "center", "right" that is a suffix of what remains.
pub open spec fn classify_spec(s: Seq<u8>) -> Option<Alignment> {
    let t = strip_suffix(s);
    if ends_with(t, kw_left()) {
        Some(Alignment::Left)
    } else if ends_with(t, kw_center()) {
        Some(Alignment::Center)
    } else if ends_with(t, kw_right()) {
        Some(Alignment::Right)
    } else {
        None
    }
}

/// Drops a trailing run of ASCII digits, then one trailing underscore if the
/// remainder ends with one: a disambiguating suffix appended by upstream tools.
pub fn remove_numerical_suffix(s: &[u8]) -> (r: &[u8])
    ensures
        r@ == strip_suffix(s@),
{
    let mut i: usize = s.len();
    proof {
        assert(s@.subrange(0, s@.len() as int) =~= s@);
    }
    while i > 0 && 48 <= s[i - 1] && s[i - 1] <= 57
        invariant
            i <= s.len(),
            strip_digits(s@) == strip_digits(s@.subrange(0, i as int)),
        decreases i,
    {
        proof {
            assert(s@.subrange(0, i as int).drop_last() =~= s@.subrange(0, i - 1));
        }
        i = i - 1;
    }
    proof {
        if i > 0 {
            assert(s@.subrange(0, i as int).last() == s@[i - 1]);
        } else {
            assert(s@.subrange(0, 0) =~= Seq::<u8>::empty());
        }
        assert(strip_digits(s@) == s@.subrange(0, i as int));
    }
    if i > 0 && s[i - 1] == 95 {
        proof {
            assert(s@.subrange(0, i as int).drop_last() =~= s@.subrange(0, i - 1));
        }
        i = i - 1;
    }
    vstd::slice::slice_subrange(s, 0, i)
}

/// Does `t` end with the four bytes of "left"?
fn ends_left(t: &[u8]) -> (b: bool)
    ensures
        b == ends_with(t@, kw_left()),
{
    let n = t.len();
    if n < 4 {
        return false;
    }
    let b = t[n - 4] == 108 && t[n - 3] == 101 && t[n - 2] == 102 && t[n - 1] == 116;
    proof {
        if b {
            assert(t@.skip(n - 4) =~= kw_left());
        } else {
            assert(t@.skip(n - 4) != kw_left()) by {
                if t@.skip(n - 4) == kw_left() {
                    assert(t@[n - 4] == kw_left()[0]);
                    assert(t@[n - 3] == kw_left()[1]);
                    assert(t@[n - 2] == kw_left()[2]);
                    assert(t@[n - 1] == kw_left()[3]);
                }
            }
        }
    }
    b
}

/// Does `t` end with the six bytes of "center"?
fn ends_center(t: &[u8]) -> (b: bool)
    ensures
        b == ends_with(t@, kw_center()),
{
    let n = t.len();
    if n < 6 {
        return false;
    }
    let b = t[n - 6] == 99 && t[n - 5] == 101 && t[n - 4] == 110 && t[n - 3] == 116 && t[n - 2]
        == 101 && t[n - 1] == 114;
    proof {
        if b {
            assert(t@.skip(n - 6) =~= kw_center());
        } else {
            assert(t@.skip(n - 6) != kw_center()) by {
                if t@.skip(n - 6) == kw_center() {
                    assert(t@[n - 6] == kw_center()[0]);
                    assert(t@[n - 5] == kw_center()[1]);
                    assert(t@[n - 4] == kw_center()[2]);
                    assert(t@[n - 3] == kw_center()[3]);
                    assert(t@[n - 2] == kw_center()[4]);
                    assert(t@[n - 1] == kw_center()[5]);
                }
            }
        }
    }
    b
}

/// Does `t` end with the five bytes of "right"?
fn ends_right(t: &[u8]) -> (b: bool)
    ensures
        b == ends_with(t@, kw_right()),
{
    let n = t.len();
    if n < 5 {
        return false;
    }
    let b = t[n - 5] == 114 && t[n - 4] == 105 && t[n - 3] == 103 && t[n - 2] == 104 && t[n - 1]
        == 116;
    proof {
        if b {
            assert(t@.skip(n - 5) =~= kw_right());
        } else {
            assert(t@.skip(n - 5) != kw_right()) by {
                if t@.skip(n - 5) == kw_right() {
                    assert(t@[n - 5] == kw_right()[0]);
                    assert(t@[n - 4] == kw_right()[1]);
                    assert(t@[n - 3] == kw_right()[2]);
                    assert(t@[n - 2] == kw_right()[3]);
                    assert(t@[n - 1] == kw_right()[4]);
                }
            }
        }
    }
    b
}

/// Classifies an identifier into its encoded alignment intent, or `None`
/// when no alignment keyword ends the stripped identifier.
pub fn classify(id: &[u8]) -> (r: Option<Alignment>)
    ensures
        r == classify_spec(id@),
{
    let t = remove_numerical_suffix(id);
    if ends_left(t) {
        Some(Alignment::Left)
    } else if ends_center(t) {
        Some(Alignment::Center)
    } else if ends_right(t) {
        Some(Alignment::Right)
    } else {
        None
    }
}


/// The keyword bytes an alignment is written as.
pub open spec fn kw_of(a: Alignment) -> Seq<u8> {
    match a {
        Alignment::Left => kw_left(),
        Alignment::Center => kw_center(),
        Alignment::Right => kw_right(),
    }
}

proof fn lemma_strip_digits_append(x: Seq<u8>, d: Seq<u8>)
    requires
        forall|i: int| 0 <= i < d.len() ==> is_digit_byte(#[trigger] d[i]),
    ensures
        strip_digits(x + d) == strip_digits(x),
    decreases d.len(),
{
    if d.len() > 0 {
        assert((x + d).drop_last() =~= x + d.drop_last());
        assert((x + d).last() == d.last());
        assert(forall|i: int| 0 <= i < d.len() - 1 ==> d.drop_last()[i] == d[i]);
        lemma_strip_digits_append(x, d.drop_last());
    } else {
        assert(x + d =~= x);
    }
}

/// An identifier of letters and underscores, then an alignment keyword, then
/// an optional underscore and a run of digits, classifies as that keyword:
/// the partial overlap of one keyword with another never misclassifies.
pub proof fn lemma_classify_keyword(prefix: Seq<u8>, a: Alignment, und: bool, digits: Seq<u8>)
    requires
        prefix.len() >= 1,
        forall|i: int|
            0 <= i < prefix.len() ==> (65 <= #[trigger] prefix[i] <= 90) || (97 <= prefix[i]
                <= 122) || prefix[i] == 95,
        forall|i: int| 0 <= i < digits.len() ==> is_digit_byte(#[trigger] digits[i]),
    ensures
        classify_spec(
            prefix + kw_of(a) + (if und {
                seq![95u8]
            } else {
                Seq::<u8>::empty()
            }) + digits,
        ) == Some(a),
{
    let kw = kw_of(a);
    let base = prefix + kw + (if und {
        seq![95u8]
    } else {
        Seq::<u8>::empty()
    });
    let s = base + digits;
    lemma_strip_digits_append(base, digits);
    assert(base.last() == if und {
        95u8
    } else {
        kw.last()
    });
    assert(strip_digits(base) == base);
    let t = strip_suffix(s);
    if und {
        assert(base.drop_last() =~= prefix + kw);
    } else {
        assert(base =~= prefix + kw);
    }
    assert(t == prefix + kw);
    assert(t.skip(t.len() - kw.len()) =~= kw);
    assert(ends_with(t, kw));
    match a {
        Alignment::Left => {},
        Alignment::Center => {
            assert(!ends_with(t, kw_left())) by {
                if ends_with(t, kw_left()) {
                    assert(t.skip(t.len() - 4)[3] == t[t.len() - 1]);
                    assert(t[t.len() - 1] == kw_center().last());
                }
            }
        },
        Alignment::Right => {
            assert(!ends_with(t, kw_left())) by {
                if ends_with(t, kw_left()) {
                    assert(t.skip(t.len() - 4)[0] == t[t.len() - 4]);
                    assert(t[t.len() - 4] == kw_right()[1]);
                }
            }
            assert(!ends_with(t, kw_center())) by {
                if ends_with(t, kw_center()) {
                    assert(t.skip(t.len() - 6)[5] == t[t.len() - 1]);
                    assert(t[t.len() - 1] == kw_right().last());
                }
            }
        },
    }
}

/// Classifying an identifier already in stripped form changes nothing, as
/// long as stripping left neither a digit nor an underscore at the end.
pub proof fn lemma_classify_stable(s: Seq<u8>)
    requires
        strip_suffix(s).len() > 0 ==> !is_digit_byte(strip_suffix(s).last()) && strip_suffix(
            s,
        ).last() != 95,
    ensures
        classify_spec(strip_suffix(s)) == classify_spec(s),
{
    let t = strip_suffix(s);
    assert(strip_digits(t) == t);
    assert(strip_suffix(t) == t);
}

} // verus!
