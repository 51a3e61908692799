//! The midpoint of two fractional digit strings.

use vstd::prelude::*;
use crate::alphabet::{
    all_digits, digit_char, digit_val, lemma_char, lemma_digit, lemma_order, symbol_of,
    value_of,
};
use crate::lex::{lemma_lt_prefix, lex_lt};

verus! {

/// `s` without its first symbol; empty stays empty.
pub open spec fn rest(s: Seq<char>) -> Seq<char> {
    if s.len() == 0 {
        s
    } else {
        s.drop_first()
    }
}

/// A digit string whose last symbol is not the zero symbol.
pub open spec fn no_trailing_zero(s: Seq<char>) -> bool {
    s.len() == 0 || s.last() != '0'
}

/// The digit string strictly between `a` and `b`; an empty `b` is no upper bound, and an
/// empty `a` counts as all zeros.
pub open spec fn mid(a: Seq<char>, b: Seq<char>) -> Seq<char>
    decreases a.len() + b.len() + (if b.len() > 0 {
        1int
    } else {
        0int
    }),
{
    let ca = if a.len() == 0 {
        '0'
    } else {
        a[0]
    };
    let da = digit_val(ca);
    if b.len() > 0 && ca == b[0] {
        seq![b[0]] + mid(rest(a), b.drop_first())
    } else {
        let db = if b.len() == 0 {
            62
        } else {
            digit_val(b[0])
        };
        if db - da > 1 {
            seq![digit_char((da + db + 1) / 2)]
        } else if b.len() > 1 {
            seq![b[0]]
        } else {
            seq![digit_char(da)] + mid(rest(a), Seq::empty())
        }
    }
}

/// What the midpoint asks of its bounds.
pub open spec fn mid_pre(a: Seq<char>, b: Seq<char>) -> bool {
    &&& all_digits(a)
    &&& all_digits(b)
    &&& no_trailing_zero(a)
    &&& no_trailing_zero(b)
    &&& b.len() > 0 ==> lex_lt(a, b)
}

/// The midpoint lies strictly between its bounds, and is a non-empty digit string that does
/// not end in the zero symbol.
pub proof fn lemma_mid(a: Seq<char>, b: Seq<char>)
    requires
        mid_pre(a, b),
    ensures
        lex_lt(a, mid(a, b)),
        b.len() > 0 ==> lex_lt(mid(a, b), b),
        mid(a, b).len() > 0,
        all_digits(mid(a, b)),
        mid(a, b).last() != '0',
        b.len() > 0 && (if a.len() == 0 {
            '0'
        } else {
            a[0]
        }) == b[0] ==> b.len() > 1 && mid_pre(rest(a), b.drop_first()),
    decreases a.len() + b.len() + (if b.len() > 0 {
        1int
    } else {
        0int
    }),
{
    let m = mid(a, b);
    let ca = if a.len() == 0 {
        '0'
    } else {
        a[0]
    };
    let da = digit_val(ca);
    lemma_digit(ca);
    let ra = rest(a);
    assert(all_digits(ra));
    assert(no_trailing_zero(ra));
    if b.len() > 0 && ca == b[0] {
        let rb = b.drop_first();
        if rb.len() == 0 {
            if a.len() > 0 {
                assert(lex_lt(a, b) == lex_lt(a.drop_first(), rb));
            } else {
                assert(b.last() == b[0]);
            }
        }
        if a.len() > 0 {
            assert(lex_lt(ra, rb));
        } else {
            assert(lex_lt(ra, rb));
        }
        lemma_mid(ra, rb);
        let m2 = mid(ra, rb);
        assert(m == seq![b[0]] + m2);
        assert(m.drop_first() =~= m2);
        assert(all_digits(m));
    } else {
        let db = if b.len() == 0 {
            62
        } else {
            digit_val(b[0])
        };
        if b.len() > 0 {
            lemma_digit(b[0]);
            lemma_order(ca, b[0]);
        }
        assert(da < db);
        if db - da > 1 {
            lemma_char((da + db + 1) / 2);
            if a.len() > 0 {
                lemma_order(a[0], m[0]);
            }
            if b.len() > 0 {
                lemma_order(m[0], b[0]);
            }
        } else if b.len() > 1 {
            if a.len() > 0 {
                lemma_order(a[0], m[0]);
            }
            lemma_lt_prefix(m, b);
        } else {
            lemma_mid(ra, Seq::empty());
            let m2 = mid(ra, Seq::empty());
            assert(m.drop_first() =~= m2);
            assert(all_digits(m));
            if b.len() > 0 {
                lemma_order(m[0], b[0]);
            }
        }
    }
}

/// The midpoint of two digit strings; an empty `b` is no upper bound.
pub fn midpoint(a: &Vec<char>, b: &Vec<char>) -> (r: Vec<char>)
    requires
        mid_pre(a@, b@),
    ensures
        r@ == mid(a@, b@),
{
    let mut out: Vec<char> = Vec::new();
    let mut i: usize = 0;
    let mut j: usize = 0;
    let mut bounded = b.len() > 0;
    assert(a@.skip(0) =~= a@);
    assert(b@.skip(0) =~= b@);
    loop
        invariant
            i <= a.len(),
            j <= b.len(),
            bounded ==> j < b.len(),
            all_digits(a@),
            all_digits(b@),
            mid_pre(
                a@.skip(i as int),
                if bounded {
                    b@.skip(j as int)
                } else {
                    Seq::<char>::empty()
                },
            ),
            out@ + mid(
                a@.skip(i as int),
                if bounded {
                    b@.skip(j as int)
                } else {
                    Seq::<char>::empty()
                },
            ) == mid(a@, b@),
        decreases (a.len() - i) + (if bounded {
            b.len() - j + 1
        } else {
            0
        }),
    {
        let ghost sa = a@.skip(i as int);
        let ghost sb = if bounded {
            b@.skip(j as int)
        } else {
            Seq::<char>::empty()
        };
        proof {
            lemma_mid(sa, sb);
        }
        let ca = if i < a.len() {
            a[i]
        } else {
            '0'
        };
        assert(i < a.len() ==> rest(sa) =~= a@.skip(i + 1));
        assert(i == a.len() ==> rest(sa) =~= a@.skip(i as int));
        if bounded && ca == b[j] {
            assert(sb.drop_first() =~= b@.skip(j + 1));
            out.push(b[j]);
            if i < a.len() {
                i += 1;
            }
            j += 1;
            assert(out@ + mid(a@.skip(i as int), b@.skip(j as int)) =~= mid(a@, b@));
        } else {
            proof {
                lemma_digit(ca);
            }
            let da: u8 = value_of(ca);
            let db: u8 = if bounded {
                value_of(b[j])
            } else {
                62
            };
            if db > da + 1 {
                out.push(symbol_of((da + db + 1) / 2));
                assert(out@ =~= mid(a@, b@));
                return out;
            }
            if bounded && b.len() - j > 1 {
                out.push(b[j]);
                assert(out@ =~= mid(a@, b@));
                return out;
            }
            out.push(symbol_of(da));
            if i < a.len() {
                i += 1;
            }
            bounded = false;
            assert(out@ + mid(a@.skip(i as int), Seq::<char>::empty()) =~= mid(a@, b@));
        }
    }
}

} // verus!
