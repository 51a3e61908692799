//! Order keys: validation, `key_between` and `n_keys_between`.

use vstd::prelude::*;
use crate::alphabet::{all_digits, chars_of, digit_val, is_digit, string_of, value_of};
use crate::integer::{
    decrement_int, decrement_spec, get_int_len, increment_int, increment_spec, int_len, is_head,
    is_int_part, lemma_decrement, lemma_increment, smallest_int, zero_key,
};
use crate::lex::{
    lemma_lt_at, lemma_lt_common_prefix, lemma_lt_irreflexive, lemma_lt_prefix,
    lemma_lt_transitive, lemma_lt_witness, lex_less, lex_lt,
};
use crate::midpoint::{lemma_mid, mid, mid_pre, midpoint, no_trailing_zero};
use crate::error::{head_error, head_message, FrackErr, KeyError};

verus! {

/// A key result, with the key and the error as their mathematical values.
pub open spec fn key_view(r: Result<String, FrackErr>) -> Result<Seq<char>, KeyError> {
    match r {
        Ok(s) => Ok(s@),
        Err(e) => Err(e@),
    }
}

/// A result of several keys, with the keys and the error as their mathematical values.
pub open spec fn keys_view(r: Result<Vec<String>, FrackErr>) -> Result<Seq<Seq<char>>, KeyError> {
    match r {
        Ok(v) => Ok(v@.map_values(|s: String| s@)),
        Err(e) => Err(e@),
    }
}

/// The integer part of a key whose head is valid.
pub open spec fn int_part(k: Seq<char>) -> Seq<char> {
    k.subrange(0, int_len(k[0]))
}

/// The fractional part of a key whose head is valid.
pub open spec fn frac_part(k: Seq<char>) -> Seq<char> {
    k.subrange(int_len(k[0]), k.len() as int)
}

/// Splitting a key into its integer and fractional parts.
pub open spec fn split_spec(k: Seq<char>) -> Result<(Seq<char>, Seq<char>), KeyError> {
    if k.len() == 0 {
        Err(KeyError::InvalidKey(k))
    } else if !is_head(k[0]) {
        Err(KeyError::InvalidOrderKeyHead(head_message(k[0])))
    } else if int_len(k[0]) > k.len() {
        Err(KeyError::InvalidOrderKey(k))
    } else {
        Ok((int_part(k), frac_part(k)))
    }
}

/// Validation of a key, with the error for each way a key can be malformed.
pub open spec fn validate_spec(k: Seq<char>) -> Result<(), KeyError> {
    if k == smallest_int() {
        Err(KeyError::InvalidOrderKey(k))
    } else {
        match split_spec(k) {
            Err(e) => Err(e),
            Ok((i, f)) => if !all_digits(k) {
                Err(KeyError::InvalidDigit(k))
            } else if !no_trailing_zero(f) {
                Err(KeyError::InvalidOrderKey(k))
            } else {
                Ok(())
            },
        }
    }
}

/// A key with a valid head, an integer part of the length it implies, and a fractional part
/// that does not end in the zero symbol. Its characters may be any.
pub open spec fn canonical(k: Seq<char>) -> bool {
    &&& k.len() > 0
    &&& is_head(k[0])
    &&& int_len(k[0]) <= k.len()
    &&& no_trailing_zero(frac_part(k))
}

/// A valid order key: canonical, made of alphabet symbols, and not the smallest integer alone.
pub open spec fn valid_key(k: Seq<char>) -> bool {
    &&& canonical(k)
    &&& all_digits(k)
    &&& k != smallest_int()
}

/// Bounds that `key_between` accepts: each empty (open) or valid, and in order when both
/// are given.
pub open spec fn bounds_ok(a: Seq<char>, b: Seq<char>) -> bool {
    &&& a.len() == 0 || valid_key(a)
    &&& b.len() == 0 || valid_key(b)
    &&& a.len() > 0 && b.len() > 0 ==> lex_lt(a, b)
}

/// The key that `key_between` returns for valid bounds.
pub open spec fn between_spec(a: Seq<char>, b: Seq<char>) -> Result<Seq<char>, KeyError> {
    if a.len() == 0 && b.len() == 0 {
        Ok(zero_key())
    } else if a.len() == 0 {
        let ib = int_part(b);
        if ib == smallest_int() {
            Ok(ib + mid(Seq::empty(), frac_part(b)))
        } else if lex_lt(ib, b) {
            Ok(ib)
        } else {
            match decrement_spec(ib) {
                Some(d) => if d == smallest_int() {
                    Ok(d + mid(Seq::empty(), Seq::empty()))
                } else {
                    Ok(d)
                },
                None => Err(KeyError::RangeUnderflow),
            }
        }
    } else if b.len() == 0 {
        let ia = int_part(a);
        match increment_spec(ia) {
            Some(i) => Ok(i),
            None => Ok(ia + mid(frac_part(a), Seq::empty())),
        }
    } else {
        let ia = int_part(a);
        let ib = int_part(b);
        if ia == ib {
            Ok(ia + mid(frac_part(a), frac_part(b)))
        } else {
            match increment_spec(ia) {
                None => Err(KeyError::RangeOverflow),
                Some(i) => if lex_lt(i, b) {
                    Ok(i)
                } else {
                    Ok(ia + mid(frac_part(a), Seq::empty()))
                },
            }
        }
    }
}

/// What `key_between` returns: the first validation error of `a`, then of `b`, then an error
/// for bounds out of order, and otherwise the key between them.
pub open spec fn key_between_spec(a: Seq<char>, b: Seq<char>) -> Result<Seq<char>, KeyError> {
    if a.len() > 0 && validate_spec(a) is Err {
        Err(validate_spec(a)->Err_0)
    } else if b.len() > 0 && validate_spec(b) is Err {
        Err(validate_spec(b)->Err_0)
    } else if a.len() > 0 && b.len() > 0 && !lex_lt(a, b) {
        Err(KeyError::KeysOutOfOrder(a, b))
    } else {
        between_spec(a, b)
    }
}

/// Validation accepts exactly the valid keys.
pub proof fn lemma_validate(k: Seq<char>)
    requires
        k.len() > 0,
    ensures
        validate_spec(k) is Ok <==> valid_key(k),
{
    if is_head(k[0]) && int_len(k[0]) <= k.len() && frac_part(k).len() > 0 {
        assert(frac_part(k).last() == k.last());
    }
}

/// A valid key is its integer part followed by its fractional part.
proof fn lemma_parts(k: Seq<char>)
    requires
        valid_key(k),
    ensures
        k == int_part(k) + frac_part(k),
        is_int_part(int_part(k)),
        all_digits(frac_part(k)),
        no_trailing_zero(frac_part(k)),
        int_part(k).len() == int_len(k[0]),
{
    assert(k =~= int_part(k) + frac_part(k));
    assert(int_part(k)[0] == k[0]);
}

/// A well-formed integer part other than the smallest is a valid key.
proof fn lemma_int_part_valid(x: Seq<char>)
    requires
        is_int_part(x),
        x != smallest_int(),
    ensures
        valid_key(x),
{
    assert(frac_part(x).len() == 0);
}

/// An integer part followed by a midpoint is a valid key.
proof fn lemma_extended_valid(x: Seq<char>, m: Seq<char>)
    requires
        is_int_part(x),
        m.len() > 0,
        all_digits(m),
        m.last() != '0',
    ensures
        valid_key(x + m),
        int_part(x + m) == x,
{
    let k = x + m;
    assert(k[0] == x[0]);
    assert(int_part(k) =~= x);
    assert(frac_part(k) =~= m);
    assert(k.len() != smallest_int().len() || x[0] != 'A');
}

/// Two valid keys with different integer parts first differ inside the integer part of the
/// smaller one.
proof fn lemma_lt_int_parts(a: Seq<char>, b: Seq<char>, m: Seq<char>)
    requires
        valid_key(a),
        valid_key(b),
        lex_lt(a, b),
        int_part(a) != int_part(b),
    ensures
        lex_lt(int_part(a) + m, b),
        int_part(a)[0] == 'z' && int_part(a).len() == int_len('z') ==> exists|j: int|
            0 <= j < int_part(a).len() && #[trigger] a[j] < b[j],
{
    let ia = int_part(a);
    let l = ia.len();
    let k = lemma_lt_witness(a, b);
    if k >= l {
        assert(b[0] == a[0]);
        assert(int_part(b) =~= ia) by {
            assert forall|j: int| 0 <= j < l implies int_part(b)[j] == ia[j] by {
                assert(a[j] == b[j]);
            }
        }
    }
    let r = ia + m;
    assert forall|j: int| 0 <= j < k implies r[j] == b[j] by {
        assert(r[j] == a[j]);
    }
    assert(r[k] == a[k]);
    lemma_lt_at(r, b, k);
}

/// For valid bounds, `key_between` succeeds with a valid key strictly between them.
pub proof fn lemma_between(a: Seq<char>, b: Seq<char>)
    requires
        bounds_ok(a, b),
    ensures
        between_spec(a, b) is Ok,
        key_between_spec(a, b) == between_spec(a, b),
        a.len() > 0 ==> lex_lt(a, between_spec(a, b)->Ok_0),
        b.len() > 0 ==> lex_lt(between_spec(a, b)->Ok_0, b),
        canonical(between_spec(a, b)->Ok_0),
        valid_key(between_spec(a, b)->Ok_0),
{
    if a.len() > 0 {
        lemma_validate(a);
        lemma_parts(a);
    }
    if b.len() > 0 {
        lemma_validate(b);
        lemma_parts(b);
    }
    let r = between_spec(a, b)->Ok_0;
    if a.len() == 0 && b.len() == 0 {
        assert(zero_key().len() != smallest_int().len());
        assert(frac_part(zero_key()).len() == 0);
    } else if a.len() == 0 {
        let ib = int_part(b);
        let fb = frac_part(b);
        if ib == smallest_int() {
            assert(fb.len() > 0);
            assert(mid_pre(Seq::empty(), fb));
            lemma_mid(Seq::empty(), fb);
            lemma_lt_common_prefix(ib, mid(Seq::empty(), fb), fb);
            lemma_extended_valid(ib, mid(Seq::empty(), fb));
        } else if lex_lt(ib, b) {
            lemma_int_part_valid(ib);
        } else {
            if fb.len() > 0 {
                lemma_lt_prefix(ib, b);
            }
            assert(b =~= ib);
            let k = lemma_decrement(ib);
            let d = decrement_spec(ib)->0;
            if d != smallest_int() {
                lemma_lt_at(d, b, k);
                lemma_int_part_valid(d);
            } else {
                lemma_mid(Seq::empty(), Seq::empty());
                let m = mid(Seq::empty(), Seq::empty());
                lemma_extended_valid(d, m);
                assert forall|j: int| 0 <= j < k implies (d + m)[j] == b[j] by {
                    assert((d + m)[j] == d[j]);
                }
                assert((d + m)[k] == d[k]);
                lemma_lt_at(d + m, b, k);
            }
        }
    } else if b.len() == 0 {
        let ia = int_part(a);
        let fa = frac_part(a);
        let k = lemma_increment(ia);
        match increment_spec(ia) {
            Some(i) => {
                assert forall|j: int| 0 <= j < k implies a[j] == i[j] by {
                    assert(a[j] == ia[j]);
                }
                assert(a[k] == ia[k]);
                lemma_lt_at(a, i, k);
                lemma_int_part_valid(i);
            },
            None => {
                lemma_mid(fa, Seq::empty());
                let m = mid(fa, Seq::empty());
                lemma_lt_common_prefix(ia, fa, m);
                lemma_extended_valid(ia, m);
            },
        }
    } else {
        let ia = int_part(a);
        let fa = frac_part(a);
        let ib = int_part(b);
        let fb = frac_part(b);
        if ia == ib {
            lemma_lt_common_prefix(ia, fa, fb);
            lemma_mid(fa, fb);
            let m = mid(fa, fb);
            lemma_lt_common_prefix(ia, fa, m);
            lemma_lt_common_prefix(ia, m, fb);
            lemma_extended_valid(ia, m);
        } else {
            let k = lemma_increment(ia);
            lemma_mid(fa, Seq::empty());
            let m = mid(fa, Seq::empty());
            lemma_lt_int_parts(a, b, m);
            match increment_spec(ia) {
                Some(i) => {
                    assert forall|j: int| 0 <= j < k implies a[j] == i[j] by {
                        assert(a[j] == ia[j]);
                    }
                    assert(a[k] == ia[k]);
                    lemma_lt_at(a, i, k);
                    lemma_int_part_valid(i);
                    lemma_lt_common_prefix(ia, fa, m);
                    lemma_extended_valid(ia, m);
                },
                None => {
                    let j = choose|j: int| 0 <= j < ia.len() && #[trigger] a[j] < b[j];
                    assert(a[j] == ia[j]);
                    assert(is_digit(b[j]));
                    if j > 0 {
                        assert(ia[j] == ia.drop_first()[j - 1]);
                    }
                    assert(false);
                },
            }
        }
    }
}


/// The characters of `v` from `from` up to `to`.
fn sub_vec(v: &Vec<char>, from: usize, to: usize) -> (r: Vec<char>)
    requires
        from <= to <= v.len(),
    ensures
        r@ == v@.subrange(from as int, to as int),
{
    let mut r: Vec<char> = Vec::new();
    let mut i = from;
    while i < to
        invariant
            from <= i <= to <= v.len(),
            r@ == v@.subrange(from as int, i as int),
        decreases to - i,
    {
        r.push(v[i]);
        i += 1;
        assert(r@ =~= v@.subrange(from as int, i as int));
    }
    r
}


/// Splits a key into its integer part, whose length the head fixes, and its fractional part.
fn get_int_part(key: &str, kv: &Vec<char>) -> (r: Result<(Vec<char>, Vec<char>), FrackErr>)
    requires
        kv@ == key@,
    ensures
        match r {
            Ok((i, f)) => split_spec(key@) == Ok::<(Seq<char>, Seq<char>), KeyError>((i@, f@)),
            Err(e) => split_spec(key@) == Err::<(Seq<char>, Seq<char>), KeyError>(e@),
        },
{
    if kv.len() == 0 {
        return Err(FrackErr::InvalidKey(String::from_str(key)));
    }
    let int_part_len = match get_int_len(kv[0]) {
        Some(n) => n,
        None => {
            return Err(head_error(key));
        },
    };
    if int_part_len > kv.len() {
        return Err(FrackErr::InvalidOrderKey(String::from_str(key)));
    }
    Ok((sub_vec(kv, 0, int_part_len), sub_vec(kv, int_part_len, kv.len())))
}

fn same_chars(x: &Vec<char>, y: &Vec<char>) -> (r: bool)
    ensures
        r == (x@ == y@),
{
    if x.len() != y.len() {
        return false;
    }
    let mut i: usize = 0;
    while i < x.len()
        invariant
            i <= x.len() == y.len(),
            forall|j: int| 0 <= j < i ==> x@[j] == y@[j],
        decreases x.len() - i,
    {
        if x[i] != y[i] {
            return false;
        }
        i += 1;
    }
    assert(x@ =~= y@);
    true
}

fn is_smallest_int(kv: &Vec<char>) -> (r: bool)
    ensures
        r == (kv@ == smallest_int()),
{
    if kv.len() != 27 || kv[0] != 'A' {
        return false;
    }
    let mut i: usize = 1;
    while i < 27
        invariant
            1 <= i <= 27 == kv.len(),
            kv@[0] == 'A',
            forall|j: int| 1 <= j < i ==> kv@[j] == '0',
        decreases 27 - i,
    {
        if kv[i] != '0' {
            assert(kv@[i as int] != smallest_int()[i as int]);
            return false;
        }
        i += 1;
    }
    assert(kv@ =~= smallest_int());
    true
}

/// Checks that a non-empty string is a valid order key.
fn validate_order_key(key: &str, kv: &Vec<char>) -> (r: Result<(), FrackErr>)
    requires
        kv@ == key@,
    ensures
        match r {
            Ok(()) => validate_spec(key@) is Ok,
            Err(e) => validate_spec(key@) == Err::<(), KeyError>(e@),
        },
{
    if is_smallest_int(kv) {
        return Err(FrackErr::InvalidOrderKey(String::from_str(key)));
    }
    let (i, f) = match get_int_part(key, kv) {
        Ok(p) => p,
        Err(e) => {
            return Err(e);
        },
    };
    let mut j: usize = 0;
    while j < kv.len()
        invariant
            j <= kv.len(),
            kv@ == key@,
            key@ != smallest_int(),
            split_spec(key@) == Ok::<(Seq<char>, Seq<char>), KeyError>((i@, f@)),
            forall|t: int| 0 <= t < j ==> is_digit(kv@[t]),
        decreases kv.len() - j,
    {
        let c = kv[j];
        if !(('0' <= c && c <= '9') || ('A' <= c && c <= 'Z') || ('a' <= c && c <= 'z')) {
            assert(!is_digit(kv@[j as int]));
            assert(!all_digits(key@));
            let e = FrackErr::InvalidDigit(String::from_str(key));
            assert(validate_spec(key@) == Err::<(), KeyError>(e@));
            return Err(e);
        }
        j += 1;
    }
    if f.len() > 0 && f[f.len() - 1] == '0' {
        return Err(FrackErr::InvalidOrderKey(String::from_str(key)));
    }
    Ok(())
}

/// A key strictly between `a` and `b`, where an empty string is an open bound.
///
/// Each non-empty bound must be a valid key, and `a < b` when both are given. For such bounds
/// the result is a valid, canonical key strictly between them.
pub fn key_between(a: &str, b: &str) -> (r: Result<String, FrackErr>)
    ensures
        key_view(r) == key_between_spec(a@, b@),
        bounds_ok(a@, b@) ==> r is Ok,
        bounds_ok(a@, b@) && a@.len() > 0 ==> lex_lt(a@, r->Ok_0@),
        bounds_ok(a@, b@) && b@.len() > 0 ==> lex_lt(r->Ok_0@, b@),
        bounds_ok(a@, b@) ==> canonical(r->Ok_0@),
        bounds_ok(a@, b@) ==> valid_key(r->Ok_0@),
        bounds_ok(a@, b@) && b@.len() == 0 ==> r->Ok_0@ != a@,
        bounds_ok(a@, b@) && a@.len() == 0 ==> r->Ok_0@ != b@,
        a@.len() == 0 && b@.len() == 0 ==> r == Ok::<String, FrackErr>(r->Ok_0) && r->Ok_0@
            == zero_key(),
{
    let av = chars_of(a);
    let bv = chars_of(b);
    if av.len() > 0 {
        if let Err(e) = validate_order_key(a, &av) {
            return Err(e);
        }
    }
    if bv.len() > 0 {
        if let Err(e) = validate_order_key(b, &bv) {
            return Err(e);
        }
    }
    if av.len() > 0 && bv.len() > 0 && !lex_less(&av, &bv) {
        return Err(FrackErr::KeysOutOfOrder(String::from_str(a), String::from_str(b)));
    }
    proof {
        if av.len() > 0 {
            lemma_validate(a@);
        }
        if bv.len() > 0 {
            lemma_validate(b@);
        }
        lemma_between(a@, b@);
        let r = between_spec(a@, b@)->Ok_0;
        lemma_lt_irreflexive(r);
    }
    let r = key_between_inner(a, b, &av, &bv);
    r
}

fn key_between_inner(a: &str, b: &str, av: &Vec<char>, bv: &Vec<char>) -> (r: Result<
    String,
    FrackErr,
>)
    requires
        av@ == a@,
        bv@ == b@,
        bounds_ok(a@, b@),
    ensures
        key_view(r) == between_spec(a@, b@),
{
    proof {
        lemma_between(a@, b@);
        if av.len() > 0 {
            lemma_parts(a@);
        }
        if bv.len() > 0 {
            lemma_parts(b@);
        }
    }
    let empty: Vec<char> = Vec::new();
    if av.len() == 0 && bv.len() == 0 {
        let z = String::from_str("a0");
        proof {
            reveal_strlit("a0");
        }
        assert(z@ =~= zero_key());
        return Ok(z);
    }
    if av.len() == 0 {
        let (ib, fb) = match get_int_part(b, bv) {
            Ok(p) => p,
            Err(e) => {
                return Err(e);
            },
        };
        if is_smallest_int(&ib) {
            let mut m = midpoint(&empty, &fb);
            let mut k = ib;
            k.append(&mut m);
            proof {
                lemma_mid(Seq::empty(), fb@);
            }
            return Ok(string_of(&k));
        }
        if lex_less(&ib, bv) {
            return Ok(string_of(&ib));
        }
        let ibs = string_of(&ib);
        return match decrement_int(ibs.as_str()) {
            Ok(Some(d)) => {
                proof {
                    lemma_decrement(ib@);
                }
                if is_smallest_int(&d) {
                    let mut m = midpoint(&empty, &empty);
                    let mut k = d;
                    k.append(&mut m);
                    proof {
                        lemma_mid(Seq::empty(), Seq::empty());
                    }
                    Ok(string_of(&k))
                } else {
                    Ok(string_of(&d))
                }
            },
            Ok(None) => Err(FrackErr::RangeUnderflow),
            Err(e) => Err(e),
        };
    }
    if bv.len() == 0 {
        let (ia, fa) = match get_int_part(a, av) {
            Ok(p) => p,
            Err(e) => {
                return Err(e);
            },
        };
        proof {
            lemma_increment(ia@);
        }
        let ias = string_of(&ia);
        return match increment_int(ias.as_str()) {
            Err(e) => Err(e),
            Ok(Some(i)) => Ok(string_of(&i)),
            Ok(None) => {
                proof {
                    lemma_mid(fa@, Seq::empty());
                }
                let mut m = midpoint(&fa, &empty);
                let mut k = ia;
                k.append(&mut m);
                Ok(string_of(&k))
            },
        };
    }
    let (ia, fa) = match get_int_part(a, av) {
        Ok(p) => p,
        Err(e) => {
            return Err(e);
        },
    };
    let (ib, fb) = match get_int_part(b, bv) {
        Ok(p) => p,
        Err(e) => {
            return Err(e);
        },
    };
    proof {
        lemma_increment(ia@);
        lemma_lt_common_prefix(ia@, fa@, fb@);
        lemma_mid(fa@, Seq::empty());
    }
    if same_chars(&ia, &ib) {
        proof {
            lemma_mid(fa@, fb@);
        }
        let mut m = midpoint(&fa, &fb);
        let mut k = ia;
        k.append(&mut m);
        return Ok(string_of(&k));
    }
    let ias = string_of(&ia);
    let i = match increment_int(ias.as_str()) {
        Ok(Some(i)) => i,
        Ok(None) => {
            return Err(FrackErr::RangeOverflow);
        },
        Err(e) => {
            return Err(e);
        },
    };
    if lex_less(&i, bv) {
        return Ok(string_of(&i));
    }
    let mut m = midpoint(&fa, &empty);
    let mut k = ia;
    k.append(&mut m);
    Ok(string_of(&k))
}


/// A key that `key_between` returned passes validation again, and is accepted as a bound by a
/// later call.
pub proof fn lemma_returned_key_revalidates(a: Seq<char>, b: Seq<char>)
    requires
        bounds_ok(a, b),
    ensures
        key_between_spec(a, b) matches Ok(r) && validate_spec(r) is Ok && key_between_spec(
            r,
            Seq::empty(),
        ) is Ok && key_between_spec(Seq::empty(), r) is Ok,
{
    lemma_between(a, b);
    let r = between_spec(a, b)->Ok_0;
    lemma_validate(r);
    lemma_between(r, Seq::empty());
    lemma_between(Seq::empty(), r);
}

/// What `n_keys_between` returns: `n` keys found by bisection, where the first key is the one
/// `key_between` gives, and the others fill the gaps on either side of it.
pub open spec fn n_keys_spec(a: Seq<char>, b: Seq<char>, n: nat) -> Result<
    Seq<Seq<char>>,
    KeyError,
>
    decreases n,
{
    if n == 0 {
        Ok(Seq::empty())
    } else {
        match key_between_spec(a, b) {
            Err(e) => Err(e),
            Ok(c) => if n == 1 {
                Ok(seq![c])
            } else if b.len() == 0 {
                match n_keys_spec(c, b, (n - 1) as nat) {
                    Err(e) => Err(e),
                    Ok(ks) => Ok(seq![c] + ks),
                }
            } else if a.len() == 0 {
                match n_keys_spec(a, c, (n - 1) as nat) {
                    Err(e) => Err(e),
                    Ok(ks) => Ok(ks.push(c)),
                }
            } else {
                let h = n / 2;
                match n_keys_spec(a, c, h) {
                    Err(e) => Err(e),
                    Ok(lo) => match n_keys_spec(c, b, (n - h - 1) as nat) {
                        Err(e) => Err(e),
                        Ok(hi) => Ok(lo.push(c) + hi),
                    },
                }
            },
        }
    }
}

/// Each key sorts strictly before every later one.
pub open spec fn increasing(ks: Seq<Seq<char>>) -> bool {
    forall|i: int, j: int| 0 <= i < j < ks.len() ==> lex_lt(#[trigger] ks[i], #[trigger] ks[j])
}

/// Every key lies strictly between the bounds that are given.
pub open spec fn all_between(ks: Seq<Seq<char>>, a: Seq<char>, b: Seq<char>) -> bool {
    forall|i: int|
        0 <= i < ks.len() ==> (a.len() > 0 ==> lex_lt(a, #[trigger] ks[i])) && (b.len() > 0
            ==> lex_lt(ks[i], b))
}

/// Every key is a valid key.
pub open spec fn all_valid(ks: Seq<Seq<char>>) -> bool {
    forall|i: int| 0 <= i < ks.len() ==> valid_key(#[trigger] ks[i])
}

/// Keys between `a` and `c`, then `c`, then keys between `c` and `b`, are increasing and
/// between `a` and `b`.
proof fn lemma_join(lo: Seq<Seq<char>>, c: Seq<char>, hi: Seq<Seq<char>>, a: Seq<char>, b: Seq<char>)
    requires
        increasing(lo),
        increasing(hi),
        all_between(lo, a, c),
        all_between(hi, c, b),
        all_valid(lo),
        all_valid(hi),
        valid_key(c),
        a.len() > 0 ==> lex_lt(a, c),
        b.len() > 0 ==> lex_lt(c, b),
    ensures
        increasing(lo.push(c) + hi),
        all_between(lo.push(c) + hi, a, b),
        all_valid(lo.push(c) + hi),
{
    let ks = lo.push(c) + hi;
    let n = lo.len();
    assert forall|i: int, j: int| 0 <= i < j < ks.len() implies lex_lt(
        #[trigger] ks[i],
        #[trigger] ks[j],
    ) by {
        if j < n {
            assert(ks[i] == lo[i] && ks[j] == lo[j]);
        } else if j == n {
            assert(ks[i] == lo[i] && ks[j] == c);
        } else if i > n {
            assert(ks[i] == hi[i - n - 1] && ks[j] == hi[j - n - 1]);
        } else if i == n {
            assert(ks[i] == c && ks[j] == hi[j - n - 1]);
        } else {
            assert(ks[i] == lo[i] && ks[j] == hi[j - n - 1]);
            lemma_lt_transitive(lo[i], c, hi[j - n - 1]);
        }
    }
    assert forall|i: int| 0 <= i < ks.len() implies valid_key(#[trigger] ks[i]) by {
        if i < n {
            assert(ks[i] == lo[i]);
        } else if i > n {
            assert(ks[i] == hi[i - n - 1]);
        }
    }
    assert forall|i: int| 0 <= i < ks.len() implies (a.len() > 0 ==> lex_lt(a, #[trigger] ks[i]))
        && (b.len() > 0 ==> lex_lt(ks[i], b)) by {
        if i < n {
            assert(ks[i] == lo[i]);
            if b.len() > 0 {
                lemma_lt_transitive(lo[i], c, b);
            }
        } else if i == n {
            assert(ks[i] == c);
        } else {
            assert(ks[i] == hi[i - n - 1]);
            if a.len() > 0 {
                lemma_lt_transitive(a, c, hi[i - n - 1]);
            }
        }
    }
}

/// `n_keys_between` on valid bounds succeeds with exactly `n` valid keys, increasing, strictly
/// between the bounds.
pub proof fn lemma_n_keys(a: Seq<char>, b: Seq<char>, n: nat)
    requires
        bounds_ok(a, b),
    ensures
        n_keys_spec(a, b, n) matches Ok(ks) && ks.len() == n && increasing(ks) && all_between(
            ks,
            a,
            b,
        ) && all_valid(ks),
    decreases n,
{
    if n > 0 {
        lemma_between(a, b);
        let c = between_spec(a, b)->Ok_0;
        let e: Seq<Seq<char>> = Seq::empty();
        if n == 1 {
            assert(seq![c] =~= e.push(c) + e);
            lemma_join(e, c, e, a, b);
        } else if b.len() == 0 {
            lemma_n_keys(c, b, (n - 1) as nat);
            if let Ok(ks) = n_keys_spec(c, b, (n - 1) as nat) {
                assert(seq![c] + ks =~= e.push(c) + ks);
                lemma_join(e, c, ks, a, b);
            }
        } else if a.len() == 0 {
            lemma_n_keys(a, c, (n - 1) as nat);
            if let Ok(ks) = n_keys_spec(a, c, (n - 1) as nat) {
                assert(ks.push(c) =~= ks.push(c) + e);
                lemma_join(ks, c, e, a, b);
            }
        } else {
            let h = n / 2;
            lemma_n_keys(a, c, h);
            lemma_n_keys(c, b, (n - h - 1) as nat);
            if let Ok(lo) = n_keys_spec(a, c, h) {
                if let Ok(hi) = n_keys_spec(c, b, (n - h - 1) as nat) {
                    lemma_join(lo, c, hi, a, b);
                }
            }
        }
    }
}

/// `n` keys in increasing order, strictly between `a` and `b` (an empty string is an open
/// bound), found by bisection.
///
/// For valid bounds it succeeds with exactly `n` valid keys, increasing, strictly between them.
pub fn n_keys_between(a: &str, b: &str, n: usize) -> (r: Result<Vec<String>, FrackErr>)
    ensures
        keys_view(r) == n_keys_spec(a@, b@, n as nat),
        bounds_ok(a@, b@) ==> r is Ok,
        bounds_ok(a@, b@) ==> {
            let ks = keys_view(r)->Ok_0;
            &&& ks.len() == n
            &&& increasing(ks)
            &&& all_between(ks, a@, b@)
            &&& all_valid(ks)
        },
    decreases n,
{
    proof {
        if bounds_ok(a@, b@) {
            lemma_n_keys(a@, b@, n as nat);
        }
    }
    if n == 0 {
        let v: Vec<String> = Vec::new();
        assert(v@.map_values(|s: String| s@) =~= Seq::<Seq<char>>::empty());
        return Ok(v);
    }
    let c = match key_between(a, b) {
        Ok(c) => c,
        Err(e) => {
            return Err(e);
        },
    };
    let ghost cv = c@;
    if n == 1 {
        let mut v: Vec<String> = Vec::new();
        v.push(c);
        assert(v@.map_values(|s: String| s@) =~= seq![cv]);
        return Ok(v);
    }
    if b.unicode_len() == 0 {
        let mut hi = match n_keys_between(c.as_str(), b, n - 1) {
            Ok(ks) => ks,
            Err(e) => {
                return Err(e);
            },
        };
        let ghost hv = hi@.map_values(|s: String| s@);
        let mut v: Vec<String> = Vec::new();
        v.push(c);
        v.append(&mut hi);
        assert(v@.map_values(|s: String| s@) =~= seq![cv] + hv);
        return Ok(v);
    }
    if a.unicode_len() == 0 {
        let mut v = match n_keys_between(a, c.as_str(), n - 1) {
            Ok(ks) => ks,
            Err(e) => {
                return Err(e);
            },
        };
        let ghost lv = v@.map_values(|s: String| s@);
        v.push(c);
        assert(v@.map_values(|s: String| s@) =~= lv.push(cv));
        return Ok(v);
    }
    let h = n / 2;
    let mut v = match n_keys_between(a, c.as_str(), h) {
        Ok(ks) => ks,
        Err(e) => {
            return Err(e);
        },
    };
    let mut hi = match n_keys_between(c.as_str(), b, n - h - 1) {
        Ok(ks) => ks,
        Err(e) => {
            return Err(e);
        },
    };
    let ghost lv = v@.map_values(|s: String| s@);
    let ghost hv = hi@.map_values(|s: String| s@);
    v.push(c);
    v.append(&mut hi);
    assert(v@.map_values(|s: String| s@) =~= lv.push(cv) + hv);
    Ok(v)
}


/// The alphabet positions of the symbols of `s`.
pub open spec fn values(s: Seq<char>) -> Seq<int> {
    s.map_values(|c: char| digit_val(c))
}

/// Alphabet positions held as bytes, as integers.
pub open spec fn widen(s: Seq<u8>) -> Seq<int> {
    s.map_values(|x: u8| x as int)
}

/// A valid key taken apart: its head, and the alphabet positions of the digits of its integer
/// part and of its fractional part.
pub struct KeyDigits {
    pub head: char,
    pub int_digits: Vec<u8>,
    pub frac_digits: Vec<u8>,
}

/// The alphabet positions of `v[from..to]`.
fn values_of(v: &Vec<char>, from: usize, to: usize) -> (r: Vec<u8>)
    requires
        from <= to <= v.len(),
        all_digits(v@),
    ensures
        widen(r@) == values(v@.subrange(from as int, to as int)),
{
    let mut r: Vec<u8> = Vec::new();
    let mut i = from;
    while i < to
        invariant
            from <= i <= to <= v.len(),
            all_digits(v@),
            r@.len() == i - from,
            forall|j: int| 0 <= j < r@.len() ==> #[trigger] r@[j] as int == digit_val(v@[from + j]),
        decreases to - i,
    {
        r.push(value_of(v[i]));
        i += 1;
    }
    assert(widen(r@) =~= values(v@.subrange(from as int, to as int)));
    r
}

/// Takes a key apart into the digits that its numeric value is read from; fails as validation
/// does on a key that is not valid.
pub fn key_digits(key: &str) -> (r: Result<KeyDigits, FrackErr>)
    ensures
        r is Ok <==> valid_key(key@),
        r matches Err(e) ==> if key@.len() == 0 {
            e@ == KeyError::InvalidKey(key@)
        } else {
            validate_spec(key@) == Err::<(), KeyError>(e@)
        },
        r matches Ok(d) ==> {
            &&& d.head == key@[0]
            &&& widen(d.int_digits@) == values(int_part(key@).drop_first())
            &&& widen(d.frac_digits@) == values(frac_part(key@))
        },
{
    let kv = chars_of(key);
    if kv.len() == 0 {
        return Err(FrackErr::InvalidKey(String::from_str(key)));
    }
    if let Err(e) = validate_order_key(key, &kv) {
        proof {
            lemma_validate(key@);
        }
        return Err(e);
    }
    proof {
        lemma_validate(key@);
        lemma_parts(key@);
    }
    let n = get_int_len(kv[0]).unwrap();
    let int_digits = values_of(&kv, 1, n);
    let frac_digits = values_of(&kv, n, kv.len());
    assert(int_part(key@).drop_first() =~= key@.subrange(1, n as int));
    Ok(KeyDigits { head: kv[0], int_digits, frac_digits })
}

} // verus!
