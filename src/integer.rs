//! The integer part of a key: a head letter that fixes the part's length, then base-62 digits,
//! with the successor and predecessor of an integer part.

use vstd::prelude::*;
use crate::error::{head_error, head_message, FrackErr, KeyError};
use crate::alphabet::{
    all_digits, chars_of, digit_char, digit_val, is_digit, lemma_char, lemma_digit, lemma_order,
    symbol_of,
    value_of,
};

verus! {

pub open spec fn is_head(c: char) -> bool {
    ('a' <= c && c <= 'z') || ('A' <= c && c <= 'Z')
}

/// Length of the integer part that a head starts: 2 for `a` and for `Z`, one more for each
/// letter away from them.
pub open spec fn int_len(h: char) -> int {
    if 'a' <= h && h <= 'z' {
        h as int - 'a' as int + 2
    } else {
        'Z' as int - h as int + 2
    }
}

/// A well-formed integer part.
pub open spec fn is_int_part(x: Seq<char>) -> bool {
    &&& x.len() > 0
    &&& is_head(x[0])
    &&& x.len() == int_len(x[0])
    &&& all_digits(x)
}

pub open spec fn repeat(c: char, n: nat) -> Seq<char> {
    Seq::new(n, |i: int| c)
}

pub open spec fn all_eq(s: Seq<char>, c: char) -> bool {
    forall|i: int| 0 <= i < s.len() ==> s[i] == c
}

/// The smallest integer part: head `A` and all digits zero.
pub open spec fn smallest_int() -> Seq<char> {
    seq!['A'] + repeat('0', 26)
}

/// The integer part right above the smallest one.
pub open spec fn smallest_int_succ() -> Seq<char> {
    seq!['A'] + repeat('0', 25) + seq!['1']
}

/// The key of the integer zero.
pub open spec fn zero_key() -> Seq<char> {
    seq!['a', '0']
}

pub open spec fn next_digit(c: char) -> char {
    digit_char(digit_val(c) + 1)
}

pub open spec fn prev_digit(c: char) -> char {
    digit_char(digit_val(c) - 1)
}

/// Base-62 successor of a digit string, wrapping to all zeros.
pub open spec fn inc_digits(ds: Seq<char>) -> Seq<char>
    decreases ds.len(),
{
    if ds.len() == 0 {
        ds
    } else if ds.last() == 'z' {
        inc_digits(ds.drop_last()).push('0')
    } else {
        ds.drop_last().push(next_digit(ds.last()))
    }
}

/// Base-62 predecessor of a digit string, wrapping to all `z`.
pub open spec fn dec_digits(ds: Seq<char>) -> Seq<char>
    decreases ds.len(),
{
    if ds.len() == 0 {
        ds
    } else if ds.last() == '0' {
        dec_digits(ds.drop_last()).push('z')
    } else {
        ds.drop_last().push(prev_digit(ds.last()))
    }
}

/// The next integer part, or `None` above the largest one.
pub open spec fn increment_spec(x: Seq<char>) -> Option<Seq<char>> {
    let h = x[0];
    let ds = x.drop_first();
    if !all_eq(ds, 'z') {
        Some(seq![h] + inc_digits(ds))
    } else if h == 'Z' {
        Some(zero_key())
    } else if h == 'z' {
        None
    } else if h >= 'a' {
        Some(seq![(h as int + 1) as char] + repeat('0', (ds.len() + 1) as nat))
    } else {
        Some(seq![(h as int + 1) as char] + repeat('0', (ds.len() - 1) as nat))
    }
}

/// The previous integer part, or `None` below the smallest one.
pub open spec fn decrement_spec(x: Seq<char>) -> Option<Seq<char>> {
    let h = x[0];
    let ds = x.drop_first();
    if !all_eq(ds, '0') {
        Some(seq![h] + dec_digits(ds))
    } else if h == 'a' {
        Some(seq!['Z', 'z'])
    } else if h == 'A' {
        None
    } else if h > 'a' {
        Some(seq![(h as int - 1) as char] + repeat('z', (ds.len() - 1) as nat))
    } else {
        Some(seq![(h as int - 1) as char] + repeat('z', (ds.len() + 1) as nat))
    }
}

/// The successor of a digit string that is not all `z` keeps its length, and rises first at
/// position `k`, to a non-zero digit.
pub proof fn lemma_inc_digits(ds: Seq<char>) -> (k: int)
    requires
        all_digits(ds),
        !all_eq(ds, 'z'),
    ensures
        inc_digits(ds).len() == ds.len(),
        all_digits(inc_digits(ds)),
        0 <= k < ds.len(),
        forall|i: int| 0 <= i < k ==> inc_digits(ds)[i] == ds[i],
        ds[k] < inc_digits(ds)[k],
        inc_digits(ds)[k] != '0',
    decreases ds.len(),
{
    let n = ds.len() - 1;
    let r = inc_digits(ds);
    if ds.last() == 'z' {
        let p = ds.drop_last();
        assert(!all_eq(p, 'z')) by {
            let j = choose|j: int| 0 <= j < ds.len() && ds[j] != 'z';
            assert(p[j] == ds[j]);
        }
        let k = lemma_inc_digits(p);
        assert(r == inc_digits(p).push('0'));
        assert forall|i: int| 0 <= i < k implies r[i] == ds[i] by {
            assert(r[i] == inc_digits(p)[i]);
            assert(p[i] == ds[i]);
        }
        k
    } else {
        lemma_digit(ds.last());
        lemma_char(digit_val(ds.last()) + 1);
        lemma_order(ds.last(), next_digit(ds.last()));
        assert(r[n] == next_digit(ds.last()));
        assert forall|i: int| 0 <= i < n implies r[i] == ds[i] by {
            assert(r[i] == ds.drop_last()[i]);
        }
        n
    }
}

/// The predecessor of a digit string that is not all zero keeps its length, and drops first
/// at position `k`; it is all zero only from `0…01`.
pub proof fn lemma_dec_digits(ds: Seq<char>) -> (k: int)
    requires
        all_digits(ds),
        !all_eq(ds, '0'),
    ensures
        dec_digits(ds).len() == ds.len(),
        all_digits(dec_digits(ds)),
        0 <= k < ds.len(),
        forall|i: int| 0 <= i < k ==> dec_digits(ds)[i] == ds[i],
        dec_digits(ds)[k] < ds[k],
        all_eq(dec_digits(ds), '0') ==> ds == repeat('0', (ds.len() - 1) as nat).push('1'),
    decreases ds.len(),
{
    let n = ds.len() - 1;
    let r = dec_digits(ds);
    if ds.last() == '0' {
        let p = ds.drop_last();
        assert(!all_eq(p, '0')) by {
            let j = choose|j: int| 0 <= j < ds.len() && ds[j] != '0';
            assert(p[j] == ds[j]);
        }
        let k = lemma_dec_digits(p);
        assert(r == dec_digits(p).push('z'));
        assert forall|i: int| 0 <= i < k implies r[i] == ds[i] by {
            assert(r[i] == dec_digits(p)[i]);
            assert(p[i] == ds[i]);
        }
        assert(r[n] == 'z');
        k
    } else {
        lemma_digit(ds.last());
        lemma_char(digit_val(ds.last()) - 1);
        lemma_order(prev_digit(ds.last()), ds.last());
        assert(r[n] == prev_digit(ds.last()));
        assert forall|i: int| 0 <= i < n implies r[i] == ds[i] by {
            assert(r[i] == ds.drop_last()[i]);
        }
        if all_eq(r, '0') {
            assert(ds.last() == '1');
            assert(ds =~= repeat('0', n as nat).push('1')) by {
                assert forall|i: int| 0 <= i < n implies ds[i] == '0' by {
                    assert(r[i] == ds[i]);
                }
            }
        }
        n
    }
}

/// The successor of an integer part is a well-formed integer part that sorts after every key
/// that the given part starts: the two first differ at position `k`.
pub proof fn lemma_increment(x: Seq<char>) -> (k: int)
    requires
        is_int_part(x),
    ensures
        increment_spec(x) is None <==> x[0] == 'z' && all_eq(x.drop_first(), 'z'),
        increment_spec(x) matches Some(i) ==> {
            &&& is_int_part(i)
            &&& i != smallest_int()
            &&& 0 <= k < x.len()
            &&& k < i.len()
            &&& forall|j: int| 0 <= j < k ==> i[j] == x[j]
            &&& x[k] < i[k]
        },
{
    let h = x[0];
    let ds = x.drop_first();
    assert(all_digits(ds));
    if !all_eq(ds, 'z') {
        let k = lemma_inc_digits(ds);
        let i = seq![h] + inc_digits(ds);
        assert(i[k + 1] == inc_digits(ds)[k]);
        assert(i[k + 1] != smallest_int()[k + 1]);
        assert forall|j: int| 0 <= j < k + 1 implies i[j] == x[j] by {
            if j > 0 {
                assert(i[j] == inc_digits(ds)[j - 1]);
                assert(x[j] == ds[j - 1]);
            }
        }
        k + 1
    } else if h == 'Z' {
        assert(zero_key()[0] != smallest_int()[0]);
        0
    } else if h == 'z' {
        0
    } else {
        let i = increment_spec(x)->0;
        assert(i[0] != smallest_int()[0]);
        0
    }
}

/// The predecessor of an integer part is a well-formed integer part that sorts before it: the
/// two first differ at position `k`. It is the smallest integer part only from the one above.
pub proof fn lemma_decrement(x: Seq<char>) -> (k: int)
    requires
        is_int_part(x),
    ensures
        decrement_spec(x) is None <==> x == smallest_int(),
        decrement_spec(x) matches Some(d) ==> {
            &&& is_int_part(d)
            &&& d == smallest_int() ==> x == smallest_int_succ()
            &&& 0 <= k < x.len()
            &&& k < d.len()
            &&& forall|j: int| 0 <= j < k ==> d[j] == x[j]
            &&& d[k] < x[k]
        },
{
    let h = x[0];
    let ds = x.drop_first();
    assert(all_digits(ds));
    if !all_eq(ds, '0') {
        let k = lemma_dec_digits(ds);
        let d = seq![h] + dec_digits(ds);
        assert(x != smallest_int()) by {
            let j = choose|j: int| 0 <= j < ds.len() && ds[j] != '0';
            assert(x[j + 1] == ds[j]);
        }
        assert forall|j: int| 0 <= j < k + 1 implies d[j] == x[j] by {
            if j > 0 {
                assert(d[j] == dec_digits(ds)[j - 1]);
                assert(x[j] == ds[j - 1]);
            }
        }
        assert(d[k + 1] == dec_digits(ds)[k]);
        if d == smallest_int() {
            assert(all_eq(dec_digits(ds), '0')) by {
                assert forall|j: int| 0 <= j < ds.len() implies dec_digits(ds)[j] == '0' by {
                    assert(d[j + 1] == dec_digits(ds)[j]);
                }
            }
            assert(x =~= seq![h] + ds);
            assert(x =~= smallest_int_succ());
        }
        k + 1
    } else {
        if h == 'A' {
            assert forall|j: int| 0 <= j < x.len() implies x[j] == smallest_int()[j] by {
                if j > 0 {
                    assert(x[j] == ds[j - 1]);
                }
            }
            assert(x =~= smallest_int());
        } else {
            assert(x != smallest_int());
            let d = decrement_spec(x)->0;
            assert(d != smallest_int()) by {
                if h == 'a' {
                    assert(d[1] == 'z');
                } else {
                    assert(d[1] == 'z');
                }
            }
        }
        0
    }
}

/// Length of the integer part that a head starts, or `None` for a character that is no head.
pub fn get_int_len(head: char) -> (r: Option<usize>)
    ensures
        r matches Some(n) ==> is_head(head) && n as int == int_len(head),
        r is None ==> !is_head(head),
{
    if 'a' <= head && head <= 'z' {
        Some((head as u32 - 'a' as u32 + 2) as usize)
    } else if 'A' <= head && head <= 'Z' {
        Some(('Z' as u32 - head as u32 + 2) as usize)
    } else {
        None
    }
}

/// Checking that a string is a well-formed integer part: a head, and the length it implies.
pub open spec fn int_check_spec(x: Seq<char>) -> Result<(), KeyError> {
    if x.len() == 0 {
        Err(KeyError::InvalidKeyInteger(x))
    } else if !is_head(x[0]) {
        Err(KeyError::InvalidOrderKeyHead(head_message(x[0])))
    } else if x.len() != int_len(x[0]) {
        Err(KeyError::InvalidKeyInteger(x))
    } else {
        Ok(())
    }
}

/// Checking an integer part before arithmetic on it: its shape, then that its digits are
/// alphabet symbols.
pub open spec fn int_arith_check(x: Seq<char>) -> Result<(), KeyError> {
    match int_check_spec(x) {
        Err(e) => Err(e),
        Ok(()) => if !all_digits(x) {
            Err(KeyError::InvalidKey(x))
        } else {
            Ok(())
        },
    }
}

/// Checks that a string has a head and the length that its head implies.
pub fn validate_int(x: &str) -> (r: Result<(), FrackErr>)
    ensures
        match r {
            Ok(()) => int_check_spec(x@) is Ok,
            Err(e) => int_check_spec(x@) == Err::<(), KeyError>(e@),
        },
{
    let xv = chars_of(x);
    if xv.len() == 0 {
        return Err(FrackErr::InvalidKeyInteger(String::from_str(x)));
    }
    let exp = match get_int_len(xv[0]) {
        Some(n) => n,
        None => {
            return Err(head_error(x));
        },
    };
    if xv.len() != exp {
        return Err(FrackErr::InvalidKeyInteger(String::from_str(x)));
    }
    Ok(())
}

/// Checks an integer part before arithmetic on it, and returns its characters.
fn check_int(x: &str) -> (r: Result<Vec<char>, FrackErr>)
    ensures
        match r {
            Ok(v) => int_arith_check(x@) is Ok && v@ == x@ && is_int_part(x@),
            Err(e) => int_arith_check(x@) == Err::<(), KeyError>(e@),
        },
{
    if let Err(e) = validate_int(x) {
        return Err(e);
    }
    let xv = chars_of(x);
    let mut j: usize = 0;
    while j < xv.len()
        invariant
            j <= xv.len(),
            xv@ == x@,
            int_check_spec(x@) is Ok,
            forall|t: int| 0 <= t < j ==> is_digit(xv@[t]),
        decreases xv.len() - j,
    {
        let c = xv[j];
        if !(('0' <= c && c <= '9') || ('A' <= c && c <= 'Z') || ('a' <= c && c <= 'z')) {
            assert(!is_digit(x@[j as int]));
            return Err(FrackErr::InvalidKey(String::from_str(x)));
        }
        j += 1;
    }
    Ok(xv)
}

/// The next integer part, or `None` when `x` is the largest one. Fails on a string that is no
/// well-formed integer part.
pub fn increment_int(x: &str) -> (r: Result<Option<Vec<char>>, FrackErr>)
    ensures
        match r {
            Err(e) => int_arith_check(x@) == Err::<(), KeyError>(e@),
            Ok(Some(v)) => is_int_part(x@) && increment_spec(x@) == Some(v@),
            Ok(None) => is_int_part(x@) && increment_spec(x@) is None,
        },
{
    match check_int(x) {
        Err(e) => Err(e),
        Ok(xv) => Ok(successor(&xv)),
    }
}

/// The previous integer part, or `None` when `x` is the smallest one. Fails on a string that
/// is no well-formed integer part.
pub fn decrement_int(x: &str) -> (r: Result<Option<Vec<char>>, FrackErr>)
    ensures
        match r {
            Err(e) => int_arith_check(x@) == Err::<(), KeyError>(e@),
            Ok(Some(v)) => is_int_part(x@) && decrement_spec(x@) == Some(v@),
            Ok(None) => is_int_part(x@) && decrement_spec(x@) is None,
        },
{
    match check_int(x) {
        Err(e) => Err(e),
        Ok(xv) => Ok(predecessor(&xv)),
    }
}

/// The next integer part of a well-formed one, or `None` above the largest.
fn successor(x: &Vec<char>) -> (r: Option<Vec<char>>)
    requires
        is_int_part(x@),
    ensures
        r matches Some(v) ==> increment_spec(x@) == Some(v@),
        r is None ==> increment_spec(x@) is None,
{
    let ghost ds = x@.drop_first();
    let head = x[0];
    let mut digs: Vec<char> = Vec::new();
    let mut i: usize = 1;
    while i < x.len()
        invariant
            1 <= i <= x.len(),
            digs@ == x@.subrange(1, i as int),
        decreases x.len() - i,
    {
        digs.push(x[i]);
        i += 1;
        assert(digs@ =~= x@.subrange(1, i as int));
    }
    assert(digs@ =~= ds);
    let n = digs.len();
    let mut carry = true;
    let mut j: usize = n;
    assert(ds.subrange(0, n as int) =~= ds);
    assert(ds.subrange(n as int, n as int) =~= Seq::<char>::empty());
    assert(digs@ =~= ds.subrange(0, n as int) + repeat('0', 0));
    assert(inc_digits(ds) =~= inc_digits(ds.subrange(0, n as int)) + repeat('0', 0));
    while carry && j > 0
        invariant
            j <= n == ds.len(),
            digs@.len() == n,
            all_digits(ds),
            carry ==> digs@ == ds.subrange(0, j as int) + repeat('0', (n - j) as nat),
            carry ==> all_eq(ds.subrange(j as int, n as int), 'z'),
            carry ==> inc_digits(ds) == inc_digits(ds.subrange(0, j as int)) + repeat(
                '0',
                (n - j) as nat,
            ),
            !carry ==> digs@ == inc_digits(ds),
            !carry ==> !all_eq(ds, 'z'),
        decreases j,
    {
        let ghost pre = ds.subrange(0, j as int);
        assert(pre.drop_last() =~= ds.subrange(0, j - 1));
        let d = digs[j - 1];
        assert(d == ds[j - 1]);
        if d == 'z' {
            digs.set(j - 1, '0');
            assert(inc_digits(pre) == inc_digits(pre.drop_last()).push('0'));
            assert(inc_digits(ds) =~= inc_digits(ds.subrange(0, j - 1)) + repeat(
                '0',
                (n - j + 1) as nat,
            ));
            assert(digs@ =~= ds.subrange(0, j - 1) + repeat('0', (n - j + 1) as nat));
            assert(ds.subrange(j - 1, n as int) =~= seq!['z'] + ds.subrange(j as int, n as int));
        } else {
            proof {
                lemma_digit(d);
            }
            let v = value_of(d);
            digs.set(j - 1, symbol_of(v + 1));
            carry = false;
            assert(inc_digits(pre) == pre.drop_last().push(next_digit(d)));
            assert(digs@ =~= inc_digits(ds));
            assert(ds[j - 1] != 'z');
        }
        j -= 1;
    }
    if carry {
        assert(ds.subrange(0, 0) =~= Seq::<char>::empty());
        assert(ds.subrange(0, n as int) =~= ds);
        if head == 'Z' {
            return Some(vec!['a', '0']);
        }
        if head == 'z' {
            return None;
        }
        let h = ((head as u32 + 1) as u8) as char;
        let mut out: Vec<char> = vec![h];
        let len = if head >= 'a' {
            n + 1
        } else {
            n - 1
        };
        let mut k: usize = 0;
        while k < len
            invariant
                k <= len,
                out@ == seq![h] + repeat('0', k as nat),
            decreases len - k,
        {
            out.push('0');
            k += 1;
            assert(out@ =~= seq![h] + repeat('0', k as nat));
        }
        assert(h == (head as int + 1) as char);
        return Some(out);
    }
    let mut out: Vec<char> = vec![head];
    let mut k: usize = 0;
    while k < n
        invariant
            k <= n == digs@.len(),
            out@ == seq![head] + digs@.subrange(0, k as int),
        decreases n - k,
    {
        out.push(digs[k]);
        k += 1;
        assert(out@ =~= seq![head] + digs@.subrange(0, k as int));
    }
    assert(digs@.subrange(0, n as int) =~= digs@);
    Some(out)
}

/// The previous integer part of a well-formed one, or `None` below the smallest.
fn predecessor(x: &Vec<char>) -> (r: Option<Vec<char>>)
    requires
        is_int_part(x@),
    ensures
        r matches Some(v) ==> decrement_spec(x@) == Some(v@),
        r is None ==> decrement_spec(x@) is None,
{
    let ghost ds = x@.drop_first();
    let head = x[0];
    let mut digs: Vec<char> = Vec::new();
    let mut i: usize = 1;
    while i < x.len()
        invariant
            1 <= i <= x.len(),
            digs@ == x@.subrange(1, i as int),
        decreases x.len() - i,
    {
        digs.push(x[i]);
        i += 1;
        assert(digs@ =~= x@.subrange(1, i as int));
    }
    assert(digs@ =~= ds);
    let n = digs.len();
    let mut borrow = true;
    let mut j: usize = n;
    assert(ds.subrange(0, n as int) =~= ds);
    assert(ds.subrange(n as int, n as int) =~= Seq::<char>::empty());
    assert(digs@ =~= ds.subrange(0, n as int) + repeat('z', 0));
    assert(dec_digits(ds) =~= dec_digits(ds.subrange(0, n as int)) + repeat('z', 0));
    while borrow && j > 0
        invariant
            j <= n == ds.len(),
            digs@.len() == n,
            all_digits(ds),
            borrow ==> digs@ == ds.subrange(0, j as int) + repeat('z', (n - j) as nat),
            borrow ==> all_eq(ds.subrange(j as int, n as int), '0'),
            borrow ==> dec_digits(ds) == dec_digits(ds.subrange(0, j as int)) + repeat(
                'z',
                (n - j) as nat,
            ),
            !borrow ==> digs@ == dec_digits(ds),
            !borrow ==> !all_eq(ds, '0'),
        decreases j,
    {
        let ghost pre = ds.subrange(0, j as int);
        assert(pre.drop_last() =~= ds.subrange(0, j - 1));
        let d = digs[j - 1];
        assert(d == ds[j - 1]);
        if d == '0' {
            digs.set(j - 1, 'z');
            assert(dec_digits(pre) == dec_digits(pre.drop_last()).push('z'));
            assert(dec_digits(ds) =~= dec_digits(ds.subrange(0, j - 1)) + repeat(
                'z',
                (n - j + 1) as nat,
            ));
            assert(digs@ =~= ds.subrange(0, j - 1) + repeat('z', (n - j + 1) as nat));
            assert(ds.subrange(j - 1, n as int) =~= seq!['0'] + ds.subrange(j as int, n as int));
        } else {
            proof {
                lemma_digit(d);
            }
            let v = value_of(d);
            digs.set(j - 1, symbol_of(v - 1));
            borrow = false;
            assert(dec_digits(pre) == pre.drop_last().push(prev_digit(d)));
            assert(digs@ =~= dec_digits(ds));
            assert(ds[j - 1] != '0');
        }
        j -= 1;
    }
    if borrow {
        assert(ds.subrange(0, 0) =~= Seq::<char>::empty());
        assert(ds.subrange(0, n as int) =~= ds);
        if head == 'a' {
            return Some(vec!['Z', 'z']);
        }
        if head == 'A' {
            return None;
        }
        let h = ((head as u32 - 1) as u8) as char;
        let mut out: Vec<char> = vec![h];
        let len = if head > 'a' {
            n - 1
        } else {
            n + 1
        };
        let mut k: usize = 0;
        while k < len
            invariant
                k <= len,
                out@ == seq![h] + repeat('z', k as nat),
            decreases len - k,
        {
            out.push('z');
            k += 1;
            assert(out@ =~= seq![h] + repeat('z', k as nat));
        }
        assert(h == (head as int - 1) as char);
        return Some(out);
    }
    let mut out: Vec<char> = vec![head];
    let mut k: usize = 0;
    while k < n
        invariant
            k <= n == digs@.len(),
            out@ == seq![head] + digs@.subrange(0, k as int),
        decreases n - k,
    {
        out.push(digs[k]);
        k += 1;
        assert(out@ =~= seq![head] + digs@.subrange(0, k as int));
    }
    assert(digs@.subrange(0, n as int) =~= digs@);
    Some(out)
}

} // verus!
