use fractional_index::integer::{decrement_int, increment_int, validate_int};
use fractional_index::{key_between, key_digits, n_keys_between, FrackErr};

struct Case<In, Out> {
    input: In,
    output: Out,
}

#[test]
fn test_keys() {
    let cases: Vec<Case<(&str, &str), Result<String, FrackErr>>> = vec![
        Case { input: ("", ""), output: Ok("a0".to_string()) },
        Case { input: ("", "a0"), output: Ok("Zz".to_string()) },
        Case { input: ("", "Zz"), output: Ok("Zy".to_string()) },
        Case { input: ("a0", ""), output: Ok("a1".to_string()) },
        Case { input: ("a1", ""), output: Ok("a2".to_string()) },
        Case { input: ("a0", "a1"), output: Ok("a0V".to_string()) },
        Case { input: ("a1", "a2"), output: Ok("a1V".to_string()) },
        Case { input: ("a0V", "a1"), output: Ok("a0l".to_string()) },
        Case { input: ("Zz", "a0"), output: Ok("ZzV".to_string()) },
        Case { input: ("Zz", "a1"), output: Ok("a0".to_string()) },
        Case { input: ("", "Y00"), output: Ok("Xzzz".to_string()) },
        Case { input: ("bzz", ""), output: Ok("c000".to_string()) },
        Case { input: ("a0", "a0V"), output: Ok("a0G".to_string()) },
        Case { input: ("a0", "a0G"), output: Ok("a08".to_string()) },
        Case { input: ("b125", "b129"), output: Ok("b127".to_string()) },
        Case { input: ("a0", "a1V"), output: Ok("a1".to_string()) },
        Case { input: ("Zz", "a01"), output: Ok("a0".to_string()) },
        Case { input: ("", "a0V"), output: Ok("a0".to_string()) },
        Case { input: ("", "b999"), output: Ok("b99".to_string()) },
        Case { input: ("aV", "aV0V"), output: Ok("aV0G".to_string()) },
        Case {
            input: ("", "A00000000000000000000000000"),
            output: Err(FrackErr::InvalidOrderKey("A00000000000000000000000000".to_string())),
        },
        Case {
            input: ("", "A000000000000000000000000001"),
            output: Ok("A000000000000000000000000000V".to_string()),
        },
        Case {
            input: ("zzzzzzzzzzzzzzzzzzzzzzzzzzy", ""),
            output: Ok("zzzzzzzzzzzzzzzzzzzzzzzzzzz".to_string()),
        },
        Case {
            input: ("zzzzzzzzzzzzzzzzzzzzzzzzzzz", ""),
            output: Ok("zzzzzzzzzzzzzzzzzzzzzzzzzzzV".to_string()),
        },
        // A fractional part that ends in the zero symbol is not canonical: the key is refused.
        Case { input: ("a00", ""), output: Err(FrackErr::InvalidOrderKey("a00".to_string())) },
        Case { input: ("a00", "a1"), output: Err(FrackErr::InvalidOrderKey("a00".to_string())) },
        Case {
            input: ("0", "1"),
            output: Err(FrackErr::InvalidOrderKeyHead("invalid order key head: 0".to_string())),
        },
        Case {
            input: ("a1", "a0"),
            output: Err(FrackErr::KeysOutOfOrder("a1".to_string(), "a0".to_string())),
        },
    ];
    for c in cases {
        let (a, b) = c.input;
        let got = key_between(a, b);
        assert_eq!(got, c.output);
    }
}

fn check_n_keys(a: &str, b: &str, n: usize) {
    let ks = n_keys_between(a, b, n).unwrap();
    assert_eq!(ks.len(), n);
    for i in 0..ks.len() {
        if i > 0 {
            assert!(ks[i - 1] < ks[i], "{} < {}", ks[i - 1], ks[i]);
        }
        if !a.is_empty() {
            assert!(a < ks[i].as_str());
        }
        if !b.is_empty() {
            assert!(ks[i].as_str() < b);
        }
        // each key is valid: it is accepted as a bound again
        assert!(key_between(&ks[i], "").is_ok());
    }
}

#[test]
fn test_n_keys() {
    assert_eq!(1 + 2, 3);
    for n in [0usize, 1, 5, 100] {
        check_n_keys("", "", n);
        check_n_keys("a0", "", n);
        check_n_keys("", "a0", n);
        check_n_keys("a0", "a1", n);
        check_n_keys("Zz", "b125", n);
    }
}

#[test]
fn n_keys_concrete_values() {
    assert_eq!(n_keys_between("", "", 3).unwrap(), vec!["a0", "a1", "a2"]);
    assert_eq!(n_keys_between("", "a0", 2).unwrap(), vec!["Zy", "Zz"]);
    assert_eq!(n_keys_between("a0", "a1", 3).unwrap(), vec!["a0G", "a0V", "a0l"]);
    assert_eq!(n_keys_between("a0", "a1", 0).unwrap(), Vec::<String>::new());
}

#[test]
fn n_keys_errors() {
    assert_eq!(
        n_keys_between("a1", "a0", 3),
        Err(FrackErr::KeysOutOfOrder("a1".to_string(), "a0".to_string()))
    );
    assert_eq!(n_keys_between("a1", "a0", 0), Ok(vec![]));
    // below the integer part right above the smallest one, keys extend the smallest integer
    assert_eq!(
        n_keys_between("", "A00000000000000000000000001", 2).unwrap(),
        vec!["A00000000000000000000000000G", "A00000000000000000000000000V"]
    );
    check_n_keys("", "A00000000000000000000000001", 100);
}

#[test]
fn between_is_strict() {
    let pairs = [("a0", "a1"), ("Zz", "a0"), ("a0V", "a1"), ("b125", "b129"), ("aV", "aV0V"), ("Xzzz", "a0")];
    for (a, b) in pairs {
        let m = key_between(a, b).unwrap();
        assert!(a < m.as_str() && m.as_str() < b, "{} {} {}", a, m, b);
    }
}

#[test]
fn open_bounds_never_return_the_bound() {
    for k in ["a0", "Zz", "b125", "zzzzzzzzzzzzzzzzzzzzzzzzzzz", "A000000000000000000000000001"] {
        assert_ne!(key_between(k, "").unwrap(), k);
        assert_ne!(key_between("", k).unwrap(), k);
    }
}

#[test]
fn results_are_canonical_and_revalidate() {
    let mut a = String::from("a0");
    for _ in 0..40 {
        let m = key_between(&a, "a1").unwrap();
        assert!(!m.ends_with('0'));
        assert!(key_between(&m, "").is_ok());
        a = m;
    }
}

#[test]
fn zero_key_for_open_bounds() {
    assert_eq!(key_between("", ""), Ok("a0".to_string()));
}

#[test]
fn below_smallest_integer_successor() {
    // the bare smallest integer is no key: the smallest integer followed by a digit is returned
    assert_eq!(
        key_between("", "A00000000000000000000000001"),
        Ok("A00000000000000000000000000V".to_string())
    );
}

#[test]
fn validation_errors() {
    assert_eq!(key_between("b1", ""), Err(FrackErr::InvalidOrderKey("b1".to_string())));
    assert_eq!(key_between("a0!", ""), Err(FrackErr::InvalidDigit("a0!".to_string())));
    assert_eq!(key_between("", "a-"), Err(FrackErr::InvalidDigit("a-".to_string())));
    assert_eq!(
        key_between("a0", "!"),
        Err(FrackErr::InvalidOrderKeyHead("invalid order key head: !".to_string()))
    );
    assert_eq!(
        key_between("a1", "a1"),
        Err(FrackErr::KeysOutOfOrder("a1".to_string(), "a1".to_string()))
    );
}

#[test]
fn error_messages() {
    assert_eq!(FrackErr::InvalidOrderKey("a00".to_string()).message(), "invalid order key: a00");
    assert_eq!(
        FrackErr::KeysOutOfOrder("a1".to_string(), "a0".to_string()).message(),
        "keys out of order: a1 > a0"
    );
    assert_eq!(FrackErr::RangeOverflow.message(), "range overflow");
    assert_eq!(FrackErr::InvalidDigit("~".to_string()).message(), "invalid digit: ~");
}

#[test]
fn integer_carry_and_borrow() {
    assert_eq!(key_between("a0", "").unwrap(), "a1");
    assert_eq!(key_between("az", "").unwrap(), "b00");
    assert_eq!(key_between("Zz", "").unwrap(), "a0");
    assert_eq!(key_between("Yzz", "").unwrap(), "Z0");
    assert_eq!(key_between("", "b00").unwrap(), "az");
    assert_eq!(key_between("", "Z0").unwrap(), "Yzz");
    assert_eq!(key_between("", "b10").unwrap(), "b0z");
}

#[test]
fn test_to_f64_approx() {
    assert_eq!(1 + 2, 3);
    let d = key_digits("b12V").unwrap();
    assert_eq!(d.head, 'b');
    assert_eq!(d.int_digits, vec![1, 2]);
    assert_eq!(d.frac_digits, vec![31]);
    let d = key_digits("Zz").unwrap();
    assert_eq!(d.head, 'Z');
    assert_eq!(d.int_digits, vec![61]);
    assert!(d.frac_digits.is_empty());
    assert_eq!(key_digits("a00").err(), Some(FrackErr::InvalidOrderKey("a00".to_string())));
    assert_eq!(key_digits("").err(), Some(FrackErr::InvalidKey("".to_string())));
}

#[test]
fn integer_part_checks() {
    assert_eq!(validate_int("a5"), Ok(()));
    assert_eq!(validate_int("a-"), Ok(()));
    assert_eq!(validate_int(""), Err(FrackErr::InvalidKeyInteger("".to_string())));
    assert_eq!(validate_int("b1"), Err(FrackErr::InvalidKeyInteger("b1".to_string())));
    assert_eq!(
        validate_int("-1"),
        Err(FrackErr::InvalidOrderKeyHead("invalid order key head: -".to_string()))
    );
    assert_eq!(increment_int("a-"), Err(FrackErr::InvalidKey("a-".to_string())));
    assert_eq!(decrement_int("b1~"), Err(FrackErr::InvalidKey("b1~".to_string())));
    assert_eq!(increment_int("b1"), Err(FrackErr::InvalidKeyInteger("b1".to_string())));
    assert_eq!(increment_int("az"), Ok(Some(vec!['b', '0', '0'])));
    assert_eq!(increment_int("zzzzzzzzzzzzzzzzzzzzzzzzzzz"), Ok(None));
    assert_eq!(decrement_int("a0"), Ok(Some(vec!['Z', 'z'])));
    assert_eq!(decrement_int("A00000000000000000000000000"), Ok(None));
}
