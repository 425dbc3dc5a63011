use jsonpath_lib::jsonpath::json_filter::cmp::{
    str_lt, CmpAnd, CmpEq, CmpGe, CmpGt, CmpLe, CmpLt, CmpNe, CmpOr, CmpType, IntoType, PrivCmp,
};
use jsonpath_lib::jsonpath::utils::{usize_to_string, vec_to_int, vec_to_number, vec_to_string};

fn s(x: &str) -> String {
    x.to_string()
}

#[test]
fn cmp_strings_as_std_orders_them() {
    let words = ["", "a", "ab", "b", "가", "Z", "aa", "a가"];
    for x in words.iter() {
        for y in words.iter() {
            assert_eq!(str_lt(x, y), x < y, "{} < {}", x, y);
            assert_eq!(CmpGt.cmp_string(&s(x), &s(y)), s(x) > s(y));
            assert_eq!(CmpGe.cmp_string(&s(x), &s(y)), s(x) >= s(y));
            assert_eq!(CmpLt.cmp_string(&s(x), &s(y)), s(x) < s(y));
            assert_eq!(CmpLe.cmp_string(&s(x), &s(y)), s(x) <= s(y));
            assert_eq!(CmpEq.cmp_string(&s(x), &s(y)), s(x) == s(y));
            assert_eq!(CmpNe.cmp_string(&s(x), &s(y)), s(x) != s(y));
            // exactly one of <, ==, > holds
            let n = [str_lt(x, y), x == y, str_lt(y, x)].iter().filter(|b| **b).count();
            assert_eq!(n, 1);
        }
    }
}

#[test]
fn cmp_bools_and_conditions() {
    for a in [false, true].iter() {
        for b in [false, true].iter() {
            assert_eq!(CmpGt.cmp_bool(a, b), a > b);
            assert_eq!(CmpGe.cmp_bool(a, b), a >= b);
            assert_eq!(CmpLt.cmp_bool(a, b), a < b);
            assert_eq!(CmpLe.cmp_bool(a, b), a <= b);
            assert_eq!(CmpEq.cmp_bool(a, b), a == b);
            assert_eq!(CmpNe.cmp_bool(a, b), a != b);
            assert_eq!(CmpAnd.cmp_bool(a, b), *a && *b);
            assert_eq!(CmpOr.cmp_bool(a, b), *a || *b);
        }
    }
    assert!(CmpAnd.cmp_string(&s("a"), &s("b")));
    assert!(!CmpAnd.cmp_string(&s(""), &s("b")));
    assert!(CmpOr.cmp_string(&s(""), &s("b")));
    assert!(!CmpOr.cmp_string(&s(""), &s("")));
    assert_eq!(CmpEq.into_type(), CmpType::Eq);
    assert_eq!(CmpNe.into_type(), CmpType::Ne);
    assert_eq!(CmpGt.into_type(), CmpType::Gt);
    assert_eq!(CmpGe.into_type(), CmpType::Ge);
    assert_eq!(CmpLt.into_type(), CmpType::Lt);
    assert_eq!(CmpLe.into_type(), CmpType::Le);
}

#[test]
fn jsonpath_utils_numbers() {
    assert_eq!(vec_to_number(&vec!['-', '1', '2']), Ok(-12));
    assert_eq!(vec_to_number(&vec!['1', 'a']), Err("vec_to_number: ['1', 'a']".to_string()));
    assert_eq!(vec_to_int(&vec!['4', '2'], || "no".to_string()), Ok(42));
    assert_eq!(vec_to_int(&vec!['x'], || "no".to_string()), Err("no".to_string()));
    assert_eq!(vec_to_string(&vec!['가', 'b']), "가b");
    for n in [0usize, 7, 10, 99, 100, 12345, usize::MAX].iter() {
        assert_eq!(usize_to_string(*n), n.to_string());
    }
    // printing a number and reading it back gives the number
    for n in [0usize, 9, 10, 4096, isize::MAX as usize].iter() {
        let text: Vec<char> = usize_to_string(*n).chars().collect();
        assert_eq!(vec_to_number(&text), Ok(*n as isize));
    }
}
