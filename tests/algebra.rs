use aggregate_query::semiring::max_prod::MaxProd;
use aggregate_query::semiring::total_order_key;
use aggregate_query::{intersection, union, Convert, Semiring, Value};

#[test]
fn counting_laws_on_samples() {
    let xs: [i64; 5] = [0, 3, -7, i64::MAX, i64::MIN];
    for a in xs {
        for b in xs {
            assert_eq!(a.combine(&b), b.combine(&a));
            assert_eq!(a.multiply(&b), b.multiply(&a));
            for c in xs {
                assert_eq!(a.combine(&b).combine(&c), a.combine(&b.combine(&c)));
                assert_eq!(a.multiply(&b).multiply(&c), a.multiply(&b.multiply(&c)));
            }
        }
    }
    assert_eq!(5i64.combine(&7), 12);
    assert_eq!(5i64.multiply(&7), 35);
    assert_eq!(i64::MAX.combine(&1), i64::MIN);
    assert_eq!(<i64 as Semiring>::zero(), 0);
    assert_eq!(<i64 as Convert>::from(-3), -3);
    assert_eq!(<isize as Convert>::from(4), 4);
    assert_eq!(4isize.combine(&5), 9);
}

#[test]
fn max_prod_laws_on_samples() {
    let xs = [0u32, 1, 2, 9, u32::MAX].map(|v| MaxProd { value: v });
    for a in xs {
        for b in xs {
            assert_eq!(a.combine(&b), b.combine(&a));
            assert_eq!(a.multiply(&b), b.multiply(&a));
            for c in xs {
                assert_eq!(a.combine(&b).combine(&c), a.combine(&b.combine(&c)));
                assert_eq!(a.multiply(&b).multiply(&c), a.multiply(&b.multiply(&c)));
            }
        }
    }
    assert_eq!(MaxProd { value: 3 }.combine(&MaxProd { value: 8 }), MaxProd { value: 8 });
    assert_eq!(MaxProd { value: 3 }.multiply(&MaxProd { value: 8 }), MaxProd { value: 24 });
    assert_eq!(<MaxProd as Convert>::from(-5), MaxProd { value: 5 });
    assert_eq!(<MaxProd as Convert>::from(0), MaxProd::zero());
}

#[test]
fn union_keeps_first_seen_order() {
    assert_eq!(union(&vec![vec![1, 3], vec![2, 3], vec![4, 1]]), vec![1, 3, 2, 4]);
    assert_eq!(union(&vec![]), Vec::<u32>::new());
}

#[test]
fn intersection_keeps_first_order() {
    assert_eq!(intersection(&vec![vec![3, 1, 2], vec![2, 3], vec![3, 2, 5]]), vec![3, 2]);
    assert_eq!(intersection(&vec![vec![1], vec![2]]), Vec::<u32>::new());
    assert_eq!(intersection(&vec![]), Vec::<u32>::new());
}

#[test]
fn value_order_and_equality() {
    let a = Value::String("ab".to_string());
    let b = Value::String("b".to_string());
    assert!(a.less_than(&b));
    assert!(!b.less_than(&a));
    assert!(Value::String("a".to_string()).less_than(&a));
    assert!(b.less_than(&Value::Bool(false)));
    assert!(Value::Bool(false).less_than(&Value::Bool(true)));
    assert!(Value::Bool(true).less_than(&Value::Number(-5)));
    assert!(Value::Number(-5).less_than(&Value::Number(2)));
    assert!(!Value::Number(2).less_than(&Value::Number(2)));
    assert!(a.same(&Value::String("ab".to_string())));
    assert!(!a.same(&b));
    for (x, y) in [(&a, &b), (&b, &a)] {
        assert_eq!(x.less_than(y), x < y);
    }
}

#[test]
fn float_keys_order_like_floats() {
    let xs: [f32; 7] = [f32::NEG_INFINITY, -2.5, -1.0, -0.0, 0.0, 0.75, 3.0];
    let keys: Vec<i32> = xs.iter().map(|x| total_order_key(x.to_bits() as i32)).collect();
    for i in 1..keys.len() {
        assert!(keys[i - 1] < keys[i]);
    }
    assert_eq!(total_order_key(5), 5);
    assert_eq!(total_order_key(-1), i32::MIN);
    assert_eq!(total_order_key(i32::MIN), -1);
}

#[test]
fn narrow_counting_wraps() {
    assert_eq!(i32::MAX.combine(&1), i32::MIN);
    assert_eq!(6i32.multiply(&7), 42);
    assert_eq!(<i32 as Convert>::from(-9), -9);
    assert_eq!(<i32 as Semiring>::zero(), 0);
}
