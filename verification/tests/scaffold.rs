use mandelbrot::arith::{factorial, gcd, smallest};
use mandelbrot::parse::{find_char, pair_of, parse_pair};
use mandelbrot::table::{sort_works, Table};

#[test]
fn test_gcd() {
    assert_eq!(gcd(14, 15), 1);

    assert_eq!(gcd(2 * 3 * 5 * 11 * 17, 3 * 7 * 11 * 13 * 19), 3 * 11);
}

#[test]
fn test_parse_pair() {
    assert_eq!(parse_pair::<i32>("", ','), None);
    assert_eq!(parse_pair::<i32>("10,", ','), None);
    assert_eq!(parse_pair::<i32>(",10", ','), None);
    assert_eq!(parse_pair::<i32>("10,20", ','), Some((10, 20)));
    assert_eq!(parse_pair::<i32>("10,20xy", ','), None);
    assert_eq!(parse_pair::<f64>("0.5x", 'x'), None);
    assert_eq!(parse_pair::<f64>("0.5x1.5", 'x'), Some((0.5, 1.5)));
}

#[test]
fn test_find_char() {
    assert_eq!(find_char("10,20", ','), Some(2));
    assert_eq!(find_char(",10", ','), Some(0));
    assert_eq!(find_char("1020", ','), None);
    assert_eq!(find_char("", ','), None);
    assert_eq!(find_char("a,b,c", ','), Some(1));
}

#[test]
fn test_pair_of() {
    assert_eq!(pair_of(Some(1), Some(2)), Some((1, 2)));
    assert_eq!(pair_of::<i32>(Some(1), None), None);
    assert_eq!(pair_of::<i32>(None, Some(2)), None);
    assert_eq!(pair_of::<i32>(None, None), None);
}

#[test]
fn test_factorial() {
    assert_eq!(factorial(0), 1);
    assert_eq!(factorial(1), 1);
    assert_eq!(factorial(5), 120);
    assert_eq!(factorial(6), 720);
}

#[test]
fn test_smallest() {
    let v = vec![1973, 1968, 2001];
    assert_eq!(*smallest(&v), 1968);
    let w = vec![7];
    assert_eq!(*smallest(&w), 7);
    let neg = vec![3, -5, 0, -5];
    assert_eq!(*smallest(&neg), -5);
}

#[test]
fn test_sort_works() {
    let mut table = Table {
        entries: vec![
            (
                "Gesualdo".to_string(),
                vec![
                    "many madrigals".to_string(),
                    "Tenebrae Responsoria".to_string(),
                ],
            ),
            (
                "Caravaggio".to_string(),
                vec![
                    "The Musicians".to_string(),
                    "The Calling of St. Matthew".to_string(),
                ],
            ),
        ],
    };
    sort_works(&mut table);
    assert_eq!(table.entries[0].0, "Gesualdo");
    assert_eq!(
        table.entries[0].1,
        vec![
            "Tenebrae Responsoria".to_string(),
            "many madrigals".to_string()
        ]
    );
    assert_eq!(table.entries[1].0, "Caravaggio");
    assert_eq!(
        table.entries[1].1,
        vec![
            "The Calling of St. Matthew".to_string(),
            "The Musicians".to_string()
        ]
    );
}
