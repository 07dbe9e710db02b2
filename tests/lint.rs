use starlark::did_you_mean::{bounded_edit_distance, did_you_mean};
use starlark::dubious::{dubious, duplicate_dictionary_key, AstModule, Dubious, Expr, Span};
use starlark::text::{decimal_string, int_string};

fn sp(n: u32) -> Span {
    Span { begin: n, end: n + 1 }
}

fn s(t: &str, n: u32) -> Expr {
    Expr::StringLiteral(t.to_string(), sp(n))
}

fn i(x: i32, n: u32) -> Expr {
    Expr::IntLiteral(x, sp(n))
}

fn id(t: &str, n: u32) -> Expr {
    Expr::Identifier(t.to_string(), sp(n))
}

fn call(n: u32) -> Expr {
    Expr::Other(vec![id("f", n)])
}

fn about(d: &Dubious) -> &String {
    match d {
        Dubious::DuplicateKey(x, _) => x,
    }
}

#[test]
fn test_lint_duplicate_keys() {
    let m = AstModule {
        exprs: vec![
            Expr::Dict(vec![(s("no1", 1), i(1, 2)), (s("no1", 3), i(2, 4))]),
            Expr::Dict(vec![
                (i(42, 10), i(1, 11)),
                (i(78, 12), i(9, 13)),
                (s("no2", 14), i(100, 15)),
                (i(42, 16), i(6, 17)),
                (s("no2", 18), i(8, 19)),
            ]),
            Expr::Dict(vec![
                (id("no3", 20), i(1, 21)),
                (id("no4", 22), i(2, 23)),
                (id("yes", 24), i(3, 25)),
                (id("no3", 26), i(1, 27)),
                (id("no3", 28), i(3, 29)),
                (id("no4", 30), i(8, 31)),
            ]),
            Expr::Dict(vec![(call(40), i(1, 41)), (call(42), i(2, 43))]),
        ],
    };
    let mut res = Vec::new();
    duplicate_dictionary_key(&m, &mut res);
    let abouts: Vec<&String> = res.iter().map(|x| about(&x.problem)).collect();
    assert_eq!(abouts, &["\"no1\"", "42", "\"no2\"", "no3", "no3", "no4"]);
    // Each lint sits at the latest earlier occurrence and names the repetition.
    assert_eq!(res[3].location, sp(20));
    assert_eq!(res[4].location, sp(26));
    assert_eq!(res[4].problem, Dubious::DuplicateKey("no3".to_string(), sp(28)));
    assert!(res[0].problem.is_serious());
}

#[test]
fn lint_looks_into_nested_dicts() {
    let inner = Expr::Dict(vec![(i(-7, 3), i(0, 4)), (i(-7, 5), i(0, 6))]);
    let outer = Expr::Dict(vec![(s("a", 1), inner), (s("a", 7), i(0, 8))]);
    let m = AstModule { exprs: vec![Expr::Other(vec![outer])] };
    let res = dubious(&m);
    assert_eq!(res.len(), 2);
    assert_eq!(about(&res[0].problem), "\"a\"");
    assert_eq!(about(&res[1].problem), "-7");
    assert_eq!(res[1].location, sp(3));
}

#[test]
fn keys_of_different_kinds_differ() {
    let m = AstModule { exprs: vec![Expr::Dict(vec![(i(1, 1), i(0, 2)), (s("1", 3), i(0, 4)), (id("1", 5), i(0, 6))])] };
    assert!(dubious(&m).is_empty());
}

#[test]
fn numbers_render_in_decimal() {
    assert_eq!(decimal_string(0), "0");
    assert_eq!(decimal_string(1907), "1907");
    assert_eq!(int_string(-2147483648), "-2147483648");
    assert_eq!(int_string(42), "42");
}

#[test]
fn edit_distance_values() {
    let a: Vec<char> = "kitten".chars().collect();
    let b: Vec<char> = "sitting".chars().collect();
    assert_eq!(bounded_edit_distance(&a, &b, 10), 3);
    assert_eq!(bounded_edit_distance(&a, &b, 2), 2);
    let e: Vec<char> = Vec::new();
    assert_eq!(bounded_edit_distance(&e, &b, 10), 7);
    assert_eq!(bounded_edit_distance(&a, &a, 10), 0);
}

#[test]
fn suggestion_picks_nearest_first() {
    let cands = vec!["bar".to_string(), "foo".to_string(), "fob".to_string()];
    assert_eq!(did_you_mean("fo", &cands), Some("foo".to_string()));
    assert_eq!(did_you_mean("fox", &cands), Some("foo".to_string()));
    assert_eq!(did_you_mean("zzzzz", &cands), None);
    assert_eq!(did_you_mean("x", &Vec::new()), None);
}
