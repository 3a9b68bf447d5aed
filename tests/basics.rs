use lua::hello::{Counter, A};
use lua::minigrep::{search, search_case_insensitive, select_matching, Config};

#[test]
fn it_works() {
    let mut a = A::new(1);
    assert_eq!(a.get_a(), 1);
    a.set_a(2);
    a.set_a(3);
    assert_eq!(a.get_a(), 3);
}

#[test]
fn test_iterator() {
    let mut counter = Counter::new();

    assert_eq!(counter.next(), Some(1));
    assert_eq!(counter.next(), Some(2));
    assert_eq!(counter.next(), Some(3));
    assert_eq!(counter.next(), Some(4));
    assert_eq!(counter.next(), Some(5));
    assert_eq!(counter.next(), None);
}

fn drain(mut counter: Counter) -> Vec<u32> {
    let mut out = Vec::new();
    while let Some(n) = counter.next() {
        out.push(n);
    }
    out
}

#[test]
fn using_other_iterator_trait_methods() {
    let counter = drain(Counter::new());
    let sum: u32 = counter
        .into_iter()
        .zip(drain(Counter::new()).into_iter().skip(1))
        .map(|(a, b)| a * b)
        .filter(|x| x % 3 == 0)
        .sum();
    assert_eq!(18, sum);
}

#[test]
fn one_result() {
    let query = "duct";
    let content = "\
        Rust:
safe, fast, productive.
Pick three.
        ";
    assert_eq!(vec!["safe, fast, productive."], search(query, content))
}

#[test]
fn case_sensitive() {
    let query = "duct";
    let contents = "\
        Rust:
        safe, fast, productive.
        Pick three.
        Duct tape.";
    assert_ne!(vec!["safe, fast, productive."], search(query, contents));
}

#[test]
fn case_insensitive() {
    let query = "rUsT";
    let contents = "\
Rust:
safe, fast, productive.
Pick three.
Trust me.";

    assert_eq!(vec!["Rust:", "Trust me."], search_case_insensitive(query, contents));
}

#[test]
fn lines_end_at_newlines_and_drop_carriage_returns() {
    assert_eq!(search("", "a\r\nb\n\nc\n"), vec!["a", "b", "", "c"]);
    assert!(search("x", "").is_empty());
    assert_eq!(search("b", "ab\rc"), vec!["ab\rc"]);
}

#[test]
fn selection_goes_by_keys() {
    let lines = vec!["One".to_string(), "two".to_string()];
    let keys = vec!["one".to_string(), "two".to_string()];
    assert_eq!(select_matching(&lines, &keys, "on"), vec!["One"]);
    assert_eq!(select_matching(&lines, &lines, "on"), Vec::<String>::new());
}

#[test]
fn lowercasing_changes_what_matches() {
    assert_eq!(search("rust", "RUST"), Vec::<String>::new());
    assert_eq!(search_case_insensitive("rust", "RUST"), vec!["RUST"]);
}

#[test]
fn config_from_arguments() {
    let args = |v: &[&str]| v.iter().map(|s| s.to_string()).collect::<Vec<String>>();
    assert_eq!(Config::new(&args(&["prog"]), false).err(), Some("didn't give a query string"));
    assert_eq!(Config::new(&args(&["prog", "q"]), false).err(), Some("didn't give a filename"));
    let c = Config::new(&args(&["prog", "q", "f.txt"]), true).ok().unwrap();
    assert_eq!(c.query, "q");
    assert_eq!(c.filename, "f.txt");
    assert!(!c.case_sensitive);
}
