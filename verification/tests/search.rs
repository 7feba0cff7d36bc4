use line_search::{search, search_case_insensitive, search_with};

#[test]
fn one_result() {
    let query = "duct";
    let contents = "\
Rust:
safe, fast, productive.
Pick three.
Duct.";

    assert_eq!(vec!["safe, fast, productive."], search(query, contents));
}

#[test]
fn case_insensitive() {
    let query = "rUsT";
    let contents = "\
Rust:
safe, fast, productive.
Pick three.
Trust me.
";
    assert_eq!(
        vec!["Rust:", "Trust me."],
        search_case_insensitive(query, contents)
    );
}

#[test]
fn empty_query_finds_every_line() {
    assert_eq!(vec!["a", "b", "c"], search("", "a\nb\nc"));
    assert_eq!(vec!["a", "b", "c"], search_case_insensitive("", "a\nb\nc"));
}

#[test]
fn empty_buffer_holds_no_line() {
    assert_eq!(Vec::<&str>::new(), search("", ""));
    assert_eq!(Vec::<&str>::new(), search("x", ""));
    assert_eq!(Vec::<&str>::new(), search_case_insensitive("", ""));
    assert_eq!(Vec::<&str>::new(), search_case_insensitive("X", ""));
}

#[test]
fn no_match_gives_an_empty_result() {
    let contents = "Rust:\nsafe, fast, productive.\nPick three.";
    assert!(search("python", contents).is_empty());
    assert!(search_case_insensitive("PYTHON", contents).is_empty());
}

#[test]
fn exact_search_tells_cases_apart() {
    let contents = "Rust:\nsafe, fast, productive.\nPick three.\nTrust me.\n";
    assert_eq!(vec!["Trust me."], search("rust", contents));
    assert_eq!(vec!["Rust:"], search("Rust", contents));
    assert!(search("rUsT", contents).is_empty());
}

#[test]
fn final_line_feed_opens_no_line() {
    assert_eq!(vec!["a", "b"], search("", "a\nb\n"));
    assert_eq!(vec!["a", "b", ""], search("", "a\nb\n\n"));
    assert_eq!(vec![""], search("", "\n"));
}

#[test]
fn blank_lines_are_lines() {
    assert_eq!(vec!["a", "", "b"], search("", "a\n\nb"));
    assert_eq!(vec!["", "a"], search("", "\na"));
}

#[test]
fn carriage_return_before_line_feed_is_dropped() {
    assert_eq!(vec!["a", "b"], search("", "a\r\nb\r\n"));
    assert_eq!(vec![""], search("", "\r\n"));
    assert_eq!(vec!["a\r"], search("", "a\r\r\n"));
}

#[test]
fn lone_carriage_return_stays() {
    assert_eq!(vec!["a\rb"], search("", "a\rb"));
    assert_eq!(vec!["a\r"], search("", "a\r"));
    assert_eq!(vec!["a", "b\r"], search("", "a\nb\r"));
    assert_eq!(vec!["b\r"], search("\r", "a\r\nb\r"));
}

#[test]
fn lines_agree_with_the_standard_split() {
    let buffers = [
        "",
        "\n",
        "\r\n",
        "\r",
        "one",
        "one\n",
        "one\ntwo",
        "one\r\ntwo\r\n",
        "one\n\n\ntwo\n",
        "\n\none",
        "a\rb\nc\r",
        "h\u{e9}llo\nw\u{f6}rld\n\u{4e16}\u{754c}",
    ];
    for buffer in buffers {
        let expected: Vec<&str> = buffer.lines().collect();
        assert_eq!(expected, search("", buffer));
        assert_eq!(expected, search_case_insensitive("", buffer));
    }
}

#[test]
fn matches_keep_their_order_and_number() {
    let contents = "x1\ny\nx1\nx2\nzx";
    assert_eq!(vec!["x1", "x1", "x2", "zx"], search("x", contents));
    assert_eq!(vec!["x1", "x1"], search("x1", contents));
}

#[test]
fn query_does_not_match_across_lines() {
    assert!(search("a\nb", "a\nb").is_empty());
    assert!(search("ab", "a\nb").is_empty());
}

#[test]
fn query_at_the_ends_of_a_line() {
    assert_eq!(vec!["abc"], search("abc", "abc"));
    assert_eq!(vec!["abc"], search("a", "abc"));
    assert_eq!(vec!["abc"], search("c", "abc"));
    assert!(search("abcd", "abc").is_empty());
    assert_eq!(vec!["aab"], search("ab", "aab\nba"));
}

#[test]
fn every_found_line_contains_the_query() {
    let contents = "alpha\nbeta\ngamma\ndelta\nalphabet\n";
    let query = "al";
    let found = search(query, contents);
    assert_eq!(vec!["alpha", "alphabet"], found);
    let expected: Vec<&str> = contents.lines().filter(|line| line.contains(query)).collect();
    assert_eq!(expected, found);
}

#[test]
fn found_lines_are_parts_of_the_buffer() {
    let contents = String::from("first\nsecond\nthird");
    let found = search("second", &contents);
    assert_eq!(1, found.len());
    assert_eq!(Some(6), contents.find(found[0]));
    assert_eq!(&contents[6..12], found[0]);
}

#[test]
fn text_beyond_ascii_is_compared_by_its_bytes() {
    let contents = "caf\u{e9}\ncafe\n\u{4e16}\u{754c}";
    assert_eq!(vec!["caf\u{e9}"], search("\u{e9}", contents));
    assert_eq!(vec!["\u{4e16}\u{754c}"], search("\u{754c}", contents));
    assert!(search("\u{c9}", contents).is_empty());
}

#[test]
fn folding_reaches_beyond_ascii() {
    let contents = "\u{c9}cole\n\u{e9}cole\necole";
    assert_eq!(
        vec!["\u{c9}cole", "\u{e9}cole"],
        search_case_insensitive("\u{c9}COLE", contents)
    );
    assert_eq!(vec!["\u{e9}cole"], search("\u{e9}cole", contents));
}

#[test]
fn folded_search_returns_lines_in_their_own_case() {
    assert_eq!(vec!["HeLLo"], search_case_insensitive("hello", "HeLLo\nworld"));
}

#[test]
fn case_variants_of_a_query_find_the_same_lines() {
    let contents = "Rust:\nsafe, fast, productive.\nPick three.\nTrust me.\nRUSTY\n";
    let lower = search_case_insensitive("rust", contents);
    assert_eq!(vec!["Rust:", "Trust me.", "RUSTY"], lower);
    assert_eq!(lower, search_case_insensitive("RUST", contents));
    assert_eq!(lower, search_case_insensitive("rUsT", contents));
    assert_eq!(lower, search_case_insensitive("Rust", contents));
}

#[test]
fn folded_search_finds_what_exact_search_finds() {
    let contents = "Rust:\nsafe, fast, productive.\nPick three.\nTrust me.\n";
    let exact = search("rust", contents);
    let folded = search_case_insensitive("rust", contents);
    assert_eq!(vec!["Trust me."], exact);
    assert_eq!(vec!["Rust:", "Trust me."], folded);
    assert!(exact.len() <= folded.len());
    assert!(exact.iter().all(|line| folded.contains(line)));
}

#[test]
fn final_sigma_folds_by_its_place() {
    let contents = "\u{391}\u{3a3}";
    assert_eq!(vec![contents], search("\u{3a3}", contents));
    assert!(search_case_insensitive("\u{3a3}", contents).is_empty());
    assert_eq!(vec![contents], search_case_insensitive("\u{3c2}", contents));
}

#[test]
fn policy_selects_the_search() {
    let contents = "Rust:\nsafe, fast, productive.\nPick three.\nTrust me.\n";
    assert_eq!(search("rust", contents), search_with("rust", contents, true));
    assert_eq!(
        search_case_insensitive("rust", contents),
        search_with("rust", contents, false)
    );
    assert_eq!(vec!["Trust me."], search_with("rust", contents, true));
    assert_eq!(vec!["Rust:", "Trust me."], search_with("rust", contents, false));
}
