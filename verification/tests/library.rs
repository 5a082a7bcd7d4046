use sexp::atom_i;
use sexp::atom_s;
use sexp::get_line_and_column;
use sexp::list;
use sexp::parse;
use sexp::Atom;
use sexp::Sexp;
use sexp::parser::consume_until_newline;
use sexp::parser::expect;
use sexp::parser::peek;
use sexp::parser::zspace;
use sexp::printer::is_num_string;
use sexp::printer::quote;
use sexp::printer::string_contains_whitespace;

fn chars(s: &str) -> Vec<char> {
    s.chars().collect()
}

fn float(t: &str) -> Sexp {
    Sexp::Atom(Atom::F(t.to_string()))
}

#[test]
fn written_text_reads_back() {
    let x = list(&[
        atom_s("a"),
        atom_i(-5),
        atom_i(i64::MIN),
        atom_s("x y"),
        atom_s("12"),
        atom_s("say \"hi\" \\ ok"),
        atom_s("semi;colon in quotes "),
        float("1.5"),
        float("-inf"),
        list(&[]),
        list(&[list(&[atom_s("deep")])]),
    ]);
    let text = x.to_string();
    assert_eq!(parse(&text).unwrap(), x);
}

#[test]
fn writing_lists_and_atoms() {
    let x = list(&[atom_s("a"), list(&[]), atom_i(3), list(&[atom_s("b"), float("2.5")])]);
    assert_eq!(x.to_string(), "(a () 3 (b 2.5))");
    assert_eq!(Atom::I(i64::MIN).to_string(), "-9223372036854775808");
    assert_eq!(Atom::F("6.4".to_string()).to_string(), "6.4");
}

#[test]
fn quoting() {
    assert_eq!(quote("abc"), "abc");
    assert_eq!(quote("a b"), "\"a b\"");
    assert_eq!(quote("12"), "\"12\"");
    assert_eq!(quote("1e5"), "\"1e5\"");
    assert_eq!(quote("inf"), "\"inf\"");
    assert_eq!(quote("a\"b"), "\"a\\\"b\"");
    assert_eq!(quote("a\\b"), "a\\b");
    assert_eq!(quote("a\\ b"), "\"a\\\\ b\"");
    assert_eq!(quote("tab\there"), "\"tab\there\"");
}

#[test]
fn numbers_in_text() {
    for s in ["42", "-42", "+7", "1.", ".5", "1e10", "1E-3", "2.5e+3", "NaN", "-Infinity", "inf"] {
        assert!(is_num_string(s), "{}", s);
    }
    for s in ["", "-", "e5", ".", "1e", "1e+", "abc", "1_000", "1..2", "infinit", " 1"] {
        assert!(!is_num_string(s), "{}", s);
    }
    assert!(is_num_string("9223372036854775808"));
}

#[test]
fn white_space_in_text() {
    assert!(string_contains_whitespace("a b"));
    assert!(string_contains_whitespace("a\u{3000}b"));
    assert!(string_contains_whitespace("\n"));
    assert!(!string_contains_whitespace("abc"));
    assert!(!string_contains_whitespace(""));
}

#[test]
fn atoms_are_read_as_numbers_first() {
    assert_eq!(parse("9223372036854775807").unwrap(), atom_i(i64::MAX));
    assert_eq!(parse("-9223372036854775808").unwrap(), atom_i(i64::MIN));
    assert_eq!(parse("9223372036854775808").unwrap(), float("9223372036854775808"));
    assert_eq!(parse("+5").unwrap(), atom_i(5));
    assert_eq!(parse("iNf").unwrap(), float("iNf"));
    assert_eq!(parse("1e").unwrap(), atom_s("1e"));
    assert_eq!(parse("\"12\"").unwrap(), atom_s("12"));
}

#[test]
fn comments_are_skipped() {
    assert_eq!(parse("; c\n(a ; x\n b)").unwrap(), list(&[atom_s("a"), atom_s("b")]));
    assert_eq!(parse("a;comment").unwrap(), atom_s("a"));
}

#[test]
fn escapes_in_quotes() {
    assert_eq!(parse("\"a\\nb\"").unwrap(), atom_s("a\\nb"));
    assert_eq!(parse("\"a\\\\b\"").unwrap(), atom_s("a\\b"));
}

#[test]
fn error_at_end_of_text() {
    let e = parse("").unwrap_err();
    assert_eq!(e.message, "unexpected eof");
    assert_eq!((e.index, e.line, e.column), (0, 1, 0));
    let e = parse("\"abc").unwrap_err();
    assert_eq!(e.message, "unexpected eof");
    assert_eq!(e.index, 4);
    let e = parse("(\"a\\").unwrap_err();
    assert_eq!(e.message, "unexpected eof");
    assert_eq!(e.index, 4);
}

#[test]
fn error_index_counts_bytes() {
    let e = parse("(é").unwrap_err();
    assert_eq!(e.message, "unexpected eof");
    assert_eq!((e.index, e.line, e.column), (3, 1, 1));
}

#[test]
fn error_on_trailing_text() {
    let e = parse("a b").unwrap_err();
    assert_eq!(e.message, "unrecognized post-s-expression data");
    assert_eq!(e.index, 2);
    assert_eq!(e.to_string(), "1:2: unrecognized post-s-expression data");
    let e = parse(")").unwrap_err();
    assert_eq!(e.message, "unrecognized post-s-expression data");
    assert_eq!(e.index, 0);
}

#[test]
fn error_on_unexpected_character() {
    let s = chars("x");
    let mut pos = 0;
    let e = expect(&s, &mut pos, '(').unwrap_err();
    assert_eq!(e.message, "unexpected character");
    assert_eq!(e.index, 1);
    assert_eq!(pos, 1);
    let mut pos = 0;
    assert!(expect(&s, &mut pos, 'x').is_ok());
}

#[test]
fn reading_helpers() {
    let s = chars("  ; c\n x\ny");
    assert_eq!(peek(&s, &7).unwrap(), ('x', 8));
    assert_eq!(peek(&s, &10).unwrap_err().message, "unexpected eof");
    let mut pos = 0;
    zspace(&s, &mut pos).unwrap();
    assert_eq!(pos, 7);
    let mut pos = 2;
    consume_until_newline(&s, &mut pos).unwrap();
    assert_eq!(pos, 6);
    let mut pos = 8;
    consume_until_newline(&s, &mut pos).unwrap();
    assert_eq!(pos, 9);
    let mut pos = 9;
    consume_until_newline(&s, &mut pos).unwrap();
    assert_eq!(pos, 10);
}

#[test]
fn lines_and_columns_count_characters() {
    assert_eq!(get_line_and_column("héllo\nw", 3), (1, 3));
    assert_eq!(get_line_and_column("", 0), (1, 0));
    assert_eq!(get_line_and_column("\n\n", 1), (3, 0));
}

#[test]
fn reading_maps() {
    let m = parse("((a 1) (b \"x\"))").unwrap().into_map().unwrap();
    assert_eq!(m.len(), 2);
    assert_eq!(m.get("a"), Some(&atom_i(1)));
    assert_eq!(m.get("b"), Some(&atom_s("x")));
    assert_eq!(m.get("c"), None);
    assert!(m.contains_key("b"));
    let entries = m.into_entries();
    assert_eq!(entries[0].0, "a");
    assert_eq!(entries[1].0, "b");
    assert!(parse("((1 2))").unwrap().into_map().is_none());
    assert!(atom_s("x").into_map().is_none());
    assert!(parse("()").unwrap().into_map().unwrap().len() == 0);
}

#[test]
fn refused_maps() {
    assert!(parse("((a 1) (a 2))").unwrap().is_map_refused());
    assert!(parse("((a 1 2))").unwrap().is_map_refused());
    assert!(parse("(x)").unwrap().is_map_refused());
    assert!(!parse("((1 2) (a))").unwrap().is_map_refused());
    assert!(!parse("((a 1) (b 2))").unwrap().is_map_refused());
    assert!(!atom_s("a").is_map_refused());
}

#[test]
fn accessors() {
    let a = atom_s("x");
    assert!(a.is_atom() && !a.is_list());
    assert!(a.atom().is_string());
    assert_eq!(a.atom().string(), "x");
    assert_eq!(a.try_list(), None);
    assert_eq!(a.clone().into_atom(), Some(Atom::S("x".to_string())));
    let i = Atom::I(7);
    assert!(i.is_int() && !i.is_string() && !i.is_float());
    assert_eq!(i.integer(), 7);
    assert_eq!(i.try_int(), Some(7));
    assert_eq!(i.try_string(), None);
    assert_eq!(i.clone().into_int(), Some(7));
    assert_eq!(i.into_string(), None);
    assert!(Atom::F("1.5".to_string()).is_float());
    let l = list(&[atom_i(1), atom_i(2)]);
    assert_eq!(l.list().len(), 2);
    assert_eq!(l.try_atom(), None);
    assert_eq!(l.clone().into_list().unwrap(), vec![atom_i(1), atom_i(2)]);
    assert_eq!(l.clone(), l);
}

#[test]
fn map_entries_come_in_key_order() {
    let m = parse("((b 1) (\u{e9} 2) (A 3) (z 4) (ab 5))").unwrap().into_map().unwrap();
    let keys: Vec<String> = m.into_entries().into_iter().map(|(k, _)| k).collect();
    assert_eq!(keys, vec!["A", "ab", "b", "z", "\u{e9}"]);
}

#[test]
fn error_builders_take_byte_positions() {
    let s = chars("(aaaa");
    let e = sexp::error::err_impl("unexpected eof", &s, &5);
    assert_eq!((e.message, e.index, e.line, e.column), ("unexpected eof", 5, 1, 4));
    let e = sexp::error::err::<()>("unexpected eof", &chars("ab"), &10).unwrap_err();
    assert_eq!((e.index, e.line, e.column), (10, 1, 1));
}

#[test]
fn quoted_reader_stops_where_the_text_ends() {
    let s = chars("\"abc");
    let mut pos = 0;
    let e = sexp::parser::parse_quoted_atom(&s, &mut pos).unwrap_err();
    assert_eq!((e.message, e.index, e.line, e.column), ("unexpected eof", 4, 1, 3));
    assert_eq!(pos, 4);
    let s = chars("\"a\\");
    let mut pos = 0;
    let e = sexp::parser::parse_quoted_atom(&s, &mut pos).unwrap_err();
    assert_eq!(e.index, 3);
    assert_eq!(pos, 2);
    let s = chars("\"a \\\"b\" rest");
    let mut pos = 0;
    assert_eq!(sexp::parser::parse_quoted_atom(&s, &mut pos).unwrap(), Atom::S("a \"b".to_string()));
    assert_eq!(pos, 7);
}

#[test]
fn error_line_and_column_are_those_of_the_character() {
    let e = parse("\u{e9}\u{e9}\u{e9}\u{e9}\na b\nc").unwrap_err();
    assert_eq!(e.message, "unrecognized post-s-expression data");
    assert_eq!((e.index, e.line, e.column), (9, 2, 0));
    let e = parse("(\u{e9}\u{e9}\n\u{e9}").unwrap_err();
    assert_eq!(e.message, "unexpected eof");
    assert_eq!((e.index, e.line, e.column), (8, 2, 0));
}

#[test]
fn quoted_reader_without_a_quote() {
    let s = chars("ab");
    let mut pos = 0;
    let e = sexp::parser::parse_quoted_atom(&s, &mut pos).unwrap_err();
    assert_eq!((e.message, e.index), ("unexpected character", 1));
    assert_eq!(pos, 1);
    let mut pos = 2;
    let e = sexp::parser::parse_quoted_atom(&s, &mut pos).unwrap_err();
    assert_eq!((e.message, e.index), ("unexpected eof", 2));
    assert_eq!(pos, 2);
}
