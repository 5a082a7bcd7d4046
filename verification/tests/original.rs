use sexp::atom_i;
use sexp::atom_s;
use sexp::get_line_and_column;
use sexp::list;
use sexp::parse;
use sexp::Atom;
use sexp::Sexp;

#[test]
fn show_an_error() {
    assert_eq!(parse("(aaaa").unwrap_err().to_string(), "1:4: unexpected eof");
}

#[test]
fn line_and_col_test() {
    let s = "0123456789\n0123456789\n\n6";
    assert_eq!(get_line_and_column(s, 4), (1, 4));

    assert_eq!(get_line_and_column(s, 10), (2, 0));
    assert_eq!(get_line_and_column(s, 11), (2, 0));
    assert_eq!(get_line_and_column(s, 15), (2, 4));

    assert_eq!(get_line_and_column(s, 21), (3, 0));
    assert_eq!(get_line_and_column(s, 22), (4, 0));
    assert_eq!(get_line_and_column(s, 23), (4, 0));
    assert_eq!(get_line_and_column(s, 500), (4, 0));
}

#[test]
fn test_hello_world() {
    assert_eq!(
        parse("(hello -42\n\t  -4.0 \"world\") ; comment").unwrap(),
        list(&[
            atom_s("hello"),
            atom_i(-42),
            Sexp::Atom(Atom::F("-4.0".to_string())),
            atom_s("world")
        ])
    );
}

#[test]
fn test_escaping() {
    assert_eq!(
        parse("(\"\\\"\\q\" \"1234\" 1234)").unwrap(),
        list(&[atom_s("\"\\q"), atom_s("1234"), atom_i(1234)])
    );
}

#[test]
fn test_pp() {
    let s = "(hello world (what is (up) (4 6.4 you \"123\\\\ \\\"\")))";
    let sexp = parse(s).unwrap();
    assert_eq!(s, sexp.to_string());
    assert_eq!(s, sexp.to_string());
}

#[test]
fn test_tight_parens() {
    let s = "(hello(world))";
    let sexp = parse(s).unwrap();
    assert_eq!(
        sexp,
        Sexp::List(vec![
            Sexp::Atom(Atom::S("hello".into())),
            Sexp::List(vec![Sexp::Atom(Atom::S("world".into()))])
        ])
    );
    let s = "(this (has)tight(parens))";
    let s2 = "( this ( has ) tight ( parens ) )";
    assert_eq!(parse(s).unwrap(), parse(s2).unwrap());
}

#[test]
fn test_space_in_atom() {
    let sexp = list(&[atom_s("hello world")]);
    let sexp_as_string = sexp.to_string();
    assert_eq!("(\"hello world\")", sexp_as_string);
    assert_eq!(sexp, parse(&sexp_as_string).unwrap());
}
