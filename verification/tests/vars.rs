use iwwc::config::resolver::vars::referenced_vars;

#[test]
fn referenced_vars_in_blocks() {
    assert_eq!(referenced_vars("${a} + ${b.c}"), vec!["a", "b.c"]);
    assert_eq!(referenced_vars("${min(a, b)}"), vec!["min", "a", "b"]);
    assert_eq!(referenced_vars("${ a_b2 *2}"), vec!["a_b2"]);
    assert_eq!(referenced_vars("${iwwc.ram.total/1024}"), vec!["iwwc.ram.total"]);
}

#[test]
fn referenced_vars_skips_leading_digits_and_plain_text() {
    assert_eq!(referenced_vars("${1x}"), vec!["x"]);
    assert_eq!(referenced_vars("$a {b} plain"), Vec::<String>::new());
    assert_eq!(referenced_vars(""), Vec::<String>::new());
    assert_eq!(referenced_vars("$"), Vec::<String>::new());
}

#[test]
fn referenced_vars_unterminated_block_reads_to_end() {
    assert_eq!(referenced_vars("x ${a"), vec!["a"]);
    assert_eq!(referenced_vars("é${ü v}"), vec!["v"]);
}
