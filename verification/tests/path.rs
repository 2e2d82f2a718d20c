use totient::path::output_path;

#[test]
fn source_suffix_is_replaced() {
    assert_eq!(output_path("prog.phi"), "prog.asm");
    assert_eq!(output_path("dir/sub/main.phi"), "dir/sub/main.asm");
}

#[test]
fn only_the_suffix_is_replaced() {
    assert_eq!(output_path("a.phi.phi"), "a.phi.asm");
    assert_eq!(output_path("x.phi/y.phi"), "x.phi/y.asm");
}

#[test]
fn bare_suffix_is_replaced() {
    assert_eq!(output_path(".phi"), ".asm");
}

#[test]
fn name_without_suffix_is_unchanged() {
    assert_eq!(output_path("noext"), "noext");
    assert_eq!(output_path("prog.txt"), "prog.txt");
    assert_eq!(output_path("x.phi/y"), "x.phi/y");
    assert_eq!(output_path("prog.phi "), "prog.phi ");
    assert_eq!(output_path("prog.PHI"), "prog.PHI");
}

#[test]
fn short_names_are_unchanged() {
    assert_eq!(output_path(""), "");
    assert_eq!(output_path("phi"), "phi");
    assert_eq!(output_path("phi."), "phi.");
    assert_eq!(output_path("a"), "a");
}

#[test]
fn names_beyond_ascii() {
    assert_eq!(output_path("é.phi"), "é.asm");
    assert_eq!(output_path("京都.phi"), "京都.asm");
    assert_eq!(output_path("phié"), "phié");
}
