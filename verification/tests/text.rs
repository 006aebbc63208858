use iron_scout_cad::text::{plain_text, str_lt};

#[test]
fn plain_text_drops_the_codes_and_keeps_what_depends_on_the_font() {
    assert_eq!(plain_text("%%uA%%u %%d%%p0.1"), "A \u{b0}\u{b1}0.1");
    assert_eq!(plain_text("90%%127"), "90%%127");
    assert_eq!(plain_text("100%%%"), "100%");
    assert_eq!(plain_text("plain"), "plain");
}

#[test]
fn a_diameter_code_reads_as_its_sign() {
    assert_eq!(plain_text("%%c32"), "\u{2300}32");
    assert_eq!(plain_text("%%uDWG NO"), "DWG NO");
}

#[test]
fn strings_sort_by_their_characters() {
    assert!(str_lt("BP-1042", "BP-2077"));
    assert!(!str_lt("BP-2077", "BP-1042"));
    assert!(str_lt("AB", "ABC"));
    assert!(!str_lt("ABC", "ABC"));
}

#[test]
fn a_text_without_percent_codes_reads_as_itself() {
    assert_eq!(plain_text("DWG NO"), "DWG NO");
    assert_eq!(plain_text("50% \\P"), "50% \\P");
    assert_eq!(plain_text(""), "");
}
