use localoco::util::{insert, table_file_name};

const OUT_OF_RANGE: &str = "<failed insertion due to array out-of-range>";
const INVALID_NUMBER: &str = "<failed insertion due to invalid number format>";
const INVALID_FORMAT: &str = "<invalid format>";

#[test]
fn test_insert() {
    let result = insert(
        "The {2} fox jumps {0} the lazy {1}{20}",
        &[
            "over", "dog", "brown", "", "", "",
            "over", "dog", "brown", "", "", "",
            "over", "dog", "brown", "", "", "",
            "over", "dog", "?", "", "", "",
            "?", "dog", "brown", "", "", "",
        ],
    );
    assert_eq!(result, "The brown fox jumps over the lazy dog?");
}

#[test]
fn insert_replaces_a_placeholder() {
    assert_eq!(insert("Hello, {0}!", &["World"]), "Hello, World!");
}

#[test]
fn insert_unescapes_doubled_braces() {
    assert_eq!(insert("{{literal}}", &[]), "{literal}");
}

#[test]
fn insert_marks_an_index_past_the_arguments() {
    assert_eq!(insert("{5}", &["a", "b"]), OUT_OF_RANGE);
    assert_eq!(insert("a{2}b", &["x", "y"]), format!("a{}b", OUT_OF_RANGE));
    assert_eq!(insert("{0}", &[]), OUT_OF_RANGE);
}

#[test]
fn insert_unescapes_a_closing_brace_at_the_start() {
    assert_eq!(insert("}} at end", &[]), "} at end");
}

#[test]
fn insert_marks_digits_that_are_no_index() {
    assert_eq!(insert("{9999999999999999999}", &[]), INVALID_NUMBER);
    assert_eq!(insert("<{99999999999999999999999999999999}>", &["a"]), format!("<{}>", INVALID_NUMBER));
}

#[test]
fn insert_draws_the_line_at_the_largest_index() {
    assert_eq!(insert("{4294967296}", &["a"]), OUT_OF_RANGE);
    assert_eq!(insert("{9223372036854775807}", &["a"]), OUT_OF_RANGE);
    assert_eq!(insert("{9223372036854775808}", &["a"]), INVALID_NUMBER);
    assert_eq!(insert("{9223372036854775810}", &["a"]), INVALID_NUMBER);
    assert_eq!(insert("{92233720368547758070}", &["a"]), INVALID_NUMBER);
    assert_eq!(insert("{18446744073709551616}", &["a"]), INVALID_NUMBER);
    assert_eq!(insert("{09223372036854775807}", &["a"]), OUT_OF_RANGE);
}

#[test]
fn insert_gives_up_on_a_broken_digit_run() {
    assert_eq!(insert("{0x}", &["a"]), INVALID_FORMAT);
    assert_eq!(insert("before {1 after", &["a", "b"]), INVALID_FORMAT);
    assert_eq!(insert("{0}{1{", &["a", "b"]), INVALID_FORMAT);
    assert_eq!(insert("kept {0} lost {1-}", &["a", "b"]), INVALID_FORMAT);
}

#[test]
fn insert_drops_an_open_brace_that_opens_nothing() {
    assert_eq!(insert("a{b}c", &["x"]), "a}c");
    assert_eq!(insert("{ }", &[]), "");
    assert_eq!(insert("{x{0}", &["v"]), "v");
    assert_eq!(insert("{x0}", &["v"]), "0");
}

#[test]
fn insert_keeps_a_single_closing_brace() {
    assert_eq!(insert("x}y", &[]), "x}y");
    assert_eq!(insert("}{0}", &["a"]), "}{0");
    assert_eq!(insert("}}}}", &[]), "}}");
}

#[test]
fn insert_drops_what_is_pending_at_the_end() {
    assert_eq!(insert("x}", &[]), "x");
    assert_eq!(insert("x{", &[]), "x");
    assert_eq!(insert("x{12", &["a"]), "x");
    assert_eq!(insert("", &["a"]), "");
}

#[test]
fn insert_reads_leading_zeros() {
    assert_eq!(insert("{007}", &["0", "1", "2", "3", "4", "5", "6", "7"]), "7");
    assert_eq!(insert("{0000000000000000000000000000001}", &["a", "b"]), "b");
}

#[test]
fn insert_repeats_and_orders_arguments() {
    assert_eq!(insert("{1}{0}{1}", &["a", "b"]), "bab");
    assert_eq!(insert("{0}", &["{1}"]), "{1}");
}

#[test]
fn insert_keeps_plain_text() {
    assert_eq!(insert("nothing to do here", &["a"]), "nothing to do here");
}

#[test]
fn insert_handles_text_beyond_ascii() {
    assert_eq!(insert("héllo {0} ✓", &["wörld"]), "héllo wörld ✓");
    assert_eq!(insert("{{简体}} {0}", &["中文"]), "{简体} 中文");
}

#[test]
fn table_file_name_adds_the_extension() {
    assert_eq!(table_file_name("en_US"), "en_US.loc");
    assert_eq!(table_file_name(""), ".loc");
}
