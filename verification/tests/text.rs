use convolutional_stack::text::decimal_string;
use convolutional_stack::{
    append_before, bin_to_char, format_bin, format_bin_with_error, format_gens, max_len, spacing,
    CodePath,
};

#[test]
fn bits_are_written_as_characters() {
    assert_eq!(bin_to_char(&0), '0');
    assert_eq!(bin_to_char(&1), '1');
    assert_eq!(format_bin(&vec![1, 0, 1, 1, 0]), "10110");
    assert_eq!(format_bin(&vec![]), "");
}

#[test]
fn spacing_sets_a_blank_before_each_piece() {
    assert_eq!(spacing("111001", 3), " 111 001");
    assert_eq!(spacing("111001", 1), " 1 1 1 0 0 1");
    assert_eq!(spacing("111001", 6), " 111001");
    assert_eq!(spacing("", 4), "");
}

#[test]
fn append_before_interleaves() {
    assert_eq!(append_before(&vec![1, 2, 3], 0), vec![0, 1, 0, 2, 0, 3]);
    assert_eq!(append_before(&vec!["a", "b"], "-"), vec!["-", "a", "-", "b"]);
    assert_eq!(append_before(&Vec::<u8>::new(), 7), Vec::<u8>::new());
}

#[test]
fn received_bits_are_marked_where_they_differ() {
    assert_eq!(
        format_bin_with_error(&vec![1, 0, 1], &vec![1, 1, 1]),
        "<span>1</span><span foreground=\"red\">1</span><span>1</span>"
    );
    assert_eq!(format_bin_with_error(&vec![0], &vec![0, 1, 1]), "<span>0</span>");
    assert_eq!(format_bin_with_error(&vec![0, 1, 1], &vec![1]), "<span foreground=\"red\">1</span>");
    assert_eq!(format_bin_with_error(&vec![], &vec![1]), "");
}

#[test]
fn generators_are_written_as_polynomials() {
    assert_eq!(
        format_gens(&vec![vec![1, 0, 1], vec![1, 1, 1]]),
        "1 + x<sup>2</sup>\n1 + x<sup>1</sup> + x<sup>2</sup>"
    );
    assert_eq!(format_gens(&vec![vec![1, 0, 1, 1]]), "1 + x<sup>2</sup> + x<sup>3</sup>");
    assert_eq!(format_gens(&vec![vec![0, 1]]), "0 + x<sup>1</sup>");
    assert_eq!(format_gens(&vec![vec![1], vec![0]]), "1\n0");
    let mut long = vec![0u8; 13];
    long[0] = 1;
    long[12] = 1;
    assert_eq!(format_gens(&vec![long]), "1 + x<sup>12</sup>");
}

#[test]
fn numbers_are_written_in_decimal() {
    for n in [0usize, 1, 9, 10, 11, 99, 100, 101, 1234567890, usize::MAX] {
        assert_eq!(decimal_string(n), format!("{}", n));
    }
}

#[test]
fn max_len_is_the_longest_path() {
    let short = CodePath { path: vec![1], code: vec![], mu: 0 };
    let long = CodePath { path: vec![1, 0, 1], code: vec![], mu: -5 };
    let middle = CodePath { path: vec![1, 0], code: vec![], mu: 3 };
    assert_eq!(max_len(&vec![short.clone(), long.clone(), middle.clone()]), 3);
    assert_eq!(max_len(&vec![long, short, middle]), 3);
    assert_eq!(max_len(&vec![CodePath::root()]), 0);
}
