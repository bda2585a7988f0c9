use floor_packing::fmt::fmt_iter;
use floor_packing::fmt::make_floor_list_str;

#[test]
fn empty_list() {
    assert_eq!(make_floor_list_str(&vec![]), "");
    assert_eq!(fmt_iter(&vec![]), "[]");
}

#[test]
fn single_element() {
    assert_eq!(make_floor_list_str(&vec![7]), "7");
    assert_eq!(fmt_iter(&vec![7]), "[7]");
}

#[test]
fn several_elements() {
    assert_eq!(make_floor_list_str(&vec![0, 2, 5]), "0, 2, 5");
    assert_eq!(fmt_iter(&vec![0, 2, 5]), "[0, 2, 5]");
}

#[test]
fn multi_digit_numbers() {
    assert_eq!(make_floor_list_str(&vec![105, 10, 0]), "105, 10, 0");
    assert_eq!(fmt_iter(&vec![1234567890]), "[1234567890]");
}
