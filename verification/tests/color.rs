use opcodec::color::operator::{apply_operator, OPERATOR_COUNT};
use opcodec::color::Color;

#[test]
fn distance_is_the_squared_euclidean_distance() {
    let a = Color { r: 1, g: 2, b: 3 };
    let b = Color { r: 4, g: 6, b: 3 };
    assert_eq!(a.distance(&b), 25);
    assert_eq!(b.distance(&a), 25);
    assert_eq!(a.distance(&a), 0);
}

#[test]
fn distance_of_extreme_colors() {
    let black = Color { r: 0, g: 0, b: 0 };
    let white = Color { r: 255, g: 255, b: 255 };
    assert_eq!(black.distance(&white), 3 * 255 * 255);
}

#[test]
fn there_are_one_hundred_operators() {
    assert_eq!(OPERATOR_COUNT, 100);
}

#[test]
fn basic_operators() {
    let b = Color { r: 200, g: 10, b: 5 };
    let i = Color { r: 100, g: 20, b: 3 };
    assert_eq!(apply_operator(0, b, i), Color { r: 44, g: 30, b: 8 });
    assert_eq!(apply_operator(1, b, i), Color { r: 100, g: 246, b: 2 });
    assert_eq!(apply_operator(2, b, i), Color { r: 156, g: 10, b: 254 });
    assert_eq!(apply_operator(3, b, i), Color { r: 44, g: 10, b: 5 });
    assert_eq!(apply_operator(4, b, i), Color { r: 44, g: 20, b: 3 });
    assert_eq!(apply_operator(5, b, i), b);
    assert_eq!(apply_operator(6, b, i), i);
    assert_eq!(apply_operator(7, b, i), Color { r: 200, g: 20, b: 5 });
    assert_eq!(apply_operator(8, b, i), Color { r: 100, g: 10, b: 3 });
    assert_eq!(apply_operator(9, b, i), Color { r: 150, g: 15, b: 4 });
}

#[test]
fn saturating_and_inverting_operators() {
    let b = Color { r: 200, g: 10, b: 5 };
    let i = Color { r: 100, g: 20, b: 3 };
    assert_eq!(apply_operator(13, b, i), Color { r: 255, g: 30, b: 8 });
    assert_eq!(apply_operator(14, b, i), Color { r: 100, g: 0, b: 2 });
    assert_eq!(apply_operator(15, b, i), Color { r: 100, g: 10, b: 2 });
    assert_eq!(apply_operator(16, b, i), Color { r: 55, g: 245, b: 250 });
    assert_eq!(apply_operator(19, b, i), Color { r: 200 ^ 100, g: 10 ^ 20, b: 5 ^ 3 });
}

#[test]
fn threshold_average_is_symmetric() {
    let b = Color { r: 200, g: 10, b: 128 };
    let i = Color { r: 100, g: 20, b: 127 };
    assert_eq!(apply_operator(84, b, i), Color { r: 255, g: 0, b: 0 });
    assert_eq!(apply_operator(84, b, i), apply_operator(84, i, b));
}

#[test]
fn hard_light_is_overlay_swapped() {
    let b = Color { r: 200, g: 10, b: 128 };
    let i = Color { r: 100, g: 220, b: 127 };
    assert_eq!(apply_operator(62, b, i), apply_operator(43, i, b));
    assert_eq!(apply_operator(62, i, b), apply_operator(43, b, i));
}

#[test]
fn subtraction_undoes_addition() {
    let b = Color { r: 200, g: 10, b: 5 };
    let i = Color { r: 100, g: 20, b: 3 };
    assert_eq!(apply_operator(1, apply_operator(0, b, i), i), b);
    assert_eq!(apply_operator(0, apply_operator(1, b, i), i), b);
}
