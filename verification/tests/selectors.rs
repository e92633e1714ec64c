use opcodec::code::operator_selectors::{
    best_effort, best_effort_selector, decode, OperatorIndexImage, OperatorSelector,
    SelectorDecoder, SelectorEncoder,
};
use opcodec::color::operator::apply_operator;
use opcodec::color::Color;

#[test]
fn image_keeps_its_parts() {
    let first = Color { r: 1, g: 2, b: 3 };
    let second = Color { r: 4, g: 5, b: 6 };
    let img = OperatorIndexImage::new(first, second, vec![7, 8]);
    assert_eq!(img.first_pixel, first);
    assert_eq!(img.second_pixel, second);
    assert_eq!(img.operator_index_list, vec![7, 8]);
}

#[test]
fn exact_sum_is_the_first_operator() {
    let a = Color { r: 10, g: 20, b: 30 };
    let b = Color { r: 1, g: 2, b: 3 };
    let c = Color { r: 11, g: 22, b: 33 };
    let img = best_effort(&[a, b, c]);
    assert_eq!(img.first_pixel, a);
    assert_eq!(img.second_pixel, b);
    assert_eq!(img.operator_index_list, vec![0]);
    assert_eq!(decode(&img), vec![a, b, c]);
}

#[test]
fn constant_pixels_pass_the_base() {
    let c = Color { r: 10, g: 20, b: 30 };
    let img = best_effort(&[c, c, c, c]);
    assert_eq!(img.operator_index_list, vec![5, 5]);
    assert_eq!(decode(&img), vec![c, c, c, c]);
}

#[test]
fn two_pixels_need_no_operator() {
    let a = Color { r: 0, g: 0, b: 0 };
    let b = Color { r: 9, g: 9, b: 9 };
    let img = best_effort(&[a, b]);
    assert!(img.operator_index_list.is_empty());
    assert_eq!(decode(&img), vec![a, b]);
}

#[test]
fn choices_are_made_from_the_rebuilt_pixels() {
    let pixels = [
        Color { r: 12, g: 200, b: 7 },
        Color { r: 90, g: 3, b: 250 },
        Color { r: 17, g: 64, b: 129 },
        Color { r: 255, g: 0, b: 33 },
        Color { r: 128, g: 128, b: 128 },
    ];
    let img = best_effort(&pixels);
    assert_eq!(img.operator_index_list.len(), 3);
    let rebuilt = decode(&img);
    assert_eq!(rebuilt.len(), 5);
    assert_eq!(rebuilt[0], pixels[0]);
    assert_eq!(rebuilt[1], pixels[1]);
    for k in 0..3 {
        let chosen = img.operator_index_list[k];
        let best = rebuilt[k + 2].distance(&pixels[k + 2]);
        for op in 0..100 {
            let other = apply_operator(op, rebuilt[k], rebuilt[k + 1]).distance(&pixels[k + 2]);
            assert!(best <= other);
            if op < chosen {
                assert!(best < other);
            }
        }
        assert_eq!(rebuilt[k + 2], apply_operator(chosen, rebuilt[k], rebuilt[k + 1]));
    }
}

#[test]
fn selector_runs_its_parts() {
    let selector = best_effort_selector();
    assert!(matches!(selector.encode, SelectorEncoder::BestEffort));
    assert!(matches!(selector.decode, SelectorDecoder::Rebuild));
    let other = OperatorSelector::new(SelectorEncoder::BestEffort, SelectorDecoder::Rebuild);
    let c = Color { r: 10, g: 20, b: 30 };
    let img = other.encode.call(&[c, c, c]);
    assert_eq!(img.operator_index_list, vec![5]);
    assert_eq!(other.decode.call(&img), vec![c, c, c]);
}
