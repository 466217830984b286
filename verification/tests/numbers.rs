use rag_service::bits::{at_least, finite, greater, nan};
use rag_service::ranking::ranked;
use rag_service::text::{
    blank, chars_of, joined, push_decimal, read_i32, read_number, same_text, string_of, trimmed,
};

const SAMPLE: [f32; 13] = [
    f32::NEG_INFINITY,
    f32::MIN,
    -1.5,
    -1.0e-45,
    -0.0,
    0.0,
    1.0e-45,
    0.25,
    1.0,
    1.0000001,
    f32::MAX,
    f32::INFINITY,
    f32::NAN,
];

#[test]
fn patterns_compare_as_numbers() {
    for a in SAMPLE {
        for b in SAMPLE {
            let (x, y) = (a.to_bits(), b.to_bits());
            assert_eq!(greater(x, y), a > b, "{a} {b}");
            assert_eq!(at_least(x, y), a >= b, "{a} {b}");
        }
        assert_eq!(finite(a.to_bits()), a.is_finite());
        assert_eq!(nan(a.to_bits()), a.is_nan());
    }
}

#[test]
fn equal_scores_keep_their_order() {
    let items: Vec<(u64, u32)> = [(1, 0.5f32), (2, 0.75), (3, 0.5), (4, -1.0), (5, 0.75), (6, -0.0), (7, 0.0)]
        .iter()
        .map(|(id, x)| (*id, x.to_bits()))
        .collect();
    let ids: Vec<u64> = ranked(&items).iter().map(|p| p.0).collect();
    assert_eq!(ids, vec![2, 5, 1, 3, 6, 7, 4]);
    assert!(ranked(&Vec::<(u64, u32)>::new()).is_empty());
}

#[test]
fn white_space_is_unicodes() {
    for n in 0..=0x10ffff {
        if let Some(c) = char::from_u32(n) {
            assert_eq!(blank(&c.to_string()), c.is_whitespace(), "{n:x}");
        }
    }
    assert!(blank(""));
    for text in ["", " ", " a b ", "\u{3000}文\u{a0}", "x"] {
        assert_eq!(trimmed(text), text.trim());
    }
}

#[test]
fn numbers_are_read_and_written() {
    for text in ["", "0", "007", "+5", "-5", "+", "-", "4294967295", "4294967296", " 1", "1 ", "٣", "--1", "+-1"] {
        assert_eq!(
            read_number(text, u32::MAX as u64),
            text.parse::<u32>().ok().map(|n| n as u64),
            "{text:?}"
        );
        assert_eq!(read_i32(text), text.parse::<i32>().ok(), "{text:?}");
    }
    assert_eq!(read_i32("-2147483648"), Some(i32::MIN));
    assert_eq!(read_i32("-0"), Some(0));
    for n in [0u64, 9, 10, 12345, u64::MAX] {
        let mut s = "n=".to_string();
        push_decimal(&mut s, n);
        assert_eq!(s, format!("n={n}"));
    }
}

#[test]
fn strings_are_taken_apart_and_put_together() {
    let chars = chars_of("一b三");
    assert_eq!(chars, vec!['一', 'b', '三']);
    assert_eq!(string_of(&chars, 1, 3), "b三");
    assert_eq!(joined("一", "b"), "一b");
    assert!(same_text("一b", "一b"));
    assert!(!same_text("一b", "一"));
    assert!(!same_text("一b", "一c"));
}
