use proc_macro2::TokenStream;
use ragu::maybe_cast::{decimal, evaluate, generate_impl_for_size, parts, Part, TupleSizeError};
use std::str::FromStr;

fn tokens(text: &str) -> String {
    TokenStream::from_str(text).unwrap().to_string()
}

#[test]
fn test_generate_2tuple() {
    let output = generate_impl_for_size(2);
    let expected = "
        impl<T0: Send, T1: Send, K: MaybeKind> MaybeCast<(T0, T1,), K> for (T0, T1,) {
            type Output = (K::Rebind<T0>, K::Rebind<T1>,);

            fn empty() -> Self::Output {
                (K::empty(), K::empty(),)
            }

            fn cast(self) -> Self::Output {
                (K::maybe_just(|| self.0), K::maybe_just(|| self.1),)
            }
        }
    ";
    assert_eq!(tokens(&output), tokens(expected));
}

#[test]
fn test_evaluate() {
    // Test with 4 to generate implementations for sizes 2 and 3 (exclusive upper bound)
    let output = evaluate(4).unwrap();
    assert!(!output.is_empty());

    // Verify it contains impl for 2-tuple and 3-tuple, but not 4-tuple
    let output_str = tokens(&output);
    assert!(output_str.contains("T0"));
    assert!(output_str.contains("T1"));
    assert!(output_str.contains("T2"));
    assert!(!output_str.contains("T3"));
}

#[test]
fn test_evaluate_minimum() {
    // Test minimum valid input (2 generates nothing, since range is 2..2)
    let output = evaluate(2).unwrap();
    assert_eq!(tokens(&output), "");
}

#[test]
fn test_evaluate_error() {
    // Test that values less than 2 produce an error
    assert!(evaluate(1).is_err());
}

#[test]
fn sizes_below_two_are_refused_with_their_size() {
    assert_eq!(evaluate(0), Err(TupleSizeError::TooSmall(0)));
    assert_eq!(evaluate(1), Err(TupleSizeError::TooSmall(1)));
    assert_eq!(
        TupleSizeError::TooSmall(1).message(),
        "max tuple size must be at least 2"
    );
}

#[test]
fn numbers_are_written_in_decimal() {
    assert_eq!(decimal(0), "0");
    assert_eq!(decimal(7), "7");
    assert_eq!(decimal(10), "10");
    assert_eq!(decimal(4096), "4096");
    assert_eq!(parts(Part::Type, 3), "T0, T1, T2, ");
    assert_eq!(parts(Part::Cast, 0), "");
    assert!(generate_impl_for_size(12).contains("K::maybe_just(|| self.11), "));
}

#[test]
fn the_implementations_come_in_the_order_of_their_sizes() {
    let text = evaluate(5).unwrap();
    let expected = format!(
        "{}{}{}",
        generate_impl_for_size(2),
        generate_impl_for_size(3),
        generate_impl_for_size(4)
    );
    assert_eq!(text, expected);
}
