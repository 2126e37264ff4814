use rustlessons::borrowing::{capitalize_first, count_words, first_word as first_word_ref, max_in_slice};
use rustlessons::calc::{classify_input, select_operation, sum_difference_product, Command, Operation};
use rustlessons::functions::{first_multiple_of_both, fizzbuzz, is_even};
use rustlessons::moves::{add_item, concatenate};
use rustlessons::ownership::{
    exclamation, first_word, first_word_2, greet, longest_of_three, uppercase,
};

#[test]
fn parity() {
    assert!(is_even(10));
    assert!(!is_even(7));
    assert!(is_even(-4));
    assert!(!is_even(-3));
    assert!(is_even(0));
}

#[test]
fn fizzbuzz_words() {
    assert_eq!(fizzbuzz(15), "FizzBuzz");
    assert_eq!(fizzbuzz(9), "Fizz");
    assert_eq!(fizzbuzz(10), "Buzz");
    assert_eq!(fizzbuzz(7), "7");
    assert_eq!(fizzbuzz(-7), "-7");
    assert_eq!(fizzbuzz(-30), "FizzBuzz");
    assert_eq!(fizzbuzz(0), "FizzBuzz");
    let line: Vec<String> = (1..=5).map(fizzbuzz).collect();
    assert_eq!(line, vec!["1", "2", "Fizz", "4", "Buzz"]);
}

#[test]
fn first_multiple_of_three_and_seven() {
    assert_eq!(first_multiple_of_both(3, 7), 21);
    assert_eq!(first_multiple_of_both(4, 6), 12);
    assert_eq!(first_multiple_of_both(1, 1), 1);
}

#[test]
fn operations_and_their_failures() {
    assert!(matches!(select_operation("+", false, false, false), Ok(Operation::Add)));
    assert!(matches!(select_operation("-", true, true, true), Ok(Operation::Subtract)));
    assert!(matches!(select_operation("*", false, true, false), Ok(Operation::Multiply)));
    assert!(matches!(select_operation("/", false, false, true), Ok(Operation::Divide)));
    assert!(matches!(select_operation("%", false, false, false), Ok(Operation::Remainder)));
    assert!(matches!(select_operation("^", true, false, false), Ok(Operation::Power)));
    assert!(matches!(select_operation("^", false, false, true), Ok(Operation::Power)));
    for (op, a0, b0, bneg) in [("/", false, true, false), ("%", true, true, false), ("^", true, false, true)] {
        match select_operation(op, a0, b0, bneg) {
            Err(e) => assert_eq!(e, "Деление на ноль!"),
            Ok(_) => panic!("{op} should fail"),
        }
    }
    match select_operation("**", false, false, false) {
        Err(e) => assert_eq!(e, "Неизвестная операция: **"),
        Ok(_) => panic!("** is no operation"),
    }
}

#[test]
fn commands_at_the_prompt() {
    assert!(matches!(classify_input("выход"), Command::Exit));
    assert!(matches!(classify_input("exit"), Command::Exit));
    assert!(matches!(classify_input("помощь"), Command::Help));
    assert!(matches!(classify_input("help"), Command::Help));
    assert!(matches!(classify_input("1 +"), Command::Malformed));
    assert!(matches!(classify_input("1 + 2 3"), Command::Malformed));
    assert!(matches!(classify_input(""), Command::Malformed));
    match classify_input("last  *\t2.5") {
        Command::Expression { left, op, right } => {
            assert_eq!(left, "last");
            assert_eq!(op, "*");
            assert_eq!(right, "2.5");
        }
        _ => panic!("an expression was expected"),
    }
}

#[test]
fn integer_arithmetic() {
    assert_eq!(sum_difference_product(7, 3), (10, 4, 21));
    assert_eq!(sum_difference_product(-2, 5), (3, -7, -10));
}

#[test]
fn first_words() {
    assert_eq!(first_word("some value".to_string()), "some");
    assert_eq!(first_word("nospace".to_string()), "nospace");
    assert_eq!(first_word(" lead".to_string()), "");
    assert_eq!(first_word("".to_string()), "");
    let (slice, s) = first_word_2("some value".to_string());
    assert_eq!(slice, "some");
    assert_eq!(s, "some value");
    assert_eq!(first_word_ref("Hello, world!"), "Hello,");
    assert_eq!(first_word_ref("Some"), "Some");
    assert_eq!(first_word_ref("при вет"), "при");
}

#[test]
fn longest_by_bytes() {
    let r = longest_of_three(
        "first string".to_string(),
        "second string".to_string(),
        "третья строка".to_string(),
    );
    assert_eq!(r, "третья строка");
    assert_eq!(longest_of_three("ab".into(), "cd".into(), "e".into()), "ab");
    assert_eq!(longest_of_three("a".into(), "cd".into(), "ef".into()), "cd");
    assert_eq!(longest_of_three("я".into(), "ab".into(), "c".into()), "я");
}

#[test]
fn greeting_chain() {
    assert_eq!(exclamation("world".to_string()), "world!");
    assert_eq!(uppercase("world!".to_string()), "WORLD!");
    assert_eq!(uppercase("straße".to_string()), "straße".to_uppercase());
    assert_eq!(greet(uppercase(exclamation("world".to_string()))), "Привет, WORLD!");
}

#[test]
fn moves() {
    assert_eq!(concatenate("Some".to_string(), "thing".to_string()), "Something");
    let v = vec!["Some".to_string(), "string".to_string()];
    let v = add_item(v, "yay".to_string());
    let v = add_item(v, "yay".to_string());
    assert_eq!(v, vec!["Some", "string", "yay", "yay"]);
}

#[test]
fn borrowing() {
    assert_eq!(count_words("Some long string"), 3);
    assert_eq!(count_words("   "), 0);
    let mut s = String::from("привет");
    capitalize_first(&mut s);
    assert_eq!(s, "Привет");
    let mut empty = String::new();
    capitalize_first(&mut empty);
    assert_eq!(empty, "");
    let mut sharp = String::from("ßa");
    capitalize_first(&mut sharp);
    assert_eq!(sharp, "SSa");
    assert_eq!(max_in_slice(&[-2, 3, 23, 6, 0, 10]), Some(23));
    assert_eq!(max_in_slice(&[-5]), Some(-5));
    assert_eq!(max_in_slice(&[-5, -9]), Some(-5));
    assert_eq!(max_in_slice(&[]), None);
}

#[test]
fn first_word_is_a_prefix_up_to_the_first_space() {
    for s in ["a b c", "abc", " x", "", "при вет"] {
        let w = first_word(s.to_string());
        assert!(s.starts_with(w.as_str()));
        assert!(!w.contains(' '));
        let rest = &s[w.len()..];
        assert!(rest.is_empty() || rest.starts_with(' '));
        assert_eq!(first_word_ref(s), w);
    }
}
