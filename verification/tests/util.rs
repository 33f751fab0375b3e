//! The utility modules: primes, checked arithmetic, text building, the
//! neighbor count, and the command registry.

use trap_the_mouse::checked::Errors;
use trap_the_mouse::life::get_neighbours;
use trap_the_mouse::primes::{is_coprime, is_prime, next_prime, prime};
use trap_the_mouse::terminal::{Command, Terminal};
use trap_the_mouse::textutil::{
    add_chars_n, add_chars_n_ref, add_integer, add_space, add_str, char_to_number,
    char_to_number_hex, p2, to_lowercase, to_uppercase, CharError,
};

#[test]
fn primality_by_halves() {
    assert!(!is_prime(-7));
    assert!(!is_prime(0));
    assert!(!is_prime(1));
    assert!(is_prime(2));
    assert!(is_prime(3));
    assert!(!is_prime(4));
    assert!(!is_prime(9));
    assert!(is_prime(17));
    assert!(!is_prime(25));
    assert!(is_prime(97));
    assert!(!is_prime(91)); // 7 * 13
}

#[test]
fn primality_by_square_root() {
    assert!(!prime(0));
    assert!(!prime(1));
    assert!(prime(2));
    assert!(prime(3));
    assert!(!prime(4));
    assert!(!prime(9));
    assert!(prime(17));
    assert!(!prime(25));
    assert!(prime(65521)); // the largest u16 prime
    assert!(!prime(65535));
}

#[test]
fn next_prime_finds_the_smallest_one_above() {
    assert_eq!(next_prime(7), Some(11));
    assert_eq!(next_prime(10), Some(11));
    assert_eq!(next_prime(2), Some(3));
    assert_eq!(next_prime(65520), Some(65521));
    assert_eq!(next_prime(65521), None);
}

#[test]
fn coprimality() {
    assert!(is_coprime(35, 64));
    assert!(!is_coprime(12, 18));
    assert!(is_coprime(1, 0));
    assert!(!is_coprime(0, 0));
    assert!(is_coprime(17, 17 * 2 + 1));
}

#[test]
fn checked_arithmetic() {
    assert_eq!(trap_the_mouse::checked::add(13, 17), 30);
    assert_eq!(trap_the_mouse::checked::multiply(6, 7), 42);
    assert_eq!(trap_the_mouse::checked::add2(1, 2), Ok(3));
    assert_eq!(trap_the_mouse::checked::add2(u32::MAX, 1), Err(Errors::U32Overflow));
    assert_eq!(trap_the_mouse::checked::multiply2(6, 7), Ok(42));
    assert_eq!(
        trap_the_mouse::checked::multiply2(u32::MAX, 2),
        Err(Errors::U32Overflow)
    );
    assert_eq!(trap_the_mouse::checked::calculate(2, 5, 9), Ok(63));
    assert_eq!(
        trap_the_mouse::checked::calculate(u32::MAX, 1, 1),
        Err(Errors::U32Overflow)
    );
    assert_eq!(
        trap_the_mouse::checked::calculate(u32::MAX - 1, 1, 2),
        Err(Errors::U32Overflow)
    );
}

#[test]
fn case_changes() {
    assert_eq!(to_uppercase('t'), Ok('T'));
    assert_eq!(to_uppercase('3'), Err(CharError::Letter));
    assert_eq!(to_uppercase('T'), Err(CharError::Letter));
    assert_eq!(to_lowercase('T'), Ok('t'));
    assert_eq!(to_lowercase('3'), Err(CharError::Letter));
}

#[test]
fn digit_values() {
    assert_eq!(char_to_number('3'), Ok(3));
    assert_eq!(char_to_number('0'), Ok(0));
    assert_eq!(char_to_number('9'), Ok(9));
    assert_eq!(char_to_number('T'), Err(CharError::Digit));
    assert_eq!(char_to_number('é'), Err(CharError::Ascii));
    assert_eq!(char_to_number_hex('E'), Ok(14));
    assert_eq!(char_to_number_hex('0'), Ok(0));
    assert_eq!(char_to_number_hex('9'), Ok(9));
    assert_eq!(char_to_number_hex('A'), Ok(10));
    assert_eq!(char_to_number_hex('T'), Err(CharError::Base16Digit));
}

#[test]
fn text_builders() {
    assert_eq!(add_chars_n(String::from("ab"), 'c', 3), "abccc");
    let mut s = String::from("x");
    add_chars_n_ref(&mut s, 'y', 2);
    assert_eq!(s, "xyy");
    let mut s = String::new();
    add_space(&mut s, 4);
    assert_eq!(s, "    ");
    let mut s = String::from("I ");
    add_str(&mut s, "RUST");
    assert_eq!(s, "I RUST");
}

#[test]
fn grouped_integers() {
    let mut s = String::new();
    add_integer(&mut s, 306437968);
    assert_eq!(s, "306_437_968");
    let mut s = String::from("n=");
    add_integer(&mut s, -1234);
    assert_eq!(s, "n=-1_234");
    let mut s = String::new();
    add_integer(&mut s, 0);
    assert_eq!(s, "");
    let mut s = String::new();
    add_integer(&mut s, 1000);
    assert_eq!(s, "1_000");
    let mut s = String::new();
    add_integer(&mut s, 999);
    assert_eq!(s, "999");
    let mut s = String::new();
    add_integer(&mut s, i32::MAX);
    assert_eq!(s, "2_147_483_647");
}

#[test]
fn rotation_cipher() {
    assert_eq!(
        p2("abCdFGHiJklmNOpqrStUVXyZ").unwrap(),
        "noPqSTUvWxyzABcdeFgHIKlM"
    );
    assert_eq!(p2(""), Ok(String::new()));
    assert_eq!(p2("nn"), Ok(String::from("aa")));
    assert!(p2("Hel o").is_err());
    assert!(p2("Hel🦀o").is_err());
}

#[test]
fn neighbor_counts() {
    let mut map = [[false; 16]; 16];
    assert_eq!(get_neighbours(&map, 5, 5), 0);
    map[4][4] = true;
    map[4][5] = true;
    map[5][4] = true;
    assert_eq!(get_neighbours(&map, 5, 5), 3);
    // the live cell itself does not count
    map[5][5] = true;
    assert_eq!(get_neighbours(&map, 5, 5), 3);
    // corners see only their three existing neighbors
    let mut map = [[true; 16]; 16];
    map[0][0] = false;
    assert_eq!(get_neighbours(&map, 0, 0), 3);
}

#[test]
fn command_registry() {
    let mut t = Terminal::new();
    assert_eq!(t.commands.len(), 0);
    t.register(Command::Ping);
    t.register(Command::Stop);
    assert_eq!(t.commands.len(), 2);
    assert_eq!(t.commands[0], Command::Ping);
    assert_eq!(t.commands[1], Command::Stop);
}
