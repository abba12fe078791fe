use minmus::math::{abs, gcd, is_prime, lcm, max, min};
use minmus::mutex::Mutex;
use minmus::rand::{CombinedGenerator, FibonacciLCG, MersenneTwister, MiddleSquare, TimeSeed, Xorshift32, LCG, LFSR};
use minmus::string::{
    strcasecmp, strcasencmp, strcat, strchr, strcmp, strcpy, strlen, strlwr, strncat, strncmp, strncpy, strrchr,
    strrev, strrstr, strstr, strupr,
};
use minmus::time::Time;

fn chars(s: &str) -> Vec<char> {
    s.chars().collect()
}

#[test]
fn bcd_and_leap_years() {
    assert_eq!(Time::bcd_to_binary(0x59), 59);
    assert_eq!(Time::bcd_to_binary(0x00), 0);
    assert!(Time::is_leap_year(2024));
    assert!(!Time::is_leap_year(2023));
    assert!(!Time::is_leap_year(1900));
    assert!(Time::is_leap_year(2000));
}

#[test]
fn unix_timestamp_of_known_dates() {
    assert_eq!(Time::get_unix_timestamp((1970, 1, 1, 0, 0, 0)), 0);
    assert_eq!(Time::get_unix_timestamp((2000, 3, 1, 0, 0, 0)), 951868800);
    assert_eq!(Time::get_unix_timestamp((2024, 3, 15, 12, 34, 56)), 1710506096);
}

#[test]
fn time_from_clock_registers() {
    let t = Time::init((0x56, 0x34, 0x12, 0x15, 0x03, 0x24), 99);
    assert_eq!(t.get_year(), 2024);
    assert_eq!(t.get_month(), 3);
    assert_eq!(t.get_day(), 15);
    assert_eq!(t.get_hour(), 12);
    assert_eq!(t.get_minute(), 34);
    assert_eq!(t.get_second(), 56);
    assert_eq!(t.get_timestamp(), 1710506096);
    assert_eq!(t.get_ticks(), 99);
    assert_eq!(Time::get_cpu_ticks(5, 1), 0x1_0000_0005);
}

#[test]
fn integer_helpers() {
    assert_eq!(max(3, -4), 3);
    assert_eq!(min(3, -4), -4);
    assert_eq!(abs(-17), 17);
    assert_eq!(gcd(12, -18), 6);
    assert_eq!(gcd(0, 0), 0);
    assert_eq!(gcd(-7, 0), 7);
    assert_eq!(lcm(4, 6), 12);
    assert_eq!(lcm(-4, 6), -12);
}

#[test]
fn primes() {
    let small: Vec<i64> = (0..40).filter(|&n| is_prime(n)).collect();
    assert_eq!(small, vec![2, 3, 5, 7, 11, 13, 17, 19, 23, 29, 31, 37]);
    assert!(is_prime(1_000_000_007));
    assert!(!is_prime(25));
    assert!(!is_prime(49));
    assert!(!is_prime(-7));
    assert!(is_prime(9_223_372_036_854_775_783));
}

#[test]
fn generators() {
    let mut lcg = LCG::new(0);
    assert_eq!(lcg.next(), 1013904223);
    let mut xs = Xorshift32::new(1);
    assert_eq!(xs.next(), 270369);
    let mut ms = MiddleSquare::new(1234);
    assert_eq!(ms.next(), 5948);
    let mut fib = FibonacciLCG::new(0xFFFF_FFFF, 2);
    assert_eq!(fib.next(), 1);
    assert_eq!(fib.next(), 3);
    let mut mt = MersenneTwister::new(5489);
    assert_eq!(mt.next(), 3499211612);
    let mut ts = TimeSeed::new(0x1_0000_0001);
    assert_eq!(ts.next(), 270369);
    let mut lfsr = LFSR::new(0xACE1);
    assert_eq!(lfsr.next(), 22128);
    let mut comb = CombinedGenerator::new(0, 1);
    assert_eq!(comb.next(), 1013633918);
}

#[test]
fn lock_hands_value_out_once() {
    let mut m = Mutex::new(5u32);
    assert!(m.is_available());
    *m.acquire_mut() += 1;
    assert!(!m.is_available());
    m.free();
    assert_eq!(*m.acquire(), 6);
    m.free();
    assert!(m.is_available());
}

#[test]
fn string_lengths_and_search() {
    assert_eq!(strlen(&chars("abc\0def")), 3);
    assert_eq!(strlen(&chars("abc")), 3);
    assert_eq!(strchr(&chars("hello"), 'l'), 2);
    assert_eq!(strrchr(&chars("hello"), 'l'), 3);
    assert_eq!(strchr(&chars("hello"), 'z'), -1);
    assert_eq!(strstr(&chars("abcabc"), &chars("ca")), 2);
    assert_eq!(strstr(&chars("abcabc"), &chars("")), 0);
    assert_eq!(strstr(&chars("abcabc"), &chars("cb")), -1);
    assert_eq!(strrstr(&chars("abcabc"), &chars("bc")), 4);
    assert_eq!(strrstr(&chars("abc"), &chars("")), 3);
    assert_eq!(strrstr(&chars("abc"), &chars("x")), -1);
}

#[test]
fn string_comparisons() {
    assert_eq!(strcmp(&chars("abc"), &chars("abd")), -1);
    assert_eq!(strcmp(&chars("abc"), &chars("abc")), 0);
    assert_eq!(strcmp(&chars("abcd"), &chars("ab")), 2);
    assert_eq!(strcasecmp(&chars("HeLLo"), &chars("hello")), 0);
    assert_eq!(strcasecmp(&chars("B"), &chars("a")), 1);
    assert_eq!(strncmp(&chars("abcx"), &chars("abcy"), 3), 0);
    assert_eq!(strncmp(&chars("ab"), &chars("abc"), 3), -1);
    assert_eq!(strcasencmp(&chars("ABCx"), &chars("abcy"), 3), 0);
    assert_eq!(strcasencmp(&chars("ABCx"), &chars("abcy"), 4), -1);
}

#[test]
fn string_copies() {
    let mut buf = chars("ab\0\0\0\0");
    assert_eq!(strcat(&mut buf, &chars("cdefg")).to_vec(), chars("abcdef"));
    let mut buf = chars("ab\0\0\0\0");
    assert_eq!(strncat(&mut buf, &chars("cdefg"), 2).to_vec(), chars("abcd\0\0"));
    let mut buf = chars("xxxxx");
    assert_eq!(strcpy(&mut buf, &chars("ab")).to_vec(), chars("ab\0xx"));
    let mut buf = chars("xxxxx");
    assert_eq!(strncpy(&mut buf, &chars("ab"), 4).to_vec(), chars("ab\0\0x"));
}

#[test]
fn string_case_and_reverse() {
    let mut s = chars("Hello, World\0abc");
    assert_eq!(strupr(&mut s).to_vec(), chars("HELLO, WORLD\0abc"));
    let mut s = chars("Hello, World\0ABC");
    assert_eq!(strlwr(&mut s).to_vec(), chars("hello, world\0ABC"));
    let mut s = chars("abcde");
    assert_eq!(strrev(&mut s).to_vec(), chars("edcba"));
}
