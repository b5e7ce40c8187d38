use std::collections::{HashMap, HashSet};

use lokal::generator::{generate, meets_options, password_of_bytes, pick_byte, GenOptions};

const LOWER: &str = "abcdefghijkmnopqrstuvwxyz";
const UPPER: &str = "ABCDEFGHJKLMNPQRSTUVWXYZ";
const DIGITS: &str = "23456789";
const SYMBOLS: &str = "!@#$%&*?-";

#[test]
fn respects_length() {
    for len in [8usize, 16, 32, 64] {
        let pw = generate(GenOptions { length: len, ..Default::default() }).unwrap();
        assert_eq!(pw.expose().chars().count(), len);
    }
}

#[test]
fn honours_charset_toggles() {
    let pw = generate(GenOptions { length: 40, digits: false, symbols: false }).unwrap();
    assert!(
        pw.expose().chars().all(|c| c.is_ascii_alphabetic()),
        "关掉数字和符号后不应出现它们：{}",
        pw.expose()
    );
}

#[test]
fn guarantees_required_classes() {
    for _ in 0..200 {
        let pw = generate(GenOptions { length: 6, digits: true, symbols: true }).unwrap();
        assert!(pw.expose().chars().any(|c| DIGITS.contains(c)), "缺数字：{}", pw.expose());
        assert!(pw.expose().chars().any(|c| SYMBOLS.contains(c)), "缺符号：{}", pw.expose());
    }
}

#[test]
fn excludes_lookalike_characters() {
    let mut seen = HashSet::new();
    for _ in 0..200 {
        let pw = generate(GenOptions { length: 32, ..Default::default() }).unwrap();
        seen.extend(pw.expose().chars());
    }
    for bad in ['l', 'I', '1', 'O', '0'] {
        assert!(!seen.contains(&bad), "形近字符 {bad} 不应出现");
    }
}

#[test]
fn passwords_do_not_repeat() {
    let mut seen = HashSet::new();
    for _ in 0..500 {
        let pw = generate(GenOptions::default()).unwrap();
        assert!(seen.insert(pw.expose().to_string()), "生成了重复密码——随机源有问题");
    }
}

#[test]
fn distribution_is_roughly_uniform() {
    let opts = GenOptions { length: 64, digits: true, symbols: true };
    let pool_len = (LOWER.len() + UPPER.len() + DIGITS.len() + SYMBOLS.len()) as f64;
    let mut counts = HashMap::<char, u32>::new();
    let samples = 400;
    for _ in 0..samples {
        let pw = generate(opts).unwrap();
        for c in pw.expose().chars() {
            *counts.entry(c).or_default() += 1;
        }
    }
    let total = (samples * opts.length) as f64;
    let expected = total / pool_len;
    let max = *counts.values().max().unwrap() as f64;
    let min = *counts.values().min().unwrap() as f64;
    assert!(
        max < expected * 1.5 && min > expected * 0.5,
        "分布偏斜：期望 {expected:.0}，实测 min={min} max={max}"
    );
}

#[test]
fn bytes_pick_every_character_equally_often() {
    for n in [1usize, 2, 3, 49, 57, 58, 66, 70, 128, 129, 255, 256] {
        let pool: Vec<char> = (0..n).map(|i| char::from_u32(0x100 + i as u32).unwrap()).collect();
        let mut counts = vec![0usize; n];
        let mut dropped = 0usize;
        for b in 0..=255u8 {
            match pick_byte(&pool, b) {
                Some(c) => counts[c as usize - 0x100] += 1,
                None => dropped += 1,
            }
        }
        assert!(counts.iter().all(|&k| k == 256 / n), "n = {n}");
        assert_eq!(dropped, 256 % n);
        assert!(dropped < 128);
    }
}

#[test]
fn bytes_behind_the_last_multiple_are_dropped() {
    let pool: Vec<char> = "abc".chars().collect();
    assert_eq!(pick_byte(&pool, 0), Some('a'));
    assert_eq!(pick_byte(&pool, 4), Some('b'));
    assert_eq!(pick_byte(&pool, 254), Some('c'));
    assert_eq!(pick_byte(&pool, 255), None);
}

#[test]
fn a_password_has_at_least_four_characters() {
    for length in 0..6usize {
        let pw = generate(GenOptions { length, digits: true, symbols: true }).unwrap();
        assert_eq!(pw.expose().chars().count(), length.max(4));
    }
}

#[test]
fn every_character_comes_from_the_pool() {
    let all = format!("{LOWER}{UPPER}{DIGITS}{SYMBOLS}");
    let pw = generate(GenOptions { length: 2000, digits: true, symbols: true }).unwrap();
    let seen: HashSet<char> = pw.expose().chars().collect();
    assert_eq!(seen, all.chars().collect::<HashSet<char>>());
}

#[test]
fn kinds_are_asked_for_one_by_one() {
    let o = |digits: bool, symbols: bool| GenOptions { length: 4, digits, symbols };
    assert!(meets_options("abcd", o(false, false)));
    assert!(!meets_options("abcd", o(true, false)));
    assert!(meets_options("ab2d", o(true, false)));
    assert!(!meets_options("ab2d", o(true, true)));
    assert!(!meets_options("ab-d", o(true, true)));
    assert!(meets_options("a9-d", o(true, true)));
    assert!(!meets_options("a1_0", o(true, false)));
}

#[test]
fn default_options() {
    let o = GenOptions::default();
    assert_eq!(o.length, 20);
    assert!(o.digits && o.symbols);
}

#[test]
fn bytes_past_the_last_whole_round_are_skipped() {
    let letters = GenOptions { length: 4, digits: false, symbols: false };
    let (pw, used) = password_of_bytes(letters, &[245, 255, 50, 0, 250, 1, 2, 9]).unwrap();
    assert_eq!((pw.expose(), used), ("babc", 7));
    assert!(password_of_bytes(letters, &[245, 255, 50, 0, 250, 1]).is_none());
    assert!(password_of_bytes(letters, &[]).is_none());
}

#[test]
fn a_password_is_made_of_the_bytes_drawn() {
    let opts = GenOptions { length: 4, digits: true, symbols: false };
    let bytes = [0u8, 1, 2, 3, 228, 49, 0, 0, 0, 17];
    let (pw, used) = password_of_bytes(opts, &bytes).unwrap();
    assert_eq!((pw.expose(), used), ("2aaa", 9));
    assert!(password_of_bytes(opts, &bytes[..8]).is_none());

    let letters = GenOptions { length: 4, digits: false, symbols: false };
    let (pw, used) = password_of_bytes(letters, &bytes).unwrap();
    assert_eq!((pw.expose(), used), ("abcd", 4));
}
