use lokal::generator::{generate, GenOptions};
use lokal::strength::{assessment_of, tokenize};
use lokal::{assess, Strength};

#[test]
fn empty_password_is_weak() {
    assert_eq!(assess("", &[]).strength, Strength::Weak);
}

#[test]
fn common_passwords_are_weak() {
    for pw in ["123456", "password", "qwerty", "letmein", "abc123"] {
        assert_eq!(assess(pw, &[]).strength, Strength::Weak, "{pw} 应判为弱");
    }
}

#[test]
fn leetspeak_does_not_fool_it() {
    let a = assess("P@ssw0rd!", &[]);
    assert_eq!(a.strength, Strength::Weak, "P@ssw0rd! 必须判为弱，实测 score={}", a.score);
}

#[test]
fn long_passphrase_beats_short_complex_one() {
    let phrase = assess("correct horse battery staple", &[]);
    let complex = assess("P@ss1!", &[]);
    assert!(
        phrase.guesses > complex.guesses,
        "长短语应比短复杂密码更难猜：{} vs {}",
        phrase.guesses,
        complex.guesses
    );
}

#[test]
fn reusing_the_site_name_is_penalised() {
    let blind = assess("Northwind2024", &[]);
    let aware = assess("Northwind2024", &["Northwind Bank"]);
    assert!(
        aware.guesses < blind.guesses,
        "知道站点名后应扣分：{} vs {}",
        aware.guesses,
        blind.guesses
    );
}

#[test]
fn multiword_inputs_are_tokenized() {
    for (pw, inputs) in [
        ("Northwind2024", &["Northwind Bank"][..]),
        ("Vintrell99", &["Vintrell Holdings"][..]),
        ("zorbulon77", &["zorbulon@mail.com"][..]),
    ] {
        let blind = assess(pw, &[]);
        let aware = assess(pw, inputs);
        assert!(
            aware.guesses < blind.guesses,
            "{pw} 配 {inputs:?} 应被扣分：{} vs {}",
            aware.guesses,
            blind.guesses
        );
    }
}

#[test]
fn short_fragments_do_not_cause_false_penalties() {
    let pw = "Zt7#qWm4$xLp9!";
    let blind = assess(pw, &[]);
    let aware = assess(pw, &["a.b@c.io", "x"]);
    assert_eq!(aware.guesses, blind.guesses, "短碎片不应影响评分");
}

#[test]
fn generated_passwords_are_strong() {
    for _ in 0..20 {
        let pw = generate(GenOptions::default()).unwrap();
        let a = assess(pw.expose(), &[]);
        assert_eq!(
            a.strength,
            Strength::Strong,
            "生成的密码判为 {:?}：{}",
            a.strength,
            pw.expose()
        );
    }
}

#[test]
fn inputs_are_split_sorted_and_listed_once() {
    assert_eq!(
        tokenize(&["Northwind Bank", " anna.k@mail.com ", "mail", "Bank"]),
        ["Bank", "Northwind", "Northwind Bank", "anna", "anna.k@mail.com", "com", "mail"]
    );
}

#[test]
fn short_pieces_are_no_tokens() {
    assert_eq!(tokenize(&["a.b@c.io", "x"]), ["a.b@c.io"]);
    assert!(tokenize(&["ab", "", "  ", "c-d"]).iter().eq(["c-d"].iter()));
    assert!(tokenize(&[]).is_empty());
}

#[test]
fn tokens_are_measured_in_characters() {
    assert_eq!(tokenize(&["é"]), Vec::<String>::new());
    assert_eq!(tokenize(&["中", "中文"]), Vec::<String>::new());
    assert_eq!(tokenize(&["中文字"]), ["中文字"]);
    assert_eq!(tokenize(&["éa 中-文"]), ["éa 中-文"]);
    assert_eq!(tokenize(&["中文.Bank"]), ["Bank", "中文.Bank"]);
}

#[test]
fn scores_become_grades() {
    for (score, strength) in [
        (0u8, Strength::Weak),
        (1, Strength::Weak),
        (2, Strength::Fair),
        (3, Strength::Fair),
        (4, Strength::Strong),
    ] {
        let a = assessment_of(17, score);
        assert_eq!(a.strength, strength);
        assert_eq!(a.guesses, 17);
        assert_eq!(a.score, score);
    }
    assert_eq!(Strength::Weak.percent(), 30);
    assert_eq!(Strength::Fair.percent(), 60);
    assert_eq!(Strength::Strong.percent(), 100);
    assert!(Strength::Weak < Strength::Fair && Strength::Fair < Strength::Strong);
}

#[test]
fn scores_follow_from_guesses() {
    let a = assess("", &["x"]);
    assert_eq!((a.guesses, a.score), (0, 0));
    for pw in ["password", "Northwind2024", "zorbulon77", "correct horse battery staple", "a", "Zt7#qWm4$xLp9!"] {
        let a = assess(pw, &[]);
        let want = match a.guesses {
            0..=1_004 => 0,
            1_005..=1_000_004 => 1,
            1_000_005..=100_000_004 => 2,
            100_000_005..=10_000_000_004 => 3,
            _ => 4,
        };
        assert_eq!(a.score, want, "{pw}: {} guesses", a.guesses);
    }
}

#[test]
fn long_passwords_are_assessed_as_a_whole() {
    let tail = "Zt7#qWm4$xLp9!";
    for start in ["中".repeat(28), "a".repeat(30), "abc".repeat(9), " ".repeat(20)] {
        assert!(assess(&start, &[]).strength < Strength::Strong, "{start}");
        let a = assess(&format!("{start}{tail}"), &[]);
        assert_eq!((a.score, a.strength), (4, Strength::Strong), "{start}");
    }
    let named = assess("zorbulonzorbulonzorbulonzorbulonzorbulon", &["Zorbulon"]);
    assert_eq!(named.strength, Strength::Weak);
    let address = "https://accounts.example.com/signin/identifier";
    assert_eq!(assess(address, &["Site", "user", address]).strength, Strength::Weak);
    assert_eq!(assess(address, &["Site", "user", ""]).strength, Strength::Strong);
    for length in [32usize, 40, 64, 100] {
        let pw = generate(GenOptions { length, digits: true, symbols: true }).unwrap();
        let a = assess(pw.expose(), &["Site", "user", address]);
        assert_eq!(a.strength, Strength::Strong, "{}", pw.expose());
    }
}

#[test]
fn passwords_of_any_length_are_assessed() {
    let tail = "Zt7#qWm4$xLp9!";
    for start in ["qw".repeat(20), "i!1|I".repeat(10), "İ".repeat(40), "1379".repeat(10), "a".repeat(70)] {
        let a = assess(&format!("{start}{tail}"), &[]);
        assert_eq!(a.strength, Strength::Strong, "{start}");
    }
    assert_eq!(assess(&"a".repeat(100), &[]).strength, Strength::Weak);
    assert_eq!(assess(&"qw".repeat(50), &[]).score, assess(&"qw".repeat(500), &[]).score);
    let hidden = format!("{}{tail}", "a".repeat(100));
    assert_eq!(assess(&hidden, &[]).guesses, assess(&"a".repeat(100), &[]).guesses);
}
