use lokal::reading::{cut_of, rest_of, tame};

fn chars(s: &str) -> Vec<char> {
    s.chars().collect()
}

#[test]
fn ordinary_passwords_are_taken_whole() {
    for s in [
        "",
        "password",
        "i!1|Ii!1|Ii!",
        "correct horse battery staple correct house",
        "x9#Kq2mVt7$wLp4&Zc8!nRb5@Gy3%Hd6",
        "https://accounts.example.com/signin",
    ] {
        assert!(tame(&chars(s), &["accounts", "example"]), "{s}");
    }
    assert!(tame(&vec!['中'; 45], &[]));
    assert!(tame(&vec!['a'; 45], &["aaa"]));
}

#[test]
fn many_short_matches_are_too_many() {
    assert!(tame(&chars(&"at".repeat(16)), &[]));
    assert!(!tame(&chars(&"at".repeat(17)), &[]));
    assert!(!tame(&chars(&"aakkzzppmm".repeat(4)), &[]));
    assert!(!tame(&chars(&"i".repeat(21)), &[]));
    assert!(!tame(&chars(&"4t".repeat(17)), &[]));
    assert!(!tame(&chars(&"İ".repeat(21)), &[]));
    assert!(!tame(&chars(&"x9#Kq2mVt7".repeat(6)), &[]));
}

#[test]
fn long_patterns_of_keys_are_too_long() {
    assert!(tame(&chars(&"qw".repeat(16)), &[]));
    assert!(!tame(&chars(&"qw".repeat(17)), &[]));
    assert!(tame(&chars(&"8485".repeat(7)), &[]));
    assert!(!tame(&chars(&"8485".repeat(8)), &[]));
}

#[test]
fn long_inputs_have_too_many_spellings() {
    let input = "abcdefgh-ijklmnop-qrstuvwx-yzabcd";
    let mixed = "ABCdefGH-ijklMNOp-qrstuvwx-yzabcd";
    assert!(tame(&chars(input), &[input]));
    assert!(!tame(&chars(mixed), &[input]));
    let backwards: String = input.chars().rev().collect();
    assert!(!tame(&chars(mixed), &[&backwards]));
    assert!(tame(&chars(mixed), &["abcdefgh", "another input of more than 28 letters"]));
    assert!(tame(&chars(mixed), &[&input[..28]]));
}

#[test]
fn repetitions_are_cut_at_whole_copies() {
    let s = chars(&"password".repeat(8));
    assert_eq!(cut_of(&s, 50), 48);
    assert_eq!(rest_of(&s, 50, 48), 64);
    let s = chars("k7%Qzabcabcabcabcabcabx");
    assert_eq!(cut_of(&s, 13), 11);
    assert_eq!(rest_of(&s, 13, 11), 20);
    let s = chars("abcdefghijkl");
    assert_eq!(cut_of(&s, 7), 7);
    assert_eq!(rest_of(&s, 7, 7), 7);
}
