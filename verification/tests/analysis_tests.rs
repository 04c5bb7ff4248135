use rc4_cipher::analysis::{check_counts, find_char_from_xor, get_slice, look_for_xor, process_ciphers, xor, CharCursor};
use rc4_cipher::rc4::Rc4;

#[test]
fn xor_stops_at_shorter() {
    assert_eq!(xor("ab", "abc"), "\0\0");
    assert_eq!(xor("A", " "), "a");
    assert_eq!(xor("", "abc"), "");
    assert_eq!(xor("\u{141}", "A"), "\u{0}");
}

#[test]
fn xor_cancels_shared_keystream() {
    let m1 = "attack at dawn";
    let m2 = "defend at dusk";
    let c1 = Rc4::init("secret").translate(m1);
    let c2 = Rc4::init("secret").translate(m2);
    assert_eq!(xor(&c1, &c2), xor(m1, m2));
}

#[test]
fn check_counts_counts_small_bytes() {
    assert_eq!(check_counts("abc", "abC"), (3, 3));
    assert_eq!(check_counts("a", "\u{80}"), (0, 1));
    assert_eq!(check_counts("", "xyz"), (0, 0));
}

#[test]
fn look_for_xor_values() {
    let all: Vec<char> = "0123456789".chars().collect();
    assert_eq!(look_for_xor(0), all);
    assert_eq!(look_for_xor(1), all);
    assert_eq!(look_for_xor(3), "01234567".chars().collect::<Vec<char>>());
    assert_eq!(look_for_xor(15), vec!['6', '7', '8', '9']);
    assert_eq!(look_for_xor(20), Vec::<char>::new());
}

#[test]
fn find_char_from_xor_values() {
    assert_eq!(find_char_from_xor(&vec!['\u{5}', '\u{4}', '\u{c}']), vec!['0', '1', '8', '9']);
    assert_eq!(find_char_from_xor(&vec!['a']), "0123456789".chars().collect::<Vec<char>>());
    assert_eq!(find_char_from_xor(&vec!['a', 'z']), Vec::<char>::new());
}

#[test]
fn get_slice_takes_one_from_each() {
    let mut iters = vec![CharCursor::new("ab"), CharCursor::new("xyz")];
    assert_eq!(get_slice(&mut iters), Some(vec!['a', 'x']));
    assert_eq!(get_slice(&mut iters), Some(vec!['b', 'y']));
    assert_eq!(get_slice(&mut iters), None);
    assert_eq!(iters[1].next(), Some('z'));
}

#[test]
fn get_slice_moves_the_cursors_before_the_exhausted_one() {
    let mut iters = vec![CharCursor::new("pq"), CharCursor::new(""), CharCursor::new("uv")];
    assert_eq!(get_slice(&mut iters), None);
    assert_eq!(iters[0].next(), Some('q'));
    assert_eq!(iters[1].next(), None);
    assert_eq!(iters[2].next(), Some('u'));
}

#[test]
fn process_ciphers_finds_the_digits() {
    let plain = ["0123", "4567", "8901"];
    let rc4 = Rc4::init("digits");
    let ciphers: Vec<String> = plain.iter().map(|p| rc4.clone().translate(p)).collect();
    let mut with_short = ciphers.clone();
    with_short.push(rc4.clone().translate("99"));
    let options = process_ciphers(&ciphers);
    assert_eq!(options.len(), 4);
    for (t, o) in options.iter().enumerate() {
        assert!(o.contains(&plain[0].chars().nth(t).unwrap()));
    }
    assert_eq!(process_ciphers(&with_short).len(), 2);
}
