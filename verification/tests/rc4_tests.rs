use rc4_cipher::analysis::{check_counts, process_ciphers, xor};
use rc4_cipher::bank::gen_bank_numbers;
use rc4_cipher::hex::as_hex;
use rc4_cipher::rc4::Rc4;

const LOREM1: &str = "Contrary to popular belief, Lorem Ipsum is not simply random text. It has roots in a piece of classical Latin literature from 45 BC, making it over 2000 years old. Richard McClintock, a Latin professor at Hampden-Sydney College in Virginia, looked up one of the more obscure Latin words, consectetur, from a Lorem Ipsum passage, and going through the cites of the word in classical literature, discovered the undoubtable source. Lorem Ipsum comes from sections 1.10.32 and 1.10.33 of \"de Finibus Bonorum et Malorum\" (The Extremes of Good and Evil) by Cicero, written in 45 BC. This book is a treatise on the theory of ethics, very popular during the Renaissance. The first line of Lorem Ipsum, \"Lorem ipsum dolor sit amet..\", comes from a line in section 1.10.32.";
const LOREM2: &str = "It is a long established fact that a reader will be distracted by the readable content of a page when looking at its layout. The point of using Lorem Ipsum is that it has a more-or-less normal distribution of letters, as opposed to using 'Content here, content here', making it look like readable English. Many desktop publishing packages and web page editors now use Lorem Ipsum as their default model text, and a search for 'lorem ipsum' will uncover many web sites still in their infancy. Various versions have evolved over the years, sometimes by accident, sometimes on purpose (injected humour and the like).";
const LOREM3: &str = "There are many variations of passages of Lorem Ipsum available, but the majority have suffered alteration in some form, by injected humour, or randomised words which don't look even slightly believable. If you are going to use a passage of Lorem Ipsum, you need to be sure there isn't anything embarrassing hidden in the middle of text. All the Lorem Ipsum generators on the Internet tend to repeat predefined chunks as necessary, making this the first true generator on the Internet. It uses a dictionary of over 200 Latin words, combined with a handful of model sentence structures, to generate Lorem Ipsum which looks reasonable. The generated Lorem Ipsum is therefore always free from repetition, injected humour, or non-characteristic words etc.";
const LOREM4: &str = "Lorem Ipsum is simply dummy text of the printing and typesetting industry. Lorem Ipsum has been the industry's standard dummy text ever since the 1500s, when an unknown printer took a galley of type and scrambled it to make a type specimen book. It has survived not only five centuries, but also the leap into electronic typesetting, remaining essentially unchanged. It was popularised in the 1960s with the release of Letraset sheets containing Lorem Ipsum passages, and more recently with desktop publishing software like Aldus PageMaker including versions of Lorem Ipsum.";

fn check(cip1: &str, cip2: &str) -> bool {
    let (stat, total) = check_counts(cip1, cip2);
    let val = stat as f64 / total as f64;
    println!("Stat: {}", val);
    val > 0.5
}

#[test]
fn test_rc4() {
    let key = "Pierogi ruskie";
    let key2 = "Kielbasa slaska";

    let mut rc4 = Rc4::init(key);
    let msg = LOREM1;
    let cipher1 = rc4.translate(msg);
    println!("Cipher1: {}", cipher1);

    let mut rc4 = Rc4::init(key2);
    let msg = LOREM2;
    let cipher2 = rc4.translate(msg);
    println!("Cipher2: {}", cipher2);

    let mut rc4 = Rc4::init(key);
    let msg = LOREM3;
    let cipher3 = rc4.translate(msg);
    println!("Cipher3: {}", cipher3);

    let mut rc4 = Rc4::init(key);
    let msg = rc4.translate(&cipher1);
    println!("Message1: {}", msg);
    assert_eq!(msg, LOREM1);

    let mut rc4 = Rc4::init(key2);
    let msg = rc4.translate(&cipher2);
    println!("Message2: {}", msg);
    assert_eq!(msg, LOREM2);

    let mut rc4 = Rc4::init(key);
    let msg = rc4.translate(&cipher3);
    println!("Message3: {}", msg);
    assert_eq!(msg, LOREM3);
}

#[test]
fn test_crack() {
    let key = "Pierogi ruskie";
    let key2 = "Kielbasa slaska";

    let mut rc4 = Rc4::init(key);
    let cipher1 = rc4.translate(LOREM1);
    println!("Cipher1: {}", cipher1);

    let mut rc4 = Rc4::init(key2);
    let cipher2 = rc4.translate(LOREM2);
    println!("Cipher2: {}", cipher2);

    let mut rc4 = Rc4::init(key);
    let cipher3 = rc4.translate(LOREM3);
    println!("Cipher3: {}", cipher3);

    let mut rc4 = Rc4::init(key2);
    let cipher4 = rc4.translate(LOREM4);
    println!("Cipher4: {}", cipher4);

    check(&cipher1, &cipher2);
    check(&cipher1, &cipher3);
    check(&cipher1, &cipher4);
    check(&cipher2, &cipher3);
    check(&cipher2, &cipher4);
    check(&cipher3, &cipher4);

    // Ciphertexts under one key combine to the plaintexts combined: mostly small bytes.
    assert!(check(&cipher1, &cipher3));
    assert!(check(&cipher2, &cipher4));
}

#[test]
fn test_3() {
    let key = "Pois nem tudo que cai do ceu e sagrado";
    let rc4 = Rc4::init(key);

    let num1 = "86 1050 1504 1000 0090 7583 4177";
    let num2 = "26 1030 1508 0000 0005 5000 1144";
    let num3 = "13 1010 1010 0030 1413 1210 0000";
    let num4 = "21 1010 0068 6800 0000 0000 0012";
    let num5 = "20 1020 1462 0000 7402 0313 0275";

    let mut cph = vec![String::new(); 5];
    cph[0] = rc4.clone().translate(num1);
    cph[1] = rc4.clone().translate(num2);
    cph[2] = rc4.clone().translate(num3);
    cph[3] = rc4.clone().translate(num4);
    cph[4] = rc4.clone().translate(num5);

    let mut xors = vec![vec![String::new(); 5]; 5];
    for i in 0..5 {
        for j in 0..5 {
            if j != i {
                let xor = xor(&cph[i], &cph[j]);
                println!("{} {} : {}", i, j, as_hex(&xor));
                xors[i][j] = xor;
            }
        }
        println!();
    }
    // The shared keystream cancels: the ciphertexts combine as the numbers do.
    assert_eq!(xors[0][1], xor(num1, num2));
    assert_eq!(xors[3][4], xor(num4, num5));
}

#[test]
fn test4() {
    let key = "1234567";
    let rc4 = Rc4::init(key);

    let nums = gen_bank_numbers(20);
    println!("{:?}", nums[0]);
    let ciphs = nums.iter().map(|x| rc4.clone().translate(x)).collect::<Vec<String>>();
    let options = process_ciphers(&ciphs);
    for o in options.iter() {
        println!("{:?}", o);
    }
    assert_eq!(nums.len(), 100);
    assert_eq!(options.len(), 26);
    let first: Vec<char> = nums[0].chars().collect();
    for (t, o) in options.iter().enumerate() {
        assert!(o.contains(&first[t]));
    }
}

#[test]
fn rc4_known_vector() {
    let mut rc4 = Rc4::init("Key");
    let c = rc4.translate("Plaintext");
    let bytes: Vec<u32> = c.chars().map(|c| c as u32).collect();
    assert_eq!(bytes, vec![0xBB, 0xF3, 0x16, 0xE8, 0xD9, 0x40, 0xAF, 0x0A, 0xD3]);
}

#[test]
fn rc4_keystream_values() {
    let mut rc4 = Rc4::init("1234567");
    let ks: Vec<usize> = (0..8).map(|_| rc4.next_cipher()).collect();
    assert_eq!(ks, vec![125, 15, 216, 143, 209, 180, 22, 108]);
    let mut rc4 = Rc4::init("a");
    assert_eq!(rc4.next(), Some(16));
    assert_eq!(rc4.next(), Some(188));
    assert_eq!(rc4.next_cipher(), 152);
    assert_eq!(rc4.next(), Some(30));
}

#[test]
fn rc4_stream_continues_across_calls() {
    let mut whole = Rc4::init("Pierogi ruskie");
    let all = whole.translate("Litwo, ojczyzno moja");
    let mut parts = Rc4::init("Pierogi ruskie");
    let mut joined = parts.translate("Litwo, ");
    joined.push_str(&parts.translate("ojczyzno moja"));
    assert_eq!(all, joined);
}

#[test]
fn rc4_translate_twice_only_for_low_characters() {
    // A character above 255 loses its high bits: 'ę' does not come back.
    let mut a = Rc4::init("Kielbasa slaska");
    let c = a.translate("tęsknie");
    let mut b = Rc4::init("Kielbasa slaska");
    let back = b.translate(&c);
    assert_ne!(back, "tęsknie");
    assert_eq!(back, "t\u{19}sknie");
}

#[test]
fn rc4_empty_message() {
    let mut a = Rc4::init("k");
    assert_eq!(a.translate(""), "");
    let mut b = Rc4::init("k");
    assert_eq!(a.next_cipher(), b.next_cipher());
}

#[test]
fn rc4_unicode_key_uses_code_points() {
    let mut a = Rc4::init("ł");
    let mut b = Rc4::init("ł");
    assert_eq!(a.translate("abc"), b.translate("abc"));
    let mut c = Rc4::init("B");
    // 'ł' is U+0142, which differs from 'B' (0x42) only above the low byte: the key schedule
    // works modulo 256, so the two keys agree.
    let mut d = Rc4::init("ł");
    assert_eq!(c.translate("abcdef"), d.translate("abcdef"));
    let mut e = Rc4::init("C");
    assert_ne!(e.translate("abcdef"), Rc4::init("B").translate("abcdef"));
}
