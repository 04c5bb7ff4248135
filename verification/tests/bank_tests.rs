use rc4_cipher::bank::{bank_number, calculte_nr_control_number, gen_bank_numbers};

#[test]
fn control_number_values() {
    assert_eq!(calculte_nr_control_number([1, 2, 3, 4, 5, 6, 7]), 6);
    assert_eq!(calculte_nr_control_number([0; 7]), 0);
    assert_eq!(calculte_nr_control_number([9; 7]), 9);
    assert_eq!(calculte_nr_control_number([255; 7]), 5);
}

#[test]
fn control_number_completes_multiple_of_ten() {
    let weights = [3u32, 9, 7, 1, 3, 9, 7];
    for seed in 0u32..200 {
        let mut nr = [0u8; 7];
        for (i, d) in nr.iter_mut().enumerate() {
            *d = ((seed * 7 + i as u32 * 13) % 10) as u8;
        }
        let c = calculte_nr_control_number(nr);
        let sum: u32 = nr.iter().zip(weights.iter()).map(|(a, b)| *a as u32 * b).sum();
        assert!(c < 10);
        assert_eq!((sum + c as u32) % 10, 0);
    }
}

#[test]
fn bank_number_values() {
    assert_eq!(bank_number(&[1, 0, 1, 0, 0, 0, 0, 0], &[0; 16]), "98101000000000000000000000");
    assert_eq!(
        bank_number(&[1, 1, 6, 0, 0, 0, 0, 6], &[1, 2, 3, 4, 5, 6, 7, 8, 9, 0, 1, 2, 3, 4, 5, 6]),
        "15116000061234567890123456"
    );
}

#[test]
fn generated_numbers_have_valid_check_digits() {
    let nums = gen_bank_numbers(3);
    assert_eq!(nums.len(), 15);
    let banks = ["10100000", "11600006", "10500002", "21200001", "10200003"];
    for (x, n) in nums.iter().enumerate() {
        assert_eq!(n.len(), 26);
        assert_eq!(&n[2..10], banks[x / 3]);
        let digits: Vec<u8> = n.bytes().map(|b| b - b'0').collect();
        let mut v: u128 = 0;
        for d in &digits[2..] {
            v = v * 10 + *d as u128;
        }
        let cd = (digits[0] * 10 + digits[1]) as u128;
        assert_eq!((v * 100000 + 212500 + cd) % 97, 1);
    }
    assert_eq!(gen_bank_numbers(0).len(), 0);
}
