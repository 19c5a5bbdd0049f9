use gtin_csv::gtin::{gtin_13_checksum, is_valid_gtin_13, is_valid_gtin_13_bytes};

#[test]
fn checksums() {
    let result = gtin_13_checksum(&vec![4, 0, 6, 5, 4, 1, 8, 4, 4, 8, 2, 4]);
    assert_eq!(result, 6);
}

#[test]
fn checksum_of_zero_sum_is_zero() {
    assert_eq!(gtin_13_checksum(&vec![0; 12]), 0);
    // 1 + 3 * 3 = 10
    assert_eq!(gtin_13_checksum(&vec![0, 0, 0, 0, 0, 0, 0, 0, 0, 0, 1, 3]), 0);
}

#[test]
fn checksum_reads_only_twelve_digits() {
    let mut v = vec![4, 0, 0, 6, 3, 8, 1, 3, 3, 3, 9, 3];
    assert_eq!(gtin_13_checksum(&v), 1);
    v.push(7);
    assert_eq!(gtin_13_checksum(&v), 1);
}

#[test]
fn thirteen_digit_code_is_valid() {
    assert!(is_valid_gtin_13("4006381333931"));
    assert!(is_valid_gtin_13("4065418448246"));
    assert!(is_valid_gtin_13("5901234123457"));
}

#[test]
fn leading_zeros_keep_a_code_valid() {
    for n in 0..20 {
        let s = format!("{}{}", "0".repeat(n), "4006381333931");
        assert!(is_valid_gtin_13(&s));
    }
    // a shorter code padded to thirteen digits
    assert!(is_valid_gtin_13("0012345678905"));
    assert!(is_valid_gtin_13("12345678905"));
}

#[test]
fn changed_check_digit_is_invalid() {
    let code = "4006381333931";
    for d in b'0'..=b'9' {
        let mut bytes = code.as_bytes().to_vec();
        bytes[12] = d;
        assert_eq!(is_valid_gtin_13_bytes(&bytes), d == b'1');
    }
}

#[test]
fn any_single_digit_change_is_invalid() {
    let code = "4006381333931".as_bytes();
    for i in 0..13 {
        for d in b'0'..=b'9' {
            if d == code[i] {
                continue;
            }
            let mut bytes = code.to_vec();
            bytes[i] = d;
            assert!(!is_valid_gtin_13_bytes(&bytes));
        }
    }
}

#[test]
fn appended_check_digit_round_trips() {
    let cases: Vec<Vec<u32>> = vec![
        vec![4, 0, 6, 5, 4, 1, 8, 4, 4, 8, 2, 4],
        vec![9, 9, 9, 9, 9, 9, 9, 9, 9, 9, 9, 9],
        vec![1, 2, 3, 4, 5, 6, 7, 8, 9, 0, 1, 2],
        vec![0, 0, 0, 0, 0, 0, 0, 0, 0, 1, 0, 0],
        vec![7, 0, 3, 1, 8, 2, 5, 6, 4, 9, 0, 5],
    ];
    for d in cases {
        let c = gtin_13_checksum(&d);
        let s: String = d.iter().chain(std::iter::once(&c)).map(|x| char::from(b'0' + *x as u8)).collect();
        assert!(is_valid_gtin_13(&s), "{s}");
    }
}

#[test]
fn too_few_significant_digits_is_invalid() {
    // twelve digits 0..0,1 with check digit 7: only "17" is left after the zeros
    let d = vec![0, 0, 0, 0, 0, 0, 0, 0, 0, 0, 0, 1];
    assert_eq!(gtin_13_checksum(&d), 7);
    assert!(!is_valid_gtin_13("0000000000017"));
    assert!(!is_valid_gtin_13("17"));
}

#[test]
fn edge_cases_are_invalid() {
    assert!(!is_valid_gtin_13(""));
    assert!(!is_valid_gtin_13("0"));
    assert!(!is_valid_gtin_13("0000000000000"));
    assert!(!is_valid_gtin_13("14006381333931"));
    assert!(!is_valid_gtin_13("4006381333930"));
    assert!(!is_valid_gtin_13("40063813a3931"));
    assert!(!is_valid_gtin_13(" 4006381333931"));
    assert!(!is_valid_gtin_13("4006381333931 "));
    assert!(!is_valid_gtin_13("40063813339é1"));
}

#[test]
fn sample_code_fails_weighted_check() {
    // weighted sum of its first twelve digits is 98, so its check digit is 2, not 6
    assert_eq!(gtin_13_checksum(&vec![4, 0, 0, 6, 5, 4, 1, 8, 8, 4, 2, 4]), 2);
    assert!(!is_valid_gtin_13("4006541884246"));
    assert!(is_valid_gtin_13("4006541884242"));
}
