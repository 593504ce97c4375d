use lib::suffix_array::ls_type::LSTypeArray;

#[test]
fn is_lms() {
    //               LLSSLLSSLLSSLLLLS
    let test_str = b"mmiissiissiippii";
    let type_arr = LSTypeArray::with_shift(test_str, 0);

    let ls_value = &[
        false, false, true, true, false, false, true, true, false, false,
        true, true, false, false, false, false,
    ];
    let lms_value = &[
        false, false, true, false, false, false, true, false, false, false,
        true, false, false, false, false, false,
    ];

    for i in 0..type_arr.len() {
        assert_eq!(type_arr.get(i), ls_value[i]);
        assert_eq!(type_arr.is_lms(i), lms_value[i]);
    }
}

#[test]
fn is_lms2() {
    let test_str = b"The quick brown fox jumps over the black lazy dog";
    //               SLLSSLLSLSSLSLLSSSLSSLSSLSSLSLSLLLSSLSSLSLSLLSSLLS
    //                  @   @ @  @  @   @  @  @  @ @   @  @  @ @  @   @
    //               01234567890123456789012345678901234567890123456789
    let type_arr = LSTypeArray::with_shift(test_str, 0);
    let ls_value = &[
        true, false, false, true, true, false, false, true, false, true,
        true, false, true, false, false, true, true, true, false, true,
        true, false, true, true, false, true, true, false, true, false,
        true, false, false, false, true, true, false, true, true, false,
        true, false, true, false, false, true, true, false, false,
    ];
    let lms_value = &[
        false, false, false, true, false, false, false, true, false, true,
        false, false, true, false, false, true, false, false, false, true,
        false, false, true, false, false, true, false, false, true, false,
        true, false, false, false, true, false, false, true, false, false,
        true, false, true, false, false, true, false, false, false,
    ];

    for i in 0..type_arr.len() {
        assert_eq!(type_arr.get(i), ls_value[i]);
        assert_eq!(type_arr.is_lms(i), lms_value[i]);
    }
}

#[test]
fn ls_type_rotated() {
    // "ba" rotated at 1 reads "ab": the sentinel is position 0.
    let t = LSTypeArray::with_shift(b"ba", 1);
    assert_eq!(t.len(), 2);
    assert!(!t.get(0));
    assert!(t.get(1));
    assert!(!t.is_lms(1));
    assert!(!t.is_lms(0));
}
