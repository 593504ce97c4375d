use lib::bitio::small_bit_vec::SmallBitVec;
use lib::deflate::encoder::DeflateLzssCode;
use lib::deflate::{fix_offset_table, fix_symbol_table, gen_codes, gen_len_tab, gen_off_tab};
use lib::lzhuf::encoder::LzhufLzssCode;
use lib::lzss::LzssCode;

#[test]
fn test_defaltelzsscode() {
    assert_eq!(
        DeflateLzssCode::from_with_codetab(
            &LzssCode::Reference { len: 3, pos: 0 },
            &gen_len_tab(),
            &gen_off_tab(),
        ),
        DeflateLzssCode::Reference {
            len: 257,
            len_sub: SmallBitVec::new(0, 0),
            pos: 0,
            pos_sub: SmallBitVec::new(0, 0),
        }
    );
    assert_eq!(
        DeflateLzssCode::from_with_codetab(
            &LzssCode::Reference { len: 4, pos: 1 },
            &gen_len_tab(),
            &gen_off_tab(),
        ),
        DeflateLzssCode::Reference {
            len: 258,
            len_sub: SmallBitVec::new(0, 0),
            pos: 1,
            pos_sub: SmallBitVec::new(0, 0),
        }
    );
    assert_eq!(
        DeflateLzssCode::from_with_codetab(
            &LzssCode::Reference { len: 5, pos: 2 },
            &gen_len_tab(),
            &gen_off_tab(),
        ),
        DeflateLzssCode::Reference {
            len: 259,
            len_sub: SmallBitVec::new(0, 0),
            pos: 2,
            pos_sub: SmallBitVec::new(0, 0),
        }
    );
    assert_eq!(
        DeflateLzssCode::from_with_codetab(
            &LzssCode::Reference { len: 6, pos: 3 },
            &gen_len_tab(),
            &gen_off_tab(),
        ),
        DeflateLzssCode::Reference {
            len: 260,
            len_sub: SmallBitVec::new(0, 0),
            pos: 3,
            pos_sub: SmallBitVec::new(0, 0),
        }
    );
    assert_eq!(
        DeflateLzssCode::from_with_codetab(
            &LzssCode::Reference { len: 7, pos: 4 },
            &gen_len_tab(),
            &gen_off_tab(),
        ),
        DeflateLzssCode::Reference {
            len: 261,
            len_sub: SmallBitVec::new(0, 0),
            pos: 4,
            pos_sub: SmallBitVec::new(0, 1),
        }
    );
    assert_eq!(
        DeflateLzssCode::from_with_codetab(
            &LzssCode::Reference { len: 8, pos: 5 },
            &gen_len_tab(),
            &gen_off_tab(),
        ),
        DeflateLzssCode::Reference {
            len: 262,
            len_sub: SmallBitVec::new(0, 0),
            pos: 4,
            pos_sub: SmallBitVec::new(1, 1),
        }
    );
    assert_eq!(
        DeflateLzssCode::from_with_codetab(
            &LzssCode::Reference { len: 9, pos: 6 },
            &gen_len_tab(),
            &gen_off_tab(),
        ),
        DeflateLzssCode::Reference {
            len: 263,
            len_sub: SmallBitVec::new(0, 0),
            pos: 5,
            pos_sub: SmallBitVec::new(0, 1),
        }
    );
    assert_eq!(
        DeflateLzssCode::from_with_codetab(
            &LzssCode::Reference {
                len: 10,
                pos: 7
            },
            &gen_len_tab(),
            &gen_off_tab(),
        ),
        DeflateLzssCode::Reference {
            len: 264,
            len_sub: SmallBitVec::new(0, 0),
            pos: 5,
            pos_sub: SmallBitVec::new(1, 1),
        }
    );
    assert_eq!(
        DeflateLzssCode::from_with_codetab(
            &LzssCode::Reference {
                len: 11,
                pos: 8
            },
            &gen_len_tab(),
            &gen_off_tab(),
        ),
        DeflateLzssCode::Reference {
            len: 265,
            len_sub: SmallBitVec::new(0, 1),
            pos: 6,
            pos_sub: SmallBitVec::new(0, 2),
        }
    );
    assert_eq!(
        DeflateLzssCode::from_with_codetab(
            &LzssCode::Reference {
                len: 12,
                pos: 9
            },
            &gen_len_tab(),
            &gen_off_tab(),
        ),
        DeflateLzssCode::Reference {
            len: 265,
            len_sub: SmallBitVec::new(1, 1),
            pos: 6,
            pos_sub: SmallBitVec::new(1, 2),
        }
    );
    assert_eq!(
        DeflateLzssCode::from_with_codetab(
            &LzssCode::Reference {
                len: 13,
                pos: 10
            },
            &gen_len_tab(),
            &gen_off_tab(),
        ),
        DeflateLzssCode::Reference {
            len: 266,
            len_sub: SmallBitVec::new(0, 1),
            pos: 6,
            pos_sub: SmallBitVec::new(2, 2),
        }
    );
    assert_eq!(
        DeflateLzssCode::from_with_codetab(
            &LzssCode::Reference {
                len: 257,
                pos: 24_576,
            },
            &gen_len_tab(),
            &gen_off_tab(),
        ),
        DeflateLzssCode::Reference {
            len: 284,
            len_sub: SmallBitVec::new(30, 5),
            pos: 29,
            pos_sub: SmallBitVec::new(0, 13),
        }
    );
    assert_eq!(
        DeflateLzssCode::from_with_codetab(
            &LzssCode::Reference {
                len: 258,
                pos: 0x7FFF,
            },
            &gen_len_tab(),
            &gen_off_tab(),
        ),
        DeflateLzssCode::Reference {
            len: 285,
            len_sub: SmallBitVec::new(0, 0),
            pos: 29,
            pos_sub: SmallBitVec::new(0x1FFF, 13),
        }
    );
}
#[test]
fn test_lzhuflzsscode_offset() {
    assert_eq!(
        LzhufLzssCode::from(&LzssCode::Reference { len: 3, pos: 0 }),
        LzhufLzssCode::Reference {
            len: 256,
            pos_offset: 0,
            pos_sublen: 0,
        }
    );
    assert_eq!(
        LzhufLzssCode::from(&LzssCode::Reference { len: 3, pos: 1 }),
        LzhufLzssCode::Reference {
            len: 256,
            pos_offset: 1,
            pos_sublen: 0,
        }
    );
    assert_eq!(
        LzhufLzssCode::from(&LzssCode::Reference { len: 3, pos: 2 }),
        LzhufLzssCode::Reference {
            len: 256,
            pos_offset: 2,
            pos_sublen: 0,
        }
    );
    assert_eq!(
        LzhufLzssCode::from(&LzssCode::Reference { len: 3, pos: 3 }),
        LzhufLzssCode::Reference {
            len: 256,
            pos_offset: 2,
            pos_sublen: 1,
        }
    );
    assert_eq!(
        LzhufLzssCode::from(&LzssCode::Reference { len: 3, pos: 4 }),
        LzhufLzssCode::Reference {
            len: 256,
            pos_offset: 3,
            pos_sublen: 0,
        }
    );
    assert_eq!(
        LzhufLzssCode::from(&LzssCode::Reference { len: 3, pos: 5 }),
        LzhufLzssCode::Reference {
            len: 256,
            pos_offset: 3,
            pos_sublen: 1,
        }
    );
    assert_eq!(
        LzhufLzssCode::from(&LzssCode::Reference { len: 3, pos: 6 }),
        LzhufLzssCode::Reference {
            len: 256,
            pos_offset: 3,
            pos_sublen: 2,
        }
    );
    assert_eq!(
        LzhufLzssCode::from(&LzssCode::Reference { len: 3, pos: 7 }),
        LzhufLzssCode::Reference {
            len: 256,
            pos_offset: 3,
            pos_sublen: 3,
        }
    );
    assert_eq!(
        LzhufLzssCode::from(&LzssCode::Reference { len: 3, pos: 8 }),
        LzhufLzssCode::Reference {
            len: 256,
            pos_offset: 4,
            pos_sublen: 0,
        }
    );
    assert_eq!(
        LzhufLzssCode::from(&LzssCode::Reference {
            len: 3,
            pos: 15,
        }),
        LzhufLzssCode::Reference {
            len: 256,
            pos_offset: 4,
            pos_sublen: 7,
        }
    );
    assert_eq!(
        LzhufLzssCode::from(&LzssCode::Reference {
            len: 3,
            pos: 16,
        }),
        LzhufLzssCode::Reference {
            len: 256,
            pos_offset: 5,
            pos_sublen: 0,
        }
    );
    assert_eq!(
        LzhufLzssCode::from(&LzssCode::Reference {
            len: 3,
            pos: 31,
        }),
        LzhufLzssCode::Reference {
            len: 256,
            pos_offset: 5,
            pos_sublen: 15,
        }
    );
    assert_eq!(
        LzhufLzssCode::from(&LzssCode::Reference {
            len: 3,
            pos: 32,
        }),
        LzhufLzssCode::Reference {
            len: 256,
            pos_offset: 6,
            pos_sublen: 0,
        }
    );
    assert_eq!(
        LzhufLzssCode::from(&LzssCode::Reference {
            len: 3,
            pos: 64,
        }),
        LzhufLzssCode::Reference {
            len: 256,
            pos_offset: 7,
            pos_sublen: 0,
        }
    );
    assert_eq!(
        LzhufLzssCode::from(&LzssCode::Reference {
            len: 3,
            pos: 128,
        }),
        LzhufLzssCode::Reference {
            len: 256,
            pos_offset: 8,
            pos_sublen: 0,
        }
    );
    assert_eq!(
        LzhufLzssCode::from(&LzssCode::Reference {
            len: 3,
            pos: 256,
        }),
        LzhufLzssCode::Reference {
            len: 256,
            pos_offset: 9,
            pos_sublen: 0,
        }
    );
    assert_eq!(
        LzhufLzssCode::from(&LzssCode::Reference {
            len: 3,
            pos: 512,
        }),
        LzhufLzssCode::Reference {
            len: 256,
            pos_offset: 10,
            pos_sublen: 0,
        }
    );
    assert_eq!(
        LzhufLzssCode::from(&LzssCode::Reference {
            len: 3,
            pos: 1023,
        }),
        LzhufLzssCode::Reference {
            len: 256,
            pos_offset: 10,
            pos_sublen: 511,
        }
    );
    assert_eq!(
        LzhufLzssCode::from(&LzssCode::Reference {
            len: 3,
            pos: 1024,
        }),
        LzhufLzssCode::Reference {
            len: 256,
            pos_offset: 11,
            pos_sublen: 0,
        }
    );
}
#[test]
fn deflate_fixed_tables() {
    let t = fix_symbol_table();
    assert_eq!(t.len(), 288);
    assert_eq!(t[0], 8);
    assert_eq!(t[143], 8);
    assert_eq!(t[144], 9);
    assert_eq!(t[255], 9);
    assert_eq!(t[256], 7);
    assert_eq!(t[279], 7);
    assert_eq!(t[280], 8);
    assert_eq!(fix_offset_table(), [5u8; 32]);
}

#[test]
fn deflate_length_and_distance_tables() {
    let l = gen_len_tab();
    // length 258 is coded as 255 over the base: the last code, no extra bits.
    assert_eq!(l.convert(255), (28, SmallBitVec::new(0, 0)));
    // lengths 227..=257: code 27, base 224, 5 extra bits.
    assert_eq!(l.convert(254), (27, SmallBitVec::new(30, 5)));
    assert_eq!(l.convert_back(27, 30), 254);
    assert_eq!(l.ext_bits(27), 5);
    let o = gen_off_tab();
    assert_eq!(o.convert(0x7FFF), (29, SmallBitVec::new(0x7FFF - 24576, 13)));
    assert_eq!(o.convert(4), (4, SmallBitVec::new(0, 1)));
}

#[test]
fn deflate_gen_codes_buckets() {
    let codes = gen_codes(6, &[0, 2, 5, 9]);
    assert_eq!(codes, vec![0, 0, 1, 1, 1, 2]);
}

#[test]
fn deflate_literal_passes_through() {
    assert_eq!(
        DeflateLzssCode::from_with_codetab(&LzssCode::Symbol(b'x'), &gen_len_tab(), &gen_off_tab()),
        DeflateLzssCode::Symbol(b'x')
    );
    assert_eq!(LzhufLzssCode::from(&LzssCode::Symbol(7)), LzhufLzssCode::Symbol(7));
    assert_eq!(LzssCode::default(), LzssCode::Symbol(0));
}
