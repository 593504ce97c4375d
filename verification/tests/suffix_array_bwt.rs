use lib::suffix_array::sais::bwt;

fn test_bwt(src: &[u8], bwtstr: &[u8]) {
    let ret = bwt(src, u8::MAX as usize);
    let mut bwt_ret = vec![0_u8; src.len()];
    for i in 0..bwt_ret.len() {
        let j = if ret[i] == 0 {
            bwt_ret.len()
        } else {
            ret[i]
        } - 1;
        bwt_ret[i] = src[j];
    }
    assert_eq!(bwt_ret, bwtstr);
}

fn test_bwtpos(src: &[u8], bwtpos: &[usize]) {
    let ret = bwt(src, u8::MAX as usize);
    assert_eq!(ret, bwtpos);
}

#[test]
fn test_bwt1() {
    test_bwt(
        b"The quick brown fox jumps over the black lazy dog",
        b"ekynxksergll  ia hhv otTu ccb uwd rfm ebp qjoooza",
        //e black lazy dog
        //k brown fox jumps over the black lazy dog
        //y dog
        //n fox jumps over the black lazy dog
        //x jumps over the black lazy dog
        //k lazy dog
        //s over the black lazy dog
        //e quick brown fox jumps over the black lazy dog
        //r the black lazy dog
        //g
        //lack lazy dog
        //lazy dog
        // brown fox jumps over the black lazy dog
        // black lazy dog"
        //ick brown fox jumps over the black lazy dog
        //ack lazy dog
        // dog
        //he black lazy dog
        //he quick brown fox jumps over the black lazy dog
        //ver the black lazy dog
    );
}

#[test]
fn test_bwt2() {
    test_bwt(
        b"abracadabra0AbRa4Cad14abra",
        b"ada104brRrd4arCcAaaaaaabbb",
    );
    test_bwt(
        b"bracadabra0AbRa4Cad14abraa",
        b"ada104brRrd4arCcAaaaaaabbb",
    );
    test_bwt(
        b"racadabra0AbRa4Cad14abraab",
        b"ada104brRrd4arCcAaaaaaabbb",
    );
    test_bwt(
        b"acadabra0AbRa4Cad14abraabr",
        b"ada104brRrd4arCcAaaaaaabbb",
    );
    test_bwt(
        b"cadabra0AbRa4Cad14abraabra",
        b"ada104brRrd4arCcAaaaaaabbb",
    );
    test_bwt(
        b"adabra0AbRa4Cad14abraabrac",
        b"ada104brRrd4arCcAaaaaaabbb",
    );
    test_bwt(
        b"dabra0AbRa4Cad14abraabraca",
        b"ada104brRrd4arCcAaaaaaabbb",
    );
    test_bwt(
        b"abra0AbRa4Cad14abraabracad",
        b"ada104brRrd4arCcAaaaaaabbb",
    );
}

#[test]
fn test_bwt3() {
    test_bwt(b"mmiissiissiippii", b"pssmiiiimipissii");
}

#[test]
fn test_bwt4() {
    test_bwt(
        b"mmiissiissiippiimmiissiissiippii",
        b"ppssssmmiiiiiiiimmiippiissssiiii",
    );
}

#[test]
fn test_bwt5() {
    // aiipibipi 7
    // bipiaiipi 3
    // iaiipibip 6
    // ibipiaiip 2
    // iipibipia 8
    // ipiaiipib 4
    // ipibipiai 0
    // piaiipibi 5
    // pibipiaii 1

    test_bwt(b"ipibipiai", b"iippabiii");
    test_bwtpos(b"ipibipiai", &[7, 3, 6, 2, 8, 4, 0, 5, 1]);
    test_bwtpos(b"pibipiaii", &[6, 2, 5, 1, 7, 3, 8, 4, 0]);
    test_bwtpos(b"ibipiaiip", &[5, 1, 4, 0, 6, 2, 7, 3, 8]);
    test_bwtpos(b"bipiaiipi", &[4, 0, 3, 8, 5, 1, 6, 2, 7]);
    test_bwtpos(b"ipiaiipib", &[3, 8, 2, 7, 4, 0, 5, 1, 6]);
    test_bwtpos(b"piaiipibi", &[2, 7, 1, 6, 3, 8, 4, 0, 5]);
    test_bwtpos(b"iaiipibip", &[1, 6, 0, 5, 2, 7, 3, 8, 4]);
    test_bwtpos(b"aiipibipi", &[0, 5, 8, 4, 1, 6, 2, 7, 3]);
    test_bwtpos(b"iipibipia", &[8, 4, 7, 3, 0, 5, 1, 6, 2]);
}

#[test]
fn test_bwt6() {
    // abacaiaiaiai 4
    // acaiaiaiaiab 6
    // aiabacaiaiai 2
    // aiaiabacaiai 0
    // aiaiaiabacai 10
    // aiaiaiaiabac 8
    // bacaiaiaiaia 5
    // caiaiaiaiaba 7
    // iabacaiaiaia 3
    // iaiabacaiaia 1
    // iaiaiabacaia 11
    // iaiaiaiabaca 9
    test_bwt(b"aiaiabacaiai", b"ibiiicaaaaaa");
    test_bwtpos(
        b"aiaiabacaiai",
        &[4, 6, 2, 0, 10, 8, 5, 7, 3, 1, 11, 9],
    );
    test_bwtpos(
        b"iaiabacaiaia",
        &[3, 5, 1, 11, 9, 7, 4, 6, 2, 0, 10, 8],
    );
    test_bwtpos(
        b"aiabacaiaiai",
        &[2, 4, 0, 10, 8, 6, 3, 5, 1, 11, 9, 7],
    );
    test_bwtpos(
        b"iabacaiaiaia",
        &[1, 3, 11, 9, 7, 5, 2, 4, 0, 10, 8, 6],
    );
    test_bwtpos(
        b"abacaiaiaiai",
        &[0, 2, 10, 8, 6, 4, 1, 3, 11, 9, 7, 5],
    );
    test_bwtpos(
        b"bacaiaiaiaia",
        &[11, 1, 9, 7, 5, 3, 0, 2, 10, 8, 6, 4],
    );
    test_bwtpos(
        b"acaiaiaiaiab",
        &[10, 0, 8, 6, 4, 2, 11, 1, 9, 7, 5, 3],
    );
    test_bwtpos(
        b"caiaiaiaiaba",
        &[9, 11, 7, 5, 3, 1, 10, 0, 8, 6, 4, 2],
    );
    test_bwtpos(
        b"aiaiaiaiabac",
        &[8, 10, 6, 4, 2, 0, 9, 11, 7, 5, 3, 1],
    );
    test_bwtpos(
        b"iaiaiaiabaca",
        &[7, 9, 5, 3, 1, 11, 8, 10, 6, 4, 2, 0],
    );
    test_bwtpos(
        b"aiaiaiabacai",
        &[6, 8, 4, 2, 0, 10, 7, 9, 5, 3, 1, 11],
    );
    test_bwtpos(
        b"iaiaiabacaia",
        &[5, 7, 3, 1, 11, 9, 6, 8, 4, 2, 0, 10],
    );
}

#[test]
fn test_bwt7() {
    // aibiaibiaiciaici 13
    // aibiaiciaiciaibi 1
    // aiciaibiaibiaici 9
    // aiciaiciaibiaibi 5
    // biaibiaiciaiciai 15
    // biaiciaiciaibiai 3
    // ciaibiaibiaiciai 11
    // ciaiciaibiaibiai 7
    // iaibiaibiaiciaic 12
    // iaibiaiciaiciaib 0
    // iaiciaibiaibiaic 8
    // iaiciaiciaibiaib 4
    // ibiaibiaiciaicia 14
    // ibiaiciaiciaibia 2
    // iciaibiaibiaicia 10
    // iciaiciaibiaibia 6
    test_bwt(b"iaibiaiciaiciaib", b"iiiiiiiicbcbaaaa");
    test_bwtpos(
        b"iaibiaiciaiciaib",
        &[
            13, 1, 9, 5, 15, 3, 11, 7, 12, 0, 8, 4, 14, 2, 10, 6
        ],
    );
}

#[test]
fn test_bwt8() {
    // 15 acacbdafacacbdag
    //  7 acacbdagacacbdaf
    //  1 acbdafacacbdagac
    //  9 acbdagacacbdafac
    //  5 afacacbdagacacbd
    // 13 agacacbdafacacbd
    //  3 bdafacacbdagacac
    // 11 bdagacacbdafacac
    //  0 cacbdafacacbdaga
    //  8 cacbdagacacbdafa
    //  2 cbdafacacbdagaca
    // 10 cbdagacacbdafaca
    //  4 dafacacbdagacacb
    // 12 dagacacbdafacacb
    //  6 facacbdagacacbda
    // 14 gacacbdafacacbda
    test_bwt(b"cacbdafacacbdaga", b"gfccddccaaaabbaa");
    test_bwtpos(
        b"cacbdafacacbdaga",
        &[
            15, 7, 1, 9, 5, 13, 3, 11, 0, 8, 2, 10, 4, 12, 6, 14
        ],
    );
    test_bwtpos(
        b"acbdafacacbdagac",
        &[
            14, 6, 0, 8, 4, 12, 2, 10, 15, 7, 1, 9, 3, 11, 5, 13
        ],
    );
    test_bwtpos(
        b"cbdafacacbdagaca",
        &[
            13, 5, 15, 7, 3, 11, 1, 9, 14, 6, 0, 8, 2, 10, 4, 12
        ],
    );
    test_bwtpos(
        b"bdafacacbdagacac",
        &[
            12, 4, 14, 6, 2, 10, 0, 8, 13, 5, 15, 7, 1, 9, 3, 11
        ],
    );
    test_bwtpos(
        b"dafacacbdagacacb",
        &[
            11, 3, 13, 5, 1, 9, 15, 7, 12, 4, 14, 6, 0, 8, 2, 10
        ],
    );
    test_bwtpos(
        b"afacacbdagacacbd",
        &[
            10, 2, 12, 4, 0, 8, 14, 6, 11, 3, 13, 5, 15, 7, 1, 9
        ],
    );
    test_bwtpos(
        b"facacbdagacacbda",
        &[
            9, 1, 11, 3, 15, 7, 13, 5, 10, 2, 12, 4, 14, 6, 0, 8
        ],
    );
    test_bwtpos(
        b"acacbdagacacbdaf",
        &[
            8, 0, 10, 2, 14, 6, 12, 4, 9, 1, 11, 3, 13, 5, 15, 7
        ],
    );
    test_bwtpos(
        b"cacbdagacacbdafa",
        &[
            7, 15, 9, 1, 13, 5, 11, 3, 8, 0, 10, 2, 12, 4, 14, 6
        ],
    );
    test_bwtpos(
        b"acbdagacacbdafac",
        &[
            6, 14, 8, 0, 12, 4, 10, 2, 7, 15, 9, 1, 11, 3, 13, 5
        ],
    );
    test_bwtpos(
        b"cbdagacacbdafaca",
        &[
            5, 13, 7, 15, 11, 3, 9, 1, 6, 14, 8, 0, 10, 2, 12, 4
        ],
    );
    test_bwtpos(
        b"bdagacacbdafacac",
        &[
            4, 12, 6, 14, 10, 2, 8, 0, 5, 13, 7, 15, 9, 1, 11, 3
        ],
    );
    test_bwtpos(
        b"dagacacbdafacacb",
        &[
            3, 11, 5, 13, 9, 1, 7, 15, 4, 12, 6, 14, 8, 0, 10, 2
        ],
    );
    test_bwtpos(
        b"agacacbdafacacbd",
        &[
            2, 10, 4, 12, 8, 0, 6, 14, 3, 11, 5, 13, 7, 15, 9, 1
        ],
    );
    test_bwtpos(
        b"gacacbdafacacbda",
        &[
            1, 9, 3, 11, 7, 15, 5, 13, 2, 10, 4, 12, 6, 14, 8, 0
        ],
    );
    test_bwtpos(
        b"acacbdafacacbdag",
        &[
            0, 8, 2, 10, 6, 14, 4, 12, 1, 9, 3, 11, 5, 13, 7, 15
        ],
    );
}

#[test]
fn test_bwt9() {
    test_bwtpos(&[0, 0, 1], &[0, 1, 2]);
}

#[test]
fn test_bwt10() {
    test_bwtpos(&[1, 0, 0, 0], &[1, 2, 3, 0]);
}

#[test]
fn test_bwt11() {
    //  0 2324122044142414
    //           @
    //    SLSLSLLSLLSLSLSL
    //    @ @ @     @ @ @
    //    0123456789012345

    //  7 0441424142324122
    //  4 1220441424142324
    // 14 1423241220441424
    // 10 1424142324122044
    //  6 2044142414232412
    //  5 2204414241423241
    //  0 2324122044142414
    //  2 2412204414241423
    // 12 2414232412204414
    //  1 3241220441424142
    //  3 4122044142414232
    // 13 4142324122044142
    //  9 4142414232412204
    // 15 4232412204414241
    // 11 4241423241220441
    //  8 4414241423241220
    test_bwtpos(
        &[2, 3, 2, 4, 1, 2, 2, 0, 4, 4, 1, 4, 2, 4, 1, 4],
        &[
            7, 4, 14, 10, 6, 5, 0, 2, 12, 1, 3, 13, 9, 15, 11, 8
        ],
    );
}

#[test]
fn test_bwt12() {
    test_bwtpos(
        b"2324122044142414",
        &[
            7, 4, 14, 10, 6, 5, 0, 2, 12, 1, 3, 13, 9, 15, 11, 8
        ],
    );
}


fn naive_order(src: &[u8]) -> Vec<usize> {
    let n = src.len();
    let mut r: Vec<usize> = (0..n).collect();
    r.sort_by(|&i, &j| {
        let a: Vec<u8> = src[i..].iter().chain(src[..i].iter()).cloned().collect();
        let b: Vec<u8> = src[j..].iter().chain(src[..j].iter()).cloned().collect();
        a.cmp(&b)
    });
    r
}

#[test]
fn bwt_single_character() {
    assert_eq!(bwt(b"x", 255), vec![0]);
}

#[test]
fn bwt_matches_sorted_rotations() {
    let texts: [&[u8]; 5] = [
        b"banana",
        b"abcdefg",
        b"gfedcba",
        b"mississippi",
        b"zyxzyxzyxq",
    ];
    for t in texts.iter() {
        assert_eq!(bwt(t, 255), naive_order(t));
    }
}

#[test]
fn bwt_small_alphabet() {
    let t = [2u8, 0, 1, 2, 0, 1, 1];
    assert_eq!(bwt(&t, 2), naive_order(&t));
}
