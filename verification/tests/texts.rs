use shrink_oracle::hexadecimal::{trim, HexError};
use shrink_oracle::names::{bytes_le, sort_by_name};
use shrink_oracle::statement::{derive_shrink_statement, encode_statement, push_len_prefixed};
use shrink_oracle::tag::{
    accumulate, alpha_limbs, coeff_vec, compare_tag, parse_hex_32, reduce_digest, residual_tag,
    show_alpha, KeyError, ShrinkTagParams, TagError, P64_CANDIDATES,
};
use shrink_oracle::text::{bytes_eq, concat_str, str_eq};

const SEED_HEX: &str = "000102030405060708090a0b0c0d0e0f101112131415161718191a1b1c1d1e1f";
const ALPHA_HEX: &str = "baddcc2129a0bf3ddf388e35725b767e0cc42201b2108cf54e5b4da29ef23f3d";

fn seed() -> [u8; 32] {
    let mut s = [0u8; 32];
    for i in 0..32 {
        s[i] = i as u8;
    }
    s
}

fn statement_hash() -> [u8; 32] {
    parse_hex_32("b111c6e1d318f203063e5c16bab43c108326af0aa2f7b65760c95547a43dbe52").unwrap()
}

fn params<'a>() -> ShrinkTagParams<'a> {
    ShrinkTagParams {
        statement_hex: "73746174656d656e74",
        armer_id: 7,
        tag_seed_hex: SEED_HEX,
        shape_id: "shrink_v1",
        alpha_hex: None,
        alpha_seed_hex: None,
        print_alpha: false,
    }
}

#[test]
fn strings_are_compared_and_joined() {
    assert!(str_eq("perm/Select", "perm/Select"));
    assert!(!str_eq("perm/Select", "perm/Selecu"));
    assert!(!str_eq("a", "aa"));
    assert!(bytes_eq(&[1, 2], &[1, 2]));
    assert!(!bytes_eq(&[1, 2], &[1, 3]));
    assert_eq!(concat_str("pre/", "BaseAlu"), "pre/BaseAlu");
}

#[test]
fn trimming_agrees_with_the_standard_library() {
    for v in 0u32..0x3100 {
        if let Some(c) = char::from_u32(v) {
            let text = format!("{}x{}y{}{}", c, c, c, c);
            assert_eq!(trim(&text), text.trim(), "{:x}", v);
        }
    }
    assert_eq!(trim(" \n\t"), "");
    assert_eq!(trim(""), "");
    assert_eq!(trim("\u{fe}\u{10ffff}"), "\u{fe}\u{10ffff}");
}

#[test]
fn names_are_sorted_by_their_bytes() {
    let names = ["Select", "BaseAlu", "MemoryVar", "BatchFRI", "pre/Z", "Select", "\u{e9}", "z"];
    let items: Vec<(String, usize)> =
        names.iter().enumerate().map(|(i, n)| (n.to_string(), i)).collect();
    let mut expected = items.clone();
    expected.sort_by(|a, b| a.0.cmp(&b.0));
    assert_eq!(sort_by_name(items), expected);
    assert!(bytes_le(b"a", b"ab"));
    assert!(!bytes_le(b"b", b"ab"));
    assert!(bytes_le(b"", b""));
}

#[test]
fn keys_are_parsed() {
    assert_eq!(parse_hex_32(SEED_HEX), Ok(seed()));
    let padded = format!("  {}\n", SEED_HEX.to_uppercase());
    assert_eq!(parse_hex_32(&padded), Ok(seed()));
}

#[test]
fn keys_that_are_no_keys_are_refused() {
    assert_eq!(parse_hex_32("abc"), Err(KeyError::Hex(HexError::OddLength)));
    assert_eq!(
        parse_hex_32("0g"),
        Err(KeyError::Hex(HexError::InvalidCharacter { c: 'g', index: 1 }))
    );
    // The text is read byte by byte: the first byte of the two that encode the letter is named.
    assert_eq!(
        parse_hex_32("\u{e9}"),
        Err(KeyError::Hex(HexError::InvalidCharacter { c: '\u{c3}', index: 0 }))
    );
    assert_eq!(parse_hex_32("0011"), Err(KeyError::Length));
    assert_eq!(parse_hex_32(""), Err(KeyError::Length));
}

#[test]
fn coefficients_come_from_digests() {
    let c = coeff_vec(&seed(), &statement_hash(), 7, 3, &P64_CANDIDATES);
    assert_eq!(
        c,
        [206722123369442059, 4130776439505664569, 10736886333497876368, 8370215791025790720]
    );
    let mut digest = [0u8; 32];
    digest[0] = 5;
    digest[1] = 1;
    digest[8] = 9;
    assert_eq!(reduce_digest(&digest, 100), 61);
}

#[test]
fn tags_are_linear_combinations() {
    let tag = residual_tag(&seed(), &statement_hash(), 7, &[0, 1, 1, 0, 1]);
    assert_eq!(
        tag,
        [3343599631973242837, 8825673927829703329, 14113470074910997088, 2974417999694302972]
    );
    assert_eq!(accumulate(10, 7, 4, 3), 9);
    assert_eq!(accumulate(P64_CANDIDATES[0], 1, P64_CANDIDATES[0] - 1, 1), 0);
}

#[test]
fn the_tag_of_a_sum_is_the_sum_of_the_tags() {
    let a = residual_tag(&seed(), &statement_hash(), 1, &[1, 0, 5]);
    let b = residual_tag(&seed(), &statement_hash(), 1, &[0, 7, 1]);
    let c = residual_tag(&seed(), &statement_hash(), 1, &[1, 7, 6]);
    for i in 0..4 {
        let sum = (a[i] as u128 + b[i] as u128) % P64_CANDIDATES[i] as u128;
        assert_eq!(c[i] as u128, sum);
    }
}

#[test]
fn zeros_have_the_tag_zero() {
    assert_eq!(residual_tag(&seed(), &statement_hash(), 7, &[0, 0, 0]), [0, 0, 0, 0]);
    assert_eq!(residual_tag(&seed(), &statement_hash(), 7, &[]), [0, 0, 0, 0]);
}

#[test]
fn targets_are_reduced_limb_by_limb() {
    let alpha = parse_hex_32(ALPHA_HEX).unwrap();
    assert_eq!(
        alpha_limbs(&alpha),
        [4449451055386516922, 9112571442113689823, 17693535392741114892, 4413512922988108622]
    );
    assert_eq!(
        alpha_limbs(&[0xff; 32]),
        [0xffff_fffe, 58, 82, 94]
    );
}

#[test]
fn a_target_is_derived_from_its_seed() {
    let mut p = params();
    p.alpha_seed_hex = Some("1111111111111111111111111111111111111111111111111111111111111111");
    p.print_alpha = true;
    assert_eq!(show_alpha(&p), Some(ALPHA_HEX.to_string()));
    p.print_alpha = false;
    assert_eq!(show_alpha(&p), None);
    let r = compare_tag(&[1], &p, &statement_hash(), &seed()).unwrap();
    assert_eq!(
        r.alpha_mod_p,
        Some([
            4449451055386516922,
            9112571442113689823,
            17693535392741114892,
            4413512922988108622
        ])
    );
    assert_eq!(r.unlock, Some(false));
}

#[test]
fn a_given_target_is_preferred() {
    let mut p = params();
    p.alpha_hex = Some(SEED_HEX);
    p.alpha_seed_hex = Some("not a seed");
    p.print_alpha = true;
    assert_eq!(show_alpha(&p), Some(SEED_HEX.to_string()));
    p.statement_hex = "x";
    assert_eq!(show_alpha(&p), None);
}

#[test]
fn the_lock_opens_where_the_tag_is_the_target() {
    let sh = statement_hash();
    let tag = residual_tag(&seed(), &sh, 7, &[0, 1, 1, 0, 1]);
    let mut bytes: Vec<u8> = Vec::new();
    for limb in tag {
        bytes.extend_from_slice(&limb.to_le_bytes());
    }
    let text: String = bytes.iter().map(|b| format!("{:02x}", b)).collect();
    let mut p = params();
    p.alpha_hex = Some(&text);
    let r = compare_tag(&[0, 1, 1, 0, 1], &p, &sh, &seed()).unwrap();
    assert_eq!(r.residuals_emitted, 5);
    assert_eq!(r.tag_mod_p, tag);
    assert_eq!(r.alpha_mod_p, Some(tag));
    assert_eq!(r.unlock, Some(true));
    let other = compare_tag(&[0, 1, 1, 1, 1], &p, &sh, &seed()).unwrap();
    assert_eq!(other.unlock, Some(false));
    let none = compare_tag(&[0], &params(), &sh, &seed()).unwrap();
    assert_eq!((none.alpha_mod_p, none.unlock), (None, None));
}

#[test]
fn bad_targets_are_refused() {
    let mut p = params();
    p.alpha_hex = Some("00");
    let r = compare_tag(&[], &p, &statement_hash(), &seed());
    assert!(matches!(r, Err(TagError::Alpha(KeyError::Length))));
    p.alpha_hex = None;
    p.alpha_seed_hex = Some("0");
    let r = compare_tag(&[], &p, &statement_hash(), &seed());
    assert!(matches!(r, Err(TagError::AlphaSeed(KeyError::Hex(HexError::OddLength)))));
}

#[test]
fn byte_strings_stand_behind_their_length() {
    let mut out: Vec<u8> = vec![9];
    push_len_prefixed(&mut out, b"abc");
    assert_eq!(out, vec![9, 3, 0, 0, 0, b'a', b'b', b'c']);
    push_len_prefixed(&mut out, b"");
    assert_eq!(out.len(), 12);
}

#[test]
fn statements_are_derived() {
    let s = derive_shrink_statement("shrink_v1", "v5.0.0", b"vk", b"pv");
    assert_eq!(
        s.vk_hash,
        "8630c6c9af0730c3e9635a44c97bfb4ac4ff57c449951a60848ac666f5f2de0c"
    );
    assert_eq!(
        s.public_values_hash,
        "0717031b935f131e7a4974ff41f4511bbd630b61dd1a813d47a214106b9ec14b"
    );
    assert_eq!(
        s.statement_hash,
        "6985a6fa3198ce98eea01c9cafe4839ef88bfb0161d231c07cb832b317a8c55e"
    );
    let expected = format!(
        "{}{}{}{}{}{}{}",
        "7370312e747261636b612e736872696e6b2e73746174656d656e742e7630",
        "09000000",
        "736872696e6b5f7631",
        "06000000",
        "76352e302e30",
        s.vk_hash,
        s.public_values_hash
    );
    assert_eq!(s.statement_hex, expected);
}

#[test]
fn different_statements_have_different_bytes() {
    let a = encode_statement("ab", "c", &[1; 32], &[2; 32]);
    let b = encode_statement("a", "bc", &[1; 32], &[2; 32]);
    assert_ne!(a, b);
    assert_eq!(a.len(), b.len());
}
