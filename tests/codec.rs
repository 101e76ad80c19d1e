use rpeg::bitpack::{fitss, fitsu, gets, getu, news, newu};
use rpeg::blocks::{blocks_to_cvc, cvc_to_blocks, get};
use rpeg::conversions::{trimmed_pixels, trimmed_size};
use rpeg::structs::{Block, UnpackedWord};
use rpeg::words::{
    consistent_dimensions, detail_level, extract_words, pack_word, packing, unpack_word,
    unpacking, word_from_bytes, word_to_bytes,
};

#[test]
fn getu_reads_a_middle_field() {
    assert_eq!(getu(0x3f4, 6, 2), 0x3d);
    assert_eq!(getu(0xff00, 8, 8), 0xff);
    assert_eq!(getu(u64::MAX, 64, 0), u64::MAX);
    assert_eq!(getu(u64::MAX, 0, 64), 0);
}

#[test]
fn gets_sign_extends() {
    assert_eq!(gets(0x1f << 18, 5, 18), -1);
    assert_eq!(gets(0x10 << 18, 5, 18), -16);
    assert_eq!(gets(0x0f << 18, 5, 18), 15);
    assert_eq!(gets(u64::MAX, 64, 0), -1);
    assert_eq!(gets(1u64 << 63, 64, 0), i64::MIN);
}

#[test]
fn newu_replaces_only_its_field() {
    assert_eq!(newu(0xffff, 4, 4, 0x3), Some(0xff3f));
    assert_eq!(newu(0, 9, 23, 511), Some(511u64 << 23));
    assert_eq!(newu(7, 64, 0, 42), Some(42));
    assert_eq!(newu(7, 0, 64, 0), Some(7));
}

#[test]
fn news_stores_twos_complement() {
    assert_eq!(news(0, 5, 8, -1), Some(0x1f00));
    assert_eq!(news(0, 5, 8, -16), Some(0x1000));
    assert_eq!(news(0, 5, 8, 15), Some(0x0f00));
    assert_eq!(news(0, 64, 0, -1), Some(u64::MAX));
}

#[test]
fn unsigned_overflow_fails() {
    assert_eq!(newu(0, 4, 0, 16), None);
    assert_eq!(newu(0, 9, 23, 512), None);
    assert_eq!(newu(0, 0, 10, 1), None);
    assert!(fitsu(15, 4));
    assert!(!fitsu(16, 4));
    assert!(fitsu(u64::MAX, 64));
}

#[test]
fn signed_overflow_fails() {
    assert_eq!(news(0, 5, 0, 16), None);
    assert_eq!(news(0, 5, 0, -17), None);
    assert!(fitss(-16, 5));
    assert!(!fitss(-17, 5));
    assert!(!fitss(16, 5));
    assert!(fitss(i64::MIN, 64));
    assert!(fitss(0, 0));
    assert!(!fitss(-1, 0));
}

#[test]
fn field_round_trip_on_samples() {
    for width in 1..=32u64 {
        for lsb in [0u64, 1, 7, 31, 64 - width] {
            let max = (1u64 << width) - 1;
            for v in [0u64, 1, max / 2, max] {
                let w = newu(0, width, lsb, v).unwrap();
                assert_eq!(getu(w, width, lsb), v);
            }
            let half = 1i64 << (width - 1);
            for v in [-half, -1, 0, half - 1] {
                let w = news(0xdead_beef_dead_beef, width, lsb, v).unwrap();
                assert_eq!(gets(w, width, lsb), v);
            }
        }
    }
}

#[test]
fn index_helpers_are_row_major() {
    assert_eq!(get(2, 3, 10), 23);
    assert_eq!(rpeg::blocks::set(1, 1, 4), 5);
}

#[test]
fn decompose_groups_two_by_two() {
    // 4 wide, 2 high
    let px: Vec<u32> = vec![0, 1, 2, 3, 10, 11, 12, 13];
    let blocks = cvc_to_blocks(px, 4, 2);
    assert_eq!(
        blocks,
        vec![
            Block { pix_1: 0, pix_2: 1, pix_3: 10, pix_4: 11 },
            Block { pix_1: 2, pix_2: 3, pix_3: 12, pix_4: 13 },
        ]
    );
}

#[test]
fn compose_writes_blocks_back() {
    let blocks = vec![
        Block { pix_1: 'a', pix_2: 'b', pix_3: 'e', pix_4: 'f' },
        Block { pix_1: 'c', pix_2: 'd', pix_3: 'g', pix_4: 'h' },
    ];
    assert_eq!(blocks_to_cvc(blocks, 4, 2), vec!['a', 'b', 'c', 'd', 'e', 'f', 'g', 'h']);
}

#[test]
fn compose_after_decompose_is_identity() {
    let px: Vec<(u16, u16)> = (0..6u16).flat_map(|i| (0..4u16).map(move |j| (i, j))).collect();
    let blocks = cvc_to_blocks(px.clone(), 4, 6);
    assert_eq!(blocks.len(), 6);
    assert_eq!(blocks_to_cvc(blocks, 4, 6), px);
}

#[test]
fn empty_grid_has_no_blocks() {
    let blocks = cvc_to_blocks(Vec::<u8>::new(), 0, 0);
    assert!(blocks.is_empty());
    assert!(blocks_to_cvc(blocks, 0, 0).is_empty());
}

#[test]
fn odd_image_is_trimmed() {
    assert_eq!(trimmed_size(3, 5), (2, 4));
    assert_eq!(trimmed_size(2, 4), (2, 4));
    assert_eq!(trimmed_size(1, 1), (0, 0));
    // 3 wide, 5 high: the last column and the last row are dropped
    let px: Vec<u32> = (0..15).collect();
    let kept = trimmed_pixels(&px, 3, 5);
    assert_eq!(kept, vec![0, 1, 3, 4, 6, 7, 9, 10]);
    let blocks = cvc_to_blocks(kept, 2, 4);
    assert_eq!(
        blocks,
        vec![
            Block { pix_1: 0, pix_2: 1, pix_3: 3, pix_4: 4 },
            Block { pix_1: 6, pix_2: 7, pix_3: 9, pix_4: 10 },
        ]
    );
}

#[test]
fn pack_word_layout() {
    let f = UnpackedWord { a: 0x1ff, b: -1, c: 1, d: -16, pb: 0xa, pr: 0x5 };
    let w = pack_word(&f).unwrap();
    assert_eq!(w, (0x1ff << 23) | (0x1f << 18) | (0x01 << 13) | (0x10 << 8) | (0xa << 4) | 0x5);
    assert_eq!(unpack_word(w), f);
}

#[test]
fn pack_word_rejects_fields_that_do_not_fit() {
    let ok = UnpackedWord { a: 0, b: 0, c: 0, d: 0, pb: 0, pr: 0 };
    assert_eq!(pack_word(&ok), Some(0));
    assert_eq!(pack_word(&UnpackedWord { a: 512, ..ok }), None);
    assert_eq!(pack_word(&UnpackedWord { b: 16, ..ok }), None);
    assert_eq!(pack_word(&UnpackedWord { c: -17, ..ok }), None);
    assert_eq!(pack_word(&UnpackedWord { d: 20, ..ok }), None);
    assert_eq!(pack_word(&UnpackedWord { pb: 16, ..ok }), None);
    assert_eq!(pack_word(&UnpackedWord { pr: 99, ..ok }), None);
}

#[test]
fn unpack_then_pack_gives_the_word() {
    for w in [0u32, 1, 0xdead_beef, u32::MAX, 0x8000_0000, 0x0004_0000] {
        assert_eq!(pack_word(&unpack_word(w)), Some(w));
    }
}

#[test]
fn uniform_red_block_codeword() {
    let pb = csc411_arith::index_of_chroma(-0.168736_f32);
    let pr = csc411_arith::index_of_chroma(0.5_f32);
    assert_eq!((pb, pr), (2, 15));
    let a = (0.299_f64 * 511.0).round() as u64;
    assert_eq!(a, 153);
    let f = UnpackedWord { a, b: 0, c: 0, d: 0, pb, pr };
    let w = pack_word(&f).unwrap();
    assert_eq!(w, (153 << 23) | (2 << 4) | 15);
    assert_eq!(word_to_bytes(w), [0x4c, 0x80, 0x00, 0x2f]);
    let back = unpack_word(w);
    assert_eq!(back, f);
    assert_eq!(detail_level(back.b), 0);
}

#[test]
fn big_endian_bytes() {
    assert_eq!(word_to_bytes(0x0102_0304), [1, 2, 3, 4]);
    assert_eq!(word_from_bytes([0xde, 0xad, 0xbe, 0xef]), 0xdead_beef);
    assert_eq!(word_from_bytes(word_to_bytes(0x89ab_cdef)), 0x89ab_cdef);
}

#[test]
fn extract_words_reads_each_group() {
    let words = extract_words(vec![[0, 0, 0, 1], [0xff, 0, 0, 0], [0x12, 0x34, 0x56, 0x78]]);
    assert_eq!(words, vec![1, 0xff00_0000, 0x1234_5678]);
    assert!(extract_words(Vec::new()).is_empty());
}

#[test]
fn packing_and_unpacking_streams() {
    let fields = vec![
        UnpackedWord { a: 1, b: 2, c: -3, d: 4, pb: 5, pr: 6 },
        UnpackedWord { a: 300, b: -16, c: 15, d: 0, pb: 15, pr: 0 },
    ];
    let bytes = packing(fields.clone()).unwrap();
    assert_eq!(bytes.len(), 2);
    assert_eq!(unpacking(extract_words(bytes)), fields);
    let bad = vec![UnpackedWord { a: 1000, b: 0, c: 0, d: 0, pb: 0, pr: 0 }];
    assert_eq!(packing(bad), None);
}

#[test]
fn detail_levels_are_limited() {
    assert_eq!(detail_level(-16), -15);
    assert_eq!(detail_level(-15), -15);
    assert_eq!(detail_level(7), 7);
    assert_eq!(detail_level(15), 15);
    assert_eq!(detail_level(40), 15);
}

#[test]
fn stream_dimensions_must_match_word_count() {
    assert!(consistent_dimensions(2, 4, 2));
    assert!(consistent_dimensions(0, 0, 0));
    assert!(!consistent_dimensions(3, 4, 2));
    assert!(!consistent_dimensions(2, 3, 2));
    assert!(!consistent_dimensions(1, 2, 3));
    assert!(!consistent_dimensions(0, usize::MAX - 1, 2));
}
