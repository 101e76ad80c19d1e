use crate::bitpack::{
    field_of, fits_signed, fits_unsigned, getu, gets, lemma_field_of_with_field,
    lemma_pattern_signed, lemma_signed_pattern, lemma_with_field_aligned, news, newu,
    sign_extend, twos_complement,
};
use crate::structs::UnpackedWord;
use vstd::arithmetic::power2::{lemma2_to64, pow2};
use vstd::prelude::*;

verus! {

/// Width of the average brightness field.
pub const A_WIDTH: u64 = 9;
/// Lowest bit of the average brightness field.
pub const A_LSB: u64 = 23;
/// Width of each detail coefficient field.
pub const DETAIL_WIDTH: u64 = 5;
/// Lowest bit of the field of detail coefficient `b`.
pub const B_LSB: u64 = 18;
/// Lowest bit of the field of detail coefficient `c`.
pub const C_LSB: u64 = 13;
/// Lowest bit of the field of detail coefficient `d`.
pub const D_LSB: u64 = 8;
/// Width of each chroma index field.
pub const CHROMA_WIDTH: u64 = 4;
/// Lowest bit of the pb index field.
pub const PB_LSB: u64 = 4;
/// Lowest bit of the pr index field.
pub const PR_LSB: u64 = 0;
/// Largest magnitude of a detail coefficient level after decoding: 0.3 in
/// steps of 1/50.
pub const DETAIL_LIMIT: i64 = 15;

/// The fields of `f` fit the codeword layout.
pub open spec fn fields_fit(f: UnpackedWord) -> bool {
    fits_unsigned(f.a as int, 9) && fits_signed(f.b as int, 5) && fits_signed(f.c as int, 5)
        && fits_signed(f.d as int, 5) && fits_unsigned(f.pb as int, 4) && fits_unsigned(
        f.pr as int,
        4,
    )
}

/// The codeword that holds the fields of `f`.
pub open spec fn word_of(f: UnpackedWord) -> nat {
    (f.a * 0x80_0000 + twos_complement(f.b as int, 5) * 0x4_0000 + twos_complement(f.c as int, 5)
        * 0x2000 + twos_complement(f.d as int, 5) * 0x100 + f.pb * 0x10 + f.pr) as nat
}

/// The fields that the codeword `w` holds.
pub open spec fn unpacked_of(w: nat) -> UnpackedWord {
    UnpackedWord {
        a: field_of(w, 9, 23) as u64,
        b: sign_extend(field_of(w, 5, 18), 5) as i64,
        c: sign_extend(field_of(w, 5, 13), 5) as i64,
        d: sign_extend(field_of(w, 5, 8), 5) as i64,
        pb: field_of(w, 4, 4) as usize,
        pr: field_of(w, 4, 0) as usize,
    }
}

/// The value of four bytes read most significant first.
pub open spec fn be_value(b: Seq<u8>) -> nat {
    b[0] as nat * 0x100_0000 + b[1] as nat * 0x1_0000 + b[2] as nat * 0x100 + b[3] as nat
}

/// `v` clamped to the range `lo..=hi`.
pub open spec fn clamp(v: int, lo: int, hi: int) -> int {
    if v < lo {
        lo
    } else if v > hi {
        hi
    } else {
        v
    }
}

/// Packing fields that fit and unpacking the codeword gives the fields back.
pub proof fn lemma_unpack_pack(f: UnpackedWord)
    requires
        fields_fit(f),
    ensures
        word_of(f) < 0x1_0000_0000,
        unpacked_of(word_of(f)) == f,
{
    lemma2_to64();
    let tb = twos_complement(f.b as int, 5);
    let tc = twos_complement(f.c as int, 5);
    let td = twos_complement(f.d as int, 5);
    lemma_signed_pattern(f.b as int, 5);
    lemma_signed_pattern(f.c as int, 5);
    lemma_signed_pattern(f.d as int, 5);
    let lo8 = (f.pb * 0x10 + f.pr) as nat;
    let lo13 = (td * 0x100 + lo8) as nat;
    let lo18 = (tc * 0x2000 + lo13) as nat;
    let lo23 = (tb * 0x4_0000 + lo18) as nat;
    let h8 = (f.a * 0x8000 + tb * 0x400 + tc * 0x20 + td) as nat;
    let x = word_of(f);
    assert(field_of(x, 9, 23) == f.a) by {
        lemma_field_of_with_field(0, f.a as nat, lo23, 9, 23);
    }
    assert(field_of(x, 5, 18) == tb) by {
        lemma_field_of_with_field(f.a as nat, tb, lo18, 5, 18);
    }
    assert(field_of(x, 5, 13) == tc) by {
        let hi = (f.a * 32 + tb) as nat;
        assert(x == hi * pow2(18) + tc * pow2(13) + lo13);
        lemma_field_of_with_field(hi, tc, lo13, 5, 13);
    }
    assert(field_of(x, 5, 8) == td) by {
        let hi = (f.a * 0x400 + tb * 32 + tc) as nat;
        assert(x == hi * pow2(13) + td * pow2(8) + lo8);
        lemma_field_of_with_field(hi, td, lo8, 5, 8);
    }
    assert(field_of(x, 4, 4) == f.pb) by {
        assert(x == h8 * pow2(8) + f.pb * pow2(4) + f.pr);
        lemma_field_of_with_field(h8, f.pb as nat, f.pr as nat, 4, 4);
    }
    assert(field_of(x, 4, 0) == f.pr) by {
        let hi = (h8 * 16 + f.pb) as nat;
        assert(x == hi * pow2(4) + f.pr * pow2(0) + 0);
        lemma_field_of_with_field(hi, f.pr as nat, 0, 4, 0);
    }
}

/// Unpacking any codeword and packing its fields gives the codeword back.
pub proof fn lemma_pack_unpack(w: u32)
    ensures
        fields_fit(unpacked_of(w as nat)),
        word_of(unpacked_of(w as nat)) == w,
{
    lemma2_to64();
    let fb = field_of(w as nat, 5, 18);
    let fc = field_of(w as nat, 5, 13);
    let fd = field_of(w as nat, 5, 8);
    lemma_pattern_signed(fb, 5);
    lemma_pattern_signed(fc, 5);
    lemma_pattern_signed(fd, 5);
    assert(w / 0x80_0000 < 512) by (bit_vector);
    assert(w == (w / 0x80_0000) * 0x80_0000 + ((w / 0x4_0000) % 32) * 0x4_0000 + ((w / 0x2000)
        % 32) * 0x2000 + ((w / 0x100) % 32) * 0x100 + ((w / 0x10) % 16) * 0x10 + w % 16)
        by (bit_vector);
}

/// Lays the fields of `f` out in one codeword; `None` when one of them does
/// not fit its field.
pub fn pack_word(f: &UnpackedWord) -> (r: Option<u32>)
    ensures
        r is Some <==> fields_fit(*f),
        r matches Some(w) ==> w == word_of(*f),
{
    proof {
        lemma2_to64();
    }
    let w1 = match newu(0, A_WIDTH, A_LSB, f.a) {
        Some(w) => w,
        None => return None,
    };
    let w2 = match news(w1, DETAIL_WIDTH, B_LSB, f.b) {
        Some(w) => w,
        None => return None,
    };
    let w3 = match news(w2, DETAIL_WIDTH, C_LSB, f.c) {
        Some(w) => w,
        None => return None,
    };
    let w4 = match news(w3, DETAIL_WIDTH, D_LSB, f.d) {
        Some(w) => w,
        None => return None,
    };
    let w5 = match newu(w4, CHROMA_WIDTH, PB_LSB, f.pb as u64) {
        Some(w) => w,
        None => return None,
    };
    let w6 = match newu(w5, CHROMA_WIDTH, PR_LSB, f.pr as u64) {
        Some(w) => w,
        None => return None,
    };
    proof {
        let tb = twos_complement(f.b as int, 5);
        let tc = twos_complement(f.c as int, 5);
        let td = twos_complement(f.d as int, 5);
        lemma_signed_pattern(f.b as int, 5);
        lemma_signed_pattern(f.c as int, 5);
        lemma_signed_pattern(f.d as int, 5);
        lemma_with_field_aligned(0, 9, 23, f.a as nat);
        lemma_with_field_aligned(f.a as nat, 5, 18, tb);
        let h2 = (f.a * 32 + tb) as nat;
        lemma_with_field_aligned(h2, 5, 13, tc);
        let h3 = (h2 * 32 + tc) as nat;
        lemma_with_field_aligned(h3, 5, 8, td);
        let h4 = (h3 * 32 + td) as nat;
        lemma_with_field_aligned(h4, 4, 4, f.pb as nat);
        let h5 = (h4 * 16 + f.pb) as nat;
        lemma_with_field_aligned(h5, 4, 0, f.pr as nat);
    }
    Some(w6 as u32)
}

/// Reads the six fields of the codeword `word`.
pub fn unpack_word(word: u32) -> (r: UnpackedWord)
    ensures
        r == unpacked_of(word as nat),
{
    let w = word as u64;
    let a = getu(w, A_WIDTH, A_LSB);
    let b = gets(w, DETAIL_WIDTH, B_LSB);
    let c = gets(w, DETAIL_WIDTH, C_LSB);
    let d = gets(w, DETAIL_WIDTH, D_LSB);
    let pb = getu(w, CHROMA_WIDTH, PB_LSB);
    let pr = getu(w, CHROMA_WIDTH, PR_LSB);
    proof {
        lemma2_to64();
    }
    UnpackedWord { a, b, c, d, pb: pb as usize, pr: pr as usize }
}

/// The big-endian bytes of `word`.
pub fn word_to_bytes(word: u32) -> (r: [u8; 4])
    ensures
        be_value(r@) == word,
{
    proof {
        assert(word / 0x100_0000 < 256) by (bit_vector);
        assert(word == (word / 0x100_0000) * 0x100_0000 + ((word / 0x1_0000) % 256) * 0x1_0000 + ((
        word / 0x100) % 256) * 0x100 + word % 256) by (bit_vector);
    }
    let r = [
        (word / 0x100_0000) as u8,
        ((word / 0x1_0000) % 256) as u8,
        ((word / 0x100) % 256) as u8,
        (word % 256) as u8,
    ];
    r
}

/// The word whose big-endian bytes are `bytes`.
pub fn word_from_bytes(bytes: [u8; 4]) -> (r: u32)
    ensures
        r == be_value(bytes@),
{
    (bytes[0] as u32) * 0x100_0000 + (bytes[1] as u32) * 0x1_0000 + (bytes[2] as u32) * 0x100
        + bytes[3] as u32
}

/// Reads each group of four bytes as one big-endian codeword.
pub fn extract_words(vec: Vec<[u8; 4]>) -> (r: Vec<u32>)
    ensures
        r.len() == vec.len(),
        forall|i: int| 0 <= i < r.len() ==> #[trigger] r[i] == be_value(vec[i]@),
{
    let mut words: Vec<u32> = Vec::new();
    let mut i: usize = 0;
    while i < vec.len()
        invariant
            i <= vec.len(),
            words.len() == i,
            forall|k: int| 0 <= k < i ==> #[trigger] words[k] == be_value(vec[k]@),
        decreases vec.len() - i,
    {
        let word = word_from_bytes(vec[i]);
        words.push(word);
        i = i + 1;
    }
    words
}

/// Packs the fields of each block into its codeword, as big-endian bytes,
/// in order; `None` when some field does not fit.
pub fn packing(fields: Vec<UnpackedWord>) -> (r: Option<Vec<[u8; 4]>>)
    ensures
        r is Some <==> forall|i: int| 0 <= i < fields.len() ==> fields_fit(#[trigger] fields[i]),
        r matches Some(bytes) ==> bytes.len() == fields.len() && forall|i: int|
            0 <= i < bytes.len() ==> be_value(#[trigger] bytes[i]@) == word_of(fields[i]),
{
    let mut out: Vec<[u8; 4]> = Vec::new();
    let mut i: usize = 0;
    while i < fields.len()
        invariant
            i <= fields.len(),
            out.len() == i,
            forall|k: int| 0 <= k < i ==> fields_fit(#[trigger] fields[k]),
            forall|k: int| 0 <= k < i ==> be_value(#[trigger] out[k]@) == word_of(fields[k]),
        decreases fields.len() - i,
    {
        match pack_word(&fields[i]) {
            Some(w) => {
                out.push(word_to_bytes(w));
            },
            None => {
                return None;
            },
        }
        i = i + 1;
    }
    Some(out)
}

/// Reading back the bytes that packing writes, word by word, gives the
/// fields that were packed.
pub proof fn lemma_stream_round_trip(fields: Seq<UnpackedWord>, bytes: Seq<[u8; 4]>)
    requires
        forall|i: int| 0 <= i < fields.len() ==> fields_fit(#[trigger] fields[i]),
        bytes.len() == fields.len(),
        forall|i: int| 0 <= i < bytes.len() ==> be_value(#[trigger] bytes[i]@) == word_of(fields[i]),
    ensures
        forall|i: int|
            0 <= i < bytes.len() ==> be_value(#[trigger] bytes[i]@) < 0x1_0000_0000 && unpacked_of(
                be_value(bytes[i]@),
            ) == fields[i],
{
    assert forall|i: int| 0 <= i < bytes.len() implies be_value(#[trigger] bytes[i]@)
        < 0x1_0000_0000 && unpacked_of(be_value(bytes[i]@)) == fields[i] by {
        lemma_unpack_pack(fields[i]);
    }
}

/// Reads the fields of each codeword, in order.
pub fn unpacking(words: Vec<u32>) -> (r: Vec<UnpackedWord>)
    ensures
        r.len() == words.len(),
        forall|i: int| 0 <= i < r.len() ==> #[trigger] r[i] == unpacked_of(words[i] as nat),
{
    let mut out: Vec<UnpackedWord> = Vec::new();
    let mut i: usize = 0;
    while i < words.len()
        invariant
            i <= words.len(),
            out.len() == i,
            forall|k: int| 0 <= k < i ==> #[trigger] out[k] == unpacked_of(words[k] as nat),
        decreases words.len() - i,
    {
        out.push(unpack_word(words[i]));
        i = i + 1;
    }
    out
}

/// The level of a detail coefficient as decoding uses it: the stored level
/// limited to the range that encoding can produce, `-0.3..=0.3` in steps of
/// 1/50.
pub fn detail_level(q: i64) -> (r: i64)
    ensures
        r == clamp(q as int, -DETAIL_LIMIT as int, DETAIL_LIMIT as int),
{
    if q < -DETAIL_LIMIT {
        -DETAIL_LIMIT
    } else if q > DETAIL_LIMIT {
        DETAIL_LIMIT
    } else {
        q
    }
}

/// Whether a stream of `n_words` codewords can hold an image of the declared
/// `width` and `height`: both even, and one codeword for each 2x2 block.
pub fn consistent_dimensions(n_words: usize, width: usize, height: usize) -> (r: bool)
    ensures
        r == (width % 2 == 0 && height % 2 == 0 && n_words == (width / 2) * (height / 2) && width
            * height <= usize::MAX),
{
    if width % 2 != 0 || height % 2 != 0 {
        return false;
    }
    let hw = width / 2;
    let hh = height / 2;
    if hh != 0 && hw > usize::MAX / hh {
        proof {
            assert(hw * hh > usize::MAX) by (nonlinear_arith)
                requires
                    hh > 0,
                    hw > usize::MAX / hh,
            ;
            assert(width * height > usize::MAX) by (nonlinear_arith)
                requires
                    hw * hh > usize::MAX,
                    width == 2 * hw,
                    height == 2 * hh,
            ;
        }
        return false;
    }
    proof {
        assert(hw * hh <= usize::MAX) by (nonlinear_arith)
            requires
                hh == 0 || hw <= usize::MAX / hh,
        ;
    }
    if n_words != hw * hh {
        return false;
    }
    proof {
        assert(width * height == 4 * (hw * hh)) by (nonlinear_arith)
            requires
                width == 2 * hw,
                height == 2 * hh,
        ;
    }
    n_words <= usize::MAX / 4
}

} // verus!
