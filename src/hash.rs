//! 64-bit perceptual hashes: bit extraction from a downscaled grayscale
//! image, packing into bytes, Hamming distance, and a base64 text form.
use vstd::prelude::*;

use crate::gbis::PixelGrid;

verus! {

/// A 64-bit perceptual hash, as eight bytes.
#[derive(Clone, Copy, Debug, PartialEq, Eq, PartialOrd, Ord)]
pub struct Hash(pub [u8; 8]);

/// Number of set bits in `v`.
pub open spec fn bit_count(v: u8) -> nat
    decreases v,
{
    if v == 0 {
        0
    } else {
        (v % 2) as nat + bit_count(v / 2)
    }
}

/// Number of differing bits between the first `j` bytes of `a` and `b`.
pub open spec fn hamming(a: Seq<u8>, b: Seq<u8>, j: int) -> nat
    decreases j,
{
    if j <= 0 {
        0
    } else {
        hamming(a, b, j - 1) + bit_count(a[j - 1] ^ b[j - 1])
    }
}

proof fn lemma_bit_count_le(v: u8)
    ensures
        bit_count(v) <= v,
    decreases v,
{
    if v != 0 {
        lemma_bit_count_le(v / 2);
    }
}

/// Counts the set bits of `v`.
fn count_ones(v: u8) -> (r: u32)
    ensures
        r == bit_count(v),
{
    let mut rest = v;
    let mut count: u32 = 0;
    proof {
        lemma_bit_count_le(v);
    }
    while rest != 0
        invariant
            count + bit_count(rest) == bit_count(v),
            bit_count(v) <= 255,
        decreases rest,
    {
        count = count + (rest % 2) as u32;
        rest = rest / 2;
    }
    count
}

impl Hash {
    /// Number of bits in which the two hashes differ.
    pub fn distance(&self, rhs: &Self) -> (r: u32)
        ensures
            r == hamming(self.0@, rhs.0@, 8),
    {
        let mut total: u32 = 0;
        let mut i: usize = 0;
        while i < 8
            invariant
                i <= 8,
                total == hamming(self.0@, rhs.0@, i as int),
                total <= 255 * i,
            decreases 8 - i,
        {
            let d = count_ones(self.0[i] ^ rhs.0[i]);
            proof {
                lemma_bit_count_le(self.0@[i as int] ^ rhs.0@[i as int]);
            }
            total = total + d;
            i = i + 1;
        }
        total
    }
}

/// Sum of the first `j` samples.
pub open spec fn sample_sum(luma: Seq<u8>, j: int) -> int
    decreases j,
{
    if j <= 0 {
        0
    } else {
        sample_sum(luma, j - 1) + luma[j - 1]
    }
}

/// One bit per sample: whether it lies above the mean of all samples.
pub open spec fn mean_bits(luma: Seq<u8>) -> Seq<bool> {
    Seq::new(luma.len(), |i: int| luma[i] * luma.len() > sample_sum(luma, luma.len() as int))
}

/// For each sample, whether it is above the mean of all samples.
pub fn mean_hash(luma: &[u8]) -> (r: Vec<bool>)
    ensures
        r@ == mean_bits(luma@),
{
    let n = luma.len();
    let mut sum: u128 = 0;
    let mut i: usize = 0;
    while i < n
        invariant
            n == luma@.len(),
            i <= n,
            sum == sample_sum(luma@, i as int),
            sum <= 255 * i,
        decreases n - i,
    {
        sum = sum + luma[i] as u128;
        i = i + 1;
    }
    let mut bits: Vec<bool> = Vec::new();
    let mut i: usize = 0;
    while i < n
        invariant
            n == luma@.len(),
            i <= n,
            sum == sample_sum(luma@, n as int),
            bits@ == mean_bits(luma@).take(i as int),
        decreases n - i,
    {
        let l = luma[i] as u128;
        proof {
            assert(l * (n as u128) <= 255 * (n as int)) by (nonlinear_arith)
                requires
                    l <= 255,
            ;
        }
        bits.push(l * (n as u128) > sum);
        i = i + 1;
        assert(bits@ =~= mean_bits(luma@).take(i as int));
    }
    assert(bits@ =~= mean_bits(luma@));
    bits
}

/// Whether sample `p` and the one after it lie in the same row of
/// `stride` samples.
pub open spec fn has_right_neighbor(len: int, stride: int, p: int) -> bool {
    p % stride + 1 < stride && p + 1 < len
}

/// For the samples `0..j`, row by row, whether each sample that has a right
/// neighbour in its row is darker than that neighbour.
pub open spec fn gradient_bits(luma: Seq<u8>, stride: int, j: int) -> Seq<bool>
    decreases j,
{
    if j <= 0 {
        Seq::empty()
    } else if has_right_neighbor(luma.len() as int, stride, j - 1) {
        gradient_bits(luma, stride, j - 1).push(luma[j - 1] < luma[j])
    } else {
        gradient_bits(luma, stride, j - 1)
    }
}

/// Splits `luma` into rows of `row_stride` samples and compares each pair of
/// horizontally adjacent samples: true where the left one is darker.
pub fn gradient_hash(luma: &[u8], row_stride: usize) -> (r: Vec<bool>)
    requires
        row_stride > 0,
    ensures
        r@ == gradient_bits(luma@, row_stride as int, luma@.len() as int),
{
    let n = luma.len();
    let mut bits: Vec<bool> = Vec::new();
    let mut p: usize = 0;
    while p < n
        invariant
            n == luma@.len(),
            p <= n,
            bits@ == gradient_bits(luma@, row_stride as int, p as int),
            row_stride > 0,
        decreases n - p,
    {
        if p % row_stride + 1 < row_stride && p + 1 < n {
            bits.push(luma[p] < luma[p + 1]);
        }
        p = p + 1;
    }
    bits
}

/// Bit `b` (least significant first) of `v`.
pub open spec fn bit_at(v: u8, b: u8) -> bool {
    (v >> b) & 1u8 == 1u8
}

/// The bit that `collect_bits` stores at bit `b` of byte `j`.
pub open spec fn packed_bit(bits: Seq<bool>, j: int, b: int) -> bool {
    8 * j + b < bits.len() && bits[8 * j + b]
}

proof fn lemma_set_bit(v: u8, x: u8, s: u8, t: u8)
    requires
        s < 8,
        t < 8,
        x <= 1,
    ensures
        bit_at(v | (x << s), t) == if t == s {
            bit_at(v, t) || x == 1
        } else {
            bit_at(v, t)
        },
{
    assert((((v | (x << s)) >> t) & 1u8 == 1u8) == if t == s {
        ((v >> t) & 1u8 == 1u8) || x == 1u8
    } else {
        (v >> t) & 1u8 == 1u8
    }) by (bit_vector)
        requires
            s < 8,
            t < 8,
            x <= 1,
    ;
}

proof fn lemma_zero_bits(t: u8)
    requires
        t < 8,
    ensures
        (0u8 >> t) & 1u8 == 0u8,
{
    assert((0u8 >> t) & 1u8 == 0u8) by (bit_vector);
}

/// Packs `bits` into `out`, eight to a byte, least significant bit first;
/// bits past the end of `bits` are zero.
pub fn collect_bits(bits: &Vec<bool>, out: &mut [u8])
    requires
        bits@.len() <= 8 * old(out)@.len(),
    ensures
        final(out)@.len() == old(out)@.len(),
        forall|j: int, b: u8|
            0 <= j < final(out)@.len() && b < 8 ==> #[trigger] bit_at(final(out)@[j], b)
                == packed_bit(bits@, j, b as int),
{
    let m = out.len();
    let mut j: usize = 0;
    while j < m
        invariant
            out@.len() == m,
            j <= m,
            forall|t: int| 0 <= t < j ==> #[trigger] out@[t] == 0u8,
        decreases m - j,
    {
        out[j] = 0;
        j = j + 1;
    }
    assert forall|t: int, b: u8| 0 <= t < m && b < 8 implies #[trigger] bit_at(out@[t], b) == (8 * t
        + b < 0int && bits@[8 * t + b]) by {
        lemma_zero_bits(b);
    }
    let n = bits.len();
    let mut i: usize = 0;
    while i < n
        invariant
            n == bits@.len(),
            n <= 8 * m,
            out@.len() == m,
            i <= n,
            forall|t: int, b: u8|
                0 <= t < m && b < 8 ==> #[trigger] bit_at(out@[t], b) == (8 * t + b < i
                    && bits@[8 * t + b]),
        decreases n - i,
    {
        let j = i / 8;
        let s = (i % 8) as u8;
        let x: u8 = if bits[i] {
            1
        } else {
            0
        };
        let ghost before = out@;
        assert(8 * j + s == i) by {
            vstd::arithmetic::div_mod::lemma_fundamental_div_mod(i as int, 8);
        }
        out[j] = out[j] | (x << s);
        i = i + 1;
        assert forall|t: int, b: u8| 0 <= t < m && b < 8 implies #[trigger] bit_at(out@[t], b) == (8
            * t + b < i && bits@[8 * t + b]) by {
            if t == j {
                lemma_set_bit(before[t], x, s, b);
                assert(bit_at(before[t], b) == (8 * t + b < i - 1 && bits@[8 * t + b]));
            } else {
                assert(out@[t] == before[t]);
            }
        }
    }
}

/// The standard base64 text (with padding) of a byte string.
pub uninterp spec fn base64_of(bytes: Seq<u8>) -> Seq<char>;

/// The bytes that a standard base64 text (with padding) decodes to, or
/// `None` where the text is not valid base64.
pub uninterp spec fn base64_decoded(text: Seq<char>) -> Option<Seq<u8>>;

#[verifier::external_type_specification]
#[verifier::external_body]
pub struct ExDecodeError(base64::DecodeError);

/// Relies on `Engine::encode` of base64's `STANDARD` engine: the padded
/// base64 text of the bytes, four characters per started group of three.
#[verifier::external_body]
fn hash_encode(hash: &[u8]) -> (r: String)
    requires
        hash@.len() <= usize::MAX / 2,
    ensures
        r@ == base64_of(hash@),
        r@.len() == 4 * ((hash@.len() + 2) / 3),
{
    base64::Engine::encode(&base64::engine::general_purpose::STANDARD, hash)
}

/// Relies on `Engine::decode` of base64's `STANDARD` engine: the decoded
/// bytes, or an error where the text is not valid padded base64.
#[verifier::external_body]
fn hash_decode(encoded: &str) -> (r: Result<Vec<u8>, base64::DecodeError>)
    ensures
        r matches Ok(v) ==> base64_decoded(encoded@) == Some(v@),
        r is Err ==> base64_decoded(encoded@) is None,
{
    base64::Engine::decode(&base64::engine::general_purpose::STANDARD, encoded)
}

/// Why a text is not a hash.
#[derive(Clone, Copy, Debug, PartialEq, Eq)]
pub enum HashParseError {
    /// The text is not valid base64.
    InvalidBase64,
    /// The text decodes to this many bytes instead of eight.
    InvalidLength(usize),
}

/// The bytes of the hash read from decoded text, or why there is none.
pub open spec fn parse_outcome(decoded: Option<Seq<u8>>) -> Result<Seq<u8>, HashParseError> {
    match decoded {
        None => Err(HashParseError::InvalidBase64),
        Some(b) => if b.len() == 8 {
            Ok(b)
        } else {
            Err(HashParseError::InvalidLength(b.len() as usize))
        },
    }
}

impl Hash {
    /// The hash as base64 text: twelve characters.
    pub fn to_base64(&self) -> (r: String)
        ensures
            r@ == base64_of(self.0@),
            r@.len() == 12,
    {
        hash_encode(self.0.as_slice())
    }

    /// The hash made of exactly eight decoded bytes.
    pub fn from_decoded(bytes: &Vec<u8>) -> (r: Result<Hash, HashParseError>)
        ensures
            r matches Ok(h) ==> parse_outcome(Some(bytes@)) == Ok::<Seq<u8>, HashParseError>(h.0@),
            r matches Err(e) ==> parse_outcome(Some(bytes@)) == Err::<Seq<u8>, HashParseError>(e),
    {
        if bytes.len() != 8 {
            return Err(HashParseError::InvalidLength(bytes.len()));
        }
        let raw: [u8; 8] = [
            bytes[0],
            bytes[1],
            bytes[2],
            bytes[3],
            bytes[4],
            bytes[5],
            bytes[6],
            bytes[7],
        ];
        assert(raw@ =~= bytes@);
        Ok(Hash(raw))
    }

    /// Reads a hash from its base64 text.
    pub fn from_base64(text: &str) -> (r: Result<Hash, HashParseError>)
        ensures
            r matches Ok(h) ==> parse_outcome(base64_decoded(text@)) == Ok::<
                Seq<u8>,
                HashParseError,
            >(h.0@),
            r matches Err(e) ==> parse_outcome(base64_decoded(text@)) == Err::<
                Seq<u8>,
                HashParseError,
            >(e),
    {
        match hash_decode(text) {
            Ok(bytes) => Hash::from_decoded(&bytes),
            Err(_) => Err(HashParseError::InvalidBase64),
        }
    }
}

/// `h` holds `bits` packed eight to a byte, least significant bit first.
pub open spec fn packs(h: Hash, bits: Seq<bool>) -> bool {
    forall|j: int, b: u8|
        0 <= j < 8 && b < 8 ==> #[trigger] bit_at(h.0@[j], b) == packed_bit(bits, j, b as int)
}

fn pack_hash(bits: &Vec<bool>) -> (r: Hash)
    requires
        bits@.len() <= 64,
    ensures
        packs(r, bits@),
{
    let mut raw = [0u8; 8];
    collect_bits(bits, &mut raw);
    Hash(raw)
}

fn zeroed(n: usize) -> (r: Vec<u8>)
    ensures
        r@.len() == n,
{
    let mut v: Vec<u8> = Vec::new();
    while v.len() < n
        invariant
            v@.len() <= n,
        decreases n - v@.len(),
    {
        v.push(0);
    }
    v
}

#[verifier::external_type_specification]
#[verifier::external_body]
pub struct ExResizer(fast_image_resize::Resizer);

/// Relies on `fast_image_resize::Resizer::new`: a resizer that uses
/// bilinear convolution.
#[verifier::external_body]
fn bilinear_resizer() -> fast_image_resize::Resizer {
    fast_image_resize::Resizer::new(
        fast_image_resize::ResizeAlg::Convolution(fast_image_resize::FilterType::Bilinear),
    )
}

/// Relies on `fast_image_resize::Resizer::resize` over 8-bit one-channel
/// views: it scales the first `src_height` rows of `src` (rows of
/// `src_width` samples) into `out`, whose length stays the same. The views
/// are accepted when the sizes are nonzero and the buffers large enough.
#[verifier::external_body]
fn resize_gray(
    resizer: &mut fast_image_resize::Resizer,
    src: &[u8],
    src_width: u32,
    src_height: u32,
    out: &mut Vec<u8>,
    out_width: u32,
    out_height: u32,
)
    requires
        src_width > 0,
        src_height > 0,
        out_width > 0,
        out_height > 0,
        src_width * src_height <= u32::MAX,
        out_width * out_height <= u32::MAX,
        src@.len() >= src_width * src_height,
        old(out)@.len() == out_width * out_height,
    ensures
        final(out)@.len() == old(out)@.len(),
{
    let src_view = fast_image_resize::ImageView::from_buffer(
        std::num::NonZeroU32::new(src_width).unwrap(),
        std::num::NonZeroU32::new(src_height).unwrap(),
        src,
    );
    let out_view = fast_image_resize::ImageViewMut::from_buffer(
        std::num::NonZeroU32::new(out_width).unwrap(),
        std::num::NonZeroU32::new(out_height).unwrap(),
        out,
    );
    resizer.resize(
        &fast_image_resize::DynamicImageView::U8(src_view.unwrap()),
        &mut fast_image_resize::DynamicImageViewMut::U8(out_view.unwrap()),
    ).unwrap();
}

/// Hashes an image by the mean of an 8 × 8 downscale: one bit per sample,
/// set where the sample is above the mean.
pub struct MeanHash {
    resizer: fast_image_resize::Resizer,
}

impl MeanHash {
    pub fn new() -> (r: MeanHash) {
        MeanHash { resizer: bilinear_resizer() }
    }

    /// The hash of `image`, scaled from its first eight rows. Whatever the
    /// scaled samples are, the hash holds their mean bits.
    pub fn hash(&mut self, image: &PixelGrid) -> (r: Hash)
        requires
            image.spec_width() > 0,
            image.spec_height() >= 8,
            image.spec_width() * 8 <= u32::MAX,
        ensures
            exists|scaled: Seq<u8>| scaled.len() == 64 && #[trigger] packs(r, mean_bits(scaled)),
    {
        let width = image.width();
        // The grid holds width × height samples.
        let _ = image.len();
        proof {
            assert(width * 8 <= width * image.spec_height()) by (nonlinear_arith)
                requires
                    image.spec_height() >= 8,
            ;
        }
        let mut resized = zeroed(64);
        resize_gray(&mut self.resizer, image.pixels().as_slice(), width, 8, &mut resized, 8, 8);
        let bits = mean_hash(resized.as_slice());
        let r = pack_hash(&bits);
        assert(packs(r, mean_bits(resized@)));
        r
    }
}

/// Hashes an image by the horizontal gradients of a 9 × 8 downscale: one bit
/// per pair of neighbours in a row, set where the left one is darker.
pub struct GradientHash {
    resizer: fast_image_resize::Resizer,
}

impl GradientHash {
    pub fn new() -> (r: GradientHash) {
        GradientHash { resizer: bilinear_resizer() }
    }

    /// The hash of `image`, scaled from its first eight rows. Whatever the
    /// scaled samples are, the hash holds their gradient bits.
    pub fn hash(&mut self, image: &PixelGrid) -> (r: Hash)
        requires
            image.spec_width() > 0,
            image.spec_height() >= 8,
            image.spec_width() * 8 <= u32::MAX,
        ensures
            exists|scaled: Seq<u8>|
                scaled.len() == 72 && #[trigger] packs(r, gradient_bits(scaled, 9, 72)),
    {
        let width = image.width();
        // The grid holds width × height samples.
        let _ = image.len();
        proof {
            assert(width * 8 <= width * image.spec_height()) by (nonlinear_arith)
                requires
                    image.spec_height() >= 8,
            ;
        }
        let mut resized = zeroed(72);
        resize_gray(&mut self.resizer, image.pixels().as_slice(), width, 8, &mut resized, 9, 8);
        let bits = gradient_hash(resized.as_slice(), 9);
        proof {
            lemma_gradient_len(resized@, 9, 72);
        }
        let r = pack_hash(&bits);
        assert(packs(r, gradient_bits(resized@, 9, 72)));
        r
    }
}

/// Nine samples per row give eight bits per row.
proof fn lemma_gradient_len(luma: Seq<u8>, stride: int, j: int)
    requires
        luma.len() == 72,
        stride == 9,
        0 <= j <= 72,
    ensures
        gradient_bits(luma, stride, j).len() == j - j / 9,
    decreases j,
{
    if j > 0 {
        lemma_gradient_len(luma, stride, j - 1);
        vstd::arithmetic::div_mod::lemma_fundamental_div_mod(j, 9);
        vstd::arithmetic::div_mod::lemma_fundamental_div_mod(j - 1, 9);
        vstd::arithmetic::div_mod::lemma_mod_pos_bound(j, 9);
        vstd::arithmetic::div_mod::lemma_mod_pos_bound(j - 1, 9);
    }
}

} // verus!
