//! Matching video frames against episode thumbnails: the crop applied to
//! frames before hashing, and the score of an episode.
use vstd::prelude::*;
use vstd::string::StringSliceAdditionalSpecFns;

use crate::gbis::model::{key_leq, key_order, lemma_sorted_positions, lemma_total_key_order};
use crate::gbis::sort_keys;
use crate::hash::{bit_count, hamming};


verus! {

/// A display aspect ratio, `width:height`.
#[derive(Clone, Copy, Debug, PartialEq, Eq)]
pub struct Aspect {
    pub width: u32,
    pub height: u32,
}

#[derive(Clone, Copy, Debug, PartialEq, Eq)]
pub enum AspectError {
    /// The text has no `:`.
    MissingColon,
    /// The part before the first `:` is not an integer.
    InvalidWidth,
    /// The part after the first `:` is not an integer.
    InvalidHeight,
}

/// Value of a string of decimal digits.
pub open spec fn digits_value(d: Seq<u8>) -> int
    decreases d.len(),
{
    if d.len() == 0 {
        0
    } else {
        digits_value(d.drop_last()) * 10 + (d.last() - 48)
    }
}

pub open spec fn all_digits(d: Seq<u8>) -> bool {
    forall|i: int| 0 <= i < d.len() ==> 48 <= #[trigger] d[i] <= 57
}

/// An unsigned decimal integer as Rust reads one: an optional `+`, then at
/// least one digit, with a value that fits in `u32`.
pub open spec fn decimal_u32(s: Seq<u8>) -> Option<u32> {
    let d = if s.len() > 0 && s[0] == 43 {
        s.drop_first()
    } else {
        s
    };
    if d.len() > 0 && all_digits(d) && digits_value(d) <= u32::MAX {
        Some(digits_value(d) as u32)
    } else {
        None
    }
}

/// Position of the first `:` in `s`, if any.
pub open spec fn first_colon(s: Seq<u8>) -> Option<int> {
    if exists|i: int| 0 <= i < s.len() && s[i] == 58 {
        Some(choose|i: int| 0 <= i < s.len() && s[i] == 58 && forall|j: int| 0 <= j < i ==> s[j] != 58)
    } else {
        None
    }
}

/// What `Aspect::parse` gives for the bytes `s`.
pub open spec fn aspect_of(s: Seq<u8>) -> Result<Aspect, AspectError> {
    match first_colon(s) {
        None => Err(AspectError::MissingColon),
        Some(i) => match decimal_u32(s.subrange(0, i)) {
            None => Err(AspectError::InvalidWidth),
            Some(w) => match decimal_u32(s.subrange(i + 1, s.len() as int)) {
                None => Err(AspectError::InvalidHeight),
                Some(h) => Ok(Aspect { width: w, height: h }),
            },
        },
    }
}

proof fn lemma_digits_grow(d: Seq<u8>, j: int)
    requires
        all_digits(d),
        0 <= j <= d.len(),
    ensures
        0 <= digits_value(d.take(j)) <= digits_value(d),
    decreases d.len() - j,
{
    if j < d.len() {
        lemma_digits_grow(d, j + 1);
        assert(d.take(j + 1).drop_last() =~= d.take(j));
    } else {
        assert(d.take(j) =~= d);
    }
    lemma_digits_nonneg(d.take(j));
}

proof fn lemma_digits_nonneg(d: Seq<u8>)
    requires
        all_digits(d),
    ensures
        digits_value(d) >= 0,
    decreases d.len(),
{
    if d.len() > 0 {
        assert(all_digits(d.drop_last()));
        lemma_digits_nonneg(d.drop_last());
    }
}

/// Reads `s[from..to]` as an unsigned decimal integer.
fn parse_u32(s: &[u8], from: usize, to: usize) -> (r: Option<u32>)
    requires
        from <= to <= s@.len(),
    ensures
        r == decimal_u32(s@.subrange(from as int, to as int)),
{
    let ghost whole = s@.subrange(from as int, to as int);
    let mut start = from;
    if from < to && s[from] == 43u8 {
        start = from + 1;
    }
    let ghost d = s@.subrange(start as int, to as int);
    assert(d =~= if whole.len() > 0 && whole[0] == 43 {
        whole.drop_first()
    } else {
        whole
    });
    let ghost outcome = decimal_u32(whole);
    assert(outcome == if d.len() > 0 && all_digits(d) && digits_value(d) <= u32::MAX {
        Some(digits_value(d) as u32)
    } else {
        None::<u32>
    });
    if start == to {
        return None;
    }
    let mut value: u64 = 0;
    let mut i = start;
    while i < to
        invariant
            from <= start <= i <= to <= s@.len(),
            d == s@.subrange(start as int, to as int),
            d.len() > 0,
            outcome == decimal_u32(s@.subrange(from as int, to as int)),
            outcome == if all_digits(d) && digits_value(d) <= u32::MAX {
                Some(digits_value(d) as u32)
            } else {
                None::<u32>
            },
            forall|j: int| start <= j < i ==> 48 <= #[trigger] s@[j] <= 57,
            value == digits_value(d.take(i - start)),
            value <= u32::MAX,
        decreases to - i,
    {
        let c = s[i];
        if c < 48u8 || c > 57u8 {
            assert(!all_digits(d)) by {
                assert(d[i - start] == c);
            }
            return None;
        }
        assert(d.take(i - start + 1).drop_last() =~= d.take(i - start));
        let next = value * 10 + (c - 48u8) as u64;
        if next > 0xffff_ffffu64 {
            proof {
                if all_digits(d) {
                    lemma_digits_grow(d, i - start + 1);
                }
            }
            return None;
        }
        value = next;
        i = i + 1;
    }
    assert(d.take(i - start) =~= d);
    assert(all_digits(d)) by {
        assert forall|j: int| 0 <= j < d.len() implies 48 <= #[trigger] d[j] <= 57 by {
            assert(d[j] == s@[start + j]);
        }
    }
    Some(value as u32)
}

impl Aspect {
    /// Reads `width:height`, each an unsigned decimal integer.
    pub fn parse(text: &str) -> (r: Result<Aspect, AspectError>)
        ensures
            r == aspect_of(text.spec_bytes()),
    {
        let s = text.as_bytes();
        let n = s.len();
        let mut i: usize = 0;
        while i < n && s[i] != 58u8
            invariant
                s@ == text.spec_bytes(),
                n == s@.len(),
                i <= n,
                forall|j: int| 0 <= j < i ==> s@[j] != 58,
            decreases n - i,
        {
            i = i + 1;
        }
        if i == n {
            return Err(AspectError::MissingColon);
        }
        assert(first_colon(s@) == Some(i as int)) by {
            assert(s@[i as int] == 58);
            let c = choose|c: int|
                0 <= c < s@.len() && s@[c] == 58 && forall|j: int| 0 <= j < c ==> s@[j] != 58;
            assert(!(c < i) && !(i < c));
        }
        let width = match parse_u32(s, 0, i) {
            Some(w) => w,
            None => {
                return Err(AspectError::InvalidWidth);
            },
        };
        let height = match parse_u32(s, i + 1, n) {
            Some(h) => h,
            None => {
                return Err(AspectError::InvalidHeight);
            },
        };
        Ok(Aspect { width, height })
    }
}

/// The part of a frame that is kept: `width` × `height` pixels whose top-left
/// corner is at `(x, y)`.
#[derive(Clone, Copy, Debug, PartialEq, Eq)]
pub struct CropRect {
    pub x: u32,
    pub y: u32,
    pub width: u32,
    pub height: u32,
}

/// The centred crop of a `width` × `height` frame to `aspect`: bars are cut
/// from top and bottom when the frame is taller than the aspect, from left and
/// right when it is wider, and nothing otherwise.
pub open spec fn crop_of(width: u32, height: u32, aspect: Option<Aspect>) -> CropRect {
    let full = CropRect { x: 0, y: 0, width, height };
    match aspect {
        None => full,
        Some(a) => {
            let wide = width * a.height;
            let tall = height * a.width;
            if wide < tall {
                let h = wide / (a.width as int);
                CropRect { x: 0, y: ((height - h) / 2) as u32, width, height: h as u32 }
            } else if wide > tall {
                let w = tall / (a.height as int);
                CropRect { x: ((width - w) / 2) as u32, y: 0, width: w as u32, height }
            } else {
                full
            }
        },
    }
}

proof fn lemma_div_below(a: int, c: int, h: int)
    requires
        0 <= a < h * c,
        c > 0,
    ensures
        0 <= a / c < h,
{
    vstd::arithmetic::div_mod::lemma_fundamental_div_mod(a, c);
    vstd::arithmetic::div_mod::lemma_mod_pos_bound(a, c);
    let q = a / c;
    assert(0 <= q < h) by (nonlinear_arith)
        requires
            a == c * q + a % c,
            0 <= a % c < c,
            a < h * c,
            a >= 0,
            c > 0,
    ;
}

/// The region of a `width` × `height` frame to keep for `aspect`.
pub fn crop_rect(width: u32, height: u32, aspect: Option<Aspect>) -> (r: CropRect)
    ensures
        r == crop_of(width, height, aspect),
        r.x + r.width <= width,
        r.y + r.height <= height,
{
    match aspect {
        None => CropRect { x: 0, y: 0, width, height },
        Some(a) => {
            proof {
                assert(width * a.height <= u32::MAX * u32::MAX) by (nonlinear_arith)
                    requires
                        width <= u32::MAX,
                        a.height <= u32::MAX,
                ;
                assert(height * a.width <= u32::MAX * u32::MAX) by (nonlinear_arith)
                    requires
                        height <= u32::MAX,
                        a.width <= u32::MAX,
                ;
                assert(0 <= width * a.height) by (nonlinear_arith);
                assert(0 <= height * a.width) by (nonlinear_arith);
            }
            let wide = width as u64 * a.height as u64;
            let tall = height as u64 * a.width as u64;
            if wide < tall {
                proof {
                    assert(a.width > 0) by (nonlinear_arith)
                        requires
                            width * a.height < height * a.width,
                            0 <= width * a.height,
                    ;
                    lemma_div_below(wide as int, a.width as int, height as int);
                }
                let h = (wide / a.width as u64) as u32;
                CropRect { x: 0, y: (height - h) / 2, width, height: h }
            } else if wide > tall {
                proof {
                    assert(a.height > 0) by (nonlinear_arith)
                        requires
                            width * a.height > height * a.width,
                            0 <= height * a.width,
                    ;
                    lemma_div_below(tall as int, a.height as int, width as int);
                }
                let w = (tall / a.height as u64) as u32;
                CropRect { x: (width - w) / 2, y: 0, width: w, height }
            } else {
                CropRect { x: 0, y: 0, width, height }
            }
        },
    }
}

/// The samples of `rect` from a frame stored row by row, `stride` samples
/// per row, packed without gaps.
pub open spec fn cropped(data: Seq<u8>, stride: int, rect: CropRect) -> Seq<u8> {
    Seq::new(
        (rect.width * rect.height) as nat,
        |i: int| data[(i / rect.width as int + rect.y) * stride + rect.x + i % rect.width as int],
    )
}

/// The rows of `rect` lie inside `data`.
pub open spec fn crop_fits(data_len: int, stride: int, rect: CropRect) -> bool {
    rect.height > 0 ==> (rect.y + rect.height - 1) * stride + rect.x + rect.width <= data_len
}

/// Copies the region `rect` out of a frame stored with `stride` samples per row.
pub fn crop_frame(data: &[u8], stride: usize, rect: CropRect) -> (r: Vec<u8>)
    requires
        crop_fits(data@.len() as int, stride as int, rect),
    ensures
        r@ == cropped(data@, stride as int, rect),
{
    let n = data.len();
    let ghost w = rect.width as int;
    let ghost target = cropped(data@, stride as int, rect);
    let mut out: Vec<u8> = Vec::new();
    let mut row: u32 = 0;
    while row < rect.height
        invariant
            row <= rect.height,
            n == data@.len(),
            crop_fits(data@.len() as int, stride as int, rect),
            w == rect.width,
            target == cropped(data@, stride as int, rect),
            out@ =~= target.take(row * w),
        decreases rect.height - row,
    {
        proof {
            assert((row + rect.y) * stride <= (rect.y + rect.height - 1) * stride) by (nonlinear_arith)
                requires
                    row + 1 <= rect.height,
            ;
            assert(row * w + w <= w * rect.height) by (nonlinear_arith)
                requires
                    row + 1 <= rect.height,
                    w >= 0,
            ;
        }
        let start = ((row as u64 + rect.y as u64) * stride as u64 + rect.x as u64) as usize;
        let mut col: u32 = 0;
        while col < rect.width
            invariant
                row < rect.height,
                col <= rect.width,
                w == rect.width,
                start == (row + rect.y) * stride + rect.x,
                start + rect.width <= data@.len(),
                n == data@.len(),
                row * w + w <= w * rect.height,
                target.len() == w * rect.height,
                target == cropped(data@, stride as int, rect),
                out@ =~= target.take(row * w + col),
            decreases rect.width - col,
        {
            proof {
                let i = row * w + col;
                vstd::arithmetic::div_mod::lemma_fundamental_div_mod_converse_div(i, w, row as int, col as int);
                vstd::arithmetic::div_mod::lemma_fundamental_div_mod_converse_mod(i, w, row as int, col as int);
                assert(target[i] == data@[start + col]);
            }
            out.push(data[start + col as usize]);
            col = col + 1;
        }
        assert((row + 1) * w == row * w + w) by (nonlinear_arith);
        row = row + 1;
    }
    assert(row * w == target.len()) by (nonlinear_arith)
        requires
            row == rect.height,
            target.len() == w * rect.height,
    ;
    out
}

pub open spec fn pow2(b: nat) -> nat
    decreases b,
{
    if b == 0 {
        1
    } else {
        2 * pow2((b - 1) as nat)
    }
}

proof fn lemma_bit_count_bits(v: u8, b: nat)
    requires
        v < pow2(b),
    ensures
        bit_count(v) <= b,
    decreases b,
{
    if v != 0 {
        assert(b > 0);
        lemma_bit_count_bits(v / 2, (b - 1) as nat);
    }
}

/// Two hashes differ in at most 64 bits.
proof fn lemma_hamming_bound(a: Seq<u8>, b: Seq<u8>, j: int)
    requires
        0 <= j,
    ensures
        hamming(a, b, j) <= 8 * j,
    decreases j,
{
    if j > 0 {
        lemma_hamming_bound(a, b, j - 1);
        assert(pow2(8) == 256) by {
            reveal_with_fuel(pow2, 9);
        }
        lemma_bit_count_bits(a[j - 1] ^ b[j - 1], 8);
    }
}

/// Distance from a frame's hash to a thumbnail's hash.
pub open spec fn frame_distance(frame: crate::hash::Hash, thumb: crate::hash::Hash) -> nat {
    hamming(frame.0@, thumb.0@, 8)
}

/// Smallest distance from `thumb` to one of `frames[0..j]` (`j >= 1`).
pub open spec fn closest(frames: Seq<crate::hash::Hash>, thumb: crate::hash::Hash, j: int) -> nat
    decreases j,
{
    if j <= 1 {
        frame_distance(frames[0], thumb)
    } else {
        let d = frame_distance(frames[j - 1], thumb);
        let c = closest(frames, thumb, j - 1);
        if d < c {
            d
        } else {
            c
        }
    }
}

/// Sum of the squared closest distances of `thumbs[0..j]`.
pub open spec fn squared_error(
    frames: Seq<crate::hash::Hash>,
    thumbs: Seq<crate::hash::Hash>,
    j: int,
) -> nat
    decreases j,
{
    if j <= 0 {
        0
    } else {
        let c = closest(frames, thumbs[j - 1], frames.len() as int);
        squared_error(frames, thumbs, j - 1) + c * c
    }
}

/// Mean squared distance from the thumbnails to their closest frames, in
/// thousandths, rounded down.
pub open spec fn episode_mse(frames: Seq<crate::hash::Hash>, thumbs: Seq<crate::hash::Hash>) -> int {
    (squared_error(frames, thumbs, thumbs.len() as int) * 1000) as int / (thumbs.len() as int)
}

proof fn lemma_closest_bound(frames: Seq<crate::hash::Hash>, thumb: crate::hash::Hash, j: int)
    ensures
        closest(frames, thumb, j) <= 64,
    decreases j,
{
    if j <= 1 {
        lemma_hamming_bound(frames[0].0@, thumb.0@, 8);
    } else {
        lemma_closest_bound(frames, thumb, j - 1);
        lemma_hamming_bound(frames[j - 1].0@, thumb.0@, 8);
    }
}

fn closest_distance(frames: &Vec<crate::hash::Hash>, thumb: &crate::hash::Hash) -> (r: u32)
    requires
        frames@.len() > 0,
    ensures
        r == closest(frames@, *thumb, frames@.len() as int),
{
    proof {
        lemma_hamming_bound(frames@[0].0@, thumb.0@, 8);
    }
    let mut best = frames[0].distance(thumb);
    let mut i: usize = 1;
    while i < frames.len()
        invariant
            1 <= i <= frames@.len(),
            best == closest(frames@, *thumb, i as int),
        decreases frames@.len() - i,
    {
        let d = frames[i].distance(thumb);
        if d < best {
            best = d;
        }
        i = i + 1;
    }
    best
}

/// The score of an episode: the mean, over its thumbnails, of the squared
/// distance to the closest frame, in thousandths.
pub fn episode_score(frames: &Vec<crate::hash::Hash>, thumbnails: &Vec<crate::hash::Hash>) -> (r: u32)
    requires
        frames@.len() > 0,
        0 < thumbnails@.len() <= 1048,
    ensures
        r == episode_mse(frames@, thumbnails@),
{
    let mut total: u32 = 0;
    let mut i: usize = 0;
    while i < thumbnails.len()
        invariant
            frames@.len() > 0,
            thumbnails@.len() <= 1048,
            i <= thumbnails@.len(),
            total == squared_error(frames@, thumbnails@, i as int),
            total <= 4096 * i,
        decreases thumbnails@.len() - i,
    {
        let d = closest_distance(frames, &thumbnails[i]);
        proof {
            lemma_closest_bound(frames@, thumbnails@[i as int], frames@.len() as int);
            assert(d * d <= 4096) by (nonlinear_arith)
                requires
                    d <= 64,
            ;
        }
        total = total + d * d;
        i = i + 1;
    }
    total * 1000 / (thumbnails.len() as u32)
}

/// Whether episode `episode` lies within the optional bounds.
pub fn in_episode_range(episode: i32, min: Option<i32>, max: Option<i32>) -> (r: bool)
    ensures
        r == ((min matches Some(lo) ==> episode >= lo) && (max matches Some(hi) ==> episode <= hi)),
{
    let above = match min {
        Some(lo) => episode >= lo,
        None => true,
    };
    let below = match max {
        Some(hi) => episode <= hi,
        None => true,
    };
    above && below
}

/// Each frame's distance from `image`, with the frame's position.
pub open spec fn frame_keys(image: crate::hash::Hash, hashes: Seq<crate::hash::Hash>) -> Seq<
    (u64, usize),
> {
    Seq::new(hashes.len(), |i: int| (hamming(image.0@, hashes[i].0@, 8) as u64, i as usize))
}

/// The frames ordered by distance from `image`, nearest first; frames at
/// equal distance in their order in `hashes`.
pub fn rank_frames(image: &crate::hash::Hash, hashes: &Vec<crate::hash::Hash>) -> (r: Vec<
    (u64, usize),
>)
    ensures
        r@ == frame_keys(*image, hashes@).sort_by(key_order()),
{
    let mut keys: Vec<(u64, usize)> = Vec::new();
    let mut i: usize = 0;
    while i < hashes.len()
        invariant
            i <= hashes@.len(),
            keys@ == frame_keys(*image, hashes@).take(i as int),
        decreases hashes@.len() - i,
    {
        let d = image.distance(&hashes[i]);
        keys.push((d as u64, i));
        i = i + 1;
        assert(keys@ =~= frame_keys(*image, hashes@).take(i as int));
    }
    assert(keys@ =~= frame_keys(*image, hashes@));
    sort_keys(&mut keys);
    proof {
        lemma_total_key_order();
        frame_keys(*image, hashes@).lemma_sort_by_ensures(key_order());
        vstd::seq_lib::lemma_sorted_unique(
            keys@,
            frame_keys(*image, hashes@).sort_by(key_order()),
            key_order(),
        );
    }
    keys
}

/// One number per (score, episode) pair that orders pairs by score, then by
/// episode number.
pub open spec fn score_key(score: u32, episode: i32) -> u64 {
    (score as int * 0x1_0000_0000 + (episode as int + 0x8000_0000)) as u64
}

pub open spec fn score_keys(scores: Seq<(u32, i32)>) -> Seq<(u64, usize)> {
    Seq::new(scores.len(), |i: int| (score_key(scores[i].0, scores[i].1), i as usize))
}

/// The (score, episode) pairs in ascending order of score, then episode.
pub open spec fn ranked_scores(scores: Seq<(u32, i32)>) -> Seq<(u32, i32)> {
    score_keys(scores).sort_by(key_order()).map_values(|k: (u64, usize)| scores[k.1 as int])
}

/// Orders the episodes' (score, episode) pairs by score, then by episode.
pub fn rank_episodes(scores: &Vec<(u32, i32)>) -> (r: Vec<(u32, i32)>)
    ensures
        r@ == ranked_scores(scores@),
        forall|a: int, b: int|
            0 <= a < b < r@.len() ==> (#[trigger] r@[a]).0 < (#[trigger] r@[b]).0 || (r@[a].0
                == r@[b].0 && r@[a].1 <= r@[b].1),
{
    let mut keys: Vec<(u64, usize)> = Vec::new();
    let mut i: usize = 0;
    while i < scores.len()
        invariant
            i <= scores@.len(),
            keys@ == score_keys(scores@).take(i as int),
        decreases scores@.len() - i,
    {
        let (score, episode) = scores[i];
        let key = score as u64 * 0x1_0000_0000u64 + (episode as i64 + 0x8000_0000i64) as u64;
        keys.push((key, i));
        i = i + 1;
        assert(keys@ =~= score_keys(scores@).take(i as int));
    }
    assert(keys@ =~= score_keys(scores@));
    sort_keys(&mut keys);
    proof {
        lemma_total_key_order();
        score_keys(scores@).lemma_sort_by_ensures(key_order());
        vstd::seq_lib::lemma_sorted_unique(keys@, score_keys(scores@).sort_by(key_order()), key_order());
        lemma_sorted_positions(score_keys(scores@));
    }
    let mut ranked: Vec<(u32, i32)> = Vec::new();
    let mut t: usize = 0;
    while t < keys.len()
        invariant
            keys@ == score_keys(scores@).sort_by(key_order()),
            vstd::relations::sorted_by(keys@, key_order()),
            keys@.len() == scores@.len(),
            t <= keys@.len(),
            ranked@ == keys@.take(t as int).map_values(|k: (u64, usize)| scores@[k.1 as int]),
            forall|u: int|
                0 <= u < keys@.len() ==> {
                    let k = #[trigger] keys@[u];
                    0 <= k.1 < scores@.len() && k.0 == score_key(scores@[k.1 as int].0, scores@[k.1 as int].1)
                },
        decreases keys@.len() - t,
    {
        let idx = keys[t].1;
        ranked.push(scores[idx]);
        t = t + 1;
        assert(ranked@ =~= keys@.take(t as int).map_values(|k: (u64, usize)| scores@[k.1 as int]));
    }
    assert(keys@.take(t as int) =~= keys@);
    assert forall|a: int, b: int| 0 <= a < b < ranked@.len() implies (#[trigger] ranked@[a]).0 < (
    #[trigger] ranked@[b]).0 || (ranked@[a].0 == ranked@[b].0 && ranked@[a].1 <= ranked@[b].1) by {
        assert(key_order()(keys@[a], keys@[b]));
        assert(key_leq(keys@[a], keys@[b]));
        lemma_score_key_order(ranked@[a].0, ranked@[a].1, ranked@[b].0, ranked@[b].1);
    }
    ranked
}

proof fn lemma_score_key_order(s1: u32, e1: i32, s2: u32, e2: i32)
    ensures
        score_key(s1, e1) <= score_key(s2, e2) ==> s1 < s2 || (s1 == s2 && e1 <= e2),
{
    assert(s1 as int * 0x1_0000_0000 + (e1 as int + 0x8000_0000) <= u64::MAX) by (nonlinear_arith)
        requires
            s1 <= u32::MAX,
            e1 < 0x8000_0000,
    ;
    assert(s2 as int * 0x1_0000_0000 + (e2 as int + 0x8000_0000) <= u64::MAX) by (nonlinear_arith)
        requires
            s2 <= u32::MAX,
            e2 < 0x8000_0000,
    ;
    if s1 > s2 {
        assert(s1 as int * 0x1_0000_0000 >= (s2 as int + 1) * 0x1_0000_0000) by (nonlinear_arith)
            requires
                s1 >= s2 + 1,
        ;
    }
}

} // verus!
