//! RGB frames, the difference of two frames, and the bright pixels of a
//! difference.
//!
//! A frame is stored row by row, three bytes (red, green, blue) per pixel,
//! as an 8-bit RGB image buffer is.
use vstd::arithmetic::div_mod::lemma_fundamental_div_mod_converse;
use vstd::prelude::*;

verus! {

/// An 8-bit RGB frame of `width` by `height` pixels.
pub struct RgbFrame {
    width: u32,
    height: u32,
    data: Vec<u8>,
}

/// The mathematical value of an `RgbFrame`.
pub struct FrameView {
    pub width: nat,
    pub height: nat,
    pub data: Seq<u8>,
}

/// The number of bytes of a `width` by `height` RGB frame.
pub open spec fn frame_len(width: nat, height: nat) -> nat {
    3 * (width * height)
}

impl View for RgbFrame {
    type V = FrameView;

    closed spec fn view(&self) -> FrameView {
        FrameView { width: self.width as nat, height: self.height as nat, data: self.data@ }
    }
}

/// Why two frames could not be compared.
#[derive(Clone, Copy, Debug, PartialEq, Eq)]
pub enum DiffError {
    /// There is no frame at `index`.
    MissingFrame { index: usize },
    /// The two frames differ in width or height.
    DimensionMismatch,
    /// A frame's bytes are not an image of the named format.
    Decode,
}

/// `|a - b|`.
pub open spec fn abs_diff(a: u8, b: u8) -> int {
    if a >= b {
        a - b
    } else {
        b - a
    }
}

/// The gray value of pixel `k` of the difference of `a` and `b`: the mean
/// of the absolute differences of its three channels, rounded down.
pub open spec fn gray_of(a: Seq<u8>, b: Seq<u8>, k: int) -> u8 {
    ((abs_diff(a[3 * k], b[3 * k]) + abs_diff(a[3 * k + 1], b[3 * k + 1]) + abs_diff(
        a[3 * k + 2],
        b[3 * k + 2],
    )) / 3) as u8
}

/// The bytes of the difference frame: every channel of pixel `k` holds its
/// gray value.
pub open spec fn diff_data(a: Seq<u8>, b: Seq<u8>) -> Seq<u8> {
    Seq::new(a.len(), |i: int| gray_of(a, b, i / 3))
}

/// A pixel of a difference frame whose red channel passes the threshold.
#[derive(Clone, Copy, Debug, PartialEq, Eq)]
pub struct BrightPixel {
    pub x: u32,
    pub y: u32,
    pub red: u8,
}

/// Every pixel of a frame, row by row, with its red channel.
pub open spec fn pixels_of(f: FrameView) -> Seq<BrightPixel> {
    Seq::new(
        f.width * f.height,
        |k: int|
            BrightPixel {
                x: (k % f.width as int) as u32,
                y: (k / f.width as int) as u32,
                red: f.data[3 * k],
            },
    )
}

/// The pixels whose red channel is above `threshold`.
pub open spec fn brighter_than(threshold: u8) -> spec_fn(BrightPixel) -> bool {
    |p: BrightPixel| p.red > threshold
}

impl RgbFrame {
    #[verifier::type_invariant]
    closed spec fn sized(&self) -> bool {
        self.data@.len() == frame_len(self.width as nat, self.height as nat)
    }

    /// A frame over `data`, when `data` holds exactly `3 * width * height`
    /// bytes.
    pub fn from_raw(width: u32, height: u32, data: Vec<u8>) -> (r: Option<RgbFrame>)
        ensures
            r is Some <==> data@.len() == frame_len(width as nat, height as nat),
            r matches Some(f) ==> f@ == (FrameView {
                width: width as nat,
                height: height as nat,
                data: data@,
            }),
    {
        assert((width as u64) * (height as u64) <= u64::MAX) by (nonlinear_arith)
            requires
                width <= u32::MAX,
                height <= u32::MAX,
        ;
        let pixels = (width as u64) * (height as u64);
        let len = data.len();
        if pixels <= (usize::MAX / 3) as u64 && len == 3 * (pixels as usize) {
            Some(RgbFrame { width, height, data })
        } else {
            None
        }
    }

    /// The frame's width in pixels.
    pub fn width(&self) -> (w: u32)
        ensures
            w == self@.width,
    {
        self.width
    }

    /// The frame's height in pixels.
    pub fn height(&self) -> (h: u32)
        ensures
            h == self@.height,
    {
        self.height
    }

    /// The frame's bytes, row by row, three per pixel.
    pub fn data(&self) -> (d: &Vec<u8>)
        ensures
            d@ == self@.data,
            d@.len() == frame_len(self@.width, self@.height),
    {
        proof {
            use_type_invariant(self);
        }
        &self.data
    }

    /// The frame's bytes, handed over.
    pub fn into_raw(self) -> (d: Vec<u8>)
        ensures
            d@ == self@.data,
    {
        self.data
    }
}

/// The difference does not depend on which frame comes first.
pub proof fn lemma_diff_symmetric(a: Seq<u8>, b: Seq<u8>)
    requires
        a.len() == b.len(),
    ensures
        diff_data(a, b) == diff_data(b, a),
{
    assert(diff_data(a, b) =~= diff_data(b, a));
}

/// A frame differs from itself nowhere: its difference is black.
pub proof fn lemma_diff_self_black(a: Seq<u8>)
    requires
        a.len() % 3 == 0,
    ensures
        forall|i: int| 0 <= i < a.len() ==> #[trigger] diff_data(a, a)[i] == 0,
{
    assert forall|i: int| 0 <= i < a.len() implies #[trigger] diff_data(a, a)[i] == 0 by {
        assert(3 * (i / 3) + 2 < a.len());
    }
}

/// The gray value is the exact mean, rounded down: it never exceeds 255,
/// so nothing is cut off when it is stored in a byte.
pub proof fn lemma_gray_exact(a: Seq<u8>, b: Seq<u8>, k: int)
    ensures
        gray_of(a, b, k) as int == (abs_diff(a[3 * k], b[3 * k]) + abs_diff(a[3 * k + 1], b[3 * k
            + 1]) + abs_diff(a[3 * k + 2], b[3 * k + 2])) / 3,
{
}

/// Two equal frames show no motion: their difference has no pixel brighter
/// than any threshold.
pub proof fn lemma_still_scene_no_bright_pixels(f: FrameView, threshold: u8)
    requires
        f.data.len() == frame_len(f.width, f.height),
    ensures
        pixels_of(
            FrameView { width: f.width, height: f.height, data: diff_data(f.data, f.data) },
        ).filter(brighter_than(threshold)).len() == 0,
{
    let d = FrameView { width: f.width, height: f.height, data: diff_data(f.data, f.data) };
    let ps = pixels_of(d);
    lemma_diff_self_black(f.data);
    assert forall|k: int| 0 <= k < ps.len() implies !brighter_than(threshold)(#[trigger] ps[k]) by {
        assert(0 <= k < f.width * f.height);
        assert(3 * k < f.data.len());
        assert(ps[k].red == diff_data(f.data, f.data)[3 * k]);
    }
    ps.lemma_all_neg_filter_empty(brighter_than(threshold));
}

/// The index of the frame `delay` frames after `current`, when there are
/// `frame_count` frames.
pub fn delayed_frame(frame_count: usize, current: usize, delay: usize) -> (r: Result<
    usize,
    DiffError,
>)
    requires
        current + delay <= usize::MAX,
    ensures
        current + delay < frame_count ==> r == Ok::<usize, DiffError>((current + delay) as usize),
        current + delay >= frame_count ==> r == Err::<usize, DiffError>(
            DiffError::MissingFrame { index: (current + delay) as usize },
        ),
{
    let delayed = current + delay;
    if delayed >= frame_count {
        Err(DiffError::MissingFrame { index: delayed })
    } else {
        Ok(delayed)
    }
}

/// The difference of two frames of the same size: each pixel becomes gray,
/// of the mean absolute difference of its channels.
pub fn diff_frames(a: &RgbFrame, b: &RgbFrame) -> (r: Result<RgbFrame, DiffError>)
    ensures
        (a@.width != b@.width || a@.height != b@.height) ==> r == Err::<RgbFrame, DiffError>(
            DiffError::DimensionMismatch,
        ),
        (a@.width == b@.width && a@.height == b@.height) ==> (r matches Ok(d) && d@ == (FrameView {
            width: a@.width,
            height: a@.height,
            data: diff_data(a@.data, b@.data),
        })),
{
    proof {
        use_type_invariant(a);
        use_type_invariant(b);
    }
    if a.width != b.width || a.height != b.height {
        return Err(DiffError::DimensionMismatch);
    }
    let n = a.data.len();
    assert(n % 3 == 0);
    let mut out: Vec<u8> = Vec::new();
    let mut k: usize = 0;
    while k < n
        invariant
            n == a.data@.len(),
            n == b.data@.len(),
            n % 3 == 0,
            k % 3 == 0,
            k <= n,
            out@ == diff_data(a.data@, b.data@).take(k as int),
        decreases n - k,
    {
        let (ar, ag, ab) = (a.data[k], a.data[k + 1], a.data[k + 2]);
        let (br, bg, bb) = (b.data[k], b.data[k + 1], b.data[k + 2]);
        let dr: u16 = if ar >= br { (ar - br) as u16 } else { (br - ar) as u16 };
        let dg: u16 = if ag >= bg { (ag - bg) as u16 } else { (bg - ag) as u16 };
        let db: u16 = if ab >= bb { (ab - bb) as u16 } else { (bb - ab) as u16 };
        let gray = ((dr + dg + db) / 3) as u8;
        assert(gray == gray_of(a.data@, b.data@, k as int / 3)) by {
            assert(3 * (k / 3) == k);
        }
        out.push(gray);
        out.push(gray);
        out.push(gray);
        assert(out@ =~= diff_data(a.data@, b.data@).take(k + 3)) by {
            assert(k / 3 == (k + 1) / 3 && k / 3 == (k + 2) / 3);
        }
        k = k + 3;
    }
    assert(out@ =~= diff_data(a.data@, b.data@));
    Ok(RgbFrame { width: a.width, height: a.height, data: out })
}

/// The pixels of `f`, row by row, whose red channel is above `threshold`.
pub fn bright_pixels(f: &RgbFrame, threshold: u8) -> (r: Vec<BrightPixel>)
    ensures
        r@ == pixels_of(f@).filter(brighter_than(threshold)),
{
    proof {
        use_type_invariant(f);
    }
    let len = f.data.len();
    let n = len / 3;
    let w = f.width;
    let ghost wn = f.width as int;
    let ghost all = pixels_of(f@);
    assert(n == f.width * f.height);
    let mut out: Vec<BrightPixel> = Vec::new();
    let mut k: usize = 0;
    let mut x: u32 = 0;
    let mut y: u32 = 0;
    while k < n
        invariant
            n == f.width * f.height,
            f.data@.len() == 3 * n,
            len == f.data@.len(),
            w == f.width,
            wn == w as int,
            all == pixels_of(f@),
            all.len() == n,
            k <= n,
            x < w || k == n || w == 0,
            k == y * wn + x,
            out@ == all.take(k as int).filter(brighter_than(threshold)),
        decreases n - k,
    {
        assert(w > 0) by {
            if w == 0 {
                assert(n == 0) by (nonlinear_arith)
                    requires
                        n == w * f.height,
                        w == 0,
                ;
            }
        }
        proof {
            lemma_fundamental_div_mod_converse(k as int, wn, y as int, x as int);
        }
        assert(y < f.height) by (nonlinear_arith)
            requires
                k == y * wn + x,
                k < n,
                n == wn * f.height,
                x >= 0,
                wn > 0,
        ;
        let p = BrightPixel { x, y, red: f.data[3 * k] };
        assert(all[k as int] == p);
        proof {
            assert(all.take(k + 1) =~= all.take(k as int).push(p));
            all.take(k as int).lemma_filter_push(p, brighter_than(threshold));
        }
        if p.red > threshold {
            out.push(p);
        }
        let ghost xo = x;
        let ghost yo = y;
        k = k + 1;
        if x + 1 == w {
            x = 0;
            y = y + 1;
            assert(k == y * wn + x) by (nonlinear_arith)
                requires
                    k == yo * wn + xo + 1,
                    xo + 1 == wn,
                    y == yo + 1,
                    x == 0,
            ;
        } else {
            x = x + 1;
        }
    }
    assert(all.take(n as int) == all);
    out
}

/// Each byte of the difference of two byte sequences of one length, a whole
/// number of pixels, is the gray of its pixel: the absolute differences of
/// the pixel's red, green and blue summed and divided by three, rounded
/// down; so all three channels of a pixel hold the same value.
pub proof fn lemma_diff_data_exact(a: Seq<u8>, b: Seq<u8>)
    requires
        a.len() == b.len(),
        a.len() % 3 == 0,
    ensures
        diff_data(a, b).len() == a.len(),
        forall|i: int|
            0 <= i < a.len() ==> #[trigger] diff_data(a, b)[i] as int == ((if a[3 * (i / 3)] >= b[3
                * (i / 3)] {
                a[3 * (i / 3)] - b[3 * (i / 3)]
            } else {
                b[3 * (i / 3)] - a[3 * (i / 3)]
            }) + (if a[3 * (i / 3) + 1] >= b[3 * (i / 3) + 1] {
                a[3 * (i / 3) + 1] - b[3 * (i / 3) + 1]
            } else {
                b[3 * (i / 3) + 1] - a[3 * (i / 3) + 1]
            }) + (if a[3 * (i / 3) + 2] >= b[3 * (i / 3) + 2] {
                a[3 * (i / 3) + 2] - b[3 * (i / 3) + 2]
            } else {
                b[3 * (i / 3) + 2] - a[3 * (i / 3) + 2]
            })) / 3,
{
}

/// The position key of a pixel in a frame `w` pixels wide: its index in
/// row-by-row order.
spec fn row_key(w: nat, p: BrightPixel) -> int {
    p.y * w + p.x
}

/// Keeping some elements of a sequence whose keys increase keeps the keys
/// increasing.
proof fn lemma_filter_keeps_increasing(
    s: Seq<BrightPixel>,
    pred: spec_fn(BrightPixel) -> bool,
    w: nat,
)
    requires
        forall|i: int, j: int| 0 <= i < j < s.len() ==> row_key(w, #[trigger] s[i]) < row_key(
            w,
            #[trigger] s[j],
        ),
    ensures
        forall|i: int, j: int|
            0 <= i < j < s.filter(pred).len() ==> row_key(w, #[trigger] s.filter(pred)[i])
                < row_key(w, #[trigger] s.filter(pred)[j]),
    decreases s.len(),
{
    reveal(Seq::filter);
    if s.len() > 0 {
        let d = s.drop_last();
        lemma_filter_keeps_increasing(d, pred, w);
        let sub = d.filter(pred);
        if pred(s.last()) {
            let out = sub.push(s.last());
            assert(s.filter(pred) == out);
            assert forall|i: int, j: int| 0 <= i < j < out.len() implies row_key(
                w,
                #[trigger] out[i],
            ) < row_key(w, #[trigger] out[j]) by {
                if j < sub.len() {
                    assert(out[i] == sub[i] && out[j] == sub[j]);
                } else {
                    assert(out[i] == sub[i]);
                    assert(sub.contains(sub[i]));
                    d.lemma_filter_contains_rev(pred, sub[i]);
                    let k = choose|k: int| 0 <= k < d.len() && d[k] == sub[i];
                    assert(s[k] == sub[i]);
                    assert(out[j] == s[s.len() - 1]);
                }
            }
        }
    }
}

/// The bright pixels of a frame are exactly its pixels `(x, y)`, with the
/// red byte `data[3 * (y * width + x)]`, whose red byte is above the
/// threshold; they come row by row, left to right within a row.
pub proof fn lemma_bright_pixels_exact(f: FrameView, threshold: u8)
    requires
        f.data.len() == 3 * (f.width * f.height),
        f.width <= u32::MAX,
        f.height <= u32::MAX,
    ensures
        forall|p: BrightPixel|
            #[trigger] pixels_of(f).filter(brighter_than(threshold)).contains(p) <==> (p.x < f.width
                && p.y < f.height && p.red == f.data[3 * (p.y * f.width + p.x)] && p.red
                > threshold),
        forall|i: int, j: int|
            0 <= i < j < pixels_of(f).filter(brighter_than(threshold)).len() ==> {
                let a = #[trigger] pixels_of(f).filter(brighter_than(threshold))[i];
                let b = #[trigger] pixels_of(f).filter(brighter_than(threshold))[j];
                a.y < b.y || (a.y == b.y && a.x < b.x)
            },
{
    let all = pixels_of(f);
    let pred = brighter_than(threshold);
    let r = all.filter(pred);
    let w = f.width;
    let h = f.height;
    assert forall|k: int| 0 <= k < all.len() implies (#[trigger] all[k]).x == k % (w as int)
        && all[k].y == k / (w as int) && row_key(w, all[k]) == k && k % (w as int) < w && k / (
    w as int) < h by {
        assert(w > 0) by (nonlinear_arith)
            requires
                0 <= k < w * h,
        ;
        vstd::arithmetic::div_mod::lemma_fundamental_div_mod(k, w as int);
        vstd::arithmetic::div_mod::lemma_mod_pos_bound(k, w as int);
        vstd::arithmetic::div_mod::lemma_div_pos_is_pos(k, w as int);
        assert(k / (w as int) < h) by (nonlinear_arith)
            requires
                k == (w as int) * (k / (w as int)) + k % (w as int),
                0 <= k % (w as int),
                k < w * h,
                w > 0,
        ;
    }
    assert forall|p: BrightPixel| #[trigger] r.contains(p) <==> (p.x < w && p.y < h && p.red
        == f.data[3 * (p.y * w + p.x)] && p.red > threshold) by {
        if r.contains(p) {
            let i = choose|i: int| 0 <= i < r.len() && r[i] == p;
            all.lemma_filter_pred(pred, i);
            all.lemma_filter_contains_rev(pred, p);
            let k = choose|k: int| 0 <= k < all.len() && all[k] == p;
            assert(row_key(w, all[k]) == k);
        }
        if p.x < w && p.y < h && p.red == f.data[3 * (p.y * w + p.x)] && p.red > threshold {
            let k = p.y * w + p.x;
            assert(0 <= k < w * h) by (nonlinear_arith)
                requires
                    k == p.y * w + p.x,
                    p.x < w,
                    p.y < h,
            ;
            lemma_fundamental_div_mod_converse(k, w as int, p.y as int, p.x as int);
            assert(all[k] == p);
            all.lemma_filter_contains(pred, k);
        }
    }
    assert forall|i: int, j: int| 0 <= i < j < all.len() implies row_key(w, #[trigger] all[i])
        < row_key(w, #[trigger] all[j]) by {
        assert(row_key(w, all[i]) == i && row_key(w, all[j]) == j);
    }
    lemma_filter_keeps_increasing(all, pred, w);
    assert forall|i: int, j: int| 0 <= i < j < r.len() implies {
        let a = #[trigger] r[i];
        let b = #[trigger] r[j];
        a.y < b.y || (a.y == b.y && a.x < b.x)
    } by {
        let a = r[i];
        let b = r[j];
        assert(r.contains(a) && r.contains(b));
        assert(row_key(w, a) < row_key(w, b));
        assert(a.y < b.y || (a.y == b.y && a.x < b.x)) by (nonlinear_arith)
            requires
                a.y * w + a.x < b.y * w + b.x,
                a.x < w,
                b.x < w,
        ;
    }
}

} // verus!
