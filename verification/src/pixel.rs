//! Pixel normaliser: converts a raw pixel buffer in one of the supported
//! source encodings into 8-bit RGBA.

use vstd::prelude::*;

verus! {

/// Why a pixel buffer could not be normalised.
#[derive(Clone, Copy, Debug, PartialEq, Eq, Structural)]
pub enum PixelError {
    /// The described sample layout is not one of the supported encodings.
    UnsupportedFormat,
    /// The buffer length is not a whole number of pixels.
    MalformedBuffer,
}

/// The supported source encodings.
#[derive(Clone, Copy, Debug, PartialEq, Eq, Structural)]
pub enum PixelFormat {
    /// One 8-bit channel.
    R8,
    /// Two 8-bit channels.
    R8G8,
    /// Three 8-bit channels.
    R8G8B8,
    /// Four 8-bit channels.
    R8G8B8A8,
    /// One 16-bit little-endian channel.
    R16,
    /// Two 16-bit little-endian channels.
    R16G16,
    /// Three 16-bit little-endian channels.
    R16G16B16,
    /// Four 16-bit little-endian channels.
    R16G16B16A16,
    /// Three 32-bit single-precision channels.
    R32G32B32Float,
    /// Four 32-bit single-precision channels.
    R32G32B32A32Float,
}

impl PixelFormat {
    /// Number of channels stored per pixel.
    pub open spec fn channel_count(self) -> int {
        match self {
            PixelFormat::R8 | PixelFormat::R16 => 1,
            PixelFormat::R8G8 | PixelFormat::R16G16 => 2,
            PixelFormat::R8G8B8 | PixelFormat::R16G16B16 | PixelFormat::R32G32B32Float => 3,
            PixelFormat::R8G8B8A8 | PixelFormat::R16G16B16A16 | PixelFormat::R32G32B32A32Float => 4,
        }
    }

    /// Number of bytes that hold one channel sample.
    pub open spec fn sample_width(self) -> int {
        match self {
            PixelFormat::R8 | PixelFormat::R8G8 | PixelFormat::R8G8B8 | PixelFormat::R8G8B8A8 => 1,
            PixelFormat::R16
            | PixelFormat::R16G16
            | PixelFormat::R16G16B16
            | PixelFormat::R16G16B16A16 => 2,
            PixelFormat::R32G32B32Float | PixelFormat::R32G32B32A32Float => 4,
        }
    }

    /// Whether samples are single-precision numbers rather than integers.
    pub open spec fn is_float(self) -> bool {
        self.sample_width() == 4
    }

    /// Number of bytes that hold one pixel: one sample per channel.
    pub open spec fn stride(self) -> int {
        match self {
            PixelFormat::R8 => 1,
            PixelFormat::R8G8 => 2,
            PixelFormat::R8G8B8 => 3,
            PixelFormat::R8G8B8A8 => 4,
            PixelFormat::R16 => 2,
            PixelFormat::R16G16 => 4,
            PixelFormat::R16G16B16 => 6,
            PixelFormat::R16G16B16A16 => 8,
            PixelFormat::R32G32B32Float => 12,
            PixelFormat::R32G32B32A32Float => 16,
        }
    }

    /// The stride is the channel count times the sample width.
    pub proof fn lemma_stride(self)
        ensures
            self.stride() == self.channel_count() * self.sample_width(),
    {
    }

    /// Number of channels stored per pixel.
    pub fn channels(&self) -> (n: usize)
        ensures
            n == self.channel_count(),
            1 <= n <= 4,
    {
        match self {
            PixelFormat::R8 | PixelFormat::R16 => 1,
            PixelFormat::R8G8 | PixelFormat::R16G16 => 2,
            PixelFormat::R8G8B8 | PixelFormat::R16G16B16 | PixelFormat::R32G32B32Float => 3,
            PixelFormat::R8G8B8A8 | PixelFormat::R16G16B16A16 | PixelFormat::R32G32B32A32Float => 4,
        }
    }

    /// Number of bytes that hold one channel sample.
    pub fn bytes_per_sample(&self) -> (n: usize)
        ensures
            n == self.sample_width(),
            n == 1 || n == 2 || n == 4,
    {
        match self {
            PixelFormat::R8 | PixelFormat::R8G8 | PixelFormat::R8G8B8 | PixelFormat::R8G8B8A8 => 1,
            PixelFormat::R16
            | PixelFormat::R16G16
            | PixelFormat::R16G16B16
            | PixelFormat::R16G16B16A16 => 2,
            PixelFormat::R32G32B32Float | PixelFormat::R32G32B32A32Float => 4,
        }
    }

    /// Number of bytes that hold one pixel.
    pub fn bytes_per_pixel(&self) -> (n: usize)
        ensures
            n == self.stride(),
            1 <= n <= 16,
    {
        let c: usize = self.channels();
        let w: usize = self.bytes_per_sample();
        proof {
            self.lemma_stride();
        }
        c * w
    }
}

/// The value of a 16-bit little-endian sample after dropping its low eight
/// bits: the sample divided by 256, rounded down.
pub open spec fn reduced16(lo: u8, hi: u8) -> u8 {
    ((lo as int + 256 * (hi as int)) / 256) as u8
}

/// The 32-bit word that four bytes spell in little-endian order.
pub open spec fn le_word(b0: u8, b1: u8, b2: u8, b3: u8) -> u32 {
    (b0 as int + 256 * (b1 as int) + 65536 * (b2 as int) + 16777216 * (b3 as int)) as u32
}

/// The bit pattern of sample `k` of a buffer of 32-bit samples.
pub open spec fn word_at(bytes: Seq<u8>, k: int) -> u32 {
    le_word(bytes[4 * k], bytes[4 * k + 1], bytes[4 * k + 2], bytes[4 * k + 3])
}

/// The 8-bit value of sample `k` of a buffer of integer samples.
pub open spec fn int_sample(format: PixelFormat, bytes: Seq<u8>, k: int) -> u8 {
    if format.sample_width() == 1 {
        bytes[k]
    } else {
        reduced16(bytes[2 * k], bytes[2 * k + 1])
    }
}

/// Which source sample feeds component `c` (0 = red .. 3 = alpha) of output
/// pixel `p`; `None` where the source has no such channel and the component is
/// the constant 255.
pub open spec fn source_sample(channels: int, p: int, c: int) -> Option<int> {
    if channels == 1 {
        if c < 3 {
            Some(p)
        } else {
            None
        }
    } else if channels == 2 {
        if c < 3 {
            Some(2 * p)
        } else {
            Some(2 * p + 1)
        }
    } else if channels == 3 {
        if c < 3 {
            Some(3 * p + c)
        } else {
            None
        }
    } else {
        Some(4 * p + c)
    }
}

/// Number of whole pixels in a buffer of `len` bytes.
pub open spec fn pixel_count(format: PixelFormat, len: int) -> int {
    len / format.stride()
}

/// Whether `s` is an admissible 8-bit value for sample `k` of the buffer:
/// for integer encodings the reduced sample itself, for single-precision
/// encodings a value that `quantize` returns for the sample's bit pattern.
pub open spec fn is_sample<F: Fn(u32) -> u8>(
    format: PixelFormat,
    bytes: Seq<u8>,
    quantize: F,
    k: int,
    s: u8,
) -> bool {
    if format.is_float() {
        call_ensures(quantize, (word_at(bytes, k),), s)
    } else {
        s == int_sample(format, bytes, k)
    }
}

/// Whether `v` is an admissible value for component `c` of output pixel `p`.
pub open spec fn is_component<F: Fn(u32) -> u8>(
    format: PixelFormat,
    bytes: Seq<u8>,
    quantize: F,
    p: int,
    c: int,
    v: u8,
) -> bool {
    match source_sample(format.channel_count(), p, c) {
        Some(k) => is_sample(format, bytes, quantize, k, v),
        None => v == 255,
    }
}

/// The RGBA8 image that a buffer of integer samples normalises to.
pub open spec fn normalized(format: PixelFormat, bytes: Seq<u8>) -> Seq<u8> {
    Seq::new(
        (4 * pixel_count(format, bytes.len() as int)) as nat,
        |i: int|
            match source_sample(format.channel_count(), i / 4, i % 4) {
                Some(k) => int_sample(format, bytes, k),
                None => 255u8,
            },
    )
}

impl PixelFormat {
    /// The encoding with the given channel count and bits per sample, where
    /// `floating` tells single-precision samples from integers. Supported are
    /// one to four channels of 8 or 16 bits, and three or four channels of
    /// 32-bit single precision.
    pub open spec fn layout_supported(channels: u8, bits: u8, floating: bool) -> bool {
        if floating {
            bits == 32 && (channels == 3 || channels == 4)
        } else {
            (bits == 8 || bits == 16) && 1 <= channels <= 4
        }
    }

    /// Looks up the encoding for a sample layout; fails with
    /// `UnsupportedFormat` exactly when the layout is not a supported one.
    pub fn from_layout(channels: u8, bits: u8, floating: bool) -> (r: Result<PixelFormat, PixelError>)
        ensures
            r.is_ok() <==> Self::layout_supported(channels, bits, floating),
            r matches Err(e) ==> e == PixelError::UnsupportedFormat,
            r matches Ok(f) ==> f.channel_count() == channels && f.sample_width() * 8 == bits
                && f.is_float() == floating,
    {
        if floating {
            if bits == 32 && channels == 3 {
                Ok(PixelFormat::R32G32B32Float)
            } else if bits == 32 && channels == 4 {
                Ok(PixelFormat::R32G32B32A32Float)
            } else {
                Err(PixelError::UnsupportedFormat)
            }
        } else if bits == 8 {
            match channels {
                1 => Ok(PixelFormat::R8),
                2 => Ok(PixelFormat::R8G8),
                3 => Ok(PixelFormat::R8G8B8),
                4 => Ok(PixelFormat::R8G8B8A8),
                _ => Err(PixelError::UnsupportedFormat),
            }
        } else if bits == 16 {
            match channels {
                1 => Ok(PixelFormat::R16),
                2 => Ok(PixelFormat::R16G16),
                3 => Ok(PixelFormat::R16G16B16),
                4 => Ok(PixelFormat::R16G16B16A16),
                _ => Err(PixelError::UnsupportedFormat),
            }
        } else {
            Err(PixelError::UnsupportedFormat)
        }
    }
}

/// Drops the low eight bits of a 16-bit little-endian sample.
fn reduce16(lo: u8, hi: u8) -> (v: u8)
    ensures
        v == reduced16(lo, hi),
{
    let wide: u16 = (lo as u16) | ((hi as u16) << 8);
    assert((((lo as u16) | ((hi as u16) << 8)) >> 8) == hi as u16) by (bit_vector);
    assert((lo as int + 256 * (hi as int)) / 256 == hi as int);
    (wide >> 8) as u8
}

/// Assembles a 32-bit word from four bytes in little-endian order.
fn assemble_word(b0: u8, b1: u8, b2: u8, b3: u8) -> (w: u32)
    ensures
        w == le_word(b0, b1, b2, b3),
{
    let w: u32 = (b0 as u32) + 256 * (b1 as u32) + 65536 * (b2 as u32) + 16777216 * (b3 as u32);
    w
}

/// Reads sample `k` of the buffer as an 8-bit value.
fn read_sample<F: Fn(u32) -> u8>(format: PixelFormat, bytes: &[u8], quantize: &F, k: usize) -> (s: u8)
    requires
        (k + 1) * format.sample_width() <= bytes@.len(),
        format.is_float() ==> forall|w: u32| call_requires(*quantize, (w,)),
    ensures
        is_sample(format, bytes@, *quantize, k as int, s),
{
    let width: usize = format.bytes_per_sample();
    // Reading the length bounds it by the machine word.
    let _len: usize = bytes.len();
    assert((k + 1) * format.sample_width() == (k + 1) * width);
    assert((k + 1) * width == k * width + width) by (nonlinear_arith);
    assert(width == 2 ==> k * width == 2 * k) by (nonlinear_arith);
    assert(width == 4 ==> k * width == 4 * k) by (nonlinear_arith);
    assert(width == 1 ==> k * width == k) by (nonlinear_arith);
    if width == 1 {
        bytes[k]
    } else if width == 2 {
        reduce16(bytes[2 * k], bytes[2 * k + 1])
    } else {
        let w: u32 = assemble_word(bytes[4 * k], bytes[4 * k + 1], bytes[4 * k + 2], bytes[4 * k + 3]);
        quantize(w)
    }
}

/// Converts a raw pixel buffer to RGBA8.
///
/// A single channel is replicated into red, green and blue; with two
/// channels the first is replicated and the second becomes alpha; three
/// channels are copied; four pass through. Alpha is 255 where the source has
/// none. A 16-bit sample keeps its high byte. A single-precision sample is
/// handed to `quantize` as its little-endian bit pattern, and what `quantize`
/// returns is stored; for the integer encodings `quantize` is never called.
///
/// Fails with `MalformedBuffer` exactly when the buffer length is not a
/// multiple of the pixel stride.
pub fn normalize<F: Fn(u32) -> u8>(format: PixelFormat, bytes: &[u8], quantize: F) -> (r: Result<
    Vec<u8>,
    PixelError,
>)
    requires
        format.is_float() ==> forall|w: u32| call_requires(quantize, (w,)),
    ensures
        r.is_ok() <==> (bytes@.len() as int) % format.stride() == 0,
        r matches Err(e) ==> e == PixelError::MalformedBuffer,
        r matches Ok(out) ==> {
            &&& out@.len() == 4 * pixel_count(format, bytes@.len() as int)
            &&& forall|p: int, c: int|
                0 <= p < pixel_count(format, bytes@.len() as int) && 0 <= c < 4
                    ==> #[trigger] is_component(format, bytes@, quantize, p, c, out@[4 * p + c])
            &&& !format.is_float() ==> out@ == normalized(format, bytes@)
        },
{
    let stride: usize = format.bytes_per_pixel();
    if bytes.len() % stride != 0 {
        return Err(PixelError::MalformedBuffer);
    }
    let channels: usize = format.channels();
    let count: usize = bytes.len() / stride;
    assert(count * stride == bytes@.len()) by (nonlinear_arith)
        requires
            stride > 0,
            bytes@.len() % (stride as nat) == 0,
            count == bytes@.len() / (stride as nat),
    ;
    let mut out: Vec<u8> = Vec::new();
    let mut p: usize = 0;
    while p < count
        invariant
            p <= count,
            count == pixel_count(format, bytes@.len() as int),
            count * format.stride() == bytes@.len(),
            channels == format.channel_count(),
            out@.len() == 4 * p,
            format.is_float() ==> forall|w: u32| call_requires(quantize, (w,)),
            forall|q: int, c: int|
                0 <= q < p && 0 <= c < 4 ==> #[trigger] is_component(
                    format,
                    bytes@,
                    quantize,
                    q,
                    c,
                    out@[4 * q + c],
                ),
        decreases count - p,
    {
        let ghost before = out@;
        let mut c: usize = 0;
        while c < 4
            invariant
                c <= 4,
                p < count,
                count * format.stride() == bytes@.len(),
                channels == format.channel_count(),
                out@.len() == 4 * p + c,
                before.len() == 4 * p,
                out@.subrange(0, 4 * p) == before,
                format.is_float() ==> forall|w: u32| call_requires(quantize, (w,)),
                forall|d: int|
                    0 <= d < c ==> #[trigger] is_component(
                        format,
                        bytes@,
                        quantize,
                        p as int,
                        d,
                        out@[4 * p + d],
                    ),
            decreases 4 - c,
        {
            let ghost prev = out@;
            let v: u8 = read_component(format, bytes, &quantize, count, p, c);
            out.push(v);
            assert(out@.subrange(0, 4 * p) == prev.subrange(0, 4 * p));
            assert forall|d: int| 0 <= d < c + 1 implies #[trigger] is_component(
                format,
                bytes@,
                quantize,
                p as int,
                d,
                out@[4 * p + d],
            ) by {
                if d < c {
                    assert(out@[4 * p + d] == prev[4 * p + d]);
                    assert(is_component(format, bytes@, quantize, p as int, d, prev[4 * p + d]));
                }
            }
            c = c + 1;
        }
        assert forall|q: int, d: int| 0 <= q < p + 1 && 0 <= d < 4 implies #[trigger] is_component(
            format,
            bytes@,
            quantize,
            q,
            d,
            out@[4 * q + d],
        ) by {
            if q < p {
                assert(out@[4 * q + d] == out@.subrange(0, 4 * p)[4 * q + d]);
                assert(is_component(format, bytes@, quantize, q, d, before[4 * q + d]));
            }
        }
        p = p + 1;
    }
    proof {
        if !format.is_float() {
            let expect = normalized(format, bytes@);
            assert(out@.len() == expect.len());
            assert forall|i: int| 0 <= i < out@.len() implies out@[i] == expect[i] by {
                let q = i / 4;
                let d = i % 4;
                assert(i == 4 * q + d);
                assert(is_component(format, bytes@, quantize, q, d, out@[4 * q + d]));
            }
            assert(out@ =~= expect);
        }
    }
    Ok(out)
}

/// Computes component `c` of output pixel `p`.
fn read_component<F: Fn(u32) -> u8>(
    format: PixelFormat,
    bytes: &[u8],
    quantize: &F,
    count: usize,
    p: usize,
    c: usize,
) -> (v: u8)
    requires
        p < count,
        c < 4,
        count * format.stride() == bytes@.len(),
        format.is_float() ==> forall|w: u32| call_requires(*quantize, (w,)),
    ensures
        is_component(format, bytes@, *quantize, p as int, c as int, v),
{
    let channels: usize = format.channels();
    // Reading the length bounds it by the machine word.
    let _len: usize = bytes.len();
    proof {
        lemma_sample_in_bounds(format, count as int, p as int, c as int);
    }
    if channels == 1 {
        if c < 3 {
            read_sample(format, bytes, quantize, p)
        } else {
            255
        }
    } else if channels == 2 {
        if c < 3 {
            read_sample(format, bytes, quantize, 2 * p)
        } else {
            read_sample(format, bytes, quantize, 2 * p + 1)
        }
    } else if channels == 3 {
        if c < 3 {
            read_sample(format, bytes, quantize, 3 * p + c)
        } else {
            255
        }
    } else {
        read_sample(format, bytes, quantize, 4 * p + c)
    }
}

/// Every sample that feeds a pixel of the buffer lies inside the buffer.
proof fn lemma_sample_in_bounds(format: PixelFormat, count: int, p: int, c: int)
    requires
        0 <= p < count,
        0 <= c < 4,
    ensures
        source_sample(format.channel_count(), p, c) matches Some(k) ==> 0 <= k && k + 1 <= (k + 1)
            * format.sample_width() <= count * format.stride(),
{
    let ch = format.channel_count();
    let w = format.sample_width();
    format.lemma_stride();
    assert(count * (ch * w) == (count * ch) * w) by (nonlinear_arith);
    if let Some(k) = source_sample(ch, p, c) {
        assert(k + 1 <= count * ch) by (nonlinear_arith)
            requires
                0 <= p < count,
                1 <= ch <= 4,
                k + 1 <= (p + 1) * ch,
        ;
        assert(k + 1 <= (k + 1) * w <= (count * ch) * w) by (nonlinear_arith)
            requires
                0 <= k,
                k + 1 <= count * ch,
                w >= 1,
        ;
    }
}

/// A buffer that holds `width * height` pixels normalises to
/// `width * height * 4` bytes, whatever the encoding.
pub proof fn lemma_output_len(format: PixelFormat, width: nat, height: nat, len: nat)
    requires
        len == width * height * format.stride(),
    ensures
        (len as int) % format.stride() == 0,
        4 * pixel_count(format, len as int) == width * height * 4,
{
    let s = format.stride();
    let n = (width * height) as int;
    assert((n * s) % s == 0 && (n * s) / s == n) by (nonlinear_arith)
        requires
            s >= 1,
            n >= 0,
    ;
}

} // verus!
