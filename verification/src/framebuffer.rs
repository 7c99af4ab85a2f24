//! Framebuffers: their geometry and pixel format, and the pixel values written to them.
//!
//! A framebuffer's memory is handed to these functions as a slice; mapping the slice
//! onto the device's memory is left to the caller.

use vstd::prelude::*;
use crate::boot_info::{DisplayInfo, PixelFormat};

verus! {

/// An RGBA color.
#[derive(Clone, Copy, Debug, PartialEq, Eq, Structural)]
pub struct Color {
    pub r: u8,
    pub g: u8,
    pub b: u8,
    pub a: u8,
}

/// The 32-bit pixel value of a color in the given layout.
pub open spec fn pixel_value(c: Color, format: PixelFormat) -> u32 {
    match format {
        PixelFormat::Bgr => ((c.r as u32) << 16u32 | (c.g as u32) << 8u32 | (c.b as u32)) as u32,
        _ => ((c.r as u32) | (c.g as u32) << 8u32 | (c.b as u32) << 16u32) as u32,
    }
}

/// The three channels of a pixel value, each in a byte of its own: `high` in bits 16..24,
/// `mid` in bits 8..16, `low` in bits 0..8, and nothing above bit 24.
proof fn lemma_byte_channels(high: u32, mid: u32, low: u32)
    by (bit_vector)
    requires
        high < 256,
        mid < 256,
        low < 256,
    ensures
        (high << 16u32 | mid << 8u32 | low) == (low | mid << 8u32 | high << 16u32),
        ((high << 16u32 | mid << 8u32 | low) >> 16u32) & 0xFFu32 == high,
        ((high << 16u32 | mid << 8u32 | low) >> 8u32) & 0xFFu32 == mid,
        (high << 16u32 | mid << 8u32 | low) & 0xFFu32 == low,
        (high << 16u32 | mid << 8u32 | low) >> 24u32 == 0,
{
}

/// Where each channel of a color sits in its pixel value: in the BGR layout red takes
/// bits 16..24, green bits 8..16 and blue bits 0..8; in the RGB layout red takes bits
/// 0..8, green bits 8..16 and blue bits 16..24. The top byte is zero in both.
pub proof fn law_pixel_channels(c: Color)
    ensures
        (pixel_value(c, PixelFormat::Bgr) >> 16u32) & 0xFFu32 == c.r as u32,
        (pixel_value(c, PixelFormat::Bgr) >> 8u32) & 0xFFu32 == c.g as u32,
        pixel_value(c, PixelFormat::Bgr) & 0xFFu32 == c.b as u32,
        pixel_value(c, PixelFormat::Bgr) >> 24u32 == 0,
        pixel_value(c, PixelFormat::Rgb) & 0xFFu32 == c.r as u32,
        (pixel_value(c, PixelFormat::Rgb) >> 8u32) & 0xFFu32 == c.g as u32,
        (pixel_value(c, PixelFormat::Rgb) >> 16u32) & 0xFFu32 == c.b as u32,
        pixel_value(c, PixelFormat::Rgb) >> 24u32 == 0,
{
    lemma_byte_channels(c.r as u32, c.g as u32, c.b as u32);
    lemma_byte_channels(c.b as u32, c.g as u32, c.r as u32);
}

/// The pixel `c` leaves when drawn over `pixel`: `pixel` itself when `c` is fully
/// transparent, else `c`'s own value.
pub open spec fn blended(c: Color, pixel: u32, format: PixelFormat) -> u32 {
    if c.a == 0 {
        pixel
    } else {
        pixel_value(c, format)
    }
}

impl Color {
    pub fn new(r: u8, g: u8, b: u8, a: u8) -> (c: Self)
        ensures
            c == (Color { r, g, b, a }),
    {
        Color { r, g, b, a }
    }

    /// An opaque color.
    pub fn rgb(r: u8, g: u8, b: u8) -> (c: Self)
        ensures
            c == (Color { r, g, b, a: 255 }),
    {
        Color { r, g, b, a: 255 }
    }

    pub fn rgba(r: u8, g: u8, b: u8, a: u8) -> (c: Self)
        ensures
            c == (Color { r, g, b, a }),
    {
        Color { r, g, b, a }
    }

    /// A fully transparent color.
    pub fn none() -> (c: Self)
        ensures
            c == (Color { r: 0, g: 0, b: 0, a: 0 }),
    {
        Color::rgba(0, 0, 0, 0)
    }

    pub fn white() -> (c: Self)
        ensures
            c == (Color { r: 255, g: 255, b: 255, a: 255 }),
    {
        Color::rgb(255, 255, 255)
    }

    pub fn black() -> (c: Self)
        ensures
            c == (Color { r: 0, g: 0, b: 0, a: 255 }),
    {
        Color::rgb(0, 0, 0)
    }

    /// This color's pixel value in `format` (which must name a layout).
    pub fn to_u32(self, format: PixelFormat) -> (r: u32)
        requires
            format != PixelFormat::Unspecified,
        ensures
            r == pixel_value(self, format),
            format == PixelFormat::Bgr ==> (r >> 16u32) & 0xFFu32 == self.r as u32
                && (r >> 8u32) & 0xFFu32 == self.g as u32 && r & 0xFFu32 == self.b as u32,
            format == PixelFormat::Rgb ==> r & 0xFFu32 == self.r as u32
                && (r >> 8u32) & 0xFFu32 == self.g as u32 && (r >> 16u32) & 0xFFu32 == self.b as u32,
    {
        proof {
            law_pixel_channels(self);
        }
        match format {
            PixelFormat::Bgr => (self.r as u32) << 16u32 | (self.g as u32) << 8u32 | (self.b as u32),
            PixelFormat::Rgb => (self.r as u32) | (self.g as u32) << 8u32 | (self.b as u32) << 16u32,
            PixelFormat::Unspecified => {
                assert(false);
                0
            },
        }
    }

    /// The pixel left when this color is drawn over `pixel`.
    pub fn blend(self, pixel: u32, format: PixelFormat) -> (r: u32)
        requires
            format != PixelFormat::Unspecified || self.a == 0,
        ensures
            r == blended(self, pixel, format),
    {
        if self.a == 0 {
            return pixel;
        }
        self.to_u32(format)
    }
}

/// A framebuffer of 32-bit pixels, `width` per row and `height` rows, at `addr`.
#[derive(Debug)]
pub struct Framebuffer {
    pub addr: usize,
    pub width: usize,
    pub height: usize,
    pub format: PixelFormat,
}

/// A buffer of [`Color`]s with a framebuffer's geometry, at `addr`.
#[derive(Debug)]
pub struct ColorBuffer {
    pub addr: usize,
    pub width: usize,
    pub height: usize,
}

impl Framebuffer {
    /// A `width` by `height` framebuffer at `addr`, in the BGR layout.
    pub fn new(addr: usize, width: usize, height: usize) -> (r: Self)
        ensures
            r == (Framebuffer { addr, width, height, format: PixelFormat::Bgr }),
    {
        Framebuffer { addr, width, height, format: PixelFormat::Bgr }
    }

    /// The framebuffer the kernel published (`addr`, `size` in bytes, `width`, `height`):
    /// `None` when none was published (`addr` is zero).
    pub fn global(addr: usize, size: usize, width: usize, height: usize) -> (r: Option<Self>)
        requires
            addr != 0 ==> size / 4 == width * height,
        ensures
            addr == 0 ==> r is None,
            addr != 0 ==> r == Some(Framebuffer { addr, width, height, format: PixelFormat::Bgr }),
    {
        if addr == 0 {
            return None;
        }
        Some(Framebuffer { addr, width, height, format: PixelFormat::Bgr })
    }

    /// The framebuffer the boot loader describes: a row is `stride` pixels wide.
    pub fn from_display_info(display_info: &DisplayInfo) -> (r: Self)
        requires
            display_info.framebuffer_size / 4 == display_info.stride * display_info.height,
            display_info.framebuffer_addr <= usize::MAX,
        ensures
            r == (Framebuffer {
                addr: display_info.framebuffer_addr as usize,
                width: display_info.stride as usize,
                height: display_info.height as usize,
                format: display_info.format,
            }),
    {
        Framebuffer {
            addr: display_info.framebuffer_addr as usize,
            width: display_info.stride as usize,
            height: display_info.height as usize,
            format: display_info.format,
        }
    }

    /// The same geometry and layout, at another address.
    pub fn with_new_addr(&self, addr: usize) -> (r: Self)
        ensures
            r == (Framebuffer { addr, width: self.width, height: self.height, format: self.format }),
    {
        Framebuffer { addr, width: self.width, height: self.height, format: self.format }
    }

    /// The same memory, viewed as colors.
    pub fn to_color_buffer(self) -> (r: ColorBuffer)
        ensures
            r == (ColorBuffer { addr: self.addr, width: self.width, height: self.height }),
    {
        ColorBuffer { addr: self.addr, width: self.width, height: self.height }
    }

    /// The number of bytes the pixels take.
    pub fn size_in_bytes(&self) -> (r: usize)
        requires
            self.width * self.height * 4 <= usize::MAX,
        ensures
            r == self.width * self.height * 4,
    {
        proof {
            assert(self.width * self.height <= self.width * self.height * 4) by (nonlinear_arith);
        }
        self.width * self.height * 4
    }

    /// Fill every pixel of `buffer` (this framebuffer's memory) with `color`.
    pub fn clear_screen(&self, buffer: &mut [u32], color: Color)
        requires
            self.format != PixelFormat::Unspecified,
            old(buffer)@.len() == self.width * self.height,
        ensures
            final(buffer)@ == Seq::new(old(buffer)@.len(), |i: int| pixel_value(color, self.format)),
    {
        let value = color.to_u32(self.format);
        let mut i: usize = 0;
        while i < buffer.len()
            invariant
                i <= buffer@.len(),
                buffer@.len() == old(buffer)@.len(),
                forall|j: int| 0 <= j < i ==> buffer@[j] == value,
            decreases buffer@.len() - i,
        {
            buffer[i] = value;
            i = i + 1;
        }
        assert(buffer@ =~= Seq::new(old(buffer)@.len(), |i: int| pixel_value(color, self.format)));
    }

    /// Draw `source` over the pixels of `buffer` (this framebuffer's memory) from
    /// `start_index` on.
    pub fn blend(&self, buffer: &mut [u32], source: &[Color], start_index: usize)
        requires
            self.format != PixelFormat::Unspecified || forall|i: int| 0 <= i < source@.len() ==> (
            #[trigger] source@[i]).a == 0,
            start_index + source@.len() <= old(buffer)@.len(),
        ensures
            final(buffer)@.len() == old(buffer)@.len(),
            forall|i: int|
                0 <= i < old(buffer)@.len() ==> #[trigger] final(buffer)@[i] == if start_index <= i
                    < start_index + source@.len() {
                    blended(source@[i - start_index], old(buffer)@[i], self.format)
                } else {
                    old(buffer)@[i]
                },
    {
        let format = self.format;
        let n = buffer.len();
        let mut pixel_index: usize = 0;
        while pixel_index < source.len()
            invariant
                n == buffer@.len(),
                pixel_index <= source@.len(),
                start_index + source@.len() <= buffer@.len(),
                buffer@.len() == old(buffer)@.len(),
                format == self.format,
                format != PixelFormat::Unspecified || forall|i: int| 0 <= i < source@.len() ==> (
                #[trigger] source@[i]).a == 0,
                forall|i: int|
                    0 <= i < old(buffer)@.len() ==> #[trigger] buffer@[i] == if start_index <= i < start_index
                        + pixel_index {
                        blended(source@[i - start_index], old(buffer)@[i], format)
                    } else {
                        old(buffer)@[i]
                    },
            decreases source@.len() - pixel_index,
        {
            let k = start_index + pixel_index;
            let value = source[pixel_index].blend(buffer[k], format);
            buffer[k] = value;
            pixel_index = pixel_index + 1;
        }
    }
}

impl ColorBuffer {
    /// The number of bytes the colors take.
    pub fn size_in_bytes(&self) -> (r: usize)
        requires
            self.width * self.height * 4 <= usize::MAX,
        ensures
            r == self.width * self.height * 4,
    {
        proof {
            assert(self.width * self.height <= self.width * self.height * 4) by (nonlinear_arith);
        }
        self.width * self.height * 4
    }

    /// Fill every entry of `buffer` (this buffer's memory) with `color`.
    pub fn clear_screen(&self, buffer: &mut [Color], color: Color)
        requires
            old(buffer)@.len() == self.width * self.height,
        ensures
            final(buffer)@ == Seq::new(old(buffer)@.len(), |i: int| color),
    {
        let mut i: usize = 0;
        while i < buffer.len()
            invariant
                i <= buffer@.len(),
                buffer@.len() == old(buffer)@.len(),
                forall|j: int| 0 <= j < i ==> buffer@[j] == color,
            decreases buffer@.len() - i,
        {
            buffer[i] = color;
            i = i + 1;
        }
        assert(buffer@ =~= Seq::new(old(buffer)@.len(), |i: int| color));
    }
}

} // verus!
