//! The tray icon: PNG bytes decoded into the RGBA pixmap that a status
//! notifier host draws.
use vstd::prelude::*;

verus! {

/// An icon as the tray protocol carries it: width and height in pixels and
/// the pixels as 8-bit RGBA, row by row.
#[derive(Debug, Clone, PartialEq, Eq)]
pub struct TrayIcon {
    pub width: i32,
    pub height: i32,
    pub data: Vec<u8>,
}

/// What decoding `png` as a PNG image and converting it to 8-bit RGBA gives:
/// its width, its height and its raw RGBA bytes; `None` where the bytes do not
/// decode as a PNG image.
pub uninterp spec fn png_rgba(png: Seq<u8>) -> Option<(u32, u32, Seq<u8>)>;

/// Calls `image::load` on `png` with the PNG format, then
/// `DynamicImage::to_rgba8`, and hands back the buffer's width, height and
/// raw bytes (`ImageBuffer::into_raw`). The contract claims only that the
/// outcome is `png_rgba` of the bytes: the decoder itself is not stated.
#[verifier::external_body]
fn decode_png_rgba(png: &[u8]) -> (decoded: Option<(u32, u32, Vec<u8>)>)
    ensures
        match decoded {
            Some((w, h, d)) => png_rgba(png@) == Some((w, h, d@)),
            None => png_rgba(png@) is None,
        },
{
    match image::load(std::io::Cursor::new(png), image::ImageFormat::Png) {
        Ok(decoded) => {
            let rgba = decoded.to_rgba8();
            Some((rgba.width(), rgba.height(), rgba.into_raw()))
        },
        Err(_) => None,
    }
}

/// Decodes the tray icon from its PNG bytes. The sizes are taken over as
/// `i32`, as the tray protocol has them; `None` where the bytes do not decode.
pub fn tray_icon(png: &[u8]) -> (icon: Option<TrayIcon>)
    ensures
        match png_rgba(png@) {
            Some((w, h, d)) => {
                &&& icon is Some
                &&& icon.unwrap().width == w as i32
                &&& icon.unwrap().height == h as i32
                &&& icon.unwrap().data@ == d
            },
            None => icon is None,
        },
{
    match decode_png_rgba(png) {
        Some((w, h, data)) => Some(icon_from_rgba(w, h, data)),
        None => None,
    }
}

/// The icon of decoded RGBA pixels: the sizes taken over as `i32`, as the
/// tray protocol has them, and the pixels as they are.
pub fn icon_from_rgba(width: u32, height: u32, data: Vec<u8>) -> (icon: TrayIcon)
    ensures
        icon.width == width as i32,
        icon.height == height as i32,
        icon.data@ == data@,
{
    TrayIcon { width: width as i32, height: height as i32, data }
}

} // verus!
