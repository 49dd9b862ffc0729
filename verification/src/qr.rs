//! QR rendering of a connection link, for admins who forward access by
//! image.  Both encoders are deterministic, so the result is named as a
//! function of the payload.

use vstd::prelude::*;

verus! {

/// The PNG bytes of the QR code for a payload, `None` when the payload
/// exceeds QR capacity.
pub uninterp spec fn qr_png_of(payload: Seq<char>) -> Option<Seq<u8>>;

/// Relies on `qrcode::QrCode::new` (fails only on oversized payloads) and
/// image's PNG encoder rendering the code at 512x512 with a quiet zone;
/// both are deterministic, so the bytes are a function of the payload
/// alone.
#[verifier::external_body]
pub fn build_user_qr_png_bytes(payload: &str) -> (r: Option<Vec<u8>>)
    ensures
        r is Some <==> qr_png_of(payload@) is Some,
        r is Some ==> r->0@ == qr_png_of(payload@)->0,
{
    let qr = qrcode::QrCode::new(payload.as_bytes()).ok()?;
    let img = qr.render::<image::Luma<u8>>().quiet_zone(true).min_dimensions(512, 512).build();
    let mut bytes = Vec::new();
    let mut cursor = std::io::Cursor::new(&mut bytes);
    image::DynamicImage::ImageLuma8(img).write_to(&mut cursor, image::ImageFormat::Png).ok()?;
    Some(bytes)
}

} // verus!
