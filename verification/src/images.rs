//! Embedding an image dropped onto the window: only PNG, JPEG, GIF and WebP
//! files up to 25 MiB are accepted, and they are embedded as a base64
//! `data:` URI. Reading the file is left to the application.
use crate::foreign::{base64_encode, base64_standard};
use crate::text::{ascii_lowercase, ascii_lowercase_chars, chars_of, push_str, string_of};
use vstd::prelude::*;

verus! {

/// The largest image that is embedded, in bytes.
pub const MAX_FILE_SIZE_BYTES: u64 = 26214400;

/// The MIME type for an image file extension (matched without regard to
/// ASCII case), if it is a supported one.
pub open spec fn mime_for(extension: Seq<char>) -> Option<Seq<char>> {
    let l = ascii_lowercase(extension);
    if l == "png"@ {
        Some("image/png"@)
    } else if l == "jpg"@ || l == "jpeg"@ {
        Some("image/jpeg"@)
    } else if l == "gif"@ {
        Some("image/gif"@)
    } else if l == "webp"@ {
        Some("image/webp"@)
    } else {
        None
    }
}

/// Whether `v` holds exactly the characters of `s`.
fn same_as(v: &Vec<char>, s: &str) -> (r: bool)
    ensures
        r == (v@ == s@),
{
    let t = chars_of(s);
    if v.len() != t.len() {
        return false;
    }
    let mut i: usize = 0;
    while i < v.len()
        invariant
            v.len() == t.len(),
            t@ == s@,
            i <= v.len(),
            forall|j: int| 0 <= j < i ==> v@[j] == t@[j],
        decreases v.len() - i,
    {
        if v[i] != t[i] {
            return false;
        }
        i += 1;
    }
    assert(v@ =~= t@);
    true
}

/// The MIME type for an image file extension, if it is a supported one.
pub fn mime_for_extension(extension: &str) -> (r: Option<&'static str>)
    ensures
        match r {
            Some(m) => mime_for(extension@) == Some(m@),
            None => mime_for(extension@) is None,
        },
{
    let l = ascii_lowercase_chars(&chars_of(extension));
    if same_as(&l, "png") {
        Some("image/png")
    } else if same_as(&l, "jpg") || same_as(&l, "jpeg") {
        Some("image/jpeg")
    } else if same_as(&l, "gif") {
        Some("image/gif")
    } else if same_as(&l, "webp") {
        Some("image/webp")
    } else {
        None
    }
}

/// The refusal text for an unsupported file type.
pub open spec fn unsupported_message() -> Seq<char> {
    "Unsupported image type"@
}

/// The refusal text for a file over the size limit.
pub open spec fn too_large_message() -> Seq<char> {
    "Image file is too large to embed"@
}

/// The MIME type for a dropped file's extension (absent when the path has
/// none), or the refusal for an unsupported type.
pub fn image_mime(extension: Option<&str>) -> (r: Result<&'static str, String>)
    ensures
        match extension {
            Some(x) => match mime_for(x@) {
                Some(m) => r matches Ok(s) && s@ == m,
                None => r matches Err(e) && e@ == unsupported_message(),
            },
            None => r matches Err(e) && e@ == unsupported_message(),
        },
{
    match extension {
        Some(x) => match mime_for_extension(x) {
            Some(m) => Ok(m),
            None => Err(String::from_str("Unsupported image type")),
        },
        None => Err(String::from_str("Unsupported image type")),
    }
}

/// Accepts a file of `len` bytes for embedding unless it is over the limit.
pub fn check_image_size(len: u64) -> (r: Result<(), String>)
    ensures
        r is Ok <==> len <= MAX_FILE_SIZE_BYTES,
        r matches Err(e) ==> e@ == too_large_message(),
{
    if len > MAX_FILE_SIZE_BYTES {
        Err(String::from_str("Image file is too large to embed"))
    } else {
        Ok(())
    }
}

/// The `data:` URI embedding `bytes` of type `mime`.
pub open spec fn data_uri(mime: Seq<char>, bytes: Seq<u8>) -> Seq<char> {
    "data:"@ + mime + ";base64,"@ + base64_standard(bytes)
}

/// The `data:` URI embedding `bytes` of type `mime`, base64-encoded.
pub fn image_data_uri(mime: &str, bytes: &Vec<u8>) -> (r: String)
    requires
        bytes.len() <= usize::MAX / 2,
    ensures
        r@ == data_uri(mime@, bytes@),
{
    let encoded = base64_encode(bytes);
    let mut v = chars_of("data:");
    push_str(&mut v, mime);
    push_str(&mut v, ";base64,");
    push_str(&mut v, encoded.as_str());
    string_of(&v)
}

} // verus!
