//! The outside engines the renderer relies on: MathJax typesets formulas,
//! base64 encodes embedded images and std's path parsing finds a file's
//! extension. Every item here is trusted: Verus
//! believes its contract, and its doc comment says what that contract claims
//! of the outside code.
use vstd::prelude::*;
use base64::Engine;
use crate::ast::opt_str;

verus! {

#[verifier::external_type_specification]
#[verifier::external_body]
pub struct ExMathOptions(mathjax_svg_rs::Options);

/// `mathjax_svg_rs::Options::default()`: MathJax's default font size and
/// alignment.
#[verifier::external_body]
pub(crate) fn math_options() -> mathjax_svg_rs::Options {
    mathjax_svg_rs::Options::default()
}

/// `reply` is one that MathJax can give for the TeX formula `tex` (the SVG,
/// or `None` for an error). A relation, not a function: the SVG carries
/// identifiers counted across the process, so one formula has many replies.
pub uninterp spec fn mathjax_reply(tex: Seq<char>, reply: Option<Seq<char>>) -> bool;

/// `mathjax_svg_rs::render_tex`: the SVG of a TeX formula, `None` where
/// MathJax reports an error. The contract claims only that the reply is one
/// MathJax gives for the formula handed to it; what the SVG holds is not
/// stated, since its identifiers are counted across the process and the
/// rendering runs on a shared worker thread.
#[verifier::external_body]
pub(crate) fn render_tex(tex: &str, options: &mathjax_svg_rs::Options) -> (r: Option<String>)
    ensures
        mathjax_reply(tex@, opt_str(r)),
{
    mathjax_svg_rs::render_tex(tex, options).ok()
}

/// The character of a 6-bit value in the standard base64 alphabet.
pub open spec fn b64_char(n: int) -> char {
    if n < 26 {
        (65 + n) as char
    } else if n < 52 {
        (97 + n - 26) as char
    } else if n < 62 {
        (48 + n - 52) as char
    } else if n == 62 {
        '+'
    } else {
        '/'
    }
}

/// Standard base64 with padding (RFC 4648, section 4): each group of three
/// bytes as four characters, a last group of one or two bytes padded with `=`.
pub open spec fn base64(b: Seq<u8>) -> Seq<char>
    decreases b.len(),
{
    if b.len() == 0 {
        seq![]
    } else if b.len() == 1 {
        let n = b[0] as int * 65536;
        seq![b64_char(n / 262144), b64_char(n / 4096 % 64), '=', '=']
    } else if b.len() == 2 {
        let n = b[0] as int * 65536 + b[1] as int * 256;
        seq![b64_char(n / 262144), b64_char(n / 4096 % 64), b64_char(n / 64 % 64), '=']
    } else {
        let n = b[0] as int * 65536 + b[1] as int * 256 + b[2] as int;
        seq![b64_char(n / 262144), b64_char(n / 4096 % 64), b64_char(n / 64 % 64), b64_char(n % 64)]
            + base64(b.skip(3))
    }
}

/// The length of the base64 text of `n` bytes fits in `usize`, as the
/// encoder needs (it panics otherwise).
pub open spec fn base64_fits(n: nat) -> bool {
    (n / 3) * 4 + (if n % 3 == 0 {
        0int
    } else {
        4int
    }) <= usize::MAX
}

/// `base64::engine::general_purpose::STANDARD.encode`: the standard base64
/// text of the bytes, with padding; it panics only where the length of that
/// text overflows `usize`, which `requires` leaves out.
#[verifier::external_body]
pub(crate) fn base64_encode(bytes: &Vec<u8>) -> (r: String)
    requires
        base64_fits(bytes@.len()),
    ensures
        r@ == base64(bytes@),
{
    base64::engine::general_purpose::STANDARD.encode(bytes)
}

/// The extension of a path as `std::path::Path::extension` finds it on the
/// target the crate is built for (which characters separate components
/// differs between targets): the part of the last component after its last
/// `.`, none where that component has no `.` but a leading one, or where
/// there is no component.
pub uninterp spec fn file_extension(path: Seq<char>) -> Option<Seq<char>>;

/// `Path::new(path).extension()` as text. The contract claims only that the
/// result is the one `file_extension` names for the path.
#[verifier::external_body]
pub(crate) fn path_extension(path: &str) -> (r: Option<String>)
    ensures
        opt_str(r) == file_extension(path@),
{
    let ext = std::path::Path::new(path).extension()?;
    Some(ext.to_str()?.to_string())
}

} // verus!
