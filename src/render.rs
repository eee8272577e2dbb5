//! The block that each listed file becomes in the document.

use vstd::prelude::*;
use vstd::string::*;

verus! {

/// What `String::from_utf8_lossy` makes of bytes: their UTF-8 text, each
/// invalid sequence replaced by U+FFFD.
pub uninterp spec fn utf8_lossy(b: Seq<u8>) -> Seq<char>;

/// Relies on `String::from_utf8_lossy`, which never fails.
#[verifier::external_body]
fn decode_lossy(bytes: &[u8]) -> (r: String)
    ensures
        r@ == utf8_lossy(bytes@),
{
    String::from_utf8_lossy(bytes).into_owned()
}

/// A header line naming the path, then the content fenced by three
/// backticks, then a blank line.
pub open spec fn block_of(rel: Seq<char>, content: Seq<char>) -> Seq<char> {
    seq!['#', ' '] + rel + seq!['\n', '`', '`', '`', '\n'] + content + seq!['`', '`', '`', '\n', '\n']
}

/// The block of one file, from its path and its decoded content.
pub fn format_block(rel: &str, content: &str) -> (r: String)
    ensures
        r@ == block_of(rel@, content@),
{
    proof {
        reveal_strlit("# ");
        reveal_strlit("\n```\n");
        reveal_strlit("```\n\n");
    }
    let mut r = String::from_str("# ");
    r.append(rel);
    r.append("\n```\n");
    r.append(content);
    r.append("```\n\n");
    assert(r@ =~= block_of(rel@, content@));
    r
}

/// The block of one file, from its path and its bytes. Bytes that are not
/// UTF-8 are shown as U+FFFD; rendering never fails.
pub fn render_file(rel: &str, bytes: &[u8]) -> (r: String)
    ensures
        r@ == block_of(rel@, utf8_lossy(bytes@)),
{
    let content = decode_lossy(bytes);
    format_block(rel, content.as_str())
}

} // verus!
