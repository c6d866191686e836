//! Folder names: a digest written in a text alphabet that holds no path
//! separator.
use vstd::prelude::*;
use vstd::string::*;

verus! {

/// The standard base64 text (alphabet `A-Z a-z 0-9 + /`, `=` padding) of a
/// byte sequence.
pub uninterp spec fn base64_standard(bytes: Seq<u8>) -> Seq<char>;

/// A character of standard base64 text, padding included.
pub open spec fn is_base64_char(c: char) -> bool {
    ('A' <= c && c <= 'Z') || ('a' <= c && c <= 'z') || ('0' <= c && c <= '9') || c == '+' || c
        == '/' || c == '='
}

/// A character that may stand in a file name on every platform this runs on.
pub open spec fn is_name_char(c: char) -> bool {
    ('A' <= c && c <= 'Z') || ('a' <= c && c <= 'z') || ('0' <= c && c <= '9') || c == '-' || c
        == '_' || c == '='
}

/// Relies on `base64::encode`: the standard encoding with padding, four
/// characters for every three bytes begun.
#[verifier::external_body]
fn encode_base64(bytes: &[u8; 32]) -> (r: String)
    ensures
        r@ == base64_standard(bytes@),
        r@.len() == 4 * ((bytes@.len() + 2) / 3),
        forall|i: int| 0 <= i < r@.len() ==> is_base64_char(#[trigger] r@[i]),
{
    base64::encode(bytes)
}

/// Relies on `String::push`: the character is appended.
#[verifier::external_body]
fn push_char(s: &mut String, c: char)
    ensures
        final(s)@ == old(s)@.push(c),
{
    s.push(c);
}

/// The character that stands for `c` in a folder name: `/` becomes `_` and `+`
/// becomes `-`.
pub open spec fn safe_char(c: char) -> char {
    if c == '/' {
        '_'
    } else if c == '+' {
        '-'
    } else {
        c
    }
}

/// The name of the folder that holds the files with digest `d`.
pub open spec fn folder_name_of(d: Seq<u8>) -> Seq<char> {
    base64_standard(d).map_values(|c: char| safe_char(c))
}

/// Rewrites base64 text into its file-name-safe form.
pub fn url_safe(encoded: &str) -> (r: String)
    ensures
        r@ == encoded@.map_values(|c: char| safe_char(c)),
{
    let n = encoded.unicode_len();
    let mut r = String::new();
    let mut i: usize = 0;
    while i < n
        invariant
            i <= n,
            n == encoded@.len(),
            r@ == encoded@.subrange(0, i as int).map_values(|c: char| safe_char(c)),
        decreases n - i,
    {
        let c = encoded.get_char(i);
        let s = if c == '/' {
            '_'
        } else if c == '+' {
            '-'
        } else {
            c
        };
        push_char(&mut r, s);
        i = i + 1;
        assert(r@ =~= encoded@.subrange(0, i as int).map_values(|c: char| safe_char(c)));
    }
    assert(encoded@.subrange(0, n as int) =~= encoded@);
    r
}

/// The name of the folder for the files with digest `d`: its base64 text,
/// 44 characters none of which separates paths.
pub fn folder_name(d: &[u8; 32]) -> (r: String)
    ensures
        r@ == folder_name_of(d@),
        r@.len() == 44,
        forall|i: int| 0 <= i < r@.len() ==> is_name_char(#[trigger] r@[i]),
{
    let encoded = encode_base64(d);
    let r = url_safe(encoded.as_str());
    assert forall|i: int| 0 <= i < r@.len() implies is_name_char(#[trigger] r@[i]) by {
        assert(is_base64_char(encoded@[i]));
    }
    r
}

} // verus!
