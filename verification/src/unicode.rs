//! Decoding bytes and lowering case, as the standard library does it.
use vstd::prelude::*;
use vstd::utf8;

verus! {

/// The text that `String::from_utf8_lossy` makes of some bytes.
pub uninterp spec fn lossy_text(bytes: Seq<u8>) -> Seq<char>;

/// `String::from_utf8_lossy`.
///
/// The contract claims that the text is a function of the bytes; that bytes which are UTF-8 are
/// decoded exactly; and, since what is not UTF-8 is replaced by U+FFFD and never dropped, that
/// something is left of any bytes, and that a NUL in the text stands for a NUL byte. How many
/// U+FFFD stand for some bytes is not said.
#[verifier::external_body]
pub(crate) fn decode_lossy(bytes: &[u8]) -> (s: String)
    ensures
        s@ == lossy_text(bytes@),
        utf8::valid_utf8(bytes@) ==> s@ == utf8::decode_utf8(bytes@),
        bytes@.len() > 0 ==> s@.len() > 0,
        s@.contains('\0') ==> bytes@.contains(0u8),
{
    String::from_utf8_lossy(bytes).into_owned()
}

/// The text that bytes are read as: what they encode, where they are UTF-8, and otherwise what
/// `String::from_utf8_lossy` makes of them.
pub open spec fn text_of(bytes: Seq<u8>) -> Seq<char> {
    if utf8::valid_utf8(bytes) {
        utf8::decode_utf8(bytes)
    } else {
        lossy_text(bytes)
    }
}

/// The error of `String::from_utf8`.
#[verifier::external_type_specification]
#[verifier::external_body]
pub struct ExFromUtf8Error(std::string::FromUtf8Error);

/// `String::from_utf8`: exactly the bytes that are UTF-8 are decoded.
#[verifier::external_body]
pub(crate) fn decode(bytes: Vec<u8>) -> (result: Result<String, std::string::FromUtf8Error>)
    ensures
        match result {
            Ok(s) => utf8::valid_utf8(bytes@) && s@ == utf8::decode_utf8(bytes@),
            Err(_) => !utf8::valid_utf8(bytes@),
        },
{
    String::from_utf8(bytes)
}

/// The text that `str::to_lowercase` makes of a text.
pub uninterp spec fn lowercase(s: Seq<char>) -> Seq<char>;

/// The lowercase form of an ASCII letter; any other character itself.
pub open spec fn ascii_lower(c: char) -> char {
    if 'A' <= c <= 'Z' {
        (c as u32 + 32) as char
    } else {
        c
    }
}

/// An ASCII text in lowercase.
pub open spec fn ascii_lowercase(s: Seq<char>) -> Seq<char> {
    s.map_values(|c: char| ascii_lower(c))
}

/// A text in lowercase: letter by letter, where it is ASCII, and otherwise as
/// `str::to_lowercase` makes it.
pub open spec fn lowered(s: Seq<char>) -> Seq<char> {
    if utf8::is_ascii_chars(s) {
        ascii_lowercase(s)
    } else {
        lowercase(s)
    }
}

/// `str::to_lowercase`.
///
/// The contract claims that the lowercase text is a function of the text; that in an ASCII text
/// it is the letters `A` to `Z` that change, each to its lowercase letter; and, since a character
/// is mapped to one or more, that it is empty exactly if the text is. What characters other than
/// ASCII become is not said.
#[verifier::external_body]
pub(crate) fn to_lowercase(s: &str) -> (lower: String)
    ensures
        lower@ == lowercase(s@),
        utf8::is_ascii_chars(s@) ==> lower@ == ascii_lowercase(s@),
        lower@.len() == 0 <==> s@.len() == 0,
{
    s.to_lowercase()
}

proof fn lemma_scalar_bytes(c: u32)
    by (bit_vector)
    ensures
        utf8::has_width_1_encoding(c) && c != 0 ==> utf8::leading_byte_width_1(c) != 0,
        utf8::leading_byte_width_2(c) != 0,
        utf8::leading_byte_width_3(c) != 0,
        utf8::leading_byte_width_4(c) != 0,
        utf8::last_continuation_byte(c) != 0,
        utf8::second_last_continuation_byte(c) != 0,
        utf8::third_last_continuation_byte(c) != 0,
{
}

/// The UTF-8 form of a text has at least a byte where the text has a character, and holds no NUL
/// byte where the text holds no NUL.
pub proof fn lemma_encoded_text(chars: Seq<char>)
    requires
        !chars.contains('\0'),
    ensures
        chars.len() > 0 ==> utf8::encode_utf8(chars).len() > 0,
        forall|i: int|
            0 <= i < utf8::encode_utf8(chars).len() ==> #[trigger] utf8::encode_utf8(chars)[i] != 0,
    decreases chars.len(),
{
    if chars.len() > 0 {
        let rest = chars.drop_first();
        let c = chars[0] as u32;
        assert(!rest.contains('\0')) by {
            if rest.contains('\0') {
                let i = choose|i: int| 0 <= i < rest.len() && rest[i] == '\0';
                assert(chars[i + 1] == '\0');
            }
        }
        lemma_encoded_text(rest);
        lemma_scalar_bytes(c);
        assert(c != 0) by {
            utf8::char_u32_cast(chars[0], c);
            assert(chars.contains(chars[0]));
        }
        let head = utf8::encode_scalar(c);
        assert forall|i: int| 0 <= i < utf8::encode_utf8(chars).len() implies
            #[trigger] utf8::encode_utf8(chars)[i] != 0 by {
            if i < head.len() {
                assert(utf8::encode_utf8(chars)[i] == head[i]);
            } else {
                assert(utf8::encode_utf8(chars)[i] == utf8::encode_utf8(rest)[i - head.len()]);
            }
        }
    }
}

/// Bytes that are UTF-8 are read as what they encode, and others as the lossy text.
pub proof fn law_bytes_are_read(bytes: Seq<u8>)
    ensures
        utf8::valid_utf8(bytes) ==> text_of(bytes) == utf8::decode_utf8(bytes),
        !utf8::valid_utf8(bytes) ==> text_of(bytes) == lossy_text(bytes),
{
}

/// An ASCII text in lowercase has the same characters, but for `A` to `Z`, which are 32 places
/// further on; other texts are lowered as a whole.
pub proof fn law_lowercase_letters(s: Seq<char>, i: int)
    ensures
        (forall|k: int| 0 <= k < s.len() ==> '\0' <= #[trigger] s[k] <= '\u{7f}') ==> {
            &&& lowered(s).len() == s.len()
            &&& 0 <= i < s.len() && 'A' <= s[i] <= 'Z' ==> lowered(s)[i] as int == s[i] as int + 32
            &&& 0 <= i < s.len() && !('A' <= s[i] <= 'Z') ==> lowered(s)[i] == s[i]
        },
        (exists|k: int| 0 <= k < s.len() && !('\0' <= #[trigger] s[k] <= '\u{7f}')) ==> lowered(s)
            == lowercase(s),
{
}

} // verus!
