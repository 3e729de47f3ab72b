use vstd::prelude::*;

use crate::text::ascii_string;

verus! {

#[verifier::external_type_specification]
#[verifier::external_body]
pub struct ExEncoding(encoding_rs::Encoding);

/// The `charset` parameter of the media type `ct`, if `ct` parses as one and
/// has it.
pub uninterp spec fn mime_charset(ct: Seq<char>) -> Option<Seq<char>>;

/// Whether `label` names a character encoding.
pub uninterp spec fn label_known(label: Seq<char>) -> bool;

/// The text that decoding `bytes` with the encoding named `label` gives (a
/// byte order mark first overrides it), and whether malformed input was met.
pub uninterp spec fn decoded(label: Seq<char>, bytes: Seq<u8>) -> (Seq<char>, bool);

/// Relies on `mime::Mime`'s `FromStr` and `Mime::get_param(mime::CHARSET)`:
/// the charset parameter of a media type depends on its text alone.
#[verifier::external_body]
fn content_type_charset(ct: &str) -> (r: Option<String>)
    ensures
        mime_charset(ct@) == match r {
            Some(s) => Some(s@),
            None => None,
        },
{
    ct.parse::<mime::Mime>().ok().and_then(|m| m.get_param(mime::CHARSET).map(|c| c.as_str().to_string()))
}

/// Relies on `encoding_rs::Encoding::for_label`: whether a label names an
/// encoding depends on the label alone.
#[verifier::external_body]
fn encoding_for_label(label: &str) -> (r: Option<&'static encoding_rs::Encoding>)
    ensures
        r is Some <==> label_known(label@),
{
    encoding_rs::Encoding::for_label(label.as_bytes())
}

/// A character encoding together with the label it was found by.  The only
/// way to build one is `TextEncoding::for_label`, so `enc` is always the
/// encoding that `label` names.
pub struct TextEncoding {
    label: String,
    enc: &'static encoding_rs::Encoding,
}

/// Relies on `encoding_rs::Encoding::decode`: the text and the error flag
/// depend on the encoding (here, its label) and the bytes alone.
#[verifier::external_body]
fn decode_with(e: &TextEncoding, bytes: &[u8]) -> (r: (String, bool))
    ensures
        (r.0@, r.1) == decoded(e.label@, bytes@),
{
    let (text, _, had_errors) = e.enc.decode(bytes);
    (text.into_owned(), had_errors)
}

impl TextEncoding {
    pub closed spec fn label_view(&self) -> Seq<char> {
        self.label@
    }

    /// The encoding named by `label`, if any.
    pub fn for_label(label: &str) -> (r: Option<TextEncoding>)
        ensures
            r is Some <==> label_known(label@),
            r matches Some(e) ==> e.label_view() == label@,
    {
        match encoding_for_label(label) {
            Some(enc) => Some(TextEncoding { label: String::from_str(label), enc }),
            None => None,
        }
    }

    /// Decodes `bytes`: the text, and whether malformed input was met.
    pub fn decode(&self, bytes: &[u8]) -> (r: (String, bool))
        ensures
            (r.0@, r.1) == decoded(self.label_view(), bytes@),
    {
        decode_with(self, bytes)
    }
}

/// Bytes that a header value may hand out as text: visible ASCII and tab.
pub open spec fn visible_ascii(b: Seq<u8>) -> bool {
    forall|i: int| 0 <= i < b.len() ==> (32 <= #[trigger] b[i] < 127) || b[i] == 9
}

/// `utf-8`
pub open spec fn utf8_label() -> Seq<char> {
    seq!['u', 't', 'f', '-', '8']
}

/// The label of the response's encoding: the charset of its `Content-Type`
/// when that header is text, parses and names one; `utf-8` otherwise.
pub open spec fn charset_label(content_type: Option<Seq<u8>>) -> Seq<char> {
    match content_type {
        Some(b) => if visible_ascii(b) {
            match mime_charset(b.map_values(|x: u8| x as char)) {
                Some(c) => c,
                None => utf8_label(),
            }
        } else {
            utf8_label()
        },
        None => utf8_label(),
    }
}

/// Whether every byte is visible ASCII or tab.
pub(crate) fn is_visible_ascii(b: &[u8]) -> (r: bool)
    ensures
        r == visible_ascii(b@),
{
    let mut i: usize = 0;
    while i < b.len()
        invariant
            i <= b@.len(),
            forall|j: int| 0 <= j < i ==> (32 <= #[trigger] b@[j] < 127) || b@[j] == 9,
        decreases b@.len() - i,
    {
        if !((32 <= b[i] && b[i] < 127) || b[i] == 9) {
            return false;
        }
        i = i + 1;
    }
    true
}

/// The label named by a `Content-Type` value (see `charset_label`).
pub fn resolve_label(content_type: Option<&[u8]>) -> (r: String)
    ensures
        r@ == charset_label(
            match content_type {
                Some(b) => Some(b@),
                None => None,
            },
        ),
{
    let fallback = String::from_str("utf-8");
    proof {
        reveal_strlit("utf-8");
    }
    match content_type {
        Some(b) => {
            if is_visible_ascii(b) {
                let text = ascii_string(b);
                match content_type_charset(text.as_str()) {
                    Some(c) => c,
                    None => fallback,
                }
            } else {
                fallback
            }
        },
        None => fallback,
    }
}

/// The response's encoding, from its `Content-Type` value: `None` when the
/// charset named there is unknown.
pub fn resolve(content_type: Option<&[u8]>) -> (r: Option<TextEncoding>)
    ensures
        ({
            let label = charset_label(
                match content_type {
                    Some(b) => Some(b@),
                    None => None,
                },
            );
            &&& r is Some <==> label_known(label)
            &&& r matches Some(e) ==> e.label_view() == label
        }),
{
    let label = resolve_label(content_type);
    TextEncoding::for_label(label.as_str())
}

} // verus!
