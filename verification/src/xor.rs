//! XOR addresses: their hexadecimal text form, parsing, and the cache state of
//! content named by one.
use vstd::prelude::*;
use vstd::utf8::*;
use xor_name::XorName;
use crate::archive::{Archive, DataState};
use crate::text::{lemma_without_absent_char, lemma_without_char_concat, remove_char, without_char};

verus! {

#[verifier::external_type_specification]
#[verifier::external_body]
pub struct ExXorName(XorName);

#[verifier::external_type_specification]
#[verifier::external_body]
pub struct ExFromHexError(hex::FromHexError);

/// The bytes that a `XorName` holds (its one field, 32 bytes).
pub uninterp spec fn xor_name_bytes(name: XorName) -> Seq<u8>;

/// Number of bytes in a XOR name.
pub const XOR_NAME_LEN: usize = 32;

/// The lower-case hexadecimal digit for a value in `0..16`.
pub open spec fn hex_digit(n: int) -> char {
    if n < 10 {
        (n + 48) as char
    } else {
        (n + 87) as char
    }
}

/// Two lower-case hexadecimal digits per byte, high nibble first.
pub open spec fn lower_hex(bytes: Seq<u8>) -> Seq<char> {
    Seq::new(
        2 * bytes.len(),
        |i: int|
            if i % 2 == 0 {
                hex_digit(bytes[i / 2] as int / 16)
            } else {
                hex_digit(bytes[i / 2] as int % 16)
            },
    )
}

/// A byte that is an ASCII hexadecimal digit, in either case.
pub open spec fn is_hex_byte(b: u8) -> bool {
    (48 <= b <= 57) || (65 <= b <= 70) || (97 <= b <= 102)
}

/// The value of an ASCII hexadecimal digit.
pub open spec fn hex_byte_value(b: u8) -> int {
    if b <= 57 {
        b - 48
    } else if b <= 70 {
        b - 55
    } else {
        b - 87
    }
}

/// An even number of bytes, each a hexadecimal digit.
pub open spec fn is_hex_text(bytes: Seq<u8>) -> bool {
    &&& bytes.len() % 2 == 0
    &&& forall|i: int| 0 <= i < bytes.len() ==> is_hex_byte(#[trigger] bytes[i])
}

/// The bytes that a hexadecimal text stands for, two digits per byte.
pub open spec fn hex_decoded(bytes: Seq<u8>) -> Seq<u8> {
    Seq::new(
        bytes.len() / 2,
        |i: int| (hex_byte_value(bytes[2 * i]) * 16 + hex_byte_value(bytes[2 * i + 1])) as u8,
    )
}

/// A character that is an ASCII hexadecimal digit, in either case.
pub open spec fn is_hex_char(c: char) -> bool {
    ('0' <= c <= '9') || ('A' <= c <= 'F') || ('a' <= c <= 'f')
}

/// The text form of a XOR address: exactly 64 hexadecimal digits.
pub open spec fn is_xor_text(s: Seq<char>) -> bool {
    &&& s.len() == 2 * XOR_NAME_LEN
    &&& forall|i: int| 0 <= i < s.len() ==> is_hex_char(#[trigger] s[i])
}

/// Decodes hexadecimal text with `hex::decode`. Trusted, as its source shows:
/// the text's bytes decode when there is an even number of them and each is a
/// hexadecimal digit in either case, into one byte per two digits, high nibble
/// first; otherwise the call fails.
#[verifier::external_body]
fn hex_decode(text: &str) -> (r: Result<Vec<u8>, hex::FromHexError>)
    ensures
        r is Ok <==> is_hex_text(encode_utf8(text@)),
        r matches Ok(v) ==> v@ == hex_decoded(encode_utf8(text@)),
{
    hex::decode(text)
}

/// Builds a `XorName` from its 32 bytes (the tuple constructor). Trusted to
/// hold exactly the bytes it was given.
#[verifier::external_body]
fn xor_name_from_bytes(bytes: &[u8]) -> (r: XorName)
    requires
        bytes@.len() == XOR_NAME_LEN,
    ensures
        xor_name_bytes(r) == bytes@,
{
    XorName(<[u8; 32]>::try_from(bytes).unwrap())
}

/// The all-zero name, `XorName::default()`. Trusted to hold 32 zero bytes,
/// as the derived `Default` of a `[u8; 32]` gives.
#[verifier::external_body]
pub(crate) fn xor_name_zero() -> (r: XorName)
    ensures
        xor_name_bytes(r) == Seq::new(XOR_NAME_LEN as nat, |i: int| 0u8),
{
    XorName::default()
}

/// The lower-case hexadecimal form of a name, `format!("{:x}", name)`.
/// Trusted, as `XorName`'s `LowerHex` shows: without a width, every byte is
/// written as two lower-case digits, for all 32 bytes of the name.
#[verifier::external_body]
pub(crate) fn xor_name_hex(name: &XorName) -> (r: String)
    ensures
        r@ == lower_hex(xor_name_bytes(*name)),
        r@.len() == 2 * XOR_NAME_LEN,
{
    format!("{:x}", name)
}

} // verus!

verus! {

/// An even number of characters, each a hexadecimal digit.
pub open spec fn is_hex_chars(s: Seq<char>) -> bool {
    &&& s.len() % 2 == 0
    &&& forall|i: int| 0 <= i < s.len() ==> is_hex_char(#[trigger] s[i])
}

/// The value of a hexadecimal digit character.
pub open spec fn hex_char_value(c: char) -> int {
    if c <= '9' {
        c as int - 48
    } else if c <= 'F' {
        c as int - 55
    } else {
        c as int - 87
    }
}

/// The bytes that hexadecimal text stands for, two digits per byte.
pub open spec fn hex_chars_decoded(s: Seq<char>) -> Seq<u8> {
    Seq::new(
        s.len() / 2,
        |i: int| (hex_char_value(s[2 * i]) * 16 + hex_char_value(s[2 * i + 1])) as u8,
    )
}

/// Hexadecimal digits are ASCII, so their UTF-8 encoding is one byte per digit.
proof fn lemma_hex_chars_encode(s: Seq<char>)
    requires
        forall|i: int| 0 <= i < s.len() ==> is_hex_char(#[trigger] s[i]),
    ensures
        encode_utf8(s).len() == s.len(),
        forall|i: int| 0 <= i < s.len() ==> #[trigger] encode_utf8(s)[i] == s[i] as u8,
        is_hex_text(encode_utf8(s)) == (s.len() % 2 == 0),
        s.len() % 2 == 0 ==> hex_decoded(encode_utf8(s)) == hex_chars_decoded(s),
{
    assert(is_ascii_chars(s));
    is_ascii_chars_encode_utf8(s);
    let bytes = encode_utf8(s);
    assert forall|i: int| 0 <= i < s.len() implies is_hex_byte(#[trigger] bytes[i]) by {
        assert(bytes[i] == s[i] as u8);
    }
    if s.len() % 2 == 0 {
        assert forall|i: int| 0 <= i < s.len() implies hex_byte_value(#[trigger] bytes[i])
            == hex_char_value(s[i]) by {
            assert(bytes[i] == s[i] as u8);
        }
        let d1 = hex_decoded(bytes);
        let d2 = hex_chars_decoded(s);
        assert forall|i: int| 0 <= i < d1.len() implies d1[i] == d2[i] by {
            assert(hex_byte_value(bytes[2 * i]) == hex_char_value(s[2 * i]));
            assert(hex_byte_value(bytes[2 * i + 1]) == hex_char_value(s[2 * i + 1]));
        }
        assert(d1 =~= d2);
    }
}

/// A character's code is the same whether read as `u32` or as an integer.
proof fn lemma_char_as_u32(x: char)
    ensures
        (x as u32) as int == x as int,
{
}

/// A UTF-8 encoding made only of hexadecimal digit bytes comes from hexadecimal
/// digit characters: every other character encodes to a byte that is no digit.
proof fn lemma_hex_bytes_from_hex_chars(s: Seq<char>)
    requires
        forall|i: int| 0 <= i < encode_utf8(s).len() ==> is_hex_byte(#[trigger] encode_utf8(s)[i]),
    ensures
        forall|i: int| 0 <= i < s.len() ==> is_hex_char(#[trigger] s[i]),
    decreases s.len(),
{
    if s.len() > 0 {
        char_is_scalar(s[0]);
        let c = s[0] as u32;
        let bytes = encode_utf8(s);
        let head = encode_scalar(c);
        let rest = encode_utf8(s.drop_first());
        assert(bytes == head + rest);
        assert(head.len() >= 1);
        assert(is_hex_byte(bytes[0]));
        assert(bytes[0] == head[0]);
        assert forall|i: int| 0 <= i < rest.len() implies is_hex_byte(#[trigger] rest[i]) by {
            assert(rest[i] == bytes[head.len() + i]);
        }
        lemma_hex_bytes_from_hex_chars(s.drop_first());
        if has_width_1_encoding(c) {
            assert(head[0] == leading_byte_width_1(c));
            assert((c & 0x7F) as u8 == c) by (bit_vector)
                requires
                    c <= 0x7F,
            ;
            lemma_char_as_u32(s[0]);
            assert(head[0] as int == s[0] as int);
            assert(is_hex_char(s[0]));
        } else if has_width_2_encoding(c) {
            let b = leading_byte_width_2(c);
            assert(b >= 0xC0) by (bit_vector)
                requires
                    b == 0xC0u8 | ((c >> 6) & 0x1F) as u8,
            ;
        } else if has_width_3_encoding(c) {
            let b = leading_byte_width_3(c);
            assert(b >= 0xE0) by (bit_vector)
                requires
                    b == 0xE0u8 | ((c >> 12) & 0x0F) as u8,
            ;
        } else {
            char_is_scalar(s[0]);
            let b = leading_byte_width_4(c);
            assert(b >= 0xF0) by (bit_vector)
                requires
                    b == 0xF0u8 | ((c >> 18) & 0x7) as u8,
            ;
        }
        assert forall|i: int| 0 <= i < s.len() implies is_hex_char(#[trigger] s[i]) by {
            if i > 0 {
                assert(s[i] == s.drop_first()[i - 1]);
            }
        }
    }
}

/// Why a text is not a XOR address.
#[derive(Clone, Copy, Debug, PartialEq, Eq, Structural)]
pub enum XorNameError {
    /// The text is not an even number of hexadecimal digits.
    NotHex,
    /// The text is hexadecimal but does not stand for exactly 32 bytes.
    WrongLength,
}

/// Helper for XOR addresses: converts between their text and `XorName`, and
/// decides whether a client's cached copy is still current.
#[derive(Clone, Copy, Debug)]
pub struct XorHelper {}

impl XorHelper {
    /// Creates a new XorHelper instance.
    pub fn new() -> (r: XorHelper)
        ensures
            r == (XorHelper {}),
    {
        XorHelper {}
    }

    /// True when the text is exactly 64 bytes long.
    pub fn is_xor_len(&self, chunk_address: &String) -> (r: bool)
        ensures
            r == (encode_utf8(chunk_address@).len() as usize == 2 * XOR_NAME_LEN),
    {
        chunk_address.as_str().len() == 64
    }

    /// Converts hexadecimal text to a `XorName`.
    pub fn str_to_xor_name(&self, text: &String) -> (r: Result<XorName, XorNameError>)
        ensures
            r is Ok <==> is_xor_text(text@),
            r matches Ok(name) ==> xor_name_bytes(name) == hex_chars_decoded(text@),
            r matches Err(e) ==> (e == XorNameError::NotHex <==> !is_hex_chars(text@)),
    {
        let decoded = hex_decode(text.as_str());
        proof {
            let bytes = encode_utf8(text@);
            if is_hex_text(bytes) {
                lemma_hex_bytes_from_hex_chars(text@);
            }
            if forall|i: int| 0 <= i < text@.len() ==> is_hex_char(#[trigger] text@[i]) {
                lemma_hex_chars_encode(text@);
            }
        }
        match decoded {
            Ok(bytes) => {
                if bytes.len() == XOR_NAME_LEN {
                    Ok(xor_name_from_bytes(bytes.as_slice()))
                } else {
                    Err(XorNameError::WrongLength)
                }
            },
            Err(_) => Err(XorNameError::NotHex),
        }
    }

    /// True when the text is a XOR address: 64 hexadecimal digits.
    pub fn is_xor(&self, chunk_address: &String) -> (r: bool)
        ensures
            r == is_xor_text(chunk_address@),
    {
        proof {
            if is_xor_text(chunk_address@) {
                lemma_hex_chars_encode(chunk_address@);
            }
        }
        self.is_xor_len(chunk_address) && self.str_to_xor_name(chunk_address).is_ok()
    }
}

} // verus!

verus! {

/// The ETag that names content: the lower-case hexadecimal form of its XOR name.
pub open spec fn e_tag(name: Seq<u8>) -> Seq<char> {
    lower_hex(name)
}

/// The cache state of content named `name`, given the `If-None-Match` header
/// value the client sent (`None` when it sent none that reads as text).
/// The content is unchanged exactly when the tag, with its quotes taken out,
/// is the name's ETag.
pub open spec fn data_state_for(if_none_match: Option<Seq<char>>, name: Seq<u8>) -> DataState {
    match if_none_match {
        Some(tag) => if without_char(tag, '"') == e_tag(name) {
            DataState::NotModified
        } else {
            DataState::Modified
        },
        None => DataState::Modified,
    }
}

/// The first two parts of a request path, `""` for each that is missing.
pub open spec fn first_two_parts(parts: Seq<Seq<char>>) -> (Seq<char>, Seq<char>) {
    (
        if parts.len() > 0 { parts[0] } else { Seq::empty() },
        if parts.len() > 1 { parts[1] } else { Seq::empty() },
    )
}

impl XorHelper {
    /// Determines whether the client's copy is current: `if_none_match` is the
    /// value of the `If-None-Match` header, `None` when it is absent or does
    /// not read as text.
    pub fn get_data_state(&self, if_none_match: Option<String>, xor_name: &XorName) -> (r: DataState)
        ensures
            r == data_state_for(if_none_match.deep_view(), xor_name_bytes(*xor_name)),
    {
        match if_none_match {
            Some(e_tag) => {
                let source_e_tag = remove_char(e_tag.as_str(), '"');
                let target_e_tag = xor_name_hex(xor_name);
                if source_e_tag != target_e_tag {
                    DataState::Modified
                } else {
                    DataState::NotModified
                }
            },
            None => DataState::Modified,
        }
    }

    /// Extracts the archive address and file name: the first two path parts.
    pub fn assign_path_parts(&self, path_parts: Vec<String>) -> (r: (String, String))
        ensures
            (r.0@, r.1@) == first_two_parts(path_parts.deep_view()),
    {
        if path_parts.len() > 1 {
            (path_parts[0].clone(), path_parts[1].clone())
        } else if path_parts.len() > 0 {
            (path_parts[0].clone(), String::new())
        } else {
            (String::new(), String::new())
        }
    }
}

/// Hexadecimal digits are never quote characters.
proof fn lemma_e_tag_has_no_quote(name: Seq<u8>)
    ensures
        forall|i: int| 0 <= i < e_tag(name).len() ==> e_tag(name)[i] != '"',
{
}

/// The ETag a client got back for some content, quoted or not, shows that
/// content as not modified; any other name shows it as modified.
pub proof fn law_own_e_tag_is_not_modified(name: Seq<u8>, other: Seq<u8>)
    ensures
        data_state_for(Some(e_tag(name)), name) == DataState::NotModified,
        data_state_for(Some(seq!['"'] + e_tag(name) + seq!['"']), name) == DataState::NotModified,
        other != name ==> data_state_for(Some(e_tag(other)), name) == DataState::Modified,
{
    let t = e_tag(name);
    lemma_e_tag_has_no_quote(name);
    lemma_without_absent_char(t, '"');
    lemma_without_char_concat(seq!['"'] + t, seq!['"'], '"');
    lemma_without_char_concat(seq!['"'], t, '"');
    assert(without_char(seq!['"'], '"') == without_char(Seq::<char>::empty(), '"')) by {
        assert(seq!['"'].drop_last() =~= Seq::<char>::empty());
    }
    assert(without_char(seq!['"'] + t + seq!['"'], '"') =~= t);
    lemma_e_tag_has_no_quote(other);
    lemma_without_absent_char(e_tag(other), '"');
    if lower_hex(other) == lower_hex(name) {
        lemma_lower_hex_injective(other, name);
    }
}

/// Distinct nibbles have distinct digits.
proof fn lemma_hex_digit_injective(x: int, y: int)
    requires
        0 <= x < 16,
        0 <= y < 16,
        hex_digit(x) == hex_digit(y),
    ensures
        x == y,
{
    assert(hex_digit(x) as int == if x < 10 { x + 48 } else { x + 87 });
    assert(hex_digit(y) as int == if y < 10 { y + 48 } else { y + 87 });
}

/// Different byte strings have different hexadecimal forms.
pub proof fn lemma_lower_hex_injective(a: Seq<u8>, b: Seq<u8>)
    requires
        lower_hex(a) == lower_hex(b),
    ensures
        a == b,
{
    assert(lower_hex(a).len() == 2 * a.len());
    assert(a.len() == b.len());
    assert forall|i: int| 0 <= i < a.len() implies a[i] == b[i] by {
        let (ah, al, bh, bl) = (a[i] as int / 16, a[i] as int % 16, b[i] as int / 16, b[i] as int % 16);
        assert((2 * i) / 2 == i && (2 * i) % 2 == 0 && (2 * i + 1) / 2 == i && (2 * i + 1) % 2 == 1);
        assert(lower_hex(a)[2 * i] == hex_digit(ah));
        assert(lower_hex(b)[2 * i] == hex_digit(bh));
        assert(lower_hex(a)[2 * i + 1] == hex_digit(al));
        assert(lower_hex(b)[2 * i + 1] == hex_digit(bl));
        lemma_hex_digit_injective(ah, bh);
        lemma_hex_digit_injective(al, bl);
        assert(a[i] as int == 16 * ah + al);
        assert(b[i] as int == 16 * bh + bl);
    }
    assert(a =~= b);
}

} // verus!

verus! {

/// The digit for a nibble reads back as that nibble.
proof fn lemma_hex_digit_value(n: int)
    requires
        0 <= n < 16,
    ensures
        is_hex_char(hex_digit(n)),
        hex_char_value(hex_digit(n)) == n,
{
    assert(hex_digit(n) as int == if n < 10 { n + 48 } else { n + 87 });
}

/// The hexadecimal form of any 32-byte name is a XOR address, and parsing it
/// gives back the same bytes.
pub proof fn law_hex_form_parses_back(name: Seq<u8>)
    requires
        name.len() == XOR_NAME_LEN,
    ensures
        is_xor_text(lower_hex(name)),
        hex_chars_decoded(lower_hex(name)) == name,
{
    let t = lower_hex(name);
    assert forall|i: int| 0 <= i < t.len() implies is_hex_char(#[trigger] t[i]) by {
        lemma_hex_digit_value(name[i / 2] as int / 16);
        lemma_hex_digit_value(name[i / 2] as int % 16);
    }
    let d = hex_chars_decoded(t);
    assert forall|i: int| 0 <= i < name.len() implies d[i] == name[i] by {
        assert((2 * i) / 2 == i && (2 * i) % 2 == 0 && (2 * i + 1) / 2 == i && (2 * i + 1) % 2 == 1);
        lemma_hex_digit_value(name[i] as int / 16);
        lemma_hex_digit_value(name[i] as int % 16);
        assert(t[2 * i] == hex_digit(name[i] as int / 16));
        assert(t[2 * i + 1] == hex_digit(name[i] as int % 16));
    }
    assert(d =~= name);
}

} // verus!

verus! {

/// What a request's first two path parts address: an archive to fetch, a
/// file stored directly under a XOR address, or nothing.
pub enum ArchiveOrFile {
    /// The first part is a XOR address, possibly of an archive.
    FetchArchive(XorName),
    /// The first part is no XOR address but the second is.
    File(XorName),
    /// Neither part is a XOR address.
    NotFound,
}

impl XorHelper {
    /// Decides what a request addresses: the archive address when it is a XOR
    /// address (to be fetched as an archive), else the file name when it is one.
    pub fn archive_or_file_target(&self, archive_addr: &String, archive_file_name: &String) -> (r: ArchiveOrFile)
        ensures
            is_xor_text(archive_addr@) ==> (r matches ArchiveOrFile::FetchArchive(x)
                && xor_name_bytes(x) == hex_chars_decoded(archive_addr@)),
            !is_xor_text(archive_addr@) && is_xor_text(archive_file_name@) ==> (r matches ArchiveOrFile::File(x)
                && xor_name_bytes(x) == hex_chars_decoded(archive_file_name@)),
            !is_xor_text(archive_addr@) && !is_xor_text(archive_file_name@) ==> r is NotFound,
    {
        if self.is_xor(archive_addr) {
            match self.str_to_xor_name(archive_addr) {
                Ok(name) => ArchiveOrFile::FetchArchive(name),
                Err(_) => ArchiveOrFile::NotFound,
            }
        } else if self.is_xor(archive_file_name) {
            match self.str_to_xor_name(archive_file_name) {
                Ok(name) => ArchiveOrFile::File(name),
                Err(_) => ArchiveOrFile::NotFound,
            }
        } else {
            ArchiveOrFile::NotFound
        }
    }

    /// Completes the resolution once the archive, if one was to be fetched,
    /// has been asked for (`fetched` is what came back). Gives whether a XOR
    /// address was found, the archive (empty unless one was fetched), whether
    /// the address is an archive's, and the address (all zero when none).
    pub fn resolve_archive_or_file(&self, target: ArchiveOrFile, fetched: Option<Archive>) -> (r: (bool, Archive, bool, XorName))
        ensures
            match target {
                ArchiveOrFile::FetchArchive(x) => match fetched {
                    Some(a) => r.0 && r.1 == a && r.2 && r.3 == x,
                    None => r.0 && r.1.entries@.len() == 0 && !r.2 && r.3 == x,
                },
                ArchiveOrFile::File(x) => r.0 && r.1.entries@.len() == 0 && !r.2 && r.3 == x,
                ArchiveOrFile::NotFound => !r.0 && r.1.entries@.len() == 0 && !r.2
                    && xor_name_bytes(r.3) == Seq::new(XOR_NAME_LEN as nat, |i: int| 0u8),
            },
    {
        match target {
            ArchiveOrFile::FetchArchive(name) => match fetched {
                Some(public_archive) => (true, public_archive, true, name),
                None => (true, Archive::new(), false, name),
            },
            ArchiveOrFile::File(name) => (true, Archive::new(), false, name),
            ArchiveOrFile::NotFound => (false, Archive::new(), false, xor_name_zero()),
        }
    }
}

/// Formatting a name and parsing the text back gives the name's bytes: the
/// text `xor_name_hex` gives for a name (its lower-case hex, 64 characters)
/// is a XOR address that decodes to exactly the bytes the name holds.
pub proof fn law_name_text_parses_back(name: XorName, text: Seq<char>)
    requires
        text == lower_hex(xor_name_bytes(name)),
        text.len() == 2 * XOR_NAME_LEN,
    ensures
        is_xor_text(text),
        hex_chars_decoded(text) == xor_name_bytes(name),
{
    law_hex_form_parses_back(xor_name_bytes(name));
}

} // verus!
