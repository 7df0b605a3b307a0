//! A table row and its fixed-size on-page encoding.
use vstd::prelude::*;
use vstd::utf8::*;
use crate::codec::{
    before_zero, i32_bits, i32_from_bits, le_u32_bytes, le_u32_value, read_text_field, read_u32_le,
    text_field, write_text_field, write_u32_le, no_nul, lemma_encode_utf8_no_zero,
    lemma_text_field_read_back, lemma_le_u32_roundtrip, lemma_i32_bits_roundtrip,
};
use crate::text::{padded, push_padded, push_signed_decimal, signed_decimal};

verus! {

pub const ID_SIZE: usize = 4;
pub const USERNAME_SIZE: usize = 32;
pub const EMAIL_SIZE: usize = 355;

pub const ID_OFFSET: usize = 0;
pub const USERNAME_OFFSET: usize = ID_OFFSET + ID_SIZE;
pub const EMAIL_OFFSET: usize = USERNAME_OFFSET + USERNAME_SIZE;
pub const ROW_SIZE: usize = ID_SIZE + USERNAME_SIZE + EMAIL_SIZE;

#[derive(Debug, Clone)]
pub struct Row {
    pub id: i32,
    pub username: String,
    pub email: String,
}

/// The `ROW_SIZE` bytes that encode a row: the id as four little-endian bytes
/// (two's complement), then the username and the email as zero-padded text
/// fields of `USERNAME_SIZE` and `EMAIL_SIZE` bytes, each cut to its width.
pub open spec fn row_bytes(id: i32, username: Seq<char>, email: Seq<char>) -> Seq<u8> {
    le_u32_bytes(i32_bits(id as int)) + text_field(encode_utf8(username), USERNAME_SIZE as nat)
        + text_field(encode_utf8(email), EMAIL_SIZE as nat)
}

/// The id stored in an encoded row.
pub open spec fn stored_id(src: Seq<u8>) -> i32 {
    i32_from_bits(le_u32_value(src, ID_OFFSET as int)) as i32
}

/// The username bytes stored in an encoded row (up to the first zero byte).
pub open spec fn stored_username(src: Seq<u8>) -> Seq<u8> {
    before_zero(src.subrange(USERNAME_OFFSET as int, EMAIL_OFFSET as int))
}

/// The email bytes stored in an encoded row (up to the first zero byte).
pub open spec fn stored_email(src: Seq<u8>) -> Seq<u8> {
    before_zero(src.subrange(EMAIL_OFFSET as int, ROW_SIZE as int))
}

/// An encoded row can be read back: it is long enough and both text fields
/// hold valid UTF-8.
pub open spec fn row_decodable(src: Seq<u8>) -> bool {
    &&& src.len() >= ROW_SIZE
    &&& valid_utf8(stored_username(src))
    &&& valid_utf8(stored_email(src))
}

/// Calls `String::from_utf8`. Its documentation: it returns the string when
/// the bytes are valid UTF-8 and an error otherwise; the string then holds the
/// characters the bytes encode.
#[verifier::external_body]
fn string_from_utf8(bytes: Vec<u8>) -> (s: Option<String>)
    ensures
        s is Some <==> valid_utf8(bytes@),
        s matches Some(t) ==> t@ == decode_utf8(bytes@),
{
    String::from_utf8(bytes).ok()
}

impl Row {
    /// The bytes `serialize` writes for this row.
    pub open spec fn encoding(&self) -> Seq<u8> {
        row_bytes(self.id, self.username@, self.email@)
    }

    pub fn new() -> (r: Self)
        ensures
            r.id == 0,
            r.username@ == Seq::<char>::empty(),
            r.email@ == Seq::<char>::empty(),
    {
        Self { id: 0, username: String::new(), email: String::new() }
    }

    /// Writes the row's encoding over the first `ROW_SIZE` bytes of
    /// `destination`; the bytes after them are left as they were.
    pub fn serialize(&self, destination: &mut [u8])
        requires
            old(destination)@.len() >= ROW_SIZE,
        ensures
            final(destination)@ == self.encoding() + old(destination)@.subrange(
                ROW_SIZE as int,
                old(destination)@.len() as int,
            ),
    {
        let bits: u32 = if self.id < 0 {
            (self.id as i64 + 4294967296i64) as u32
        } else {
            self.id as u32
        };
        let ghost d0 = destination@;
        write_u32_le(destination, ID_OFFSET, bits);
        let ghost d1 = destination@;
        write_text_field(destination, USERNAME_OFFSET, USERNAME_SIZE, self.username.as_str().as_bytes());
        let ghost d2 = destination@;
        write_text_field(destination, EMAIL_OFFSET, EMAIL_SIZE, self.email.as_str().as_bytes());
        assert(destination@ =~= self.encoding() + d0.subrange(ROW_SIZE as int, d0.len() as int));
    }

    /// Whether `source` holds an encoded row that reads back (see
    /// `row_decodable`).
    pub fn is_decodable(source: &[u8]) -> (b: bool)
        ensures
            b == row_decodable(source@),
    {
        if source.len() < ROW_SIZE {
            return false;
        }
        let username_bytes = read_text_field(source, USERNAME_OFFSET, USERNAME_SIZE);
        let email_bytes = read_text_field(source, EMAIL_OFFSET, EMAIL_SIZE);
        string_from_utf8(username_bytes).is_some() && string_from_utf8(email_bytes).is_some()
    }

    /// Reads a row back from the first `ROW_SIZE` bytes of `source`: the id, and
    /// each text field up to its first zero byte, decoded as UTF-8.
    pub fn ingest_deserialized(&mut self, source: &[u8])
        requires
            row_decodable(source@),
        ensures
            final(self).id == stored_id(source@),
            final(self).username@ == decode_utf8(stored_username(source@)),
            final(self).email@ == decode_utf8(stored_email(source@)),
    {
        let bits = read_u32_le(source, ID_OFFSET);
        let id: i32 = if bits >= 2147483648 {
            (bits as i64 - 4294967296i64) as i32
        } else {
            bits as i32
        };
        let username_bytes = read_text_field(source, USERNAME_OFFSET, USERNAME_SIZE);
        let username = string_from_utf8(username_bytes).unwrap();
        let email_bytes = read_text_field(source, EMAIL_OFFSET, EMAIL_SIZE);
        let email = string_from_utf8(email_bytes).unwrap();
        self.id = id;
        self.username = username;
        self.email = email;
    }
}

/// A row as a table line: `| id | username | email |`, each value padded
/// with spaces to 5, 32 and 355 characters.
pub open spec fn row_line(id: i32, username: Seq<char>, email: Seq<char>) -> Seq<char> {
    "| "@ + padded(signed_decimal(id as int), 5) + " | "@ + padded(username, USERNAME_SIZE as nat)
        + " | "@ + padded(email, EMAIL_SIZE as nat) + " |"@
}

impl Row {
    /// The row as a table line (see `row_line`).
    pub fn display_line(&self) -> (s: String)
        ensures
            s@ == row_line(self.id, self.username@, self.email@),
    {
        let mut id = String::new();
        push_signed_decimal(&mut id, self.id);
        let mut s = String::new();
        s.append("| ");
        push_padded(&mut s, id.as_str(), 5);
        s.append(" | ");
        push_padded(&mut s, self.username.as_str(), USERNAME_SIZE);
        s.append(" | ");
        push_padded(&mut s, self.email.as_str(), EMAIL_SIZE);
        s.append(" |");
        s
    }
}

/// Reading an encoded row back gives its id, and each text field as the UTF-8
/// encoding of the text cut to the field's width (for text without NUL
/// characters).
pub proof fn lemma_row_read_back(row: Row, rest: Seq<u8>)
    requires
        no_nul(row.username@),
        no_nul(row.email@),
    ensures
        ({
            let buf = row.encoding() + rest;
            let u = encode_utf8(row.username@);
            let e = encode_utf8(row.email@);
            &&& buf.len() >= ROW_SIZE
            &&& stored_id(buf) == row.id
            &&& stored_username(buf) == u.take(
                if u.len() < USERNAME_SIZE { u.len() as int } else { USERNAME_SIZE as int },
            )
            &&& stored_email(buf) == e.take(
                if e.len() < EMAIL_SIZE { e.len() as int } else { EMAIL_SIZE as int },
            )
        }),
{
    let buf = row.encoding() + rest;
    let u = encode_utf8(row.username@);
    let e = encode_utf8(row.email@);
    let idb = le_u32_bytes(i32_bits(row.id as int));
    let uf = text_field(u, USERNAME_SIZE as nat);
    let ef = text_field(e, EMAIL_SIZE as nat);
    lemma_i32_bits_roundtrip(row.id as int);
    lemma_le_u32_roundtrip(i32_bits(row.id as int));
    assert(buf.subrange(0, 4) =~= idb);
    assert(le_u32_value(buf, 0) == le_u32_value(idb, 0));
    assert(buf.subrange(USERNAME_OFFSET as int, EMAIL_OFFSET as int) =~= uf);
    assert(buf.subrange(EMAIL_OFFSET as int, ROW_SIZE as int) =~= ef);
    lemma_encode_utf8_no_zero(row.username@);
    lemma_encode_utf8_no_zero(row.email@);
    lemma_text_field_read_back(u, USERNAME_SIZE as nat);
    lemma_text_field_read_back(e, EMAIL_SIZE as nat);
}

/// A row whose text fits its fields (and holds no NUL characters) reads back
/// exactly as it was written.
pub proof fn lemma_row_roundtrip(row: Row, rest: Seq<u8>)
    requires
        no_nul(row.username@),
        no_nul(row.email@),
        encode_utf8(row.username@).len() <= USERNAME_SIZE,
        encode_utf8(row.email@).len() <= EMAIL_SIZE,
    ensures
        ({
            let buf = row.encoding() + rest;
            &&& row_decodable(buf)
            &&& stored_id(buf) == row.id
            &&& decode_utf8(stored_username(buf)) == row.username@
            &&& decode_utf8(stored_email(buf)) == row.email@
        }),
{
    broadcast use encode_utf8_valid_utf8, encode_utf8_decode_utf8;

    lemma_row_read_back(row, rest);
    let u = encode_utf8(row.username@);
    let e = encode_utf8(row.email@);
    assert(u.take(u.len() as int) =~= u);
    assert(e.take(e.len() as int) =~= e);
}

} // verus!
