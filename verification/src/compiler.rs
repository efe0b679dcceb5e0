//! Encoding a table into its binary record.

use crate::document::{
    all_text, as_text, document_entries, document_id, document_name, entries, field_texts,
    first_non_text, has_key, is_object, is_table_document, json_fields, json_text,
    lemma_member_of, member,
};
use crate::record::{
    all_fit, be_bytes, be_value, body_bytes, entries_bytes, field_bytes, fits,
    decode, encodable, entry_map, lemma_be_bytes_len, lemma_be_value_of_bytes,
    lemma_entries_bytes_push, lemma_radix_values, record_bytes, round_trip, signature, Table,
    HEADER_LEN,
};
use json::JsonValue;
use vstd::prelude::*;

verus! {

/// Why a table could not be encoded or decoded.
#[derive(Debug, Clone, PartialEq, Eq)]
pub enum ParseError {
    /// The source document is not an object with the texts `lang_name` and
    /// `lang_id` and the object `data`.
    InvalidFormat,
    /// No record signature in the bytes.
    SignatureNotFound,
    /// The bytes end before the record's header, language name or language
    /// id does, or before the length that the record declares.
    Truncated,
    /// The record's entries do not divide into whole key and value pairs.
    MalformedEntries,
    /// The entry with this key holds something other than a text.
    NonStringValue(String),
    /// A text is longer than a four-byte length can say.
    LengthOverflow,
}

impl ParseError {
    /// The error in words.
    pub open spec fn text(&self) -> Seq<char> {
        match self {
            ParseError::InvalidFormat =>
                "Invalid format: the document must be an object with the texts `lang_name` and `lang_id` and the object `data`."@,
            ParseError::SignatureNotFound => "Cannot find a header in the given byte chunk."@,
            ParseError::Truncated => "The bytes end before the record does."@,
            ParseError::MalformedEntries =>
                "The entries of the record are not whole pairs of key and value."@,
            ParseError::NonStringValue(key) => "The value of key `"@ + key@
                + "` isn't a string."@,
            ParseError::LengthOverflow => "A text is too long for its length field."@,
        }
    }

    /// The error in words, for a reader.
    pub fn message(&self) -> (r: String)
        ensures
            r@ == self.text(),
    {
        match self {
            ParseError::InvalidFormat => String::from_str(
                "Invalid format: the document must be an object with the texts `lang_name` and `lang_id` and the object `data`.",
            ),
            ParseError::SignatureNotFound => String::from_str(
                "Cannot find a header in the given byte chunk.",
            ),
            ParseError::Truncated => String::from_str("The bytes end before the record does."),
            ParseError::MalformedEntries => String::from_str(
                "The entries of the record are not whole pairs of key and value.",
            ),
            ParseError::NonStringValue(key) => {
                let mut r = String::from_str("The value of key `");
                r.append(key.as_str());
                r.append("` isn't a string.");
                r
            },
            ParseError::LengthOverflow => String::from_str(
                "A text is too long for its length field.",
            ),
        }
    }
}

/// The four bytes of `v`, most significant first.
pub fn break_down(v: u32) -> (r: (u8, u8, u8, u8))
    ensures
        seq![r.0, r.1, r.2, r.3] == be_bytes(v as nat, 4),
{
    let r = (
        (v >> 24) as u8,
        ((v & 0x00FF0000) >> 16) as u8,
        ((v & 0x0000FF00) >> 8) as u8,
        (v & 0x000000FF) as u8,
    );
    proof {
        assert(v >> 24 == v / 0x1000000 && v >> 24 < 256) by (bit_vector);
        assert((v & 0x00FF0000) >> 16 == (v / 0x10000) % 256) by (bit_vector);
        assert((v & 0x0000FF00) >> 8 == (v / 0x100) % 256) by (bit_vector);
        assert(v & 0x000000FF == v % 256) by (bit_vector);
        reveal_with_fuel(be_bytes, 5);
        assert(seq![r.0, r.1, r.2, r.3] =~= be_bytes(v as nat, 4));
    }
    r
}

/// Appends `text` to `dist` as a field: its length in bytes, then its bytes.
/// A text too long for the length field is refused and `dist` stays as it
/// was.
pub fn put_str(dist: &mut Vec<u8>, text: &str) -> (r: Result<(), ParseError>)
    ensures
        match r {
            Ok(_) => fits(text@) && final(dist)@ == old(dist)@ + field_bytes(text@),
            Err(e) => e == ParseError::LengthOverflow && !fits(text@) && final(dist)@ == old(
                dist,
            )@,
        },
{
    let bytes = text.as_bytes();
    if bytes.len() > 0xFFFF_FFFF {
        return Err(ParseError::LengthOverflow);
    }
    let length = break_down(bytes.len() as u32);
    dist.push(length.0);
    dist.push(length.1);
    dist.push(length.2);
    dist.push(length.3);
    dist.extend_from_slice(bytes);
    proof {
        assert(final(dist)@ =~= old(dist)@ + (seq![length.0, length.1, length.2, length.3]
            + bytes@));
    }
    Ok(())
}

/// The texts of stored entries.
pub open spec fn pair_texts(entries: Seq<(String, String)>) -> Seq<(Seq<char>, Seq<char>)> {
    Seq::new(entries.len(), |i: int| (entries[i].0@, entries[i].1@))
}

/// What holds of the bytes that a table was encoded into: they are the
/// table's record, their length field holds their length, and decoding them
/// gives the table back.
pub open spec fn encoded(
    lang_name: Seq<char>,
    lang_id: Seq<char>,
    pairs: Seq<(Seq<char>, Seq<char>)>,
    bytes: Seq<u8>,
) -> bool {
    &&& all_fit(lang_name, lang_id, pairs)
    &&& bytes == record_bytes(lang_name, lang_id, pairs)
    &&& be_value(bytes.subrange(3, HEADER_LEN as int)) == bytes.len()
    &&& decode(bytes) == Ok::<Table, ParseError>(
        Table { lang_id, lang_name, entries: entry_map(pairs) },
    )
}

/// Writes the length of `buf` into its header, bytes 3 to 10.
fn patch_total(buf: &mut Vec<u8>)
    requires
        old(buf)@.len() >= HEADER_LEN,
    ensures
        final(buf)@ == old(buf)@.take(3) + be_bytes(old(buf)@.len(), 8) + old(buf)@.skip(
            HEADER_LEN as int,
        ),
{
    let total: u64 = buf.len() as u64;
    let mut rest: u64 = total;
    let mut at: usize = HEADER_LEN;
    while at > 3
        invariant
            3 <= at <= HEADER_LEN,
            buf@.len() == old(buf)@.len(),
            buf@.len() >= HEADER_LEN,
            buf@.take(3) == old(buf)@.take(3),
            buf@.skip(HEADER_LEN as int) == old(buf)@.skip(HEADER_LEN as int),
            be_bytes(total as nat, 8) == be_bytes(rest as nat, (at - 3) as nat) + buf@.subrange(
                at as int,
                HEADER_LEN as int,
            ),
        decreases at,
    {
        let ghost before = buf@;
        at -= 1;
        buf[at] = (rest % 256) as u8;
        proof {
            assert(buf@.take(3) =~= before.take(3));
            assert(buf@.skip(HEADER_LEN as int) =~= before.skip(HEADER_LEN as int));
            assert(buf@.subrange(at as int, HEADER_LEN as int) =~= seq![(rest % 256) as u8]
                + before.subrange(at + 1, HEADER_LEN as int));
            assert(be_bytes(rest as nat, (at - 2) as nat) == be_bytes(
                (rest / 256) as nat,
                (at - 3) as nat,
            ).push((rest % 256) as u8));
            assert(be_bytes(total as nat, 8) =~= be_bytes((rest / 256) as nat, (at - 3) as nat)
                + buf@.subrange(at as int, HEADER_LEN as int));
        }
        rest = rest / 256;
    }
    proof {
        assert(be_bytes(total as nat, 8) =~= buf@.subrange(3, HEADER_LEN as int));
        assert(buf@ =~= buf@.take(3) + buf@.subrange(3, HEADER_LEN as int) + buf@.skip(
            HEADER_LEN as int,
        ));
    }
}

/// Encodes a table with the given language name, language id and entries
/// into its record. The entries stand in the record in the order given.
///
/// Fails with `LengthOverflow`, and only then, if one of the texts takes
/// more bytes than the four-byte length field can say. The record's length
/// field holds the record's length.
pub fn encode(lang_name: &str, lang_id: &str, entries: &Vec<(String, String)>) -> (r: Result<
    Vec<u8>,
    ParseError,
>)
    ensures
        match r {
            Ok(bytes) => encoded(lang_name@, lang_id@, pair_texts(entries@), bytes@),
            Err(e) => e == ParseError::LengthOverflow && !all_fit(
                lang_name@,
                lang_id@,
                pair_texts(entries@),
            ),
        },
{
    let ghost pairs = pair_texts(entries@);
    let ghost zeros = Seq::new(8, |i: int| 0u8);
    let mut result: Vec<u8> = Vec::new();
    result.push(0xFF);
    result.push(0x27);
    result.push(0xFF);
    // Eight bytes are kept free for the total length.
    result.push(0x00);
    result.push(0x00);
    result.push(0x00);
    result.push(0x00);
    result.push(0x00);
    result.push(0x00);
    result.push(0x00);
    result.push(0x00);
    proof {
        assert(result@ =~= signature() + zeros);
    }
    match put_str(&mut result, lang_name) {
        Ok(_) => {},
        Err(e) => {
            return Err(e);
        },
    }
    match put_str(&mut result, lang_id) {
        Ok(_) => {},
        Err(e) => {
            return Err(e);
        },
    }
    let mut i: usize = 0;
    while i < entries.len()
        invariant
            i <= entries@.len(),
            pairs == pair_texts(entries@),
            fits(lang_name@),
            fits(lang_id@),
            forall|j: int| 0 <= j < i ==> fits((#[trigger] pairs[j]).0) && fits(pairs[j].1),
            result@ == signature() + zeros + field_bytes(lang_name@) + field_bytes(lang_id@)
                + entries_bytes(pairs.take(i as int)),
        decreases entries@.len() - i,
    {
        proof {
            assert(pairs[i as int] == (entries@[i as int].0@, entries@[i as int].1@));
        }
        match put_str(&mut result, entries[i].0.as_str()) {
            Ok(_) => {},
            Err(e) => {
                proof {
                    assert(!fits(pairs[i as int].0));
                }
                return Err(e);
            },
        }
        match put_str(&mut result, entries[i].1.as_str()) {
            Ok(_) => {},
            Err(e) => {
                proof {
                    assert(fits(pairs[i as int].0) && !fits(pairs[i as int].1));
                }
                return Err(e);
            },
        }
        proof {
            assert(fits(pairs[i as int].0));
            assert(fits(pairs[i as int].1));
            lemma_entries_bytes_push(pairs.take(i as int), pairs[i as int]);
            assert(pairs.take(i + 1) =~= pairs.take(i as int).push(pairs[i as int]));
            assert(result@ =~= signature() + zeros + field_bytes(lang_name@) + field_bytes(
                lang_id@,
            ) + entries_bytes(pairs.take(i + 1)));
        }
        i += 1;
    }
    let ghost body = body_bytes(lang_name@, lang_id@, pairs);
    proof {
        assert(pairs.take(i as int) =~= pairs);
        assert(result@ =~= signature() + zeros + body);
        assert(result@.take(3) =~= signature());
        assert(result@.skip(HEADER_LEN as int) =~= body);
        assert(result@.len() == HEADER_LEN + body.len());
    }
    proof {
        assert(result@.len() == result.len());
    }
    patch_total(&mut result);
    proof {
        let n = (HEADER_LEN + body.len()) as nat;
        lemma_radix_values();
        lemma_be_bytes_len(n, 8);
        lemma_be_value_of_bytes(n, 8);
        assert(result@.subrange(3, HEADER_LEN as int) =~= be_bytes(n, 8));
        assert(encodable(lang_name@, lang_id@, pairs));
        round_trip(lang_name@, lang_id@, pairs);
    }
    Ok(result)
}

/// How compiling a document ends.
///
/// It succeeds exactly if the document has the shape of a table, every
/// value in its `data` is a text, and every text fits its length field; the
/// bytes are then the record of the table that the document describes, the
/// entries in the document's order. A document of another shape is an
/// `InvalidFormat`; otherwise the first value that is not a text is a
/// `NonStringValue` with its key; otherwise it is a `LengthOverflow`.
pub open spec fn compiled(obj: JsonValue, r: Result<Vec<u8>, ParseError>) -> bool {
    match r {
        Ok(bytes) => {
            &&& is_table_document(obj)
            &&& all_text(document_entries(obj))
            &&& encoded(
                document_name(obj),
                document_id(obj),
                field_texts(document_entries(obj)),
                bytes@,
            )
        },
        Err(ParseError::InvalidFormat) => !is_table_document(obj),
        Err(ParseError::NonStringValue(key)) => {
            &&& is_table_document(obj)
            &&& exists|i: int| #[trigger]
                first_non_text(document_entries(obj), i) && key@ == document_entries(obj)[i].0
        },
        Err(ParseError::LengthOverflow) => {
            &&& is_table_document(obj)
            &&& all_text(document_entries(obj))
            &&& !all_fit(document_name(obj), document_id(obj), field_texts(document_entries(obj)))
        },
        Err(_) => false,
    }
}

/// The document that a table gives compiles as the table encodes: where a
/// document has the shape of a table and texts for all its values,
/// compiling it ends as encoding that name, id and entries does.
pub proof fn table_document_compiles(obj: JsonValue, r: Result<Vec<u8>, ParseError>)
    requires
        is_table_document(obj),
        all_text(document_entries(obj)),
        compiled(obj, r),
    ensures
        match r {
            Ok(bytes) => encoded(
                document_name(obj),
                document_id(obj),
                field_texts(document_entries(obj)),
                bytes@,
            ),
            Err(e) => e == ParseError::LengthOverflow && !all_fit(
                document_name(obj),
                document_id(obj),
                field_texts(document_entries(obj)),
            ),
        },
{
}

/// Reads the members of a document's `data` as entries. Fails at the first
/// value that is not a text.
fn read_entries(data: &JsonValue) -> (r: Result<Vec<(String, String)>, ParseError>)
    ensures
        match r {
            Ok(pairs) => all_text(json_fields(*data)) && pair_texts(pairs@) == field_texts(
                json_fields(*data),
            ),
            Err(ParseError::NonStringValue(key)) => exists|i: int| #[trigger]
                first_non_text(json_fields(*data), i) && key@ == json_fields(*data)[i].0,
            Err(_) => false,
        },
{
    let ghost fields = json_fields(*data);
    let items = entries(data);
    let mut pairs: Vec<(String, String)> = Vec::new();
    let mut i: usize = 0;
    while i < items.len()
        invariant
            i <= items@.len(),
            fields == json_fields(*data),
            items@.len() == fields.len(),
            forall|j: int|
                0 <= j < items@.len() ==> (#[trigger] items@[j]).0@ == fields[j].0 && *items@[j].1
                    == fields[j].1,
            forall|j: int| 0 <= j < i ==> json_text(#[trigger] fields[j].1) is Some,
            pairs@.len() == i,
            pair_texts(pairs@) == field_texts(fields).take(i as int),
        decreases items@.len() - i,
    {
        let (key, value) = items[i];
        let ghost before = pairs@;
        proof {
            assert(items@[i as int].0@ == fields[i as int].0);
        }
        match as_text(value) {
            Some(text) => {
                pairs.push((key.to_string(), text.to_string()));
            },
            None => {
                proof {
                    assert(first_non_text(fields, i as int));
                }
                return Err(ParseError::NonStringValue(key.to_string()));
            },
        }
        proof {
            assert forall|j: int| 0 <= j < i implies pair_texts(pairs@)[j] == field_texts(
                fields,
            )[j] by {
                assert(pairs@[j] == before[j]);
                assert(pair_texts(before)[j] == field_texts(fields).take(i as int)[j]);
            }
            assert(pair_texts(pairs@) =~= field_texts(fields).take(i + 1));
        }
        i += 1;
    }
    proof {
        assert(field_texts(fields).take(i as int) =~= field_texts(fields));
    }
    Ok(pairs)
}

/// Compiles a source document into the bytes of its record.
///
/// The document is an object with the texts `lang_name` and `lang_id` and
/// the object `data`, whose members are the entries.
pub fn compile(obj: &JsonValue) -> (r: Result<Vec<u8>, ParseError>)
    ensures
        compiled(*obj, r),
{
    if !is_object(obj) {
        return Err(ParseError::InvalidFormat);
    }
    if !(has_key(obj, "lang_name") && has_key(obj, "lang_id")) {
        return Err(ParseError::InvalidFormat);
    }
    let name_value = member(obj, "lang_name");
    let id_value = member(obj, "lang_id");
    proof {
        lemma_member_of(*obj, "lang_name"@, *name_value);
        lemma_member_of(*obj, "lang_id"@, *id_value);
    }
    let lang_name = match as_text(name_value) {
        Some(text) => text,
        None => {
            return Err(ParseError::InvalidFormat);
        },
    };
    let lang_id = match as_text(id_value) {
        Some(text) => text,
        None => {
            return Err(ParseError::InvalidFormat);
        },
    };
    if !has_key(obj, "data") {
        return Err(ParseError::InvalidFormat);
    }
    let data = member(obj, "data");
    proof {
        lemma_member_of(*obj, "data"@, *data);
    }
    if !is_object(data) {
        return Err(ParseError::InvalidFormat);
    }
    proof {
        assert(is_table_document(*obj));
        assert(document_entries(*obj) == json_fields(*data));
    }
    let pairs = match read_entries(data) {
        Ok(pairs) => pairs,
        Err(e) => {
            return Err(e);
        },
    };
    encode(lang_name, lang_id, &pairs)
}

} // verus!
