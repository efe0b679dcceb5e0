//! The byte layout of an encoded table, stated as mathematics.
//!
//! A record is a three-byte signature, the record's total length in eight
//! bytes, the language name, the language id, and then the entries, each of
//! them a key and a value. Every text is a four-byte length followed by that
//! many bytes of UTF-8. All integers are big-endian.

use crate::compiler::ParseError;
use vstd::prelude::*;
use vstd::utf8::{decode_utf8, encode_utf8, valid_utf8};

verus! {

/// Signature and total length take this many bytes.
pub const HEADER_LEN: usize = 11;

/// A table as the record format sees it.
pub struct Table {
    pub lang_id: Seq<char>,
    pub lang_name: Seq<char>,
    pub entries: Map<Seq<char>, Seq<char>>,
}

/// `256` to the power `width`: the number of values that `width` bytes hold.
pub open spec fn radix(width: nat) -> nat
    decreases width,
{
    if width == 0 {
        1
    } else {
        256 * radix((width - 1) as nat)
    }
}

/// The `width` low bytes of `n`, most significant first.
pub open spec fn be_bytes(n: nat, width: nat) -> Seq<u8>
    decreases width,
{
    if width == 0 {
        Seq::empty()
    } else {
        be_bytes(n / 256, (width - 1) as nat).push((n % 256) as u8)
    }
}

/// The number that `bytes` spell, most significant first.
pub open spec fn be_value(bytes: Seq<u8>) -> nat
    decreases bytes.len(),
{
    if bytes.len() == 0 {
        0
    } else {
        be_value(bytes.drop_last()) * 256 + bytes.last() as nat
    }
}

/// What four, seven and eight bytes can hold.
pub proof fn lemma_radix_values()
    ensures
        radix(4) == 0x1_0000_0000,
        radix(7) == 0x100_0000_0000_0000,
        radix(8) == 0x1_0000_0000_0000_0000,
{
    reveal_with_fuel(radix, 9);
}

/// More bytes hold more values.
pub proof fn lemma_radix_grows(a: nat, b: nat)
    requires
        a <= b,
    ensures
        radix(a) <= radix(b),
        0 < radix(a),
    decreases b,
{
    if a < b {
        lemma_radix_grows(a, (b - 1) as nat);
    } else if a > 0 {
        lemma_radix_grows((a - 1) as nat, (a - 1) as nat);
    }
}

/// A number written in `width` bytes takes `width` bytes.
pub proof fn lemma_be_bytes_len(n: nat, width: nat)
    ensures
        be_bytes(n, width).len() == width,
    decreases width,
{
    if width > 0 {
        lemma_be_bytes_len(n / 256, (width - 1) as nat);
    }
}

/// What bytes spell is less than what that many bytes can hold.
pub proof fn lemma_be_value_bound(bytes: Seq<u8>)
    ensures
        be_value(bytes) < radix(bytes.len()),
    decreases bytes.len(),
{
    if bytes.len() > 0 {
        lemma_be_value_bound(bytes.drop_last());
    }
}

/// Reading back what was written gives the number, if it fits the width.
pub proof fn lemma_be_value_of_bytes(n: nat, width: nat)
    requires
        n < radix(width),
    ensures
        be_value(be_bytes(n, width)) == n,
    decreases width,
{
    if width > 0 {
        let rest = be_bytes(n / 256, (width - 1) as nat);
        lemma_be_value_of_bytes(n / 256, (width - 1) as nat);
        assert(be_bytes(n, width).drop_last() == rest);
    }
}

/// The bytes that mark the start of a record.
pub open spec fn signature() -> Seq<u8> {
    seq![0xFFu8, 0x27u8, 0xFFu8]
}

/// Whether a signature starts at offset `i` of `bytes`.
pub open spec fn signature_at(bytes: Seq<u8>, i: int) -> bool {
    &&& 0 <= i
    &&& i + 3 <= bytes.len()
    &&& bytes[i] == 0xFF
    &&& bytes[i + 1] == 0x27
    &&& bytes[i + 2] == 0xFF
}

/// Whether the first signature in `bytes` starts at offset `i`.
pub open spec fn first_signature(bytes: Seq<u8>, i: int) -> bool {
    &&& signature_at(bytes, i)
    &&& forall|j: int| 0 <= j < i ==> !signature_at(bytes, j)
}

/// The offset of the first signature in `bytes`, if there is one.
pub open spec fn locate(bytes: Seq<u8>) -> Option<int> {
    if exists|i: int| first_signature(bytes, i) {
        Some(choose|i: int| first_signature(bytes, i))
    } else {
        None
    }
}

/// The first signature is the one that is located.
pub proof fn lemma_locate_found(bytes: Seq<u8>, i: int)
    requires
        first_signature(bytes, i),
    ensures
        locate(bytes) == Some(i),
{
    let k = choose|k: int| first_signature(bytes, k);
    if k < i {
        assert(!signature_at(bytes, k));
    } else if i < k {
        assert(!signature_at(bytes, i));
    }
}

/// Without a signature nothing is located.
pub proof fn lemma_locate_none(bytes: Seq<u8>)
    requires
        forall|j: int| 0 <= j ==> !signature_at(bytes, j),
    ensures
        locate(bytes) is None,
{
}

/// What `String::from_utf8_lossy` makes of bytes that are not valid UTF-8.
pub uninterp spec fn lossy_repair(bytes: Seq<u8>) -> Seq<char>;

/// The text that a run of bytes is read as: its decoding where it is valid
/// UTF-8, and a repaired text where it is not. Reading never fails.
pub open spec fn text_of(bytes: Seq<u8>) -> Seq<char> {
    if valid_utf8(bytes) {
        decode_utf8(bytes)
    } else {
        lossy_repair(bytes)
    }
}

/// Reads bytes as text with `String::from_utf8_lossy`. Valid UTF-8 comes
/// back as the text it encodes; of anything else only this is claimed, that
/// the same bytes always give the same text.
#[verifier::external_body]
pub(crate) fn lossy_text(bytes: &[u8]) -> (r: String)
    ensures
        r@ == (if valid_utf8(bytes@) {
            decode_utf8(bytes@)
        } else {
            lossy_repair(bytes@)
        }),
{
    String::from_utf8_lossy(bytes).into_owned()
}

/// A length-prefixed run of bytes.
pub open spec fn frame(data: Seq<u8>) -> Seq<u8> {
    be_bytes(data.len(), 4) + data
}

/// Whether a run of this length can be framed.
pub open spec fn fits(text: Seq<char>) -> bool {
    encode_utf8(text).len() <= 0xFFFF_FFFF
}

/// A text as it stands in a record.
pub open spec fn field_bytes(text: Seq<char>) -> Seq<u8> {
    frame(encode_utf8(text))
}

/// The entries as they stand in a record, one after the other.
pub open spec fn entries_bytes(pairs: Seq<(Seq<char>, Seq<char>)>) -> Seq<u8>
    decreases pairs.len(),
{
    if pairs.len() == 0 {
        Seq::empty()
    } else {
        field_bytes(pairs[0].0) + field_bytes(pairs[0].1) + entries_bytes(pairs.drop_first())
    }
}

/// All of a record that follows its header.
pub open spec fn body_bytes(
    lang_name: Seq<char>,
    lang_id: Seq<char>,
    pairs: Seq<(Seq<char>, Seq<char>)>,
) -> Seq<u8> {
    field_bytes(lang_name) + field_bytes(lang_id) + entries_bytes(pairs)
}

/// The record of a table with the given name, id and entries in this order.
pub open spec fn record_bytes(
    lang_name: Seq<char>,
    lang_id: Seq<char>,
    pairs: Seq<(Seq<char>, Seq<char>)>,
) -> Seq<u8> {
    let body = body_bytes(lang_name, lang_id, pairs);
    signature() + be_bytes(HEADER_LEN as nat + body.len(), 8) + body
}

/// Whether every text of the table can be framed.
pub open spec fn all_fit(
    lang_name: Seq<char>,
    lang_id: Seq<char>,
    pairs: Seq<(Seq<char>, Seq<char>)>,
) -> bool {
    &&& fits(lang_name)
    &&& fits(lang_id)
    &&& forall|i: int| 0 <= i < pairs.len() ==> fits((#[trigger] pairs[i]).0) && fits(pairs[i].1)
}

/// Whether the table has a record: every text can be framed, and the total
/// length can be written in eight bytes.
pub open spec fn encodable(
    lang_name: Seq<char>,
    lang_id: Seq<char>,
    pairs: Seq<(Seq<char>, Seq<char>)>,
) -> bool {
    &&& all_fit(lang_name, lang_id, pairs)
    &&& HEADER_LEN + body_bytes(lang_name, lang_id, pairs).len() < radix(8)
}

/// The field that starts at offset `at` of `content`: its payload, and the
/// offset behind it. `None` where the length or the payload would run past
/// the end.
pub open spec fn field_at(content: Seq<u8>, at: int) -> Option<(Seq<u8>, int)> {
    if 0 <= at && at + 4 <= content.len() {
        let n = be_value(content.subrange(at, at + 4));
        if at + 4 + n <= content.len() {
            Some((content.subrange(at + 4, at + 4 + n), at + 4 + n))
        } else {
            None
        }
    } else {
        None
    }
}

/// The key and value payloads from offset `at` to the end of `content`, in
/// order. `None` where what is there does not divide into whole pairs.
pub open spec fn entries_from(content: Seq<u8>, at: int) -> Option<Seq<(Seq<u8>, Seq<u8>)>>
    decreases content.len() - at,
{
    if at < 0 {
        None
    } else if at >= content.len() {
        Some(Seq::empty())
    } else {
        match field_at(content, at) {
            None => None,
            Some((key, behind_key)) => match field_at(content, behind_key) {
                None => None,
                Some((value, behind_value)) => match entries_from(content, behind_value) {
                    None => None,
                    Some(rest) => Some(seq![(key, value)] + rest),
                },
            },
        }
    }
}

/// Payloads read as texts.
pub open spec fn texts_of(raw: Seq<(Seq<u8>, Seq<u8>)>) -> Seq<(Seq<char>, Seq<char>)> {
    Seq::new(raw.len(), |i: int| (text_of(raw[i].0), text_of(raw[i].1)))
}

/// The mapping that results from inserting the pairs one after the other:
/// of two pairs with the same key the later one stays.
pub open spec fn entry_map(pairs: Seq<(Seq<char>, Seq<char>)>) -> Map<Seq<char>, Seq<char>>
    decreases pairs.len(),
{
    if pairs.len() == 0 {
        Map::empty()
    } else {
        entry_map(pairs.drop_last()).insert(pairs.last().0, pairs.last().1)
    }
}

/// The table that a record holds. `content` is the whole record, header
/// included. A name or id that runs past the end makes it `Truncated`;
/// entries that do not divide into whole pairs make it `MalformedEntries`.
pub open spec fn parse_record(content: Seq<u8>) -> Result<Table, ParseError> {
    match field_at(content, HEADER_LEN as int) {
        None => Err(ParseError::Truncated),
        Some((name, behind_name)) => match field_at(content, behind_name) {
            None => Err(ParseError::Truncated),
            Some((id, behind_id)) => match entries_from(content, behind_id) {
                None => Err(ParseError::MalformedEntries),
                Some(raw) => Ok(
                    Table {
                        lang_id: text_of(id),
                        lang_name: text_of(name),
                        entries: entry_map(texts_of(raw)),
                    },
                ),
            },
        },
    }
}

/// The table that the first record in `bytes` holds. The record starts at
/// the first signature and is as long as its length field says; what stands
/// before and behind it is not looked at.
pub open spec fn decode(bytes: Seq<u8>) -> Result<Table, ParseError> {
    match locate(bytes) {
        None => Err(ParseError::SignatureNotFound),
        Some(start) => {
            if bytes.len() - start < HEADER_LEN {
                Err(ParseError::Truncated)
            } else {
                let total = be_value(bytes.subrange(start + 3, start + HEADER_LEN));
                if total > bytes.len() - start {
                    Err(ParseError::Truncated)
                } else {
                    parse_record(bytes.subrange(start, start + total))
                }
            }
        },
    }
}

/// One more entry stands behind the others.
pub proof fn lemma_entries_bytes_push(
    pairs: Seq<(Seq<char>, Seq<char>)>,
    pair: (Seq<char>, Seq<char>),
)
    ensures
        entries_bytes(pairs.push(pair)) == entries_bytes(pairs) + field_bytes(pair.0)
            + field_bytes(pair.1),
    decreases pairs.len(),
{
    if pairs.len() == 0 {
        assert(pairs.push(pair).drop_first() == pairs);
    } else {
        assert(pairs.push(pair).drop_first() == pairs.drop_first().push(pair));
        lemma_entries_bytes_push(pairs.drop_first(), pair);
    }
}

/// The payloads of the entries of a record.
pub open spec fn payloads(pairs: Seq<(Seq<char>, Seq<char>)>) -> Seq<(Seq<u8>, Seq<u8>)> {
    Seq::new(pairs.len(), |i: int| (encode_utf8(pairs[i].0), encode_utf8(pairs[i].1)))
}

/// A text that was written is read back as it was.
pub proof fn lemma_text_of_encoded(text: Seq<char>)
    ensures
        text_of(encode_utf8(text)) == text,
{
    vstd::utf8::encode_utf8_valid_utf8(text);
    vstd::utf8::encode_utf8_decode_utf8(text);
}

/// Entries that were written are read back as they were.
pub proof fn lemma_texts_of_payloads(pairs: Seq<(Seq<char>, Seq<char>)>)
    ensures
        texts_of(payloads(pairs)) == pairs,
{
    assert forall|i: int| 0 <= i < pairs.len() implies texts_of(payloads(pairs))[i]
        == pairs[i] by {
        lemma_text_of_encoded(pairs[i].0);
        lemma_text_of_encoded(pairs[i].1);
    }
    assert(texts_of(payloads(pairs)) =~= pairs);
}

/// Where a framed run stands at offset `at`, the field there is that run.
pub proof fn lemma_field_at_frame(content: Seq<u8>, at: int, data: Seq<u8>)
    requires
        0 <= at,
        at + 4 + data.len() <= content.len(),
        content.subrange(at, at + 4 + data.len()) == frame(data),
        data.len() <= 0xFFFF_FFFF,
    ensures
        field_at(content, at) == Some((data, at + 4 + data.len())),
{
    let n = data.len() as int;
    lemma_radix_values();
    lemma_be_bytes_len(data.len(), 4);
    lemma_be_value_of_bytes(data.len(), 4);
    let framed = content.subrange(at, at + 4 + n);
    assert(content.subrange(at, at + 4) =~= framed.subrange(0, 4));
    assert(framed.subrange(0, 4) =~= be_bytes(data.len(), 4));
    assert(content.subrange(at + 4, at + 4 + n) =~= framed.subrange(4, 4 + n));
    assert(framed.subrange(4, 4 + n) =~= data);
}

/// Where the entries of a table stand from offset `at` to the end, they are
/// read back pair by pair.
pub proof fn lemma_entries_from_bytes(
    content: Seq<u8>,
    at: int,
    pairs: Seq<(Seq<char>, Seq<char>)>,
)
    requires
        0 <= at <= content.len(),
        content.skip(at) == entries_bytes(pairs),
        forall|i: int| 0 <= i < pairs.len() ==> fits((#[trigger] pairs[i]).0) && fits(pairs[i].1),
    ensures
        entries_from(content, at) == Some(payloads(pairs)),
    decreases pairs.len(),
{
    if pairs.len() == 0 {
        assert(content.skip(at).len() == 0);
        assert(payloads(pairs) =~= Seq::empty());
    } else {
        let key = encode_utf8(pairs[0].0);
        let value = encode_utf8(pairs[0].1);
        let rest = pairs.drop_first();
        let all = entries_bytes(pairs);
        assert(fits(pairs[0].0) && fits(pairs[0].1));
        lemma_be_bytes_len(key.len(), 4);
        lemma_be_bytes_len(value.len(), 4);
        assert(all == frame(key) + frame(value) + entries_bytes(rest));
        assert(all.len() == content.len() - at);
        let key_end = 4 + key.len() as int;
        let value_end = key_end + 4 + value.len() as int;
        let behind_key = at + key_end;
        let behind_value = at + value_end;
        assert(content.subrange(at, behind_key) =~= all.subrange(0, key_end));
        assert(all.subrange(0, key_end) =~= frame(key));
        lemma_field_at_frame(content, at, key);
        assert(content.subrange(behind_key, behind_value) =~= all.subrange(key_end, value_end));
        assert(all.subrange(key_end, value_end) =~= frame(value));
        lemma_field_at_frame(content, behind_key, value);
        assert(content.skip(behind_value) =~= all.skip(value_end));
        assert(all.skip(value_end) =~= entries_bytes(rest));
        assert forall|i: int| 0 <= i < rest.len() implies fits((#[trigger] rest[i]).0) && fits(
            rest[i].1,
        ) by {
            assert(rest[i] == pairs[i + 1]);
        }
        lemma_entries_from_bytes(content, behind_value, rest);
        assert(seq![(key, value)] + payloads(rest) =~= payloads(pairs));
    }
}

/// The length field of a record holds the record's length: the eight bytes
/// behind the signature spell the number of bytes from the start of the
/// signature to the end of the last entry.
pub proof fn length_field_is_length(
    lang_name: Seq<char>,
    lang_id: Seq<char>,
    pairs: Seq<(Seq<char>, Seq<char>)>,
)
    requires
        encodable(lang_name, lang_id, pairs),
    ensures
        record_bytes(lang_name, lang_id, pairs).len() == HEADER_LEN + body_bytes(
            lang_name,
            lang_id,
            pairs,
        ).len(),
        be_value(record_bytes(lang_name, lang_id, pairs).subrange(3, HEADER_LEN as int))
            == record_bytes(lang_name, lang_id, pairs).len(),
{
    let body = body_bytes(lang_name, lang_id, pairs);
    let n = (HEADER_LEN + body.len()) as nat;
    let record = record_bytes(lang_name, lang_id, pairs);
    lemma_be_bytes_len(n, 8);
    lemma_be_value_of_bytes(n, 8);
    assert(record.subrange(3, HEADER_LEN as int) =~= be_bytes(n, 8));
}

/// A record, read alone, gives its table.
pub proof fn lemma_parse_record_of_bytes(
    lang_name: Seq<char>,
    lang_id: Seq<char>,
    pairs: Seq<(Seq<char>, Seq<char>)>,
)
    requires
        encodable(lang_name, lang_id, pairs),
    ensures
        parse_record(record_bytes(lang_name, lang_id, pairs)) == Ok::<Table, ParseError>(
            Table { lang_id, lang_name, entries: entry_map(pairs) },
        ),
{
    let record = record_bytes(lang_name, lang_id, pairs);
    let body = body_bytes(lang_name, lang_id, pairs);
    let name = encode_utf8(lang_name);
    let id = encode_utf8(lang_id);
    length_field_is_length(lang_name, lang_id, pairs);
    lemma_be_bytes_len(name.len(), 4);
    lemma_be_bytes_len(id.len(), 4);
    lemma_be_bytes_len((HEADER_LEN + body.len()) as nat, 8);
    let name_end = 4 + name.len() as int;
    let id_end = name_end + 4 + id.len() as int;
    let behind_name = HEADER_LEN + name_end;
    let behind_id = HEADER_LEN + id_end;
    assert(record.skip(HEADER_LEN as int) =~= body);
    assert(record.subrange(HEADER_LEN as int, behind_name) =~= body.subrange(0, name_end));
    assert(body.subrange(0, name_end) =~= frame(name));
    lemma_field_at_frame(record, HEADER_LEN as int, name);
    assert(record.subrange(behind_name, behind_id) =~= body.subrange(name_end, id_end));
    assert(body.subrange(name_end, id_end) =~= frame(id));
    lemma_field_at_frame(record, behind_name, id);
    assert(record.skip(behind_id) =~= body.skip(id_end));
    assert(body.skip(id_end) =~= entries_bytes(pairs));
    lemma_entries_from_bytes(record, behind_id, pairs);
    lemma_texts_of_payloads(pairs);
    lemma_text_of_encoded(lang_name);
    lemma_text_of_encoded(lang_id);
}

/// A record that stands among other bytes is found and read: where no
/// signature starts before the record, whatever stands before and behind it
/// does not change the table that comes out.
pub proof fn embedded_record_decodes(
    before: Seq<u8>,
    lang_name: Seq<char>,
    lang_id: Seq<char>,
    pairs: Seq<(Seq<char>, Seq<char>)>,
    behind: Seq<u8>,
)
    requires
        encodable(lang_name, lang_id, pairs),
        forall|j: int|
            0 <= j < before.len() ==> !signature_at(
                before + record_bytes(lang_name, lang_id, pairs),
                j,
            ),
    ensures
        decode(before + record_bytes(lang_name, lang_id, pairs) + behind) == Ok::<
            Table,
            ParseError,
        >(Table { lang_id, lang_name, entries: entry_map(pairs) }),
{
    let record = record_bytes(lang_name, lang_id, pairs);
    let bytes = before + record + behind;
    let start = before.len() as int;
    length_field_is_length(lang_name, lang_id, pairs);
    lemma_parse_record_of_bytes(lang_name, lang_id, pairs);
    assert(signature_at(bytes, start)) by {
        assert(bytes[start] == record[0]);
        assert(bytes[start + 1] == record[1]);
        assert(bytes[start + 2] == record[2]);
    }
    assert forall|j: int| 0 <= j < start implies !signature_at(bytes, j) by {
        let short = before + record;
        assert(!signature_at(short, j));
        assert(j + 3 <= short.len());
        assert(short[j] == bytes[j]);
        assert(short[j + 1] == bytes[j + 1]);
        assert(short[j + 2] == bytes[j + 2]);
    }
    lemma_locate_found(bytes, start);
    assert(bytes.subrange(start + 3, start + HEADER_LEN) =~= record.subrange(
        3,
        HEADER_LEN as int,
    ));
    assert(bytes.subrange(start, start + record.len()) =~= record);
}

/// Decoding what was encoded gives the table back: the same language id,
/// the same language name, and the mapping that the entries make.
pub proof fn round_trip(
    lang_name: Seq<char>,
    lang_id: Seq<char>,
    pairs: Seq<(Seq<char>, Seq<char>)>,
)
    requires
        encodable(lang_name, lang_id, pairs),
    ensures
        decode(record_bytes(lang_name, lang_id, pairs)) == Ok::<Table, ParseError>(
            Table { lang_id, lang_name, entries: entry_map(pairs) },
        ),
{
    let record = record_bytes(lang_name, lang_id, pairs);
    embedded_record_decodes(Seq::empty(), lang_name, lang_id, pairs, Seq::empty());
    assert(Seq::<u8>::empty() + record + Seq::<u8>::empty() =~= record);
}

/// A record that was cut short is not read: of any strict prefix of a record
/// decoding fails, with `SignatureNotFound` where not even the signature is
/// whole and with `Truncated` otherwise.
pub proof fn truncated_record_fails(
    lang_name: Seq<char>,
    lang_id: Seq<char>,
    pairs: Seq<(Seq<char>, Seq<char>)>,
    n: int,
)
    requires
        encodable(lang_name, lang_id, pairs),
        0 <= n < record_bytes(lang_name, lang_id, pairs).len(),
    ensures
        decode(record_bytes(lang_name, lang_id, pairs).take(n)) == Err::<Table, ParseError>(
            if n < 3 {
                ParseError::SignatureNotFound
            } else {
                ParseError::Truncated
            },
        ),
{
    let record = record_bytes(lang_name, lang_id, pairs);
    let cut = record.take(n);
    length_field_is_length(lang_name, lang_id, pairs);
    if n < 3 {
        lemma_locate_none(cut);
    } else {
        assert(first_signature(cut, 0));
        lemma_locate_found(cut, 0);
        if n >= HEADER_LEN {
            assert(cut.subrange(3, HEADER_LEN as int) =~= record.subrange(3, HEADER_LEN as int));
        }
    }
}

} // verus!
