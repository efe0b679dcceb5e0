//! The table of translated strings that a program holds at run time.

use crate::compiler::{encode, encoded, pair_texts, ParseError};
use crate::document::{
    all_text, document_entries, document_id, document_name, field_texts, has_field,
    insert_member, is_table_document, json_fields, json_is_object, json_text, new_object,
    text_value,
};
use crate::record::{
    all_fit, be_value, decode, entries_from, entry_map, field_at, first_signature,
    lemma_be_value_bound, lemma_locate_found, lemma_locate_none, lemma_radix_grows,
    lemma_radix_values, lossy_text, parse_record, signature_at, text_of, texts_of, Table,
    HEADER_LEN,
};
use json::JsonValue;
use vstd::hash_map::StringHashMap;
use vstd::pervasive::unreached;
use vstd::prelude::*;
use vstd::slice::slice_subrange;

verus! {

/// A table of translated strings for one language.
///
/// The entries are kept in the order in which their keys first came, and an
/// index leads from each key to its place.
pub struct Strings {
    lang_id: String,
    lang_name: String,
    entries: Vec<(String, String)>,
    index: StringHashMap<usize>,
}

/// Whether no two of the pairs have the same key.
pub open spec fn distinct_keys(pairs: Seq<(Seq<char>, Seq<char>)>) -> bool {
    forall|i: int, j: int|
        0 <= i < pairs.len() && 0 <= j < pairs.len() && (#[trigger] pairs[i]).0 == (
        #[trigger] pairs[j]).0 ==> i == j
}

/// With distinct keys, the mapping holds each pair as it stands.
pub proof fn lemma_entry_map_of_distinct(pairs: Seq<(Seq<char>, Seq<char>)>)
    requires
        distinct_keys(pairs),
    ensures
        forall|i: int|
            0 <= i < pairs.len() ==> entry_map(pairs).contains_key((#[trigger] pairs[i]).0)
                && entry_map(pairs)[pairs[i].0] == pairs[i].1,
        forall|k: Seq<char>| #[trigger]
            entry_map(pairs).contains_key(k) ==> exists|i: int|
                0 <= i < pairs.len() && (#[trigger] pairs[i]).0 == k,
    decreases pairs.len(),
{
    if pairs.len() > 0 {
        let front = pairs.drop_last();
        assert(distinct_keys(front)) by {
            assert forall|i: int, j: int|
                0 <= i < front.len() && 0 <= j < front.len() && (#[trigger] front[i]).0 == (
                #[trigger] front[j]).0 implies i == j by {
                assert(front[i] == pairs[i] && front[j] == pairs[j]);
            }
        }
        lemma_entry_map_of_distinct(front);
        assert forall|i: int| 0 <= i < pairs.len() implies entry_map(pairs).contains_key(
            (#[trigger] pairs[i]).0,
        ) && entry_map(pairs)[pairs[i].0] == pairs[i].1 by {
            if i < pairs.len() - 1 {
                assert(front[i] == pairs[i]);
                assert(pairs[i].0 != pairs.last().0);
            }
        }
        assert forall|k: Seq<char>| #[trigger] entry_map(pairs).contains_key(k) implies exists|
            i: int,
        |
            0 <= i < pairs.len() && (#[trigger] pairs[i]).0 == k by {
            if k == pairs.last().0 {
                assert(pairs[pairs.len() - 1].0 == k);
            } else {
                assert(entry_map(front).contains_key(k));
                let i = choose|i: int| 0 <= i < front.len() && (#[trigger] front[i]).0 == k;
                assert(pairs[i].0 == k);
            }
        }
    }
}

impl View for Strings {
    type V = Table;

    closed spec fn view(&self) -> Table {
        Table {
            lang_id: self.lang_id@,
            lang_name: self.lang_name@,
            entries: entry_map(self.pairs()),
        }
    }
}

impl Clone for Strings {
    /// A table with the same language, the same entries and the same order.
    fn clone(&self) -> (copy: Self)
        ensures
            copy@ == self@,
            copy.pairs() == self.pairs(),
    {
        proof {
            use_type_invariant(self);
            self.lemma_keys();
        }
        let mut copy = Strings::new(self.lang_id.as_str(), self.lang_name.as_str());
        let mut i: usize = 0;
        while i < self.entries.len()
            invariant
                i <= self.entries@.len(),
                distinct_keys(self.pairs()),
                copy@.lang_id == self@.lang_id,
                copy@.lang_name == self@.lang_name,
                copy.pairs() == self.pairs().take(i as int),
            decreases self.entries@.len() - i,
        {
            proof {
                let key = self.entries@[i as int].0@;
                let seen = self.pairs().take(i as int);
                if entry_map(seen).contains_key(key) {
                    assert(distinct_keys(seen)) by {
                        assert forall|a: int, b: int|
                            0 <= a < seen.len() && 0 <= b < seen.len() && (#[trigger] seen[a]).0
                                == (#[trigger] seen[b]).0 implies a == b by {
                            assert(seen[a] == self.pairs()[a] && seen[b] == self.pairs()[b]);
                        }
                    }
                    lemma_entry_map_of_distinct(seen);
                    let j = choose|j: int| 0 <= j < seen.len() && (#[trigger] seen[j]).0 == key;
                    assert(self.pairs()[j].0 == self.pairs()[i as int].0);
                }
            }
            copy.add_string(self.entries[i].0.as_str(), self.entries[i].1.as_str());
            proof {
                assert(copy.pairs() =~= self.pairs().take(i + 1));
            }
            i += 1;
        }
        proof {
            assert(self.pairs().take(i as int) =~= self.pairs());
        }
        copy
    }
}

impl Strings {
    /// The index knows every key's place, and nothing else.
    #[verifier::type_invariant]
    spec fn indexed(&self) -> bool {
        &&& forall|i: int|
            0 <= i < self.entries@.len() ==> self.index@.contains_key(
                (#[trigger] self.entries@[i]).0@,
            ) && self.index@[self.entries@[i].0@] == i
        &&& forall|k: Seq<char>| #[trigger]
            self.index@.contains_key(k) ==> self.index@[k] < self.entries@.len()
                && self.entries@[self.index@[k] as int].0@ == k
    }

    /// The entries in the order in which their keys first came.
    pub closed spec fn pairs(&self) -> Seq<(Seq<char>, Seq<char>)> {
        pair_texts(self.entries@)
    }

    /// The table's mapping is the one that its entries make.
    pub proof fn view_of_pairs(&self)
        ensures
            self@.entries == entry_map(self.pairs()),
    {
    }

    /// Creates an empty table for the language `lang_id`, which calls itself
    /// `lang_name`.
    pub fn new(lang_id: &str, lang_name: &str) -> (table: Self)
        ensures
            table@ == (Table {
                lang_id: lang_id@,
                lang_name: lang_name@,
                entries: Map::empty(),
            }),
            table.pairs() == Seq::<(Seq<char>, Seq<char>)>::empty(),
    {
        let table = Self {
            lang_id: lang_id.to_string(),
            lang_name: lang_name.to_string(),
            entries: Vec::new(),
            index: StringHashMap::new(),
        };
        assert(table.pairs() =~= Seq::empty());
        table
    }

    /// The language's id, such as `zh_CN`, `en_US` or `eo_EO`.
    pub fn get_lang_id(&self) -> (id: &str)
        ensures
            id@ == self@.lang_id,
    {
        self.lang_id.as_str()
    }

    /// The language's name in the language itself.
    pub fn get_lang_name(&self) -> (name: &str)
        ensures
            name@ == self@.lang_name,
    {
        self.lang_name.as_str()
    }

    /// Sets the string for `key`. A string that the key had before is
    /// replaced; a new key goes behind all others.
    pub fn add_string(&mut self, key: &str, value: &str)
        ensures
            final(self)@ == (Table {
                entries: old(self)@.entries.insert(key@, value@),
                ..old(self)@
            }),
            !old(self)@.entries.contains_key(key@) ==> final(self).pairs() == old(self).pairs().push(
                (key@, value@),
            ),
            old(self)@.entries.contains_key(key@) ==> exists|i: int|
                0 <= i < old(self).pairs().len() && (#[trigger] old(self).pairs()[i]).0 == key@
                    && final(self).pairs() == old(self).pairs().update(i, (key@, value@)),
    {
        proof {
            use_type_invariant(&*self);
            self.lemma_keys();
        }
        let ghost before = self.pairs();
        let place = match self.index.get(key) {
            Some(at) => Some(*at),
            None => None,
        };
        // Entries and index belong together: the table is taken apart,
        // changed, and put together again.
        let mut taken = Strings::new("", "");
        core::mem::swap(self, &mut taken);
        let Strings { lang_id, lang_name, mut entries, mut index } = taken;
        match place {
            Some(at) => {
                entries[at].1 = value.to_string();
            },
            None => {
                let at = entries.len();
                entries.push((key.to_string(), value.to_string()));
                index.insert(key.to_string(), at);
            },
        }
        *self = Strings { lang_id, lang_name, entries, index };
        proof {
            match place {
                Some(at) => {
                    assert(self.pairs() =~= before.update(at as int, (key@, value@)));
                    lemma_entry_map_update(before, at as int, value@);
                },
                None => {
                    assert(self.pairs() =~= before.push((key@, value@)));
                    assert(self.pairs().drop_last() =~= before);
                },
            }
        }
    }

    /// The string for `key`, or `key` itself where the table has none.
    pub fn translate<'a>(&'a self, key: &'a str) -> (text: &'a str)
        ensures
            text@ == if self@.entries.contains_key(key@) {
                self@.entries[key@]
            } else {
                key@
            },
    {
        proof {
            use_type_invariant(self);
            self.lemma_keys();
        }
        match self.index.get(key) {
            Some(at) => self.entries[*at].1.as_str(),
            None => key,
        }
    }

    /// Reads the table out of one record. `content` is the record from its
    /// signature to its end, and nothing else.
    pub fn parse(content: &[u8]) -> (r: Result<Self, ParseError>)
        ensures
            match r {
                Ok(table) => parse_record(content@) == Ok::<Table, ParseError>(table@),
                Err(e) => parse_record(content@) == Err::<Table, ParseError>(e),
            },
    {
        let (lang_name, used) = match decode_string(content, HEADER_LEN) {
            Ok(read) => read,
            Err(e) => {
                return Err(e);
            },
        };
        let ghost raw_name = field_at(content@, HEADER_LEN as int).unwrap().0;
        let mut at: usize = HEADER_LEN + used;
        let ghost behind_name = at as int;
        let (lang_id, used) = match decode_string(content, at) {
            Ok(read) => read,
            Err(e) => {
                return Err(e);
            },
        };
        let ghost raw_id = field_at(content@, behind_name).unwrap().0;
        at = at + used;
        let ghost first = at as int;
        let ghost done: Seq<(Seq<u8>, Seq<u8>)> = Seq::empty();
        let mut table = Self::new(lang_id.as_str(), lang_name.as_str());
        proof {
            assert(texts_of(done) =~= Seq::empty());
        }
        while at < content.len()
            invariant
                at <= content.len(),
                field_at(content@, HEADER_LEN as int) == Some((raw_name, behind_name)),
                field_at(content@, behind_name) == Some((raw_id, first)),
                table@.lang_id == text_of(raw_id),
                table@.lang_name == text_of(raw_name),
                table@.entries == entry_map(texts_of(done)),
                match entries_from(content@, at as int) {
                    None => entries_from(content@, first) is None,
                    Some(rest) => entries_from(content@, first) == Some(done + rest),
                },
            decreases content@.len() - at,
        {
            let (key, used) = match decode_string(content, at) {
                Ok(read) => read,
                Err(_) => {
                    return Err(ParseError::MalformedEntries);
                },
            };
            let ghost raw_key = field_at(content@, at as int).unwrap().0;
            let behind_key = at + used;
            let (value, used) = match decode_string(content, behind_key) {
                Ok(read) => read,
                Err(_) => {
                    return Err(ParseError::MalformedEntries);
                },
            };
            let ghost raw_value = field_at(content@, behind_key as int).unwrap().0;
            table.add_string(key.as_str(), value.as_str());
            proof {
                let grown = done.push((raw_key, raw_value));
                assert(texts_of(grown).drop_last() =~= texts_of(done));
                assert(texts_of(grown).last() == (key@, value@));
                match entries_from(content@, behind_key + used) {
                    None => {},
                    Some(rest) => {
                        assert(grown + rest =~= done + (seq![(raw_key, raw_value)] + rest));
                    },
                }
                done = grown;
            }
            at = behind_key + used;
        }
        proof {
            assert(done + Seq::empty() =~= done);
        }
        Ok(table)
    }

    /// Finds the first record in `bytes` and reads the table out of it.
    ///
    /// The record may stand anywhere: the bytes are searched for its
    /// signature from the start, and its length field says where it ends.
    /// Without a signature the result is `SignatureNotFound`; where the
    /// bytes end before the record does, `Truncated`; where the record's
    /// entries are not whole pairs, `MalformedEntries`. Bytes that are not
    /// valid UTF-8 are read as text all the same.
    pub fn load(bytes: &[u8]) -> (r: Result<Self, ParseError>)
        ensures
            match r {
                Ok(table) => decode(bytes@) == Ok::<Table, ParseError>(table@),
                Err(e) => decode(bytes@) == Err::<Table, ParseError>(e),
            },
    {
        let mut start: usize = 0;
        while start < bytes.len() && bytes.len() - start >= 3
            invariant
                forall|j: int| 0 <= j < start ==> !signature_at(bytes@, j),
            decreases bytes@.len() - start,
        {
            if bytes[start] == 0xff && bytes[start + 1] == 0x27 && bytes[start + 2] == 0xff {
                proof {
                    assert(first_signature(bytes@, start as int));
                    lemma_locate_found(bytes@, start as int);
                }
                if bytes.len() - start < HEADER_LEN {
                    return Err(ParseError::Truncated);
                }
                let total = read_be(bytes, start + 3, 8);
                if total > (bytes.len() - start) as u64 {
                    return Err(ParseError::Truncated);
                }
                return Self::parse(slice_subrange(bytes, start, start + total as usize));
            }
            start += 1;
        }
        proof {
            lemma_locate_none(bytes@);
        }
        Err(ParseError::SignatureNotFound)
    }

    /// Encodes the table into its record, the entries in the order in which
    /// their keys first came.
    pub fn encode(&self) -> (r: Result<Vec<u8>, ParseError>)
        ensures
            match r {
                Ok(bytes) => {
                    &&& encoded(self@.lang_name, self@.lang_id, self.pairs(), bytes@)
                    &&& decode(bytes@) == Ok::<Table, ParseError>(self@)
                },
                Err(e) => e == ParseError::LengthOverflow && !all_fit(
                    self@.lang_name,
                    self@.lang_id,
                    self.pairs(),
                ),
            },
    {
        encode(self.lang_name.as_str(), self.lang_id.as_str(), &self.entries)
    }

    /// The table as a source document: an object with the texts `lang_name`
    /// and `lang_id` and the object `data`, which holds the entries in their
    /// order.
    pub fn jsonize(&self) -> (doc: JsonValue)
        ensures
            is_table_document(doc),
            json_fields(doc).len() == 3,
            json_fields(doc)[0].0 == "lang_name"@,
            json_fields(doc)[1].0 == "lang_id"@,
            json_fields(doc)[2].0 == "data"@,
            document_name(doc) == self@.lang_name,
            document_id(doc) == self@.lang_id,
            all_text(document_entries(doc)),
            field_texts(document_entries(doc)) == self.pairs(),
    {
        proof {
            use_type_invariant(self);
            self.lemma_keys();
        }
        let mut data = new_object();
        let mut i: usize = 0;
        while i < self.entries.len()
            invariant
                i <= self.entries@.len(),
                distinct_keys(self.pairs()),
                json_is_object(data),
                json_fields(data).len() == i,
                forall|j: int|
                    0 <= j < i ==> (#[trigger] json_fields(data)[j]).0 == self.entries@[j].0@
                        && json_text(json_fields(data)[j].1) == Some(self.entries@[j].1@),
            decreases self.entries@.len() - i,
        {
            let ghost fields = json_fields(data);
            let value = text_value(self.entries[i].1.as_str());
            proof {
                assert(!has_field(fields, self.entries@[i as int].0@)) by {
                    if has_field(fields, self.entries@[i as int].0@) {
                        let j = choose|j: int|
                            0 <= j < fields.len() && (#[trigger] fields[j]).0
                                == self.entries@[i as int].0@;
                        assert(self.pairs()[j].0 == self.pairs()[i as int].0);
                    }
                }
            }
            match insert_member(&mut data, self.entries[i].0.as_str(), value) {
                Ok(_) => {},
                Err(_) => unreached(),
            }
            i += 1;
        }
        proof {
            assert(field_texts(json_fields(data)) =~= self.pairs());
            reveal_strlit("lang_name");
            reveal_strlit("lang_id");
            reveal_strlit("data");
        }
        let mut doc = new_object();
        match insert_member(&mut doc, "lang_name", text_value(self.lang_name.as_str())) {
            Ok(_) => {},
            Err(_) => unreached(),
        }
        let ghost one = json_fields(doc);
        proof {
            assert(!has_field(one, "lang_id"@)) by {
                if has_field(one, "lang_id"@) {
                    let j = choose|j: int| 0 <= j < one.len() && (#[trigger] one[j]).0 == "lang_id"@;
                    assert(one[j].0.len() == 9);
                }
            }
        }
        match insert_member(&mut doc, "lang_id", text_value(self.lang_id.as_str())) {
            Ok(_) => {},
            Err(_) => unreached(),
        }
        let ghost two = json_fields(doc);
        proof {
            assert(!has_field(two, "data"@)) by {
                if has_field(two, "data"@) {
                    let j = choose|j: int| 0 <= j < two.len() && (#[trigger] two[j]).0 == "data"@;
                    assert(two[j].0.len() == 9 || two[j].0.len() == 7);
                }
            }
        }
        match insert_member(&mut doc, "data", data) {
            Ok(_) => {},
            Err(_) => unreached(),
        }
        proof {
            let fields = json_fields(doc);
            assert(fields[0].0 == "lang_name"@ && fields[1].0 == "lang_id"@ && fields[2].0
                == "data"@);
            assert(fields[0].0.len() == 9 && fields[1].0.len() == 7 && fields[2].0.len() == 4);
            assert(has_field(fields, "lang_name"@));
            assert(has_field(fields, "lang_id"@));
            assert(has_field(fields, "data"@));
        }
        doc
    }

    /// What the index says of the entries: the keys are distinct, and a key
    /// is indexed exactly if the mapping has it.
    proof fn lemma_keys(&self)
        requires
            self.indexed(),
        ensures
            distinct_keys(self.pairs()),
            forall|k: Seq<char>|
                self.index@.contains_key(k) <==> #[trigger] entry_map(self.pairs()).contains_key(
                    k,
                ),
            forall|k: Seq<char>| #[trigger]
                self.index@.contains_key(k) ==> entry_map(self.pairs())[k]
                    == self.entries@[self.index@[k] as int].1@,
    {
        let pairs = self.pairs();
        assert(distinct_keys(pairs)) by {
            assert forall|i: int, j: int|
                0 <= i < pairs.len() && 0 <= j < pairs.len() && (#[trigger] pairs[i]).0 == (
                #[trigger] pairs[j]).0 implies i == j by {
                assert(self.index@[self.entries@[i].0@] == i);
                assert(self.index@[self.entries@[j].0@] == j);
            }
        }
        lemma_entry_map_of_distinct(pairs);
        assert forall|k: Seq<char>| #[trigger] self.index@.contains_key(k) implies entry_map(
            pairs,
        ).contains_key(k) && entry_map(pairs)[k] == self.entries@[self.index@[k] as int].1@ by {
            let i = self.index@[k] as int;
            assert(pairs[i].0 == k);
        }
        assert forall|k: Seq<char>| #[trigger] entry_map(pairs).contains_key(k) implies self.index@.contains_key(
            k,
        ) by {
            let i = choose|i: int| 0 <= i < pairs.len() && (#[trigger] pairs[i]).0 == k;
            assert(self.entries@[i].0@ == k);
        }
    }
}

/// The number that the `width` bytes from offset `at` spell, most
/// significant first.
fn read_be(bytes: &[u8], at: usize, width: usize) -> (value: u64)
    requires
        width <= 8,
        at + width <= bytes.len(),
    ensures
        value == be_value(bytes@.subrange(at as int, at + width)),
{
    let mut value: u64 = 0;
    let mut k: usize = 0;
    while k < width
        invariant
            k <= width <= 8,
            at + width <= bytes.len(),
            value == be_value(bytes@.subrange(at as int, at + k)),
        decreases width - k,
    {
        proof {
            let seen = bytes@.subrange(at as int, at + k);
            lemma_be_value_bound(seen);
            lemma_radix_grows(k as nat, 7);
            lemma_radix_values();
            assert(bytes@.subrange(at as int, at + k + 1).drop_last() =~= seen);
        }
        value = value * 256 + bytes[at + k] as u64;
        k += 1;
    }
    value
}

/// Reads the four-byte length at `offset`. Gives the length and the number
/// of bytes read, which is four; `Truncated` where fewer than four bytes are
/// left.
pub fn decode_length(bytes: &[u8], offset: usize) -> (r: Result<(u32, usize), ParseError>)
    ensures
        match r {
            Ok((value, used)) => {
                &&& offset + 4 <= bytes.len()
                &&& value == be_value(bytes@.subrange(offset as int, offset + 4))
                &&& used == 4
            },
            Err(e) => e == ParseError::Truncated && offset + 4 > bytes.len(),
        },
{
    if bytes.len() < 4 || offset > bytes.len() - 4 {
        return Err(ParseError::Truncated);
    }
    let value = read_be(bytes, offset, 4);
    proof {
        lemma_be_value_bound(bytes@.subrange(offset as int, offset + 4));
        lemma_radix_values();
    }
    Ok((value as u32, 4))
}

/// Reads the text field at `offset`: a four-byte length and that many bytes,
/// taken as UTF-8. Gives the text and the number of bytes read; `Truncated`
/// where the length or the bytes would run past the end.
pub fn decode_string(bytes: &[u8], offset: usize) -> (r: Result<(String, usize), ParseError>)
    ensures
        match r {
            Ok((text, used)) => {
                &&& field_at(bytes@, offset as int) matches Some((payload, behind))
                &&& text@ == text_of(payload)
                &&& offset + used == behind
                &&& behind <= bytes.len()
            },
            Err(e) => e == ParseError::Truncated && field_at(bytes@, offset as int) is None,
        },
{
    let (length, used) = match decode_length(bytes, offset) {
        Ok(read) => read,
        Err(e) => {
            return Err(e);
        },
    };
    let from = offset + used;
    if length as usize > bytes.len() - from {
        return Err(ParseError::Truncated);
    }
    let behind = from + length as usize;
    let text = lossy_text(slice_subrange(bytes, from, behind));
    Ok((text, used + length as usize))
}

/// Replacing the value of a pair replaces it in the mapping.
pub proof fn lemma_entry_map_update(pairs: Seq<(Seq<char>, Seq<char>)>, i: int, value: Seq<char>)
    requires
        0 <= i < pairs.len(),
        distinct_keys(pairs),
    ensures
        entry_map(pairs.update(i, (pairs[i].0, value))) == entry_map(pairs).insert(
            pairs[i].0,
            value,
        ),
        distinct_keys(pairs.update(i, (pairs[i].0, value))),
{
    let changed = pairs.update(i, (pairs[i].0, value));
    assert(distinct_keys(changed)) by {
        assert forall|a: int, b: int|
            0 <= a < changed.len() && 0 <= b < changed.len() && (#[trigger] changed[a]).0 == (
            #[trigger] changed[b]).0 implies a == b by {
            assert(changed[a].0 == pairs[a].0 && changed[b].0 == pairs[b].0);
        }
    }
    lemma_entry_map_of_distinct(pairs);
    lemma_entry_map_of_distinct(changed);
    let want = entry_map(pairs).insert(pairs[i].0, value);
    assert forall|k: Seq<char>| entry_map(changed).contains_key(k) <==> want.contains_key(k) by {
        if entry_map(changed).contains_key(k) {
            let a = choose|a: int| 0 <= a < changed.len() && (#[trigger] changed[a]).0 == k;
            assert(pairs[a].0 == k);
        }
        if want.contains_key(k) && k != pairs[i].0 {
            let a = choose|a: int| 0 <= a < pairs.len() && (#[trigger] pairs[a]).0 == k;
            assert(changed[a].0 == k);
        }
        if k == pairs[i].0 {
            assert(changed[i].0 == k);
        }
    }
    assert forall|k: Seq<char>| entry_map(changed).contains_key(k) implies entry_map(changed)[k]
        == want[k] by {
        let a = choose|a: int| 0 <= a < changed.len() && (#[trigger] changed[a]).0 == k;
        assert(pairs[a].0 == k);
        if a != i {
            assert(changed[a] == pairs[a]);
        }
    }
    assert(entry_map(changed) =~= want);
}

} // verus!
