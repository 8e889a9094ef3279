//! The link manager: it validates a URL, assigns a fresh identifier, derives
//! a short code that is verified absent from the store before use, persists
//! the encoded record under that code, and resolves a short code back to the
//! record stored under it.

use crate::codec::{bytes_to_string, dec_record, decode_link, enc_record, encode_link};
use crate::link::{Link, LinkView};
use crate::shortcode::{code_bytes, is_code_byte, is_code_char, lemma_ascii_bytes_chars};
use crate::store::{store_contents, store_get, store_insert, store_open};
use crate::urltext::{encode_alias, fresh_identifier, parsed_url, percent_encoded, try_parse_url};
use crate::CODE_LEN;
use vstd::prelude::*;
use vstd::utf8::encode_utf8;

verus! {

/// How many fresh short codes are drawn before a generation gives up with
/// `ShortCodeExhausted`.
pub const MAX_CODE_ATTEMPTS: usize = 16;

/// An error that occurs when handling links.
#[derive(Debug)]
pub enum LinkError {
    /// The given string is not a well-formed URL.
    InvalidLink,
    /// The durable store could not be opened.
    StoreOpenFailure(String),
    /// An insert or lookup failed inside the durable store.
    StoreAccessFailure(String),
    /// No record is stored under the given short code.
    LinkNotFound(String),
    /// The bytes stored under the short code are not a valid record encoding.
    LinkDecodingFailure,
    /// Every attempted short code was already taken.
    ShortCodeExhausted,
}

/// The aliases of a record after percent-encoding, order preserved.
pub open spec fn encoded_alias_seq(a: Seq<Seq<char>>) -> Seq<Seq<char>> {
    Seq::new(a.len(), |i: int| percent_encoded(a[i]))
}

/// The LinkManager owns the handle to the durable store. It creates link
/// records and resolves short codes back to the records stored under them.
/// Its view is the store's contents: a map from byte keys to encoded records.
pub struct LinkManager {
    db: sled::Db,
}

impl View for LinkManager {
    type V = Map<Seq<u8>, Seq<u8>>;

    closed spec fn view(&self) -> Map<Seq<u8>, Seq<u8>> {
        store_contents(self.db)
    }
}

impl LinkManager {
    /// Attempts to create a new LinkManager over the durable store rooted at
    /// `db_location`, creating the store if it does not exist yet.
    pub fn create(db_location: &str) -> (r: Result<LinkManager, LinkError>)
        ensures
            r is Err ==> r matches Err(LinkError::StoreOpenFailure(_)),
    {
        match store_open(db_location) {
            Ok(db) => Ok(LinkManager { db }),
            Err(m) => Err(LinkError::StoreOpenFailure(m)),
        }
    }

    /// Tries to generate a shorter link from a given link.
    ///
    /// On success the returned record carries the canonical form of the
    /// given URL, the percent-encoded aliases in their given order, and a
    /// short code of `CODE_LEN` base62 characters that was absent from the
    /// store before the call; the store afterwards maps that code's UTF-8
    /// bytes to the record's encoding and is otherwise unchanged. A string
    /// that does not parse as a URL is rejected with `InvalidLink`, and then
    /// the store is not touched.
    #[verifier::loop_isolation(false)]
    pub fn generate_link(&mut self, link: &str, aliases: Option<Vec<String>>) -> (r: Result<
        Link,
        LinkError,
    >)
        ensures
            (r matches Err(LinkError::InvalidLink)) <==> parsed_url(link@) is None,
            r matches Err(LinkError::InvalidLink) ==> final(self)@ == old(self)@,
            r matches Err(LinkError::ShortCodeExhausted) ==> final(self)@ == old(self)@,
            r is Err ==> (r matches Err(LinkError::InvalidLink) || r matches Err(
                LinkError::StoreAccessFailure(_),
            ) || r matches Err(LinkError::ShortCodeExhausted)),
            r matches Ok(l) ==> ({
                let key = encode_utf8(l@.shortened_link);
                &&& l@.original_link == parsed_url(link@).unwrap()
                &&& match (aliases, l@.aliases) {
                    (Option::None, Option::None) => true,
                    (Option::Some(given), Option::Some(enc)) => enc == encoded_alias_seq(
                        given.deep_view(),
                    ),
                    _ => false,
                }
                &&& l@.shortened_link.len() == CODE_LEN
                &&& (forall|i: int|
                    0 <= i < l@.shortened_link.len() ==> is_code_char(
                        #[trigger] l@.shortened_link[i],
                    ))
                &&& l@.wf()
                &&& !old(self)@.contains_key(key)
                &&& final(self)@ == old(self)@.insert(key, enc_record(l@))
            }),
    {
        let original_link = match try_parse_url(link) {
            Option::None => { return Err(LinkError::InvalidLink) },
            Option::Some(u) => u,
        };
        let encoded_aliases: Option<Vec<String>> = match &aliases {
            Option::None => Option::None,
            Option::Some(list) => {
                let mut out: Vec<String> = Vec::new();
                let mut i: usize = 0;
                while i < list.len()
                    invariant
                        i <= list.len(),
                        out@.len() == i,
                        forall|j: int|
                            0 <= j < i ==> (#[trigger] out@[j])@ == percent_encoded(list@[j]@),
                    decreases list.len() - i,
                {
                    out.push(encode_alias(list[i].as_str()));
                    i = i + 1;
                }
                proof {
                    assert forall|j: int| 0 <= j < list@.len() implies #[trigger] out.deep_view()[j]
                        == encoded_alias_seq(list.deep_view())[j] by {
                        assert(out.deep_view()[j] == out@[j]@);
                        assert(list.deep_view()[j] == list@[j]@);
                    }
                    assert(out.deep_view() =~= encoded_alias_seq(list.deep_view()));
                }
                Option::Some(out)
            },
        };
        let mut found: Option<(u64, u64, String, Vec<u8>)> = Option::None;
        let mut attempt: usize = 0;
        while attempt < MAX_CODE_ATTEMPTS && found.is_none()
            invariant
                self.db == old(self).db,
                match found {
                    Option::Some(f) => {
                        &&& f.3@ == encode_utf8(f.2@)
                        &&& f.2@.len() == CODE_LEN
                        &&& (forall|i: int|
                            0 <= i < f.2@.len() ==> is_code_char(#[trigger] f.2@[i]))
                        &&& !store_contents(self.db).contains_key(f.3@)
                    },
                    Option::None => true,
                },
            decreases MAX_CODE_ATTEMPTS - attempt,
        {
            let (hi, lo) = fresh_identifier();
            let cb = code_bytes(hi);
            let ghost cbv = cb@;
            proof {
                lemma_ascii_bytes_chars(cb@);
            }
            let code = bytes_to_string(cb).unwrap();
            let key = code.as_str().as_bytes_vec();
            proof {
                assert(code@ == vstd::utf8::decode_utf8(cbv));
                assert(key@ == encode_utf8(code@));
                assert forall|i: int| 0 <= i < code@.len() implies is_code_char(
                    #[trigger] code@[i],
                ) by {
                    assert(code@[i] == cbv[i] as char);
                    assert(is_code_byte(cbv[i]));
                }
            }
            match store_get(&self.db, &key) {
                Err(m) => { return Err(LinkError::StoreAccessFailure(m)) },
                Ok(Some(_)) => {},
                Ok(None) => {
                    found = Option::Some((hi, lo, code, key));
                },
            }
            attempt = attempt + 1;
        }
        let (id_hi, id_lo, shortened_link, key) = match found {
            Option::None => { return Err(LinkError::ShortCodeExhausted) },
            Option::Some(x) => x,
        };
        let encapsulated_link = Link {
            id_hi,
            id_lo,
            original_link,
            shortened_link,
            aliases: encoded_aliases,
        };
        let value = encode_link(&encapsulated_link);
        match store_insert(&mut self.db, &key, &value) {
            Err(m) => Err(LinkError::StoreAccessFailure(m)),
            Ok(()) => Ok(encapsulated_link),
        }
    }

    /// Attempts to find a link in the store, given its shortened form.
    ///
    /// Exactly the record whose encoding the store holds under the code's
    /// UTF-8 bytes is returned. An absent code yields `LinkNotFound`, never a
    /// decoding error; bytes that are not a valid record encoding yield
    /// `LinkDecodingFailure`; only a store I/O failure yields
    /// `StoreAccessFailure`.
    pub fn resolve_link(&self, short_link: &str) -> (r: Result<Link, LinkError>)
        ensures
            ({
                let key = encode_utf8(short_link@);
                &&& (r matches Ok(l) ==> self@.contains_key(key) && dec_record(self@[key])
                    == Option::Some(l@) && l@.wf() && enc_record(l@) == self@[key])
                &&& (r matches Err(e) ==> match e {
                    LinkError::LinkNotFound(c) => !self@.contains_key(key) && c@ == short_link@,
                    LinkError::LinkDecodingFailure => self@.contains_key(key) && dec_record(
                        self@[key],
                    ) is None,
                    LinkError::StoreAccessFailure(_) => true,
                    _ => false,
                })
            }),
    {
        let key = short_link.as_bytes_vec();
        match store_get(&self.db, &key) {
            Err(m) => Err(LinkError::StoreAccessFailure(m)),
            Ok(None) => Err(LinkError::LinkNotFound(short_link.to_owned())),
            Ok(Some(bytes)) => match decode_link(&bytes) {
                Option::Some(l) => Ok(l),
                Option::None => Err(LinkError::LinkDecodingFailure),
            },
        }
    }
}

/// Round-trip law: when a generation has stored a record's encoding under a
/// key, whatever record later resolves from that key is that record, field
/// for field. (Two separate generations return records with distinct
/// identifiers; resolution of one stored record returns it whole.)
pub proof fn lemma_store_round_trip(
    m: Map<Seq<u8>, Seq<u8>>,
    key: Seq<u8>,
    stored: LinkView,
    resolved: LinkView,
)
    requires
        stored.wf(),
        m.contains_key(key),
        m[key] == enc_record(stored),
        dec_record(m[key]) == Option::Some(resolved),
    ensures
        resolved == stored,
{
    crate::codec::lemma_dec_enc(stored);
}

/// Uniqueness law: over any run of consecutive successful generations, the
/// short-code keys are pairwise distinct, because each generation inserts a
/// key it first verified to be absent and an insert never removes a key.
/// `stores` are the store contents before and after each generation, `keys`
/// and `values` what each generation inserted.
pub proof fn lemma_generated_keys_distinct(
    stores: Seq<Map<Seq<u8>, Seq<u8>>>,
    keys: Seq<Seq<u8>>,
    values: Seq<Seq<u8>>,
)
    requires
        stores.len() == keys.len() + 1,
        values.len() == keys.len(),
        forall|i: int| 0 <= i < keys.len() ==> !(#[trigger] stores[i]).contains_key(keys[i]),
        forall|i: int|
            0 <= i < keys.len() ==> stores[i + 1] == (#[trigger] stores[i]).insert(
                keys[i],
                values[i],
            ),
    ensures
        forall|i: int, j: int| 0 <= i < j < keys.len() ==> keys[i] != keys[j],
{
    assert forall|i: int, j: int| 0 <= i < j < keys.len() implies keys[i] != keys[j] by {
        lemma_inserted_key_persists(stores, keys, values, i, j);
    }
}

/// A key inserted by generation `i` is still present in every later store.
proof fn lemma_inserted_key_persists(
    stores: Seq<Map<Seq<u8>, Seq<u8>>>,
    keys: Seq<Seq<u8>>,
    values: Seq<Seq<u8>>,
    i: int,
    j: int,
)
    requires
        stores.len() == keys.len() + 1,
        values.len() == keys.len(),
        forall|k: int|
            0 <= k < keys.len() ==> stores[k + 1] == (#[trigger] stores[k]).insert(
                keys[k],
                values[k],
            ),
        0 <= i < j <= keys.len(),
    ensures
        stores[j].contains_key(keys[i]),
    decreases j - i,
{
    if j == i + 1 {
        assert(stores[i + 1] == stores[i].insert(keys[i], values[i]));
    } else {
        lemma_inserted_key_persists(stores, keys, values, i, j - 1);
        assert(stores[j] == stores[j - 1].insert(keys[j - 1], values[j - 1]));
    }
}

} // verus!
