//! The link record: the sole persisted entity. A record carries a 128-bit
//! identifier (held as two 64-bit halves), the validated original URL, the
//! short code under which the record is stored, and an optional ordered
//! sequence of percent-encoded aliases.

use vstd::prelude::*;
use vstd::utf8::encode_utf8;

verus! {

/// The mathematical model of a link record: plain sequences in place of the
/// executable strings.
pub ghost struct LinkView {
    /// High 64 bits of the 128-bit identifier.
    pub id_hi: u64,
    /// Low 64 bits of the 128-bit identifier.
    pub id_lo: u64,
    /// The canonical serialization of the validated original URL.
    pub original_link: Seq<char>,
    /// The short code: the storage key of this record.
    pub shortened_link: Seq<char>,
    /// Optional caller-supplied aliases, percent-encoded, order preserved.
    pub aliases: Option<Seq<Seq<char>>>,
}

impl LinkView {
    /// Every variable-length field of the record fits under the 64-bit
    /// length prefixes of the persisted encoding.
    pub open spec fn wf(self) -> bool {
        &&& encode_utf8(self.original_link).len() < 0x1_0000_0000_0000_0000
        &&& encode_utf8(self.shortened_link).len() < 0x1_0000_0000_0000_0000
        &&& match self.aliases {
            Option::None => true,
            Option::Some(list) => {
                &&& list.len() < 0x1_0000_0000_0000_0000
                &&& forall|i: int|
                    0 <= i < list.len() ==> encode_utf8(#[trigger] list[i]).len()
                        < 0x1_0000_0000_0000_0000
            },
        }
    }
}

/// A representation of some given link to be shortened. The original link is
/// a full URL, while the shortened link is a compact code that resolves back
/// to the original. Aliases are alternate, percent-encoded names attached to
/// the record.
#[derive(Debug)]
pub struct Link {
    pub id_hi: u64,
    pub id_lo: u64,
    pub original_link: String,
    pub shortened_link: String,
    pub aliases: Option<Vec<String>>,
}

impl View for Link {
    type V = LinkView;

    open spec fn view(&self) -> LinkView {
        LinkView {
            id_hi: self.id_hi,
            id_lo: self.id_lo,
            original_link: self.original_link@,
            shortened_link: self.shortened_link@,
            aliases: match self.aliases {
                Option::Some(list) => Option::Some(list.deep_view()),
                Option::None => Option::None,
            },
        }
    }
}

impl Link {
    /// The 128-bit identifier, as its high and low 64-bit halves.
    pub fn identifier(&self) -> (r: (u64, u64))
        ensures
            r.0 == self@.id_hi,
            r.1 == self@.id_lo,
    {
        (self.id_hi, self.id_lo)
    }

    /// The validated original URL, in canonical form.
    pub fn original_link(&self) -> (r: &String)
        ensures
            r@ == self@.original_link,
    {
        &self.original_link
    }

    /// The short code under which this record is stored.
    pub fn shortened_link(&self) -> (r: &String)
        ensures
            r@ == self@.shortened_link,
    {
        &self.shortened_link
    }

    /// The percent-encoded aliases, in the order the caller supplied them.
    pub fn aliases(&self) -> (r: &Option<Vec<String>>)
        ensures
            match r {
                Option::Some(list) => self@.aliases == Option::Some(list.deep_view()),
                Option::None => self@.aliases is None,
            },
    {
        &self.aliases
    }
}

} // verus!
