//! Fetching the result pages of a search, one after the other.
//!
//! The library makes no request itself. A `PageFetcher` says which address
//! to ask for next and takes in what came back; its caller does the asking.
//! Pages are asked for in order, from page 1, and a page is not asked for
//! before the one before it has arrived. The first failure ends the fetch.

use vstd::prelude::*;
use vstd::utf8::encode_utf8;
use crate::error::PricingError;
use crate::price::{decimal_text, push_decimal};

verus! {

/// Where a search address begins; the search term follows.
pub const SEARCH_ADDRESS: &'static str = "https://www.amazon.com/s?k=";

/// What stands between the search term and the page number.
pub const PAGE_PARAMETER: &'static str = "&page=";

/// What ends a search address: results ordered by review rank.
pub const ORDER_PARAMETER: &'static str = "&s=review-rank";

/// How many pages are fetched where the caller names no count.
pub const DEFAULT_PAGES: u8 = 1;

/// A search: the term to look for and how many result pages to read.
#[derive(Clone, Debug)]
pub struct SearchQuery {
    /// The search term, as the user gave it.
    pub term: String,
    /// How many result pages to fetch, from page 1.
    pub pages: u8,
}

impl SearchQuery {
    /// A search for `term` over `pages` pages, or over one page where no
    /// count is given. A count of zero asks for no page at all.
    pub fn new(term: &str, pages: Option<u8>) -> (query: Self)
        ensures
            query.term@ == term@,
            query.pages == match pages {
                Some(n) => n,
                None => DEFAULT_PAGES,
            },
            pages is None ==> query.pages >= 1,
    {
        SearchQuery {
            term: term.to_owned(),
            pages: match pages {
                Some(n) => n,
                None => DEFAULT_PAGES,
            },
        }
    }
}

/// Whether a byte stands for itself in an address: an ASCII letter, a
/// digit, or one of `-`, `.`, `_`, `~`.
pub open spec fn is_unreserved(byte: u8) -> bool {
    ||| 0x41 <= byte <= 0x5A
    ||| 0x61 <= byte <= 0x7A
    ||| 0x30 <= byte <= 0x39
    ||| byte == 0x2D
    ||| byte == 0x2E
    ||| byte == 0x5F
    ||| byte == 0x7E
}

/// The upper-case hexadecimal digit for a number below sixteen.
pub open spec fn hex_char(value: nat) -> char {
    if value < 10 {
        ('0' as nat + value) as char
    } else {
        ('A' as nat + value - 10) as char
    }
}

/// One byte as it is written in an address: itself where it is unreserved,
/// else a percent sign and its two hexadecimal digits.
pub open spec fn encoded_byte(byte: u8) -> Seq<char> {
    if is_unreserved(byte) {
        seq![byte as char]
    } else {
        seq!['%', hex_char((byte / 16) as nat), hex_char((byte % 16) as nat)]
    }
}

/// A run of bytes as it is written in an address, byte by byte.
pub open spec fn encoded_bytes(bytes: Seq<u8>) -> Seq<char>
    decreases bytes.len(),
{
    if bytes.len() == 0 {
        Seq::empty()
    } else {
        encoded_bytes(bytes.drop_last()) + encoded_byte(bytes.last())
    }
}

/// A search term as it is written in an address: the bytes of its UTF-8
/// form, percent-encoded.
pub open spec fn encoded_term(term: Seq<char>) -> Seq<char> {
    encoded_bytes(encode_utf8(term))
}

/// Whether a character can stand in an encoded term: an unreserved ASCII
/// character or the percent sign.
pub open spec fn is_term_char(c: char) -> bool {
    c == '%' || (c as nat <= 0x7F && is_unreserved(c as u8))
}

/// An encoded term holds nothing but unreserved characters and percent
/// signs: no `&`, `=`, `#` or space of the term can end its parameter, open
/// another one or cut the address short.
pub proof fn law_encoded_term_is_one_parameter(term: Seq<char>)
    ensures
        forall|i: int|
            0 <= i < encoded_term(term).len() ==> is_term_char(#[trigger] encoded_term(term)[i]),
{
    lemma_encoded_bytes_chars(encode_utf8(term));
}

/// Each character of a run of encoded bytes is unreserved or a percent sign.
proof fn lemma_encoded_bytes_chars(bytes: Seq<u8>)
    ensures
        forall|i: int|
            0 <= i < encoded_bytes(bytes).len() ==> is_term_char(#[trigger] encoded_bytes(bytes)[i]),
    decreases bytes.len(),
{
    if bytes.len() > 0 {
        lemma_encoded_bytes_chars(bytes.drop_last());
        let front = encoded_bytes(bytes.drop_last());
        let last = encoded_byte(bytes.last());
        assert forall|i: int| 0 <= i < encoded_bytes(bytes).len() implies is_term_char(
            #[trigger] encoded_bytes(bytes)[i],
        ) by {
            if i < front.len() {
                assert(encoded_bytes(bytes)[i] == front[i]);
            } else {
                assert(encoded_bytes(bytes)[i] == last[i - front.len()]);
            }
        }
    }
}

/// The address of result page `page` of a search for `term`.
pub open spec fn search_url_text(term: Seq<char>, page: nat) -> Seq<char> {
    SEARCH_ADDRESS@ + encoded_term(term) + PAGE_PARAMETER@ + decimal_text(page) + ORDER_PARAMETER@
}

/// Appends one character with std's `String::push`: afterwards the string
/// is what it was, with `c` behind it.
#[verifier::external_body]
fn push_char(out: &mut String, c: char)
    ensures
        final(out)@ == old(out)@.push(c),
{
    out.push(c);
}

/// The upper-case hexadecimal digit for `value`.
fn hex_digit(value: u8) -> (digit: char)
    requires
        value < 16,
    ensures
        digit == hex_char(value as nat),
{
    if value < 10 {
        (0x30 + value) as char
    } else {
        (0x41 + (value - 10)) as char
    }
}

/// Percent-encodes a search term for use in an address. Letters, digits
/// and `-`, `.`, `_`, `~` stand as they are; every other byte of the term's
/// UTF-8 form becomes `%` and two upper-case hexadecimal digits.
pub fn encode_term(term: &str) -> (encoded: String)
    ensures
        encoded@ == encoded_term(term@),
{
    let bytes = term.as_bytes();
    let mut encoded = String::new();
    let mut i: usize = 0;
    while i < bytes.len()
        invariant
            i <= bytes.len(),
            encoded@ == encoded_bytes(bytes@.take(i as int)),
        decreases bytes.len() - i,
    {
        let byte = bytes[i];
        proof {
            assert(bytes@.take(i + 1).drop_last() =~= bytes@.take(i as int));
        }
        if (0x41 <= byte && byte <= 0x5A) || (0x61 <= byte && byte <= 0x7A) || (0x30 <= byte
            && byte <= 0x39) || byte == 0x2D || byte == 0x2E || byte == 0x5F || byte == 0x7E {
            push_char(&mut encoded, byte as char);
        } else {
            push_char(&mut encoded, '%');
            push_char(&mut encoded, hex_digit(byte / 16));
            push_char(&mut encoded, hex_digit(byte % 16));
        }
        i = i + 1;
        assert(encoded@ =~= encoded_bytes(bytes@.take(i as int)));
    }
    proof {
        bytes@.lemma_take_len();
    }
    encoded
}

/// Builds the address of result page `page` of a search for `term`, with
/// the term percent-encoded.
pub fn search_url(term: &str, page: u8) -> (url: String)
    ensures
        url@ == search_url_text(term@, page as nat),
{
    let mut url = SEARCH_ADDRESS.to_owned();
    let encoded = encode_term(term);
    url.append(encoded.as_str());
    url.append(PAGE_PARAMETER);
    push_decimal(&mut url, page as u64);
    url.append(ORDER_PARAMETER);
    url
}

/// The buffer that a run of page bodies makes: the bodies one behind the
/// other, in order, with nothing between them.
pub open spec fn joined(bodies: Seq<Seq<char>>) -> Seq<char>
    decreases bodies.len(),
{
    if bodies.len() == 0 {
        Seq::empty()
    } else {
        joined(bodies.drop_last()) + bodies.last()
    }
}

/// The state of a fetch as a mathematical value.
pub struct FetchState {
    /// The search term.
    pub term: Seq<char>,
    /// How many pages the search asks for.
    pub pages: nat,
    /// The bodies that have arrived, in order of page number.
    pub bodies: Seq<Seq<char>>,
    /// Whether a request has failed.
    pub failed: bool,
}

impl FetchState {
    /// Whether a page is still to be asked for.
    pub open spec fn pending(self) -> bool {
        !self.failed && self.bodies.len() < self.pages
    }
}

/// A fetch in progress.
pub struct PageFetcher {
    term: String,
    pages: u8,
    received: u8,
    failed: bool,
    buffer: String,
    bodies: Ghost<Seq<Seq<char>>>,
}

impl View for PageFetcher {
    type V = FetchState;

    closed spec fn view(&self) -> FetchState {
        FetchState {
            term: self.term@,
            pages: self.pages as nat,
            bodies: self.bodies@,
            failed: self.failed,
        }
    }
}

impl PageFetcher {
    #[verifier::type_invariant]
    spec fn well_formed(self) -> bool {
        &&& self.received <= self.pages
        &&& self.received == self.bodies@.len()
        &&& self.buffer@ == joined(self.bodies@)
    }

    /// A fetch that has not asked for anything yet.
    pub fn new(query: &SearchQuery) -> (fetcher: Self)
        ensures
            fetcher@ == (FetchState {
                term: query.term@,
                pages: query.pages as nat,
                bodies: Seq::empty(),
                failed: false,
            }),
            fetcher@.pages <= u8::MAX,
    {
        PageFetcher {
            term: query.term.clone(),
            pages: query.pages,
            received: 0,
            failed: false,
            buffer: String::new(),
            bodies: Ghost(Seq::empty()),
        }
    }

    /// The address to ask for next: that of the page after the last one
    /// received. `None` once every page has arrived or a request has failed.
    pub fn next_request(&self) -> (url: Option<String>)
        ensures
            match url {
                Some(address) => self@.pending() && address@ == search_url_text(
                    self@.term,
                    self@.bodies.len() + 1,
                ),
                None => !self@.pending(),
            },
    {
        proof {
            use_type_invariant(self);
        }
        if self.failed || self.received >= self.pages {
            None
        } else {
            Some(search_url(self.term.as_str(), self.received + 1))
        }
    }

    /// The fetch after the body of the page that was asked for has arrived.
    /// Where no page was pending the body is dropped.
    pub fn receive(self, body: &str) -> (next: Self)
        ensures
            next@ == if self@.pending() {
                FetchState { bodies: self@.bodies.push(body@), ..self@ }
            } else {
                self@
            },
            next@.bodies.len() <= next@.pages,
    {
        proof {
            use_type_invariant(&self);
        }
        if self.failed || self.received >= self.pages {
            return self;
        }
        let ghost bodies = self.bodies@.push(body@);
        let mut buffer = self.buffer;
        buffer.append(body);
        proof {
            assert(bodies.drop_last() =~= self.bodies@);
        }
        PageFetcher {
            term: self.term,
            pages: self.pages,
            received: self.received + 1,
            failed: false,
            buffer,
            bodies: Ghost(bodies),
        }
    }

    /// The fetch after a request has failed. Nothing more is asked for.
    pub fn fail(self) -> (next: Self)
        ensures
            next@ == (FetchState { failed: true, ..self@ }),
            next@.bodies.len() <= next@.pages,
    {
        proof {
            use_type_invariant(&self);
        }
        PageFetcher {
            term: self.term,
            pages: self.pages,
            received: self.received,
            failed: true,
            buffer: self.buffer,
            bodies: self.bodies,
        }
    }

    /// Ends the fetch and hands out the buffer: the bodies of all pages as
    /// they arrived, one behind the other in page order. Fails with `Network` if a request failed or a
    /// page is still missing.
    pub fn finish(self) -> (outcome: Result<String, PricingError>)
        ensures
            match outcome {
                Ok(buffer) => !self@.failed && self@.bodies.len() == self@.pages && buffer@
                    == joined(self@.bodies),
                Err(e) => e == PricingError::Network && (self@.failed || self@.bodies.len()
                    < self@.pages),
            },
    {
        proof {
            use_type_invariant(&self);
        }
        if self.failed || self.received < self.pages {
            Err(PricingError::Network)
        } else {
            Ok(self.buffer)
        }
    }
}

} // verus!
