use std::collections::HashMap;
use vstd::prelude::*;
use vstd::utf8::{decode_utf8, encode_utf8, valid_utf8};

use crate::codec::{code_of, encoded_stream, CodecError, TOKEN_LIMIT};

verus! {

broadcast use vstd::std_specs::hash::group_hash_axioms;

/// The largest token that a dictionary hands out when it is written.
pub const MAX_TOKEN: u16 = 16509;

/// Why a dictionary could not be built, read or written.
#[derive(Debug, Clone, Copy, PartialEq, Eq, Structural)]
pub enum DictionaryError {
    /// Token 0 stands for an unknown word and maps to none.
    ReservedToken,
    /// The word or the token is in the dictionary already.
    Duplicate,
    /// A stored word is not valid UTF-8.
    InvalidUtf8,
    /// The stored table ends inside a record.
    TruncatedRecord,
    /// A word takes more than 255 bytes in UTF-8.
    WordTooLong,
}

/// `e` holds the word `w`.
pub open spec fn has_word(e: Seq<(Seq<char>, u16)>, w: Seq<char>) -> bool {
    exists|i: int| 0 <= i < e.len() && (#[trigger] e[i]).0 == w
}

/// `e` holds the token `t`.
pub open spec fn has_token(e: Seq<(Seq<char>, u16)>, t: u16) -> bool {
    exists|i: int| 0 <= i < e.len() && (#[trigger] e[i]).1 == t
}

/// The token of `w` in `e`, or 0 where `e` has no such word.
pub open spec fn token_of(e: Seq<(Seq<char>, u16)>, w: Seq<char>) -> u16 {
    if has_word(e, w) {
        e[choose|i: int| 0 <= i < e.len() && (#[trigger] e[i]).0 == w].1
    } else {
        0
    }
}

/// The word of `t` in `e`, if `e` holds that token.
pub open spec fn word_of(e: Seq<(Seq<char>, u16)>, t: u16) -> Option<Seq<char>> {
    if has_token(e, t) {
        Some(e[choose|i: int| 0 <= i < e.len() && (#[trigger] e[i]).1 == t].0)
    } else {
        None
    }
}

/// No entry maps to token 0, and no word and no token occurs twice.
pub open spec fn entries_wf(e: Seq<(Seq<char>, u16)>) -> bool {
    &&& forall|i: int| 0 <= i < e.len() ==> (#[trigger] e[i]).1 != 0
    &&& forall|i: int, j: int|
        0 <= i < e.len() && 0 <= j < e.len() && i != j ==> (#[trigger] e[i]).0 != (#[trigger] e[j]).0
            && e[i].1 != e[j].1
}

/// What adding the pair `(w, t)` to `e` gives.
pub open spec fn insert_result(e: Seq<(Seq<char>, u16)>, w: Seq<char>, t: u16) -> Result<
    Seq<(Seq<char>, u16)>,
    DictionaryError,
> {
    if t == 0 {
        Err(DictionaryError::ReservedToken)
    } else if has_word(e, w) || has_token(e, t) {
        Err(DictionaryError::Duplicate)
    } else {
        Ok(e.push((w, t)))
    }
}

/// The token that a record's first two bytes stand for (little-endian).
pub open spec fn record_token(b0: u8, b1: u8) -> u16 {
    (b0 as int + 256 * b1 as int) as u16
}

/// What loading the stored table `b` on top of the entries `acc` gives.
/// A record is a two-byte token, a four-byte frequency, a one-byte length
/// `L` and `L` bytes of UTF-8 text; records follow one another to the end.
pub open spec fn load_records(acc: Seq<(Seq<char>, u16)>, b: Seq<u8>) -> Result<
    Seq<(Seq<char>, u16)>,
    DictionaryError,
>
    decreases b.len(),
{
    if b.len() == 0 {
        Ok(acc)
    } else if b.len() < 7 || b.len() < 7 + b[6] {
        Err(DictionaryError::TruncatedRecord)
    } else {
        let end = 7 + b[6] as int;
        let text = b.subrange(7, end);
        if !valid_utf8(text) {
            Err(DictionaryError::InvalidUtf8)
        } else {
            match insert_result(acc, decode_utf8(text), record_token(b[0], b[1])) {
                Ok(next) => load_records(next, b.subrange(end, b.len() as int)),
                Err(x) => Err(x),
            }
        }
    }
}

/// A ranked vocabulary as words and frequencies.
pub open spec fn vocab_model(v: Seq<(&String, &i32)>) -> Seq<(Seq<char>, i32)> {
    v.map_values(|p: (&String, &i32)| (p.0@, *p.1))
}

/// Where keeping entries of `v` stops, looking from index `i` on: at the end
/// of `v`, once `MAX_TOKEN` entries are kept, or at the first entry whose
/// frequency is below `cutoff`.
pub open spec fn kept_from(v: Seq<(Seq<char>, i32)>, cutoff: i32, i: int) -> int
    decreases v.len() - i,
{
    if i >= v.len() || i >= MAX_TOKEN || v[i].1 < cutoff {
        i
    } else {
        kept_from(v, cutoff, i + 1)
    }
}

/// How many leading entries of `v` receive a token.
pub open spec fn kept_count(v: Seq<(Seq<char>, i32)>, cutoff: i32) -> int {
    kept_from(v, cutoff, 0)
}

/// The sum of the first `n` frequencies of `v`.
pub open spec fn prefix_mass(v: Seq<(Seq<char>, i32)>, n: int) -> int
    decreases n,
{
    if n <= 0 {
        0
    } else {
        prefix_mass(v, n - 1) + v[n - 1].1
    }
}

/// `t` as two little-endian bytes.
pub open spec fn le_u16(t: u16) -> Seq<u8> {
    seq![(t % 256) as u8, (t / 256) as u8]
}

/// `f` in two's complement as four little-endian bytes.
pub open spec fn le_i32(f: i32) -> Seq<u8> {
    let u: int = if f < 0 { f + 0x1_0000_0000 } else { f as int };
    seq![(u % 256) as u8, (u / 0x100 % 256) as u8, (u / 0x1_0000 % 256) as u8, (u / 0x100_0000) as u8]
}

/// The stored record of the word `w` with token `t` and frequency `f`.
pub open spec fn record_bytes(t: u16, f: i32, w: Seq<char>) -> Seq<u8> {
    le_u16(t) + le_i32(f) + seq![encode_utf8(w).len() as u8] + encode_utf8(w)
}

/// The records of entries `i` up to `n` of `v`, entry `k` with token `k + 1`.
pub open spec fn table_bytes(v: Seq<(Seq<char>, i32)>, i: int, n: int) -> Seq<u8>
    decreases n - i,
{
    if i >= n {
        Seq::empty()
    } else {
        record_bytes((i + 1) as u16, v[i].1, v[i].0) + table_bytes(v, i + 1, n)
    }
}

/// Some word among the kept entries of `v` takes more than 255 bytes.
pub open spec fn has_long_word(v: Seq<(Seq<char>, i32)>, cutoff: i32) -> bool {
    exists|k: int| 0 <= k < kept_count(v, cutoff) && encode_utf8((#[trigger] v[k]).0).len() > 255
}

proof fn lemma_kept_from_bounds(v: Seq<(Seq<char>, i32)>, cutoff: i32, i: int)
    requires
        0 <= i,
    ensures
        i <= kept_from(v, cutoff, i),
        kept_from(v, cutoff, i) <= v.len() || kept_from(v, cutoff, i) == i,
        kept_from(v, cutoff, i) <= MAX_TOKEN || kept_from(v, cutoff, i) == i,
    decreases v.len() - i,
{
    if !(i >= v.len() || i >= MAX_TOKEN || v[i].1 < cutoff) {
        lemma_kept_from_bounds(v, cutoff, i + 1 as int);
    }
}

proof fn lemma_table_push(v: Seq<(Seq<char>, i32)>, i: int, n: int)
    requires
        0 <= i <= n,
    ensures
        table_bytes(v, i, n + 1) == table_bytes(v, i, n) + record_bytes(
            (n + 1) as u16,
            v[n].1,
            v[n].0,
        ),
    decreases n - i,
{
    if i < n {
        lemma_table_push(v, i + 1, n);
        assert(table_bytes(v, i, n + 1) =~= table_bytes(v, i, n) + record_bytes(
            (n + 1) as u16,
            v[n].1,
            v[n].0,
        ));
    } else {
        assert(table_bytes(v, n + 1, n + 1) =~= Seq::<u8>::empty());
        assert(table_bytes(v, i, n + 1) =~= table_bytes(v, i, n) + record_bytes(
            (n + 1) as u16,
            v[n].1,
            v[n].0,
        ));
    }
}

/// Relies on String::from_utf8: it accepts exactly the valid UTF-8 byte
/// sequences, and the string it returns holds those bytes.
#[verifier::external_body]
fn string_from_utf8(bytes: Vec<u8>) -> (r: Option<String>)
    ensures
        r is Some <==> valid_utf8(bytes@),
        r matches Some(s) ==> encode_utf8(s@) == bytes@,
{
    String::from_utf8(bytes).ok()
}

/// A two-way mapping between words and tokens. Token 0 means "unknown word"
/// and is never stored. Entries are kept in the order they were added; a
/// token is found through an index, a word by a scan of the entries.
pub struct TokenDictionary {
    data: Vec<(String, u16)>,
    token_to_index: HashMap<u16, usize>,
}

impl View for TokenDictionary {
    type V = Seq<(Seq<char>, u16)>;

    /// The entries in the order in which they were added.
    closed spec fn view(&self) -> Seq<(Seq<char>, u16)> {
        self.data@.map_values(|p: (String, u16)| (p.0@, p.1))
    }
}

impl TokenDictionary {
    /// The entries are well formed and the token index points at each
    /// token's entry.
    pub closed spec fn wf(&self) -> bool {
        &&& entries_wf(self@)
        &&& forall|t: u16| #[trigger] self.token_to_index@.contains_key(t) <==> has_token(self@, t)
        &&& forall|t: u16| #[trigger]
            self.token_to_index@.contains_key(t) ==> {
                let i = self.token_to_index@[t] as int;
                0 <= i < self@.len() && self@[i].1 == t
            }
    }

    /// A dictionary with no entries.
    pub fn empty() -> (r: TokenDictionary)
        ensures
            r.wf(),
            r@ == Seq::<(Seq<char>, u16)>::empty(),
    {
        let r = TokenDictionary { data: Vec::new(), token_to_index: HashMap::new() };
        assert(r@ =~= Seq::<(Seq<char>, u16)>::empty());
        r
    }

    /// The number of entries.
    pub fn len(&self) -> (r: usize)
        ensures
            r == self@.len(),
    {
        self.data.len()
    }

    /// The index of the entry that holds `w`, if there is one.
    fn find_word(&self, w: &String) -> (r: Option<usize>)
        requires
            self.wf(),
        ensures
            match r {
                Some(i) => i < self@.len() && self@[i as int].0 == w@,
                None => !has_word(self@, w@),
            },
    {
        let mut i: usize = 0;
        while i < self.data.len()
            invariant
                i <= self.data.len(),
                self@.len() == self.data.len(),
                forall|k: int| 0 <= k < i ==> (#[trigger] self@[k]).0 != w@,
            decreases self.data.len() - i,
        {
            assert(self@[i as int] == (self.data@[i as int].0@, self.data@[i as int].1));
            if self.data[i].0 == *w {
                return Some(i);
            }
            i = i + 1;
        }
        None
    }

    /// Adds the pair `(string, token)`. Fails on token 0, and where the word
    /// or the token is present already; the dictionary is then unchanged.
    pub fn insert(&mut self, string: String, token: u16) -> (r: Result<(), DictionaryError>)
        requires
            old(self).wf(),
        ensures
            final(self).wf(),
            match insert_result(old(self)@, string@, token) {
                Ok(e) => r is Ok && final(self)@ == e,
                Err(x) => r == Err::<(), DictionaryError>(x) && final(self)@ == old(self)@,
            },
    {
        if token == 0 {
            return Err(DictionaryError::ReservedToken);
        }
        let found = self.find_word(&string);
        if found.is_some() || self.token_to_index.contains_key(&token) {
            return Err(DictionaryError::Duplicate);
        }
        let ghost before = self@;
        let index = self.data.len();
        let ghost w = string@;
        self.data.push((string, token));
        self.token_to_index.insert(token, index);
        assert(self@ =~= before.push((w, token)));
        assert forall|t: u16| #[trigger]
            self.token_to_index@.contains_key(t) <==> has_token(self@, t) by {
            if has_token(before, t) {
                let i = choose|i: int| 0 <= i < before.len() && (#[trigger] before[i]).1 == t;
                assert(self@[i] == before[i]);
            }
            if t == token {
                assert(self@[index as int].1 == t);
            }
            if has_token(self@, t) && t != token {
                let i = choose|i: int| 0 <= i < self@.len() && (#[trigger] self@[i]).1 == t;
                assert(before[i] == self@[i]);
            }
        }
        Ok(())
    }

    /// The token of `string`, or 0 (the unknown word) where it is absent.
    pub fn get_by_str(&self, string: &String) -> (r: u16)
        requires
            self.wf(),
        ensures
            r == token_of(self@, string@),
    {
        match self.find_word(string) {
            None => 0,
            Some(i) => {
                assert(self@[i as int] == (self.data@[i as int].0@, self.data@[i as int].1));
                let ghost j = choose|j: int| 0 <= j < self@.len() && (#[trigger] self@[j]).0 == string@;
                assert(j == i as int);
                self.data[i].1
            },
        }
    }

    /// The word of `token`, if the dictionary holds that token.
    pub fn get_by_token(&self, token: u16) -> (r: Option<String>)
        requires
            self.wf(),
        ensures
            match r {
                Some(s) => word_of(self@, token) == Some(s@),
                None => word_of(self@, token) is None,
            },
    {
        match self.token_to_index.get(&token) {
            None => None,
            Some(i) => {
                let index = *i;
                let ghost j = choose|j: int| 0 <= j < self@.len() && (#[trigger] self@[j]).1 == token;
                assert(self@[index as int] == (self.data@[index as int].0@, self.data@[index as int].1));
                assert(j == index as int);
                Some(self.data[index].0.clone())
            },
        }
    }
}

impl TokenDictionary {
    /// Builds a dictionary from the stored table `source`, record by record.
    pub fn read_dictionary(source: &[u8]) -> (r: Result<TokenDictionary, DictionaryError>)
        ensures
            match load_records(Seq::empty(), source@) {
                Ok(e) => r matches Ok(d) && d.wf() && d@ == e,
                Err(x) => r matches Err(y) && y == x,
            },
    {
        let mut td = TokenDictionary::empty();
        let len = source.len();
        let mut pos: usize = 0;
        assert(source@.subrange(0, len as int) =~= source@);
        while pos < len
            invariant
                len == source@.len(),
                pos <= len,
                td.wf(),
                load_records(Seq::empty(), source@) == load_records(
                    td@,
                    source@.subrange(pos as int, len as int),
                ),
            decreases len - pos,
        {
            let ghost rest = source@.subrange(pos as int, len as int);
            if len - pos < 7 {
                return Err(DictionaryError::TruncatedRecord);
            }
            let token = source[pos] as u16 + 256 * (source[pos + 1] as u16);
            let string_length = source[pos + 6] as usize;
            assert(rest[6] == source@[pos + 6]);
            if len - pos - 7 < string_length {
                return Err(DictionaryError::TruncatedRecord);
            }
            let start = pos + 7;
            let end = start + string_length;
            let mut bytes: Vec<u8> = Vec::new();
            let mut k: usize = start;
            while k < end
                invariant
                    start <= k <= end <= len == source@.len(),
                    bytes@ == source@.subrange(start as int, k as int),
                decreases end - k,
            {
                bytes.push(source[k]);
                assert(bytes@ =~= source@.subrange(start as int, k + 1));
                k = k + 1;
            }
            assert(bytes@ =~= rest.subrange(7, 7 + rest[6] as int));
            assert(token == record_token(rest[0], rest[1]));
            let text = match string_from_utf8(bytes) {
                None => return Err(DictionaryError::InvalidUtf8),
                Some(s) => s,
            };
            proof {
                vstd::utf8::encode_utf8_decode_utf8(text@);
            }
            match td.insert(text, token) {
                Err(x) => return Err(x),
                Ok(()) => {},
            }
            assert(rest.subrange(7 + rest[6] as int, rest.len() as int) =~= source@.subrange(
                end as int,
                len as int,
            ));
            pos = end;
        }
        Ok(td)
    }
}

impl TokenDictionary {
    /// Writes the stored table of `vocab`, ranked by falling frequency: the
    /// kept entries get tokens 1, 2, ... in order. Returns how many entries
    /// were written and the sum of their frequencies. Fails, writing nothing,
    /// where a kept word takes more than 255 bytes.
    pub fn write_dictionary(dest: &mut Vec<u8>, vocab: &Vec<(&String, &i32)>, cutoff: i32) -> (r:
        Result<(u16, i32), DictionaryError>)
        requires
            forall|n: int|
                0 <= n <= kept_count(vocab_model(vocab@), cutoff) ==> i32::MIN <= #[trigger] prefix_mass(
                    vocab_model(vocab@),
                    n,
                ) <= i32::MAX,
        ensures
            ({
                let v = vocab_model(vocab@);
                let n = kept_count(v, cutoff);
                match r {
                    Ok((count, mass)) => !has_long_word(v, cutoff) && count == n && mass == prefix_mass(
                        v,
                        n,
                    ) && final(dest)@ == old(dest)@ + table_bytes(v, 0, n),
                    Err(e) => has_long_word(v, cutoff) && e == DictionaryError::WordTooLong
                        && final(dest)@ == old(dest)@,
                }
            }),
    {
        let ghost v = vocab_model(vocab@);
        let mut out: Vec<u8> = Vec::new();
        let mut counter: u16 = 0;
        let mut mass: i32 = 0;
        let mut i: usize = 0;
        proof {
            lemma_kept_from_bounds(v, cutoff, 0);
        }
        while i < vocab.len()
            invariant
                v == vocab_model(vocab@),
                v.len() == vocab.len(),
                i <= vocab.len(),
                i <= MAX_TOKEN,
                counter == i,
                kept_from(v, cutoff, 0) == kept_from(v, cutoff, i as int),
                i <= kept_count(v, cutoff),
                forall|n: int|
                    0 <= n <= kept_count(v, cutoff) ==> i32::MIN <= #[trigger] prefix_mass(v, n)
                        <= i32::MAX,
                mass == prefix_mass(v, i as int),
                out@ == table_bytes(v, 0, i as int),
                forall|k: int| 0 <= k < i ==> encode_utf8((#[trigger] v[k]).0).len() <= 255,
            ensures
                kept_from(v, cutoff, i as int) == i,
            decreases vocab.len() - i,
        {
            let word = vocab[i].0;
            let freq: i32 = *vocab[i].1;
            assert(v[i as int] == (word@, freq));
            if freq < cutoff || counter >= MAX_TOKEN {
                assert(kept_from(v, cutoff, i as int) == i);
                break;
            }
            proof {
                assert(kept_from(v, cutoff, i as int) == kept_from(v, cutoff, i + 1));
                lemma_kept_from_bounds(v, cutoff, i + 1 as int);
                assert(prefix_mass(v, i + 1) == prefix_mass(v, i as int) + freq);
                assert(i32::MIN <= prefix_mass(v, i + 1) <= i32::MAX);
            }
            let bytes = word.as_str().as_bytes();
            if bytes.len() > 255 {
                assert(encode_utf8(v[i as int].0).len() > 255);
                return Err(DictionaryError::WordTooLong);
            }
            let token: u16 = counter + 1;
            mass = mass + freq;
            out.push((token % 256) as u8);
            out.push((token / 256) as u8);
            let u: u32 = if freq < 0 {
                (freq as i64 + 0x1_0000_0000i64) as u32
            } else {
                freq as u32
            };
            out.push((u % 256) as u8);
            out.push((u / 0x100 % 256) as u8);
            out.push((u / 0x1_0000 % 256) as u8);
            out.push((u / 0x100_0000) as u8);
            out.push(bytes.len() as u8);
            let mut j: usize = 0;
            let ghost head = out@;
            while j < bytes.len()
                invariant
                    j <= bytes@.len(),
                    out@ == head + bytes@.subrange(0, j as int),
                decreases bytes@.len() - j,
            {
                out.push(bytes[j]);
                assert(out@ =~= head + bytes@.subrange(0, j + 1));
                j = j + 1;
            }
            proof {
                lemma_table_push(v, 0, i as int);
                assert(bytes@.subrange(0, j as int) =~= bytes@);
                assert(out@ =~= table_bytes(v, 0, i as int) + record_bytes(
                    token,
                    freq,
                    word@,
                ));
            }
            counter = counter + 1;
            i = i + 1;
        }
        assert(kept_from(v, cutoff, i as int) == i);
        assert(!has_long_word(v, cutoff));
        dest.append(&mut out);
        Ok((counter, mass))
    }
}

/// The words of `ws` as character sequences.
pub open spec fn word_views(ws: Seq<String>) -> Seq<Seq<char>> {
    ws.map_values(|w: String| w@)
}

/// The code stream of the words `ws`: the code of each word's token in turn,
/// with token 0 for an unknown word.
pub open spec fn words_stream(e: Seq<(Seq<char>, u16)>, ws: Seq<Seq<char>>) -> Seq<u8>
    decreases ws.len(),
{
    if ws.len() == 0 {
        Seq::empty()
    } else {
        words_stream(e, ws.drop_last()) + code_of(token_of(e, ws.last()))
    }
}

impl TokenDictionary {
    /// Appends to `out` the code of the token of each word of `words`, in
    /// order; an unknown word is coded as token 0. Stops with an error at the
    /// first word whose token the code cannot hold, after the codes of the
    /// words before it.
    pub fn encode_words(&self, words: &Vec<String>, out: &mut Vec<u8>) -> (r: Result<(), CodecError>)
        requires
            self.wf(),
        ensures
            ({
                let ws = word_views(words@);
                match r {
                    Ok(()) => (forall|i: int|
                        0 <= i < ws.len() ==> token_of(self@, #[trigger] ws[i]) < TOKEN_LIMIT)
                        && final(out)@ == old(out)@ + words_stream(self@, ws),
                    Err(x) => x == CodecError::TokenOutOfRange && exists|i: int|
                        0 <= i < ws.len() && token_of(self@, #[trigger] ws[i]) >= TOKEN_LIMIT
                            && (forall|j: int|
                            0 <= j < i ==> token_of(self@, #[trigger] ws[j]) < TOKEN_LIMIT)
                            && final(out)@ == old(out)@ + words_stream(self@, ws.subrange(0, i)),
                }
            }),
    {
        let ghost ws = word_views(words@);
        let ghost head = out@;
        let mut i: usize = 0;
        assert(ws.subrange(0, 0) =~= Seq::<Seq<char>>::empty());
        while i < words.len()
            invariant
                self.wf(),
                head == old(out)@,
                ws == word_views(words@),
                i <= words.len(),
                forall|j: int| 0 <= j < i ==> token_of(self@, #[trigger] ws[j]) < TOKEN_LIMIT,
                out@ == head + words_stream(self@, ws.subrange(0, i as int)),
            decreases words.len() - i,
        {
            let token = self.get_by_str(&words[i]);
            assert(ws[i as int] == words@[i as int]@);
            let ghost before = out@;
            match encoded_stream(out, token) {
                Err(x) => {
                    let ghost k = i as int;
                    assert(word_views(words@)[k] == ws[k]);
                    return Err(x);
                },
                Ok(()) => {},
            }
            assert(ws.subrange(0, i + 1).drop_last() =~= ws.subrange(0, i as int));
            assert(out@ =~= head + words_stream(self@, ws.subrange(0, i + 1)));
            i = i + 1;
        }
        assert(ws.subrange(0, i as int) =~= ws);
        Ok(())
    }
}

/// The entries that reading back the first `n` records of `v` should give:
/// word `k` with token `k + 1`.
pub open spec fn ranked(v: Seq<(Seq<char>, i32)>, n: int) -> Seq<(Seq<char>, u16)> {
    Seq::new(n as nat, |k: int| (v[k].0, (k + 1) as u16))
}

proof fn lemma_load_table(v: Seq<(Seq<char>, i32)>, i: int, n: int)
    requires
        0 <= i <= n <= v.len(),
        n <= MAX_TOKEN,
        forall|a: int, b: int|
            0 <= a < n && 0 <= b < n && a != b ==> (#[trigger] v[a]).0 != (#[trigger] v[b]).0,
        forall|k: int| 0 <= k < n ==> encode_utf8((#[trigger] v[k]).0).len() <= 255,
    ensures
        load_records(ranked(v, i), table_bytes(v, i, n)) == Ok::<
            Seq<(Seq<char>, u16)>,
            DictionaryError,
        >(ranked(v, n)),
    decreases n - i,
{
    broadcast use vstd::utf8::encode_utf8_valid_utf8, vstd::utf8::encode_utf8_decode_utf8;

    if i == n {
        assert(ranked(v, i) =~= ranked(v, n));
    } else {
        let t = (i + 1) as u16;
        let w = v[i].0;
        let wb = encode_utf8(w);
        let len = wb.len() as int;
        let rec = record_bytes(t, v[i].1, w);
        let rest = table_bytes(v, i + 1, n);
        let b = table_bytes(v, i, n);
        assert(b == rec + rest);
        assert(rec.len() == 7 + len);
        assert(b[6] == len as u8);
        assert(b[6] as int == len);
        assert(b.subrange(7, 7 + len) =~= wb);
        assert(b[0] == (t % 256) as u8 && b[1] == (t / 256) as u8);
        let tt = t as int;
        assert(tt % 256 + 256 * (tt / 256) == tt) by (nonlinear_arith);
        assert(record_token(b[0], b[1]) == t);
        let acc = ranked(v, i);
        assert(!has_word(acc, w)) by {
            if has_word(acc, w) {
                let k = choose|k: int| 0 <= k < acc.len() && (#[trigger] acc[k]).0 == w;
                assert(v[k].0 == w);
            }
        }
        assert(!has_token(acc, t)) by {
            if has_token(acc, t) {
                let k = choose|k: int| 0 <= k < acc.len() && (#[trigger] acc[k]).1 == t;
                assert(acc[k].1 == (k + 1) as u16);
            }
        }
        assert(acc.push((w, t)) =~= ranked(v, i + 1));
        assert(b.subrange(7 + len, b.len() as int) =~= rest);
        lemma_load_table(v, i + 1, n);
    }
}

/// Reading back the table that `write_dictionary` writes for a ranked
/// vocabulary with distinct kept words gives each kept word the token of its
/// rank (1 for the first), and gives that token the word back.
pub proof fn lemma_dictionary_round_trip(v: Seq<(Seq<char>, i32)>, cutoff: i32)
    requires
        !has_long_word(v, cutoff),
        forall|a: int, b: int|
            0 <= a < kept_count(v, cutoff) && 0 <= b < kept_count(v, cutoff) && a != b
                ==> (#[trigger] v[a]).0 != (#[trigger] v[b]).0,
    ensures
        ({
            let n = kept_count(v, cutoff);
            &&& load_records(Seq::empty(), table_bytes(v, 0, n)) == Ok::<
                Seq<(Seq<char>, u16)>,
                DictionaryError,
            >(ranked(v, n))
            &&& forall|k: int|
                0 <= k < n ==> token_of(ranked(v, n), (#[trigger] v[k]).0) == k + 1 && word_of(
                    ranked(v, n),
                    (k + 1) as u16,
                ) == Some(v[k].0)
        }),
{
    let n = kept_count(v, cutoff);
    lemma_kept_from_bounds(v, cutoff, 0);
    assert(ranked(v, 0) =~= Seq::<(Seq<char>, u16)>::empty());
    assert forall|k: int| 0 <= k < n implies encode_utf8((#[trigger] v[k]).0).len() <= 255 by {
        if encode_utf8(v[k].0).len() > 255 {
            assert(has_long_word(v, cutoff));
        }
    }
    lemma_load_table(v, 0, n);
    let e = ranked(v, n);
    assert forall|k: int| 0 <= k < n implies token_of(e, (#[trigger] v[k]).0) == k + 1 && word_of(
        e,
        (k + 1) as u16,
    ) == Some(v[k].0) by {
        assert(e[k].0 == v[k].0);
        let j = choose|j: int| 0 <= j < e.len() && (#[trigger] e[j]).0 == v[k].0;
        assert(v[j].0 == v[k].0);
        assert(j == k);
        assert(e[k].1 == (k + 1) as u16);
        let m = choose|m: int| 0 <= m < e.len() && (#[trigger] e[m]).1 == (k + 1) as u16;
        assert(m == k);
    }
}

/// Token 0 is never accepted, nor a word or a token that is present already;
/// an absent word looks up as token 0.
pub proof fn lemma_dictionary_rules(e: Seq<(Seq<char>, u16)>, w: Seq<char>, t: u16)
    ensures
        t == 0 ==> insert_result(e, w, t) == Err::<Seq<(Seq<char>, u16)>, DictionaryError>(
            DictionaryError::ReservedToken,
        ),
        has_word(e, w) || has_token(e, t) ==> insert_result(e, w, t) is Err,
        !has_word(e, w) ==> token_of(e, w) == 0,
{
}

} // verus!
