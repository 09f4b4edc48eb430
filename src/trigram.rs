//! Lowercased trigram extraction for substring-tolerant search.

use crate::tokenizer::{
    is_binary, looks_binary,
    is_token_byte, lemma_run_len_bound, lemma_tokens_skip, lower_bytes, run_len,
    to_lowercase, tokens_from,
};
use vstd::prelude::*;
use vstd::string::StringSliceAdditionalSpecFns;

verus! {

/// Tokens shorter than this yield no trigram.
pub const MIN_TRIGRAM_TOKEN_LENGTH: usize = 3;

/// Three bytes packed into the low 24 bits of a `u32`, first byte highest.
pub open spec fn packed(a: u8, b: u8, c: u8) -> u32 {
    (a as int * 65536 + b as int * 256 + c as int) as u32
}

/// The three bytes held in the low 24 bits of `t`, highest first.
pub open spec fn unpacked(t: u32) -> (u8, u8, u8) {
    (((t as int / 65536) % 256) as u8, ((t as int / 256) % 256) as u8, (t as int % 256) as u8)
}

/// Every three-byte window of `t`, packed, left to right.
pub open spec fn windows(t: Seq<u8>) -> Seq<u32> {
    if t.len() < 3 {
        seq![]
    } else {
        Seq::new((t.len() - 2) as nat, |k: int| packed(t[k], t[k + 1], t[k + 2]))
    }
}

/// The windows of each token after ASCII lowercasing, concatenated in order.
pub open spec fn token_windows(ts: Seq<Seq<u8>>) -> Seq<u32> {
    ts.map_values(|t: Seq<u8>| windows(lower_bytes(t))).flatten()
}

/// The trigrams of `s`: the lowercased windows of every identifier-like token
/// (letters, digits, `_`, `-`) of length at least three, in order.
pub open spec fn trigrams(s: Seq<u8>) -> Seq<u32> {
    token_windows(tokens_from(s, true, 3, 0))
}

pub proof fn lemma_token_windows_first(ts: Seq<Seq<u8>>)
    requires
        ts.len() > 0,
    ensures
        token_windows(ts) == windows(lower_bytes(ts[0])) + token_windows(ts.drop_first()),
{
    let m = ts.map_values(|t: Seq<u8>| windows(lower_bytes(t)));
    assert(m.drop_first() =~= ts.drop_first().map_values(|t: Seq<u8>| windows(lower_bytes(t))));
}

/// Unpacking a packed trigram gives back its three bytes.
pub proof fn lemma_trigram_round_trip(a: u8, b: u8, c: u8)
    ensures
        unpacked(packed(a, b, c)) == (a, b, c),
{
    let v = a as int * 65536 + b as int * 256 + c as int;
    assert(v < 0x1000000) by (nonlinear_arith)
        requires
            v == a as int * 65536 + b as int * 256 + c as int,
            a < 256,
            b < 256,
            c < 256,
    ;
    assert(v / 65536 == a as int && (v / 256) % 256 == b as int && v % 256 == c as int) by (nonlinear_arith)
        requires
            v == a as int * 65536 + b as int * 256 + c as int,
            a < 256,
            b < 256,
            c < 256,
    ;
}

/// Pack three bytes into a `u32`.
pub fn pack_trigram(a: u8, b: u8, c: u8) -> (r: u32)
    ensures
        r == packed(a, b, c),
        r < 0x1000000,
{
    let r = ((a as u32) << 16) | ((b as u32) << 8) | (c as u32);
    let (x, y, z) = (a as u32, b as u32, c as u32);
    assert((x << 16) | (y << 8) | z == x * 65536 + y * 256 + z && x * 65536 + y * 256 + z < 0x1000000)
        by (bit_vector)
        requires
            x < 256,
            y < 256,
            z < 256,
    ;
    r
}

/// Unpack a `u32` trigram into its three bytes.
pub fn unpack_trigram(trigram: u32) -> (r: (u8, u8, u8))
    ensures
        r == unpacked(trigram),
{
    let t = trigram;
    assert(((t >> 16) & 0xFF) == (t / 65536) % 256 && ((t >> 8) & 0xFF) == (t / 256) % 256 && (t
        & 0xFF) == t % 256) by (bit_vector);
    (((trigram >> 16) & 0xFF) as u8, ((trigram >> 8) & 0xFF) as u8, (trigram & 0xFF) as u8)
}

fn is_trigram_token_char(byte: u8) -> (r: bool)
    ensures
        r == is_token_byte(byte, true),
{
    (48 <= byte && byte <= 57) || (65 <= byte && byte <= 90) || (97 <= byte && byte <= 122) || byte
        == 95 || byte == 45
}

/// Scanner of trigrams: the `Some` results of `next_trigram` are `trigrams(content)`, in order.
pub struct TrigramIterator<'a> {
    content: &'a [u8],
    position: usize,
    token_buf: Vec<u8>,
    token_pos: usize,
}

impl<'a> TrigramIterator<'a> {
    /// The bytes being scanned.
    pub closed spec fn content(&self) -> Seq<u8> {
        self.content@
    }

    /// The scan position.
    pub closed spec fn position(&self) -> int {
        self.position as int
    }

    /// The lowercased bytes of the current token.
    pub closed spec fn buffer(&self) -> Seq<u8> {
        self.token_buf@
    }

    /// The next window of the current token.
    pub closed spec fn window(&self) -> int {
        self.token_pos as int
    }

    /// The trigrams that are still to come.
    pub open spec fn remaining(&self) -> Seq<u32> {
        windows(self.buffer()).skip(self.window()) + token_windows(
            tokens_from(self.content(), true, 3, self.position()),
        )
    }

    pub open spec fn wf(&self) -> bool {
        &&& 0 <= self.position() <= self.content().len()
        &&& 0 <= self.window() <= windows(self.buffer()).len()
    }

    pub fn new(content: &'a [u8]) -> (r: Self)
        ensures
            r.wf(),
            r.content() == content@,
            r.remaining() == trigrams(content@),
    {
        let r = TrigramIterator { content, position: 0, token_buf: Vec::with_capacity(256), token_pos: 0 };
        assert(r.remaining() =~= trigrams(content@));
        r
    }

    /// Skip bytes that are not token bytes.
    fn skip_delimiters(&mut self)
        requires
            0 <= old(self).position() <= old(self).content().len(),
        ensures
            0 <= final(self).position() <= final(self).content().len(),
            old(self).position() <= final(self).position(),
            final(self).content() == old(self).content(),
            final(self).buffer() == old(self).buffer(),
            final(self).window() == old(self).window(),
            tokens_from(final(self).content(), true, 3, final(self).position()) == tokens_from(
                old(self).content(),
                true,
                3,
                old(self).position(),
            ),
            final(self).position() < final(self).content().len() ==> is_token_byte(
                final(self).content()[final(self).position()],
                true,
            ),
    {
        while self.position < self.content.len() && !is_trigram_token_char(self.content[self.position])
            invariant
                0 <= self.position() <= self.content().len(),
                old(self).position() <= self.position(),
                self.content() == old(self).content(),
                self.buffer() == old(self).buffer(),
                self.window() == old(self).window(),
                tokens_from(self.content(), true, 3, self.position()) == tokens_from(
                    old(self).content(),
                    true,
                    3,
                    old(self).position(),
                ),
            decreases self.content.len() - self.position,
        {
            proof {
                lemma_tokens_skip(self.content@, true, 3, self.position as int);
            }
            self.position += 1;
        }
    }

    /// Load the next token of at least three bytes, lowercased, into the buffer.
    /// Returns false once the content holds no such token.
    fn read_next_token(&mut self) -> (r: bool)
        requires
            0 <= old(self).position() <= old(self).content().len(),
        ensures
            final(self).wf(),
            final(self).content() == old(self).content(),
            final(self).position() >= old(self).position(),
            r ==> {
                let ts = tokens_from(old(self).content(), true, 3, old(self).position());
                &&& ts.len() > 0
                &&& final(self).buffer() == lower_bytes(ts[0])
                &&& final(self).window() == 0
                &&& final(self).buffer().len() >= 3
                &&& tokens_from(final(self).content(), true, 3, final(self).position())
                    == ts.drop_first()
            },
            !r ==> tokens_from(old(self).content(), true, 3, old(self).position()).len() == 0
                && final(self).remaining().len() == 0,
    {
        let ghost s = self.content@;
        loop
            invariant
                0 <= self.position() <= self.content().len(),
                self.content() == s,
                s == old(self).content(),
                self.position() >= old(self).position(),
                tokens_from(s, true, 3, self.position()) == tokens_from(
                    s,
                    true,
                    3,
                    old(self).position(),
                ),
            decreases self.content().len() - self.position(),
        {
            self.skip_delimiters();
            if self.position >= self.content.len() {
                self.token_buf.clear();
                self.token_pos = 0;
                assert(self.remaining() =~= seq![]);
                return false;
            }
            self.token_buf.clear();
            self.token_pos = 0;
            let start = self.position;
            proof {
                lemma_run_len_bound(s, true, start as int);
                lemma_run_len_bound(s, true, start + 1);
            }
            while self.position < self.content.len() && is_trigram_token_char(
                self.content[self.position],
            )
                invariant
                    0 <= self.position() <= self.content().len(),
                    self.content() == s,
                    s == old(self).content(),
                    start <= self.position,
                    start < s.len(),
                    old(self).position() <= start,
                    is_token_byte(s[start as int], true),
                    tokens_from(s, true, 3, start as int) == tokens_from(
                        s,
                        true,
                        3,
                        old(self).position(),
                    ),
                    self.token_pos == 0,
                    self.token_buf@ == lower_bytes(s.subrange(start as int, self.position as int)),
                    run_len(s, true, start as int) == (self.position - start) + run_len(
                        s,
                        true,
                        self.position as int,
                    ),
                decreases self.content.len() - self.position,
            {
                self.token_buf.push(to_lowercase(self.content[self.position]));
                self.position += 1;
                assert(self.token_buf@ =~= lower_bytes(
                    s.subrange(start as int, self.position as int),
                ));
            }
            if self.token_buf.len() >= MIN_TRIGRAM_TOKEN_LENGTH {
                return true;
            }
        }
    }

    /// The next window of the current token, if it has one left.
    fn next_trigram_from_token(&mut self) -> (r: Option<u32>)
        requires
            old(self).wf(),
        ensures
            final(self).wf(),
            final(self).content() == old(self).content(),
            final(self).position() == old(self).position(),
            final(self).buffer() == old(self).buffer(),
            r is None <==> old(self).window() == windows(old(self).buffer()).len(),
            r matches Some(t) ==> t == windows(old(self).buffer())[old(self).window()]
                && final(self).window() == old(self).window() + 1,
            r is None ==> final(self).window() == old(self).window(),
    {
        if self.token_pos < self.token_buf.len() && self.token_buf.len() - self.token_pos >= 3 {
            let t = pack_trigram(
                self.token_buf[self.token_pos],
                self.token_buf[self.token_pos + 1],
                self.token_buf[self.token_pos + 2],
            );
            self.token_pos += 1;
            Some(t)
        } else {
            None
        }
    }

    /// The next trigram, or `None` once the content is used up.
    pub fn next_trigram(&mut self) -> (r: Option<u32>)
        requires
            old(self).wf(),
        ensures
            final(self).wf(),
            final(self).content() == old(self).content(),
            r is None <==> old(self).remaining().len() == 0,
            r is None ==> final(self).remaining().len() == 0,
            r matches Some(t) ==> t == old(self).remaining()[0] && final(self).remaining()
                == old(self).remaining().drop_first(),
    {
        let ghost rem0 = self.remaining();
        match self.next_trigram_from_token() {
            Some(t) => {
                assert(self.remaining() =~= rem0.drop_first());
                return Some(t);
            },
            None => {},
        }
        let ghost ts = tokens_from(self.content(), true, 3, self.position());
        assert(windows(self.buffer()).skip(self.window()) =~= seq![]);
        assert(rem0 =~= token_windows(ts));
        if !self.read_next_token() {
            return None;
        }
        proof {
            lemma_token_windows_first(ts);
        }
        assert(windows(self.buffer()).len() > 0);
        let r = self.next_trigram_from_token();
        assert(self.remaining() =~= rem0.drop_first());
        r
    }
}

/// The trigrams of `content`, in order.
pub fn extract_trigrams(content: &[u8]) -> (r: Vec<u32>)
    ensures
        r@ == trigrams(content@),
{
    let mut it = TrigramIterator::new(content);
    let mut out: Vec<u32> = Vec::new();
    loop
        invariant
            it.wf(),
            it.content() == content@,
            out@ + it.remaining() == trigrams(content@),
        ensures
            out@ == trigrams(content@),
        decreases it.remaining().len(),
    {
        let ghost old_out = out@;
        let ghost old_rem = it.remaining();
        match it.next_trigram() {
            Some(t) => {
                out.push(t);
                assert(out@ + it.remaining() =~= old_out + old_rem);
            },
            None => {
                assert(out@ + it.remaining() =~= out@);
                break;
            },
        }
    }
    out
}

/// The trigrams of a query string, in order.
pub fn extract_query_trigrams(query: &str) -> (r: Vec<u32>)
    ensures
        r@ == trigrams(query.spec_bytes()),
{
    extract_trigrams(query.as_bytes())
}

/// The distinct values of `v`, each once, in order of first occurrence.
pub fn distinct_u32(v: &Vec<u32>) -> (r: Vec<u32>)
    ensures
        r@.no_duplicates(),
        r@.to_set() == v@.to_set(),
{
    broadcast use vstd::std_specs::hash::group_hash_axioms;

    let mut seen: std::collections::HashSet<u32> = std::collections::HashSet::new();
    let mut out: Vec<u32> = Vec::new();
    let mut i: usize = 0;
    while i < v.len()
        invariant
            i <= v@.len(),
            out@.no_duplicates(),
            seen@ == out@.to_set(),
            out@.to_set() == v@.subrange(0, i as int).to_set(),
        decreases v.len() - i,
    {
        let x = v[i];
        let ghost before = out@;
        if !seen.contains(&x) {
            seen.insert(x);
            out.push(x);
            proof {
                before.lemma_push_to_set_commute(x);
            }
        }
        assert(v@.subrange(0, i + 1) =~= v@.subrange(0, i as int).push(x));
        proof {
            v@.subrange(0, i as int).lemma_push_to_set_commute(x);
        }
        i += 1;
    }
    assert(v@.subrange(0, i as int) =~= v@);
    out
}

/// The distinct trigrams of a file's content; none for binary content.
pub fn file_trigrams(content: &[u8]) -> (r: Vec<u32>)
    ensures
        r@.no_duplicates(),
        r@.to_set() == (if looks_binary(content@) {
            Set::empty()
        } else {
            trigrams(content@).to_set()
        }),
{
    if is_binary(content) {
        let r: Vec<u32> = Vec::new();
        assert(r@.to_set() =~= Set::empty());
        return r;
    }
    distinct_u32(&extract_trigrams(content))
}

} // verus!
