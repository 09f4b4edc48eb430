//! Byte-level token scanners and their mathematical model.

use vstd::prelude::*;
use vstd::string::StringSliceAdditionalSpecFns;

verus! {

/// Tokens shorter than this are dropped by both token scanners.
pub const MIN_TOKEN_LENGTH: usize = 2;

/// ASCII letters and digits.
pub open spec fn is_alnum(b: u8) -> bool {
    (48 <= b <= 57) || (65 <= b <= 90) || (97 <= b <= 122)
}

/// A byte that belongs to a token: letters and digits, and with `ident` also `_` and `-`.
pub open spec fn is_token_byte(b: u8, ident: bool) -> bool {
    is_alnum(b) || (ident && (b == 95 || b == 45))
}

/// Length of the run of token bytes that starts at `i`.
pub open spec fn run_len(s: Seq<u8>, ident: bool, i: int) -> nat
    decreases s.len() - i,
{
    if 0 <= i < s.len() && is_token_byte(s[i], ident) {
        1 + run_len(s, ident, i + 1)
    } else {
        0
    }
}

/// The maximal runs of token bytes that start at or after `i`, left to right,
/// keeping those of length at least `min`.
pub open spec fn tokens_from(s: Seq<u8>, ident: bool, min: nat, i: int) -> Seq<Seq<u8>>
    decreases s.len() - i,
    via tokens_from_decreases
{
    if i < 0 || i >= s.len() {
        seq![]
    } else if !is_token_byte(s[i], ident) {
        tokens_from(s, ident, min, i + 1)
    } else {
        let e = i + 1 + run_len(s, ident, i + 1);
        let rest = tokens_from(s, ident, min, e);
        if e - i >= min {
            seq![s.subrange(i, e)] + rest
        } else {
            rest
        }
    }
}

/// Word tokens: maximal runs of ASCII letters and digits, of length at least two.
pub open spec fn word_tokens(s: Seq<u8>) -> Seq<Seq<u8>> {
    tokens_from(s, false, 2, 0)
}

/// Identifier tokens: maximal runs of letters, digits, `_` and `-`, of length at least two.
pub open spec fn exact_tokens(s: Seq<u8>) -> Seq<Seq<u8>> {
    tokens_from(s, true, 2, 0)
}

/// ASCII lowercasing of one byte; other bytes are unchanged.
pub open spec fn lower_byte(b: u8) -> u8 {
    if 65 <= b <= 90 {
        (b + 32) as u8
    } else {
        b
    }
}

/// ASCII lowercasing of a byte string.
pub open spec fn lower_bytes(t: Seq<u8>) -> Seq<u8> {
    t.map_values(|b: u8| lower_byte(b))
}

/// The 64-bit FxHash of a byte string, as `hash_token` computes it.
pub uninterp spec fn fx_hash(token: Seq<u8>) -> u64;

/// The hashes of a sequence of tokens, in order.
pub open spec fn hashes(ts: Seq<Seq<u8>>) -> Seq<u64> {
    ts.map_values(|t: Seq<u8>| fx_hash(t))
}

/// The hashes of a sequence of tokens after ASCII lowercasing, in order.
pub open spec fn lower_hashes(ts: Seq<Seq<u8>>) -> Seq<u64> {
    ts.map_values(|t: Seq<u8>| fx_hash(lower_bytes(t)))
}

/// Relies on rustc_hash::FxHasher fed through `Hash for [u8]`: a deterministic
/// 64-bit hash of the bytes alone.
#[verifier::external_body]
pub fn hash_token(token: &[u8]) -> (r: u64)
    ensures
        r == fx_hash(token@),
{
    let mut hasher = rustc_hash::FxHasher::default();
    std::hash::Hash::hash(token, &mut hasher);
    std::hash::Hasher::finish(&hasher)
}

#[via_fn]
proof fn tokens_from_decreases(s: Seq<u8>, ident: bool, min: nat, i: int) {
    if 0 <= i < s.len() && is_token_byte(s[i], ident) {
        lemma_run_len_bound(s, ident, i + 1);
    }
}

pub proof fn lemma_run_len_bound(s: Seq<u8>, ident: bool, i: int)
    requires
        0 <= i <= s.len(),
    ensures
        i + run_len(s, ident, i) <= s.len(),
        forall|k: int| i <= k < i + run_len(s, ident, i) ==> is_token_byte(#[trigger] s[k], ident),
        i + run_len(s, ident, i) < s.len() ==> !is_token_byte(s[i + run_len(s, ident, i)], ident),
    decreases s.len() - i,
{
    if i < s.len() && is_token_byte(s[i], ident) {
        lemma_run_len_bound(s, ident, i + 1);
    }
}

/// One step of scanning: position `i` holds a byte that is not a token byte.
pub proof fn lemma_tokens_skip(s: Seq<u8>, ident: bool, min: nat, i: int)
    requires
        0 <= i < s.len(),
        !is_token_byte(s[i], ident),
    ensures
        tokens_from(s, ident, min, i) == tokens_from(s, ident, min, i + 1),
{
}

/// `is_ascii_alphanumeric` as the scanners use it.
fn is_alnum_byte(b: u8) -> (r: bool)
    ensures
        r == is_alnum(b),
{
    (48 <= b && b <= 57) || (65 <= b && b <= 90) || (97 <= b && b <= 122)
}

/// Scanner of word tokens: the `Some` results of `next_token` are the hashes of
/// `word_tokens(content)`, in order.
pub struct TokenIterator<'a> {
    content: &'a [u8],
    position: usize,
}

impl<'a> TokenIterator<'a> {
    /// The bytes being scanned.
    pub closed spec fn content(&self) -> Seq<u8> {
        self.content@
    }

    /// The scan position.
    pub closed spec fn position(&self) -> int {
        self.position as int
    }

    /// The tokens that are still to come.
    pub open spec fn remaining(&self) -> Seq<Seq<u8>> {
        tokens_from(self.content(), false, 2, self.position())
    }

    pub open spec fn wf(&self) -> bool {
        0 <= self.position() <= self.content().len()
    }

    pub fn new(content: &'a [u8]) -> (r: Self)
        ensures
            r.wf(),
            r.content() == content@,
            r.position() == 0,
            r.remaining() == word_tokens(content@),
    {
        TokenIterator { content, position: 0 }
    }

    /// Skip bytes that are not letters or digits.
    fn skip_delimiters(&mut self)
        requires
            old(self).wf(),
        ensures
            final(self).wf(),
            final(self).content() == old(self).content(),
            final(self).remaining() == old(self).remaining(),
            old(self).position() <= final(self).position(),
            final(self).position() < final(self).content().len() ==> is_alnum(
                final(self).content()[final(self).position()],
            ),
    {
        while self.position < self.content.len() && !is_alnum_byte(self.content[self.position])
            invariant
                self.wf(),
                self.content() == old(self).content(),
                self.remaining() == old(self).remaining(),
                old(self).position() <= self.position(),
            decreases self.content.len() - self.position,
        {
            proof {
                lemma_tokens_skip(self.content@, false, 2, self.position as int);
            }
            self.position += 1;
        }
    }

    /// Read the run of letters and digits at the scan position.
    fn read_token(&mut self) -> (r: Option<&'a [u8]>)
        requires
            old(self).wf(),
        ensures
            final(self).wf(),
            final(self).content() == old(self).content(),
            final(self).position() == old(self).position() + run_len(
                old(self).content(),
                false,
                old(self).position(),
            ),
            match r {
                Some(t) => t@ == old(self).content().subrange(
                    old(self).position(),
                    final(self).position(),
                ) && final(self).position() > old(self).position(),
                None => final(self).position() == old(self).position(),
            },
    {
        let start = self.position;
        proof {
            lemma_run_len_bound(self.content@, false, start as int);
        }
        while self.position < self.content.len() && is_alnum_byte(self.content[self.position])
            invariant
                self.wf(),
                self.content() == old(self).content(),
                start <= self.position,
                start == old(self).position(),
                run_len(self.content(), false, start as int) == (self.position - start) + run_len(
                    self.content(),
                    false,
                    self.position as int,
                ),
            decreases self.content.len() - self.position,
        {
            self.position += 1;
        }
        if self.position > start {
            Some(&self.content[start..self.position])
        } else {
            None
        }
    }

    /// The hash of the next word token, or `None` once the content is used up.
    pub fn next_token(&mut self) -> (r: Option<u64>)
        requires
            old(self).wf(),
        ensures
            final(self).wf(),
            final(self).content() == old(self).content(),
            r is None <==> old(self).remaining().len() == 0,
            r is None ==> final(self).remaining().len() == 0,
            old(self).remaining().len() > 0 ==> r == Some(fx_hash(old(self).remaining()[0]))
                && final(self).remaining() == old(self).remaining().drop_first()
                && final(self).position() > old(self).position(),
    {
        loop
            invariant
                self.wf(),
                self.content() == old(self).content(),
                self.remaining() == old(self).remaining(),
                old(self).position() <= self.position(),
            decreases self.content().len() - self.position(),
        {
            self.skip_delimiters();
            if self.position >= self.content.len() {
                return None;
            }
            match self.read_token() {
                Some(token) => {
                    if token.len() >= MIN_TOKEN_LENGTH {
                        return Some(hash_token(token));
                    }
                },
                None => {
                    return None;
                },
            }
        }
    }
}

pub proof fn lemma_hashes_first(ts: Seq<Seq<u8>>)
    requires
        ts.len() > 0,
    ensures
        hashes(ts) == seq![fx_hash(ts[0])] + hashes(ts.drop_first()),
{
    assert(hashes(ts) =~= seq![fx_hash(ts[0])] + hashes(ts.drop_first()));
}

/// The hashes of the word tokens of `content`, in order.
pub fn tokenize(content: &[u8]) -> (r: Vec<u64>)
    ensures
        r@ == hashes(word_tokens(content@)),
{
    let mut it = TokenIterator::new(content);
    let mut out: Vec<u64> = Vec::new();
    loop
        invariant
            it.wf(),
            it.content() == content@,
            out@ + hashes(it.remaining()) == hashes(word_tokens(content@)),
        ensures
            out@ == hashes(word_tokens(content@)),
        decreases content@.len() - it.position(),
    {
        let ghost old_rem = it.remaining();
        let ghost old_out = out@;
        match it.next_token() {
            Some(h) => {
                proof {
                    lemma_hashes_first(old_rem);
                }
                out.push(h);
                assert(out@ + hashes(it.remaining()) =~= old_out + hashes(old_rem));
            },
            None => {
                assert(out@ + hashes(it.remaining()) =~= out@);
                break;
            },
        }
    }
    out
}

/// The hashes of the word tokens of a query string, in order.
pub fn tokenize_query(query: &str) -> (r: Vec<u64>)
    ensures
        r@ == hashes(word_tokens(query.spec_bytes())),
{
    tokenize(query.as_bytes())
}

/// The explicit delimiters of the identifier scanner: whitespace, brackets,
/// quotes, punctuation, operators and NUL.
pub open spec fn exact_delimiter(b: u8) -> bool {
    b == 32 || b == 9 || b == 10 || b == 13 || b == 40 || b == 41 || b == 91 || b == 93 || b
        == 123 || b == 125 || b == 60 || b == 62 || b == 34 || b == 39 || b == 96 || b == 44 || b
        == 59 || b == 58 || b == 46 || b == 43 || b == 61 || b == 47 || b == 92 || b == 64 || b
        == 35 || b == 36 || b == 37 || b == 94 || b == 38 || b == 42 || b == 33 || b == 63 || b
        == 124 || b == 126 || b == 0
}

fn is_exact_delimiter(byte: u8) -> (r: bool)
    ensures
        r == exact_delimiter(byte),
        r ==> !is_token_byte(byte, true),
{
    match byte {
        32 | 9 | 10 | 13 => true,
        40 | 41 | 91 | 93 | 123 | 125 | 60 | 62 => true,
        34 | 39 | 96 => true,
        44 | 59 | 58 | 46 | 43 | 61 | 47 | 92 | 64 | 35 | 36 | 37 | 94 | 38 | 42 | 33 | 63 | 124
        | 126 => true,
        0 => true,
        _ => false,
    }
}

fn is_exact_token_char(byte: u8) -> (r: bool)
    ensures
        r == is_token_byte(byte, true),
{
    is_alnum_byte(byte) || byte == 95 || byte == 45
}

/// Scanner of identifier tokens: the `Some` results of `next_token` are the
/// hashes of `exact_tokens(content)`, in order.
pub struct ExactTokenIterator<'a> {
    content: &'a [u8],
    position: usize,
}

impl<'a> ExactTokenIterator<'a> {
    /// The bytes being scanned.
    pub closed spec fn content(&self) -> Seq<u8> {
        self.content@
    }

    /// The scan position.
    pub closed spec fn position(&self) -> int {
        self.position as int
    }

    /// The tokens that are still to come.
    pub open spec fn remaining(&self) -> Seq<Seq<u8>> {
        tokens_from(self.content(), true, 2, self.position())
    }

    pub open spec fn wf(&self) -> bool {
        0 <= self.position() <= self.content().len()
    }

    pub fn new(content: &'a [u8]) -> (r: Self)
        ensures
            r.wf(),
            r.content() == content@,
            r.position() == 0,
            r.remaining() == exact_tokens(content@),
    {
        ExactTokenIterator { content, position: 0 }
    }

    /// Skip the explicit delimiters.
    fn skip_delimiters(&mut self)
        requires
            old(self).wf(),
        ensures
            final(self).wf(),
            final(self).content() == old(self).content(),
            final(self).remaining() == old(self).remaining(),
            old(self).position() <= final(self).position(),
    {
        while self.position < self.content.len() && is_exact_delimiter(self.content[self.position])
            invariant
                self.wf(),
                self.content() == old(self).content(),
                self.remaining() == old(self).remaining(),
                old(self).position() <= self.position(),
            decreases self.content.len() - self.position,
        {
            proof {
                lemma_tokens_skip(self.content@, true, 2, self.position as int);
            }
            self.position += 1;
        }
    }

    /// Read the run of token bytes at the scan position; where there is none,
    /// step over the one byte there, which is neither a token byte nor a delimiter.
    fn read_token(&mut self) -> (r: Option<&'a [u8]>)
        requires
            old(self).wf(),
            old(self).position() < old(self).content().len(),
        ensures
            final(self).wf(),
            final(self).content() == old(self).content(),
            final(self).position() > old(self).position(),
            match r {
                Some(t) => is_token_byte(old(self).content()[old(self).position()], true)
                    && final(self).position() == old(self).position() + run_len(
                    old(self).content(),
                    true,
                    old(self).position(),
                ) && t@ == old(self).content().subrange(
                    old(self).position(),
                    final(self).position(),
                ),
                None => !is_token_byte(old(self).content()[old(self).position()], true)
                    && final(self).position() == old(self).position() + 1,
            },
    {
        let start = self.position;
        proof {
            lemma_run_len_bound(self.content@, true, start as int);
        }
        while self.position < self.content.len() && is_exact_token_char(self.content[self.position])
            invariant
                self.wf(),
                self.content() == old(self).content(),
                start <= self.position,
                start == old(self).position(),
                run_len(self.content(), true, start as int) == (self.position - start) + run_len(
                    self.content(),
                    true,
                    self.position as int,
                ),
            decreases self.content.len() - self.position,
        {
            self.position += 1;
        }
        if self.position > start {
            Some(&self.content[start..self.position])
        } else {
            self.position += 1;
            None
        }
    }

    /// The bytes of the next identifier token, or `None` once the content is used up.
    pub fn next_slice(&mut self) -> (r: Option<&'a [u8]>)
        requires
            old(self).wf(),
        ensures
            final(self).wf(),
            final(self).content() == old(self).content(),
            r is None <==> old(self).remaining().len() == 0,
            r is None ==> final(self).remaining().len() == 0,
            r matches Some(t) ==> t@ == old(self).remaining()[0]
                && final(self).remaining() == old(self).remaining().drop_first()
                && final(self).position() > old(self).position(),
    {
        let ghost s = self.content@;
        loop
            invariant
                self.wf(),
                self.content() == s,
                s == old(self).content(),
                self.remaining() == old(self).remaining(),
                old(self).position() <= self.position(),
            decreases self.content().len() - self.position(),
        {
            self.skip_delimiters();
            if self.position >= self.content.len() {
                return None;
            }
            let ghost p = self.position as int;
            match self.read_token() {
                Some(token) => {
                    proof {
                        lemma_run_len_bound(s, true, p + 1);
                    }
                    if token.len() >= MIN_TOKEN_LENGTH {
                        return Some(token);
                    }
                },
                None => {
                    proof {
                        lemma_tokens_skip(s, true, 2, p);
                    }
                },
            }
        }
    }

    /// The hash of the next identifier token, or `None` once the content is used up.
    pub fn next_token(&mut self) -> (r: Option<u64>)
        requires
            old(self).wf(),
        ensures
            final(self).wf(),
            final(self).content() == old(self).content(),
            r is None <==> old(self).remaining().len() == 0,
            r is None ==> final(self).remaining().len() == 0,
            old(self).remaining().len() > 0 ==> r == Some(fx_hash(old(self).remaining()[0]))
                && final(self).remaining() == old(self).remaining().drop_first()
                && final(self).position() > old(self).position(),
    {
        match self.next_slice() {
            Some(token) => Some(hash_token(token)),
            None => None,
        }
    }
}

/// The hashes of the identifier tokens of `content`, in order.
pub fn tokenize_exact(content: &[u8]) -> (r: Vec<u64>)
    ensures
        r@ == hashes(exact_tokens(content@)),
{
    let mut it = ExactTokenIterator::new(content);
    let mut out: Vec<u64> = Vec::new();
    loop
        invariant
            it.wf(),
            it.content() == content@,
            out@ + hashes(it.remaining()) == hashes(exact_tokens(content@)),
        ensures
            out@ == hashes(exact_tokens(content@)),
        decreases content@.len() - it.position(),
    {
        let ghost old_rem = it.remaining();
        let ghost old_out = out@;
        match it.next_token() {
            Some(h) => {
                proof {
                    lemma_hashes_first(old_rem);
                }
                out.push(h);
                assert(out@ + hashes(it.remaining()) =~= old_out + hashes(old_rem));
            },
            None => {
                assert(out@ + hashes(it.remaining()) =~= out@);
                break;
            },
        }
    }
    out
}

/// The hashes of the identifier tokens of a query string, in order.
pub fn tokenize_query_exact(query: &str) -> (r: Vec<u64>)
    ensures
        r@ == hashes(exact_tokens(query.spec_bytes())),
{
    tokenize_exact(query.as_bytes())
}

/// ASCII lowercasing of one byte.
pub fn to_lowercase(b: u8) -> (r: u8)
    ensures
        r == lower_byte(b),
{
    if 65 <= b && b <= 90 {
        b + 32
    } else {
        b
    }
}

/// An ASCII-lowercased copy of `t`.
pub fn lowercase_bytes(t: &[u8]) -> (r: Vec<u8>)
    ensures
        r@ == lower_bytes(t@),
{
    let mut out: Vec<u8> = Vec::with_capacity(t.len());
    let mut i: usize = 0;
    while i < t.len()
        invariant
            i <= t@.len(),
            out@ == lower_bytes(t@.subrange(0, i as int)),
        decreases t.len() - i,
    {
        out.push(to_lowercase(t[i]));
        i += 1;
        assert(out@ =~= lower_bytes(t@.subrange(0, i as int)));
    }
    assert(t@.subrange(0, i as int) =~= t@);
    out
}

/// The hashes of the ASCII-lowercased identifier tokens of `content`, in order:
/// the keys of the case-insensitive exact postings.
pub fn tokenize_exact_lower(content: &[u8]) -> (r: Vec<u64>)
    ensures
        r@ == lower_hashes(exact_tokens(content@)),
{
    let mut it = ExactTokenIterator::new(content);
    let mut out: Vec<u64> = Vec::new();
    loop
        invariant
            it.wf(),
            it.content() == content@,
            out@ + hashes(it.remaining().map_values(|t: Seq<u8>| lower_bytes(t))) == hashes(
                exact_tokens(content@).map_values(|t: Seq<u8>| lower_bytes(t)),
            ),
        ensures
            out@ == hashes(exact_tokens(content@).map_values(|t: Seq<u8>| lower_bytes(t))),
        decreases content@.len() - it.position(),
    {
        let ghost old_rem = it.remaining();
        let ghost old_out = out@;
        match it.next_slice() {
            Some(token) => {
                let lowered = lowercase_bytes(token);
                out.push(hash_token(lowered.as_slice()));
                let ghost lr = old_rem.map_values(|t: Seq<u8>| lower_bytes(t));
                assert(lr =~= seq![lower_bytes(old_rem[0])] + it.remaining().map_values(
                    |t: Seq<u8>| lower_bytes(t),
                ));
                proof {
                    lemma_hashes_first(lr);
                }
                assert(out@ + hashes(it.remaining().map_values(|t: Seq<u8>| lower_bytes(t)))
                    =~= old_out + hashes(lr));
            },
            None => {
                assert(out@ + hashes(it.remaining().map_values(|t: Seq<u8>| lower_bytes(t)))
                    =~= out@);
                break;
            },
        }
    }
    assert(hashes(exact_tokens(content@).map_values(|t: Seq<u8>| lower_bytes(t))) =~= lower_hashes(
        exact_tokens(content@),
    ));
    out
}

/// The hashes of the ASCII-lowercased identifier tokens of a query string, in order.
pub fn tokenize_query_exact_lower(query: &str) -> (r: Vec<u64>)
    ensures
        r@ == lower_hashes(exact_tokens(query.spec_bytes())),
{
    tokenize_exact_lower(query.as_bytes())
}

/// Bytes inspected for NUL when deciding whether content is binary.
pub const BINARY_PROBE_LENGTH: usize = 8192;

/// Content is binary when its first 8192 bytes hold a NUL.
pub open spec fn looks_binary(s: Seq<u8>) -> bool {
    exists|i: int| 0 <= i < s.len() && i < 8192 && s[i] == 0
}

/// Whether the first 8192 bytes of `content` hold a NUL.
pub fn is_binary(content: &[u8]) -> (r: bool)
    ensures
        r == looks_binary(content@),
{
    let n = if content.len() < BINARY_PROBE_LENGTH {
        content.len()
    } else {
        BINARY_PROBE_LENGTH
    };
    let mut i: usize = 0;
    while i < n
        invariant
            n <= content@.len(),
            n <= 8192,
            n == content@.len() || n == 8192,
            i <= n,
            forall|k: int| 0 <= k < i ==> content@[k] != 0,
        decreases n - i,
    {
        if content[i] == 0 {
            return true;
        }
        i += 1;
    }
    false
}

/// The distinct values of `v`, each once, in order of first occurrence.
pub fn distinct_u64(v: &Vec<u64>) -> (r: Vec<u64>)
    ensures
        r@.no_duplicates(),
        r@.to_set() == v@.to_set(),
{
    broadcast use vstd::std_specs::hash::group_hash_axioms;

    let mut seen: std::collections::HashSet<u64> = std::collections::HashSet::new();
    let mut out: Vec<u64> = Vec::new();
    let mut i: usize = 0;
    while i < v.len()
        invariant
            i <= v@.len(),
            out@.no_duplicates(),
            seen@ == out@.to_set(),
            out@.to_set() == v@.subrange(0, i as int).to_set(),
        decreases v.len() - i,
    {
        let x = v[i];
        let ghost before = out@;
        if !seen.contains(&x) {
            seen.insert(x);
            out.push(x);
            proof {
                before.lemma_push_to_set_commute(x);
            }
        }
        assert(v@.subrange(0, i + 1) =~= v@.subrange(0, i as int).push(x));
        proof {
            v@.subrange(0, i as int).lemma_push_to_set_commute(x);
        }
        i += 1;
    }
    assert(v@.subrange(0, i as int) =~= v@);
    out
}

/// The distinct word-token hashes of a file's content; none for binary content.
pub fn file_word_tokens(content: &[u8]) -> (r: Vec<u64>)
    ensures
        r@.no_duplicates(),
        r@.to_set() == (if looks_binary(content@) {
            Set::empty()
        } else {
            hashes(word_tokens(content@)).to_set()
        }),
{
    if is_binary(content) {
        let r: Vec<u64> = Vec::new();
        assert(r@.to_set() =~= Set::empty());
        return r;
    }
    distinct_u64(&tokenize(content))
}

/// The distinct identifier-token hashes of a file's content; none for binary content.
pub fn file_exact_tokens(content: &[u8]) -> (r: Vec<u64>)
    ensures
        r@.no_duplicates(),
        r@.to_set() == (if looks_binary(content@) {
            Set::empty()
        } else {
            hashes(exact_tokens(content@)).to_set()
        }),
{
    if is_binary(content) {
        let r: Vec<u64> = Vec::new();
        assert(r@.to_set() =~= Set::empty());
        return r;
    }
    distinct_u64(&tokenize_exact(content))
}

/// The distinct lowercased identifier-token hashes of a file's content; none for binary content.
pub fn file_exact_lower_tokens(content: &[u8]) -> (r: Vec<u64>)
    ensures
        r@.no_duplicates(),
        r@.to_set() == (if looks_binary(content@) {
            Set::empty()
        } else {
            lower_hashes(exact_tokens(content@)).to_set()
        }),
{
    if is_binary(content) {
        let r: Vec<u64> = Vec::new();
        assert(r@.to_set() =~= Set::empty());
        return r;
    }
    distinct_u64(&tokenize_exact_lower(content))
}

} // verus!
