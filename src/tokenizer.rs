//! The tokenizer: vocabulary construction, encoding, decoding and batch
//! encoding into fixed-width rows.
use crate::alphabet::{
    byte_table, byte_token, lemma_byte_alphabet, lemma_code_token_inverse, lemma_token_code,
    token_byte_exec, token_code_exec,
};
use crate::merge::{apply_merge_rules, lemma_merged_below, merged, results_below};
use crate::tables::{
    get_key, insert_key, insert_pair, key_entries, new_key_table, new_pair_table,
    pair_entries, PairMap,
};
use crate::text::{
    byte_views, char_from_code, char_string, compile_word_pattern, fields_of, find_words,
    lossy_text, lower_of, lowercase, replace_all, replaced, split_fields, utf8_lossy, word_spans,
    WORD_PATTERN,
};
use crate::vocab::{
    base_key_token, base_keys, base_piece, end_of_word_marker, initial_model,
    lemma_invalid_line_fails, lemma_model_wf, model_after, rule_lines, VocabModel,
};
use ahash::AHashMap;
use regex::Regex;
use vstd::prelude::*;
use vstd::string::StringExecFns;

verus! {

/// A single token.
///
/// Values of this type come from a [`Tokenizer`], mainly from
/// [`Tokenizer::encode`]; [`Token::to_u16`] gives the number to feed to a
/// neural network.
#[derive(Clone, Copy, Debug, PartialEq, Eq, Hash, PartialOrd, Ord)]
pub struct Token(u16);

impl View for Token {
    type V = u16;

    closed spec fn view(&self) -> u16 {
        self.0
    }
}

/// The identifiers of a token sequence.
pub open spec fn ids(s: Seq<Token>) -> Seq<u16> {
    s.map_values(|t: Token| t@)
}

impl Token {
    pub(crate) fn from_id(id: u16) -> (r: Token)
        ensures
            r@ == id,
    {
        Token(id)
    }

    /// The token with number `token`, if `tokenizer` has such a token.
    pub fn from_u16(token: u16, tokenizer: &Tokenizer) -> (r: Option<Self>)
        ensures
            r is Some <==> token <= tokenizer.end_id(),
            r is Some ==> (r->0)@ == token,
    {
        if token <= tokenizer.end_of_text.0 {
            Some(Token(token))
        } else {
            None
        }
    }

    /// The number of this token.
    pub fn to_u16(self) -> (r: u16)
        ensures
            r == self@,
    {
        self.0
    }
}

/// What can go wrong in the tokenizer.
#[derive(Clone, Copy, Debug, PartialEq, Eq)]
pub enum TokenizerError {
    /// A vocabulary line lacks a second field or names an unknown entry,
    /// or the source could not be read.
    InvalidVocabulary,
    /// The context length of a batch is below 3.
    InvalidArgument,
    /// A token number lies beyond the tokenizer's vocabulary.
    UnknownToken,
}

/// A text tokenizer for the CLIP neural network.
pub struct Tokenizer {
    byte_to_token: Vec<u16>,
    merge_rules: AHashMap<(u16, u16), u16>,
    start_of_text: Token,
    end_of_text: Token,
    decoder: Vec<Vec<u8>>,
    word_split: Regex,
}

/// The texts of some lines.
pub open spec fn line_views(lines: Seq<String>) -> Seq<Seq<char>> {
    lines.map_values(|l: String| l@)
}

/// The bytes of `x` followed by those of `y`.
fn concat_bytes(x: &Vec<u8>, y: &Vec<u8>) -> (r: Vec<u8>)
    ensures
        r@ == x@ + y@,
{
    let mut r: Vec<u8> = Vec::new();
    let mut i: usize = 0;
    while i < x.len()
        invariant
            i <= x@.len(),
            r@ == x@.subrange(0, i as int),
        decreases x@.len() - i,
    {
        r.push(x[i]);
        i = i + 1;
    }
    let mut j: usize = 0;
    while j < y.len()
        invariant
            j <= y@.len(),
            r@ == x@ + y@.subrange(0, j as int),
        decreases y@.len() - j,
    {
        r.push(y[j]);
        j = j + 1;
    }
    assert(x@.subrange(0, x@.len() as int) =~= x@);
    assert(y@.subrange(0, y@.len() as int) =~= y@);
    r
}

/// The bytes of the start marker text, `<start_of_text>`.
pub open spec fn start_marker() -> Seq<u8> {
    seq![60u8, 115u8, 116u8, 97u8, 114u8, 116u8, 95u8, 111u8, 102u8, 95u8, 116u8, 101u8, 120u8, 116u8, 62u8]
}

/// The bytes of the end marker text, `<end_of_text>`.
pub open spec fn end_marker() -> Seq<u8> {
    seq![60u8, 101u8, 110u8, 100u8, 95u8, 111u8, 102u8, 95u8, 116u8, 101u8, 120u8, 116u8, 62u8]
}

/// The tokens of a word before merging: one base token per byte, the last
/// one turned into its end-of-word counterpart.
pub open spec fn initial_tokens(w: Seq<u8>) -> Seq<u16> {
    Seq::new(
        w.len(),
        |i: int|
            if i == w.len() - 1 {
                (byte_token(w[i]) + 256) as u16
            } else {
                byte_token(w[i])
            },
    )
}

/// The tokens of one word: a marker text gives its marker token, any other
/// word its merged byte tokens.
pub open spec fn word_ids(rules: PairMap, start: u16, end: u16, w: Seq<u8>) -> Seq<u16> {
    if w == start_marker() {
        seq![start]
    } else if w == end_marker() {
        seq![end]
    } else {
        merged(rules, initial_tokens(w))
    }
}

/// The tokens of a sequence of words, word after word.
pub open spec fn words_ids(rules: PairMap, start: u16, end: u16, ws: Seq<Seq<u8>>) -> Seq<u16>
    decreases ws.len(),
{
    if ws.len() == 0 {
        Seq::empty()
    } else {
        words_ids(rules, start, end, ws.drop_last()) + word_ids(rules, start, end, ws.last())
    }
}

/// The bytes that token `t` stands for.
pub open spec fn token_piece(pieces: Seq<Seq<u8>>, start: u16, end: u16, t: u16) -> Seq<u8> {
    if t == start {
        start_marker()
    } else if t == end {
        end_marker()
    } else {
        pieces[t as int]
    }
}

/// The bytes of a token sequence, token after token.
pub open spec fn decoded_bytes(pieces: Seq<Seq<u8>>, start: u16, end: u16, s: Seq<u16>) -> Seq<u8>
    decreases s.len(),
{
    if s.len() == 0 {
        Seq::empty()
    } else {
        decoded_bytes(pieces, start, end, s.drop_last()) + token_piece(pieces, start, end, s.last())
    }
}

/// How many encoded tokens fit in a row of `c` columns beside the markers.
pub open spec fn kept(n: nat, c: nat) -> nat {
    if n <= c - 2 {
        n
    } else {
        (c - 2) as nat
    }
}

/// A batch row: the start marker, the encoded tokens that fit, the end
/// marker, then zeros up to `c` columns.
pub open spec fn row_of(start: u16, end: u16, toks: Seq<u16>, c: nat) -> Seq<u16> {
    let k = kept(toks.len(), c);
    Seq::new(
        c,
        |j: int|
            if j == 0 {
                start
            } else if j <= k {
                toks[j - 1]
            } else if j == k + 1 {
                end
            } else {
                0u16
            },
    )
}

/// Every row starts with the start marker, holds as many leading encoded
/// tokens as fit, ends its occupied part with the end marker within `c`
/// columns, and is zero after it.
pub proof fn lemma_batch_row_shape(start: u16, end: u16, toks: Seq<u16>, c: nat)
    requires
        c >= 3,
    ensures
        ({
            let row = row_of(start, end, toks, c);
            let k = kept(toks.len(), c);
            &&& row.len() == c
            &&& row[0] == start
            &&& k + 2 <= c
            &&& k == toks.len() || k == c - 2
            &&& row[k + 1 as int] == end
            &&& forall|j: int| 1 <= j <= k ==> row[j] == toks[j - 1]
            &&& forall|j: int| k + 1 < j < c ==> row[j] == 0
        }),
{
}

/// Whether two byte vectors hold the same bytes.
fn same_bytes(x: &Vec<u8>, y: &Vec<u8>) -> (r: bool)
    ensures
        r == (x@ == y@),
{
    if x.len() != y.len() {
        return false;
    }
    let mut i: usize = 0;
    while i < x.len()
        invariant
            x@.len() == y@.len(),
            i <= x@.len(),
            x@.subrange(0, i as int) == y@.subrange(0, i as int),
        decreases x@.len() - i,
    {
        if x[i] != y[i] {
            assert(x@[i as int] != y@[i as int]);
            return false;
        }
        assert(x@.subrange(0, i + 1) =~= x@.subrange(0, i as int).push(x@[i as int]));
        assert(y@.subrange(0, i + 1) =~= y@.subrange(0, i as int).push(y@[i as int]));
        i = i + 1;
    }
    assert(x@ =~= x@.subrange(0, i as int));
    assert(y@ =~= y@.subrange(0, i as int));
    true
}

/// The bytes of the start marker text.
fn start_marker_bytes() -> (r: Vec<u8>)
    ensures
        r@ == start_marker(),
{
    let r: Vec<u8> = vec![60, 115, 116, 97, 114, 116, 95, 111, 102, 95, 116, 101, 120, 116, 62];
    assert(r@ =~= start_marker());
    r
}

/// The bytes of the end marker text.
fn end_marker_bytes() -> (r: Vec<u8>)
    ensures
        r@ == end_marker(),
{
    let r: Vec<u8> = vec![60, 101, 110, 100, 95, 111, 102, 95, 116, 101, 120, 116, 62];
    assert(r@ =~= end_marker());
    r
}

impl Tokenizer {
    /// The merge rules: an ordered token pair to the token replacing it.
    pub closed spec fn rules(&self) -> PairMap {
        pair_entries(self.merge_rules)
    }

    /// The bytes of each ordinary token, indexed by identifier.
    pub closed spec fn pieces(&self) -> Seq<Seq<u8>> {
        byte_views(self.decoder@)
    }

    /// The identifier of the start marker.
    pub closed spec fn start_id(&self) -> u16 {
        self.start_of_text.0
    }

    /// The identifier of the end marker.
    pub closed spec fn end_id(&self) -> u16 {
        self.end_of_text.0
    }

    /// The tables are consistent: the byte table follows the alphabet, the
    /// markers follow the last rule, and every rule refers to tokens with bytes.
    pub closed spec fn wf(&self) -> bool {
        &&& self.byte_to_token@.len() == 256
        &&& forall|b: u8| #[trigger] self.byte_to_token@[b as int] == byte_token(b)
        &&& 512 <= self.start_id()
        &&& self.pieces().len() == self.start_id()
        &&& self.end_id() == self.start_id() + 1
        &&& forall|p: (u16, u16)| #[trigger]
            self.rules().dom().contains(p) ==> {
                &&& p.0 < self.start_id()
                &&& p.1 < self.start_id()
                &&& 512 <= self.rules()[p] < self.start_id()
            }
    }

    /// Builds a tokenizer from the lines of a vocabulary source.
    ///
    /// The first line is a header. Each of the next lines, up to
    /// `max_vocabulary_size - 514` of them, names two known entries whose
    /// pair becomes a merge rule; the markers take the two identifiers after
    /// the last rule.
    pub fn with_vocabulary(lines: &Vec<String>, max_vocabulary_size: u16) -> (r: Result<
        Tokenizer,
        TokenizerError,
    >)
        requires
            max_vocabulary_size >= 514,
        ensures
            ({
                let rl = rule_lines(line_views(lines@), max_vocabulary_size);
                &&& r is Ok <==> model_after(rl, rl.len()) is Some
                &&& r is Err ==> r == Err::<Tokenizer, TokenizerError>(
                    TokenizerError::InvalidVocabulary,
                )
                &&& r is Ok ==> {
                    let t = r->Ok_0;
                    let m = model_after(rl, rl.len())->0;
                    &&& t.wf()
                    &&& t.rules() == m.rules
                    &&& t.pieces() == m.pieces
                    &&& t.start_id() == 512 + rl.len()
                    &&& t.end_id() == 513 + rl.len()
                }
            }),
    {
        let mut keys = new_key_table();
        let mut pieces: Vec<Vec<u8>> = Vec::new();
        let mut t: u16 = 0;
        while t < 256
            invariant
                t <= 256,
                pieces@.len() == t,
                forall|j: int| 0 <= j < t ==> #[trigger] pieces@[j]@ == base_piece(j),
                key_entries(keys) == Map::new(
                    |k: Seq<char>| 0 <= base_key_token(k) < t,
                    |k: Seq<char>| base_key_token(k) as u16,
                ),
            decreases 256 - t,
        {
            let b = token_byte_exec(t);
            let code = token_code_exec(t);
            if let Some(ch) = char_from_code(code) {
                let key = char_string(ch);
                insert_key(&mut keys, key, t);
                proof {
                    lemma_token_code(t as int);
                    assert(base_key_token(seq![ch]) == t);
                    assert forall|k: Seq<char>| 0 <= #[trigger] base_key_token(k) < t + 1 && k != seq![ch]
                        implies 0 <= base_key_token(k) < t by {
                        if base_key_token(k) == t {
                            assert(k.len() == 1);
                            lemma_code_token_inverse(k[0] as u32, t as int);
                            assert(k[0] as u32 == ch as u32);
                            vstd::utf8::char_u32_cast(k[0], k[0] as u32);
                            vstd::utf8::char_u32_cast(ch, ch as u32);
                            assert(k[0] == ch);
                            assert(k =~= seq![ch]);
                        }
                    }
                    assert(key_entries(keys) =~= Map::new(
                        |k: Seq<char>| 0 <= base_key_token(k) < t + 1,
                        |k: Seq<char>| base_key_token(k) as u16,
                    ));
                }
            }
            pieces.push(vec![b]);
            t = t + 1;
        }
        let mut t: u16 = 0;
        while t < 256
            invariant
                t <= 256,
                pieces@.len() == 256 + t,
                forall|j: int| 0 <= j < 256 + t ==> #[trigger] pieces@[j]@ == base_piece(j),
                key_entries(keys) == Map::new(
                    |k: Seq<char>| 0 <= base_key_token(k) < 256 + t,
                    |k: Seq<char>| base_key_token(k) as u16,
                ),
            decreases 256 - t,
        {
            let b = token_byte_exec(t);
            let code = token_code_exec(t);
            if let Some(ch) = char_from_code(code) {
                let mut key = char_string(ch);
                key.append("</w>");
                proof {
                    reveal_strlit("</w>");
                    lemma_token_code(t as int);
                    assert(key@.skip(1) =~= end_of_word_marker());
                    assert(base_key_token(key@) == 256 + t);
                }
                let ghost kv = key@;
                insert_key(&mut keys, key, 256 + t);
                proof {
                    assert forall|k: Seq<char>| 0 <= #[trigger] base_key_token(k) < 257 + t && k != kv
                        implies 0 <= base_key_token(k) < 256 + t by {
                        if base_key_token(k) == 256 + t {
                            lemma_code_token_inverse(k[0] as u32, t as int);
                            vstd::utf8::char_u32_cast(k[0], k[0] as u32);
                            vstd::utf8::char_u32_cast(kv[0], kv[0] as u32);
                            assert(k[0] == kv[0]);
                            assert(k =~= seq![k[0]] + k.skip(1));
                            assert(kv =~= seq![kv[0]] + kv.skip(1));
                        }
                    }
                    assert(key_entries(keys) =~= Map::new(
                        |k: Seq<char>| 0 <= base_key_token(k) < 257 + t,
                        |k: Seq<char>| base_key_token(k) as u16,
                    ));
                }
            }
            pieces.push(vec![b, 0x3c, 0x2f, 0x77, 0x3e]);
            proof {
                assert(pieces@[256 + t]@ =~= base_piece(256 + t));
            }
            t = t + 1;
        }
        let ghost lv = line_views(lines@);
        let ghost rl = rule_lines(lv, max_vocabulary_size);
        proof {
            assert(key_entries(keys) =~= base_keys());
            assert(byte_views(pieces@) =~= initial_model().pieces);
        }
        let budget: usize = (max_vocabulary_size - 514) as usize;
        let end_line: usize = if lines.len() <= 1 {
            1
        } else if lines.len() - 1 <= budget {
            lines.len()
        } else {
            1 + budget
        };
        assert(rl.len() == end_line - 1);
        assert(forall|j: int| 0 <= j < rl.len() ==> rl[j] == #[trigger] lines@[j + 1]@);
        let mut rules = new_pair_table();
        let mut k: usize = 1;
        while k < end_line
            invariant
                1 <= k <= end_line,
                rl == rule_lines(line_views(lines@), max_vocabulary_size),
                end_line - 1 == rl.len(),
                end_line == 1 || end_line <= lines@.len(),
                rl.len() <= budget,
                budget == max_vocabulary_size - 514,
                budget <= 65021,
                forall|j: int| 0 <= j < rl.len() ==> rl[j] == #[trigger] lines@[j + 1]@,
                model_after(rl, (k - 1) as nat) == Some(
                    VocabModel {
                        keys: key_entries(keys),
                        rules: pair_entries(rules),
                        pieces: byte_views(pieces@),
                    },
                ),
            decreases end_line - k,
        {
            proof {
                lemma_model_wf(rl, (k - 1) as nat);
            }
            let ghost line = rl[k - 1];
            assert(line == lines@[(k - 1) + 1]@);
            let fields = split_fields(lines[k].as_str());
            proof {
                assert(fields@.map_values(|f: String| f@) == fields_of(line));
            }
            if fields.len() < 2 {
                proof {
                    assert(fields_of(line).len() == fields@.len());
                    lemma_invalid_line_fails(rl, k as nat, rl.len());
                }
                return Err(TokenizerError::InvalidVocabulary);
            }
            proof {
                assert(fields_of(line)[0] == fields@[0]@);
                assert(fields_of(line)[1] == fields@[1]@);
            }
            let a = match get_key(&keys, fields[0].as_str()) {
                Some(a) => a,
                None => {
                    proof {
                        lemma_invalid_line_fails(rl, k as nat, rl.len());
                    }
                    return Err(TokenizerError::InvalidVocabulary);
                },
            };
            let b = match get_key(&keys, fields[1].as_str()) {
                Some(b) => b,
                None => {
                    proof {
                        lemma_invalid_line_fails(rl, k as nat, rl.len());
                    }
                    return Err(TokenizerError::InvalidVocabulary);
                },
            };
            let id = pieces.len() as u16;
            insert_pair(&mut rules, (a, b), id);
            let mut key = fields[0].clone();
            key.append(fields[1].as_str());
            insert_key(&mut keys, key, id);
            let piece = concat_bytes(&pieces[a as usize], &pieces[b as usize]);
            pieces.push(piece);
            proof {
                assert(byte_views(pieces@) =~= (model_after(
                    rl,
                    (k - 1) as nat,
                )->0).pieces.push((model_after(rl, (k - 1) as nat)->0).pieces[a as int] + (
                model_after(rl, (k - 1) as nat)->0).pieces[b as int]));
            }
            k = k + 1;
        }
        proof {
            lemma_model_wf(rl, rl.len());
            assert(k - 1 == rl.len());
        }
        let ghost m = model_after(rl, rl.len())->0;
        assert(m.rules == pair_entries(rules));
        assert(m.pieces == byte_views(pieces@));
        let start = pieces.len() as u16;
        let word_split = compile_word_pattern(WORD_PATTERN);
        let tok = Tokenizer {
            byte_to_token: byte_table(),
            merge_rules: rules,
            start_of_text: Token(start),
            end_of_text: Token(start + 1),
            decoder: pieces,
            word_split,
        };
        assert(tok.rules() == m.rules);
        assert(tok.pieces() == m.pieces);
        assert(tok.start_id() == 512 + rl.len());
        assert(tok.wf());
        Ok(tok)
    }

    /// The byte tokens of one word, the last turned into its end-of-word token.
    fn word_byte_tokens(&self, w: &Vec<u8>) -> (r: Vec<u16>)
        requires
            self.wf(),
        ensures
            r@ == initial_tokens(w@),
    {
        let mut toks: Vec<u16> = Vec::new();
        let mut j: usize = 0;
        while j < w.len()
            invariant
                self.wf(),
                j <= w@.len(),
                toks@.len() == j,
                forall|i: int| 0 <= i < j ==> #[trigger] toks@[i] == byte_token(w@[i]),
            decreases w@.len() - j,
        {
            toks.push(self.byte_to_token[w[j] as usize]);
            j = j + 1;
        }
        if toks.len() > 0 {
            let last = toks.len() - 1;
            let t = toks[last];
            toks.set(last, t + 256);
        }
        assert(toks@ =~= initial_tokens(w@));
        toks
    }

    /// Appends the tokens of words already split off a text: a marker text
    /// becomes its marker token, any other word its merged byte tokens.
    pub fn encode_words(&self, words: &Vec<Vec<u8>>, out: &mut Vec<Token>)
        requires
            self.wf(),
        ensures
            ids(final(out)@) == ids(old(out)@) + words_ids(
                self.rules(),
                self.start_id(),
                self.end_id(),
                byte_views(words@),
            ),
    {
        let ghost ws = byte_views(words@);
        let start_bytes = start_marker_bytes();
        let end_bytes = end_marker_bytes();
        let mut i: usize = 0;
        while i < words.len()
            invariant
                self.wf(),
                i <= words@.len(),
                ws == byte_views(words@),
                start_bytes@ == start_marker(),
                end_bytes@ == end_marker(),
                ids(out@) == ids(old(out)@) + words_ids(
                    self.rules(),
                    self.start_id(),
                    self.end_id(),
                    ws.take(i as int),
                ),
            decreases words@.len() - i,
        {
            let ghost before = ids(out@);
            let w = &words[i];
            let ghost wt = word_ids(self.rules(), self.start_id(), self.end_id(), w@);
            if same_bytes(w, &start_bytes) {
                out.push(self.start_of_text);
            } else if same_bytes(w, &end_bytes) {
                out.push(self.end_of_text);
            } else {
                let mut toks = self.word_byte_tokens(w);
                apply_merge_rules(&self.merge_rules, &mut toks);
                let mut j: usize = 0;
                while j < toks.len()
                    invariant
                        j <= toks@.len(),
                        toks@ == wt,
                        ids(out@) == before + toks@.take(j as int),
                    decreases toks@.len() - j,
                {
                    let ghost prev = out@;
                    out.push(Token(toks[j]));
                    assert(ids(out@) =~= ids(prev).push(toks@[j as int]));
                    assert(toks@.take(j + 1) =~= toks@.take(j as int).push(toks@[j as int]));
                    assert(ids(out@) =~= before + toks@.take(j + 1));
                    j = j + 1;
                }
                assert(toks@.take(j as int) =~= toks@);
            }
            proof {
                assert(ws.take(i + 1).drop_last() =~= ws.take(i as int));
                assert(ws.take(i + 1).last() == w@);
                assert(ids(out@) =~= before + wt);
            }
            i = i + 1;
        }
        assert(ws.take(i as int) =~= ws);
    }

    /// Encodes `text` and appends its tokens to `out`.
    ///
    /// The text is lowercased and split into words; each word is encoded
    /// on its own. The markers are not added around the text.
    pub fn encode(&self, text: &str, out: &mut Vec<Token>)
        requires
            self.wf(),
        ensures
            ids(final(out)@) == ids(old(out)@) + words_ids(
                self.rules(),
                self.start_id(),
                self.end_id(),
                word_spans(lower_of(text@)),
            ),
    {
        let lower = lowercase(text);
        let words = find_words(&self.word_split, lower.as_str());
        self.encode_words(&words, out);
    }

    /// The bytes that a token sequence stands for; fails on a token beyond
    /// the vocabulary, before any is decoded.
    pub fn decode_to_bytes(&self, tokens: &[Token]) -> (r: Result<Vec<u8>, TokenizerError>)
        requires
            self.wf(),
        ensures
            r is Ok <==> forall|i: int| 0 <= i < tokens@.len() ==> #[trigger] tokens@[i]@ <= self.end_id(),
            r is Err ==> r == Err::<Vec<u8>, TokenizerError>(TokenizerError::UnknownToken),
            r is Ok ==> (r->Ok_0)@ == decoded_bytes(
                self.pieces(),
                self.start_id(),
                self.end_id(),
                ids(tokens@),
            ),
    {
        let mut i: usize = 0;
        while i < tokens.len()
            invariant
                i <= tokens@.len(),
                forall|j: int| 0 <= j < i ==> #[trigger] tokens@[j]@ <= self.end_id(),
            decreases tokens@.len() - i,
        {
            if tokens[i].0 > self.end_of_text.0 {
                assert(tokens@[i as int]@ > self.end_id());
                return Err(TokenizerError::UnknownToken);
            }
            i = i + 1;
        }
        let ghost s = ids(tokens@);
        let start_bytes = start_marker_bytes();
        let end_bytes = end_marker_bytes();
        let mut out: Vec<u8> = Vec::new();
        let mut i: usize = 0;
        while i < tokens.len()
            invariant
                self.wf(),
                i <= tokens@.len(),
                s == ids(tokens@),
                forall|j: int| 0 <= j < tokens@.len() ==> #[trigger] tokens@[j]@ <= self.end_id(),
                start_bytes@ == start_marker(),
                end_bytes@ == end_marker(),
                out@ == decoded_bytes(self.pieces(), self.start_id(), self.end_id(), s.take(i as int)),
            decreases tokens@.len() - i,
        {
            let t = tokens[i].0;
            let ghost before = out@;
            let piece = if t == self.start_of_text.0 {
                &start_bytes
            } else if t == self.end_of_text.0 {
                &end_bytes
            } else {
                assert(self.decoder@.len() == self.pieces().len());
                assert(tokens@[i as int]@ == t);
                &self.decoder[t as usize]
            };
            let mut j: usize = 0;
            while j < piece.len()
                invariant
                    j <= piece@.len(),
                    out@ == before + piece@.take(j as int),
                decreases piece@.len() - j,
            {
                out.push(piece[j]);
                assert(piece@.take(j + 1) =~= piece@.take(j as int).push(piece@[j as int]));
                j = j + 1;
            }
            proof {
                assert(piece@.take(j as int) =~= piece@);
                assert(s.take(i + 1).drop_last() =~= s.take(i as int));
                assert(s.take(i + 1).last() == t);
            }
            i = i + 1;
        }
        assert(s.take(i as int) =~= s);
        Ok(out)
    }

    /// Converts a token sequence back to text: the bytes of the tokens are
    /// read as UTF-8, invalid sequences replaced, and every end-of-word
    /// marker becomes a space. Fails on a token beyond the vocabulary.
    pub fn decode(&self, tokens: &[Token]) -> (r: Result<String, TokenizerError>)
        requires
            self.wf(),
        ensures
            r is Ok <==> forall|i: int| 0 <= i < tokens@.len() ==> #[trigger] tokens@[i]@ <= self.end_id(),
            r is Err ==> r == Err::<String, TokenizerError>(TokenizerError::UnknownToken),
            r is Ok ==> (r->Ok_0)@ == replaced(
                lossy_text(decoded_bytes(self.pieces(), self.start_id(), self.end_id(), ids(tokens@))),
                end_of_word_marker(),
                seq![' '],
            ),
    {
        match self.decode_to_bytes(tokens) {
            Err(e) => Err(e),
            Ok(bytes) => {
                let text = utf8_lossy(bytes.as_slice());
                proof {
                    reveal_strlit("</w>");
                    reveal_strlit(" ");
                    assert("</w>"@ =~= end_of_word_marker());
                    assert(" "@ =~= seq![' ']);
                }
                Ok(replace_all(text.as_str(), "</w>", " "))
            },
        }
    }

    /// One batch row from the encoded tokens of a text.
    pub fn batch_row(&self, encoded: &Vec<Token>, context_length: usize) -> (r: Vec<u16>)
        requires
            context_length >= 3,
        ensures
            r@ == row_of(self.start_id(), self.end_id(), ids(encoded@), context_length as nat),
    {
        let ghost toks = ids(encoded@);
        let keep: usize = if encoded.len() <= context_length - 2 {
            encoded.len()
        } else {
            context_length - 2
        };
        let mut row: Vec<u16> = Vec::new();
        row.push(self.start_of_text.0);
        let mut j: usize = 0;
        while j < keep
            invariant
                keep <= encoded@.len(),
                keep + 2 <= context_length,
                j <= keep,
                toks == ids(encoded@),
                row@.len() == j + 1,
                forall|x: int| 0 <= x <= j ==> #[trigger] row@[x] == row_of(
                    self.start_id(),
                    self.end_id(),
                    toks,
                    context_length as nat,
                )[x],
            decreases keep - j,
        {
            row.push(encoded[j].0);
            j = j + 1;
        }
        row.push(self.end_of_text.0);
        while row.len() < context_length
            invariant
                keep + 2 <= row@.len() <= context_length,
                keep == kept(toks.len(), context_length as nat),
                forall|x: int| 0 <= x < row@.len() ==> #[trigger] row@[x] == row_of(
                    self.start_id(),
                    self.end_id(),
                    toks,
                    context_length as nat,
                )[x],
            decreases context_length - row@.len(),
        {
            row.push(0);
        }
        assert(row@ =~= row_of(self.start_id(), self.end_id(), toks, context_length as nat));
        row
    }

    /// Encodes each text into a row of `context_length` columns: the start
    /// marker, the text's tokens cut to fit, the end marker, then zeros.
    /// Fails when `context_length` is below 3.
    pub fn tokenize_batch(&self, texts: &[&str], context_length: usize) -> (r: Result<
        Vec<Vec<u16>>,
        TokenizerError,
    >)
        requires
            self.wf(),
        ensures
            r is Err <==> context_length < 3,
            r is Err ==> r == Err::<Vec<Vec<u16>>, TokenizerError>(TokenizerError::InvalidArgument),
            r is Ok ==> (r->Ok_0)@.len() == texts@.len(),
            r is Ok ==> forall|i: int| 0 <= i < texts@.len() ==> (#[trigger] (r->Ok_0)@[i])@ == row_of(
                self.start_id(),
                self.end_id(),
                words_ids(self.rules(), self.start_id(), self.end_id(), word_spans(lower_of(texts@[i]@))),
                context_length as nat,
            ),
    {
        if context_length < 3 {
            return Err(TokenizerError::InvalidArgument);
        }
        let mut rows: Vec<Vec<u16>> = Vec::new();
        let mut i: usize = 0;
        while i < texts.len()
            invariant
                self.wf(),
                context_length >= 3,
                i <= texts@.len(),
                rows@.len() == i,
                forall|x: int| 0 <= x < i ==> (#[trigger] rows@[x])@ == row_of(
                    self.start_id(),
                    self.end_id(),
                    words_ids(self.rules(), self.start_id(), self.end_id(), word_spans(lower_of(texts@[x]@))),
                    context_length as nat,
                ),
            decreases texts@.len() - i,
        {
            let mut tokens: Vec<Token> = Vec::new();
            self.encode(texts[i], &mut tokens);
            assert(ids(Seq::<Token>::empty()) =~= Seq::<u16>::empty());
            assert(ids(tokens@) =~= words_ids(self.rules(), self.start_id(), self.end_id(), word_spans(lower_of(texts@[i as int]@))));
            let row = self.batch_row(&tokens, context_length);
            rows.push(row);
            i = i + 1;
        }
        Ok(rows)
    }

    /// Every token that encoding produces is known to the tokenizer, so
    /// decoding the output of `encode` never fails.
    pub proof fn lemma_encoded_tokens_decode(&self, ws: Seq<Seq<u8>>)
        requires
            self.wf(),
        ensures
            forall|i: int|
                0 <= i < words_ids(self.rules(), self.start_id(), self.end_id(), ws).len()
                    ==> #[trigger] words_ids(self.rules(), self.start_id(), self.end_id(), ws)[i]
                    <= self.end_id(),
        decreases ws.len(),
    {
        if ws.len() > 0 {
            self.lemma_encoded_tokens_decode(ws.drop_last());
            let w = ws.last();
            let bound = self.end_id() + 1;
            if w != start_marker() && w != end_marker() {
                assert forall|i: int| 0 <= i < initial_tokens(w).len() implies #[trigger] initial_tokens(w)[i] < bound by {
                    lemma_byte_alphabet(w[i], w[i]);
                }
                assert(results_below(self.rules(), bound));
                lemma_merged_below(self.rules(), initial_tokens(w), bound);
            }
            let prev = words_ids(self.rules(), self.start_id(), self.end_id(), ws.drop_last());
            let cur = word_ids(self.rules(), self.start_id(), self.end_id(), w);
            assert(forall|i: int| 0 <= i < cur.len() ==> (prev + cur)[prev.len() + i] == cur[i]);
        }
    }

    /// The start marker token.
    pub fn start_of_text(&self) -> (r: Token)
        ensures
            r@ == self.start_id(),
    {
        self.start_of_text
    }

    /// The end marker token.
    pub fn end_of_text(&self) -> (r: Token)
        ensures
            r@ == self.end_id(),
    {
        self.end_of_text
    }
}

} // verus!
