//! The vocabulary model: what reading the merge rules of a vocabulary
//! source builds, one rule line at a time.
use crate::alphabet::{code_token, token_byte};
use crate::tables::{KeyMap, PairMap};
use crate::text::fields_of;
use vstd::prelude::*;

verus! {

/// Identifier of the first merge rule: all base and end-of-word tokens lie below it.
pub const FIRST_RULE_ID: u16 = 512;

/// Tokens beyond the merge rules: the start and end markers.
pub const MARKER_COUNT: u16 = 2;

/// The characters that mark the end of a word in vocabulary entries.
pub open spec fn end_of_word_marker() -> Seq<char> {
    seq!['<', '/', 'w', '>']
}

/// The bytes of the end-of-word marker.
pub open spec fn end_of_word_bytes() -> Seq<u8> {
    seq![0x3cu8, 0x2fu8, 0x77u8, 0x3eu8]
}

/// The token that a base entry names: a single alphabet character, or one
/// followed by the end-of-word marker; -1 for any other text.
pub open spec fn base_key_token(k: Seq<char>) -> int {
    if k.len() == 1 {
        code_token(k[0] as u32)
    } else if k.len() == 5 && k.skip(1) == end_of_word_marker() && code_token(k[0] as u32) >= 0 {
        code_token(k[0] as u32) + 256
    } else {
        -1
    }
}

/// The entries known before any rule is read.
pub open spec fn base_keys() -> KeyMap {
    Map::new(|k: Seq<char>| base_key_token(k) >= 0, |k: Seq<char>| base_key_token(k) as u16)
}

/// The bytes of base or end-of-word token `t` (for `t < 512`).
pub open spec fn base_piece(t: int) -> Seq<u8> {
    if t < 256 {
        seq![token_byte(t)]
    } else {
        seq![token_byte(t - 256)] + end_of_word_bytes()
    }
}

/// The state of vocabulary construction.
pub struct VocabModel {
    /// Entry texts that rule lines may name, with their tokens.
    pub keys: KeyMap,
    /// The merge rules read so far.
    pub rules: PairMap,
    /// The bytes of every token, indexed by token identifier.
    pub pieces: Seq<Seq<u8>>,
}

/// The state before any rule is read.
pub open spec fn initial_model() -> VocabModel {
    VocabModel {
        keys: base_keys(),
        rules: Map::empty(),
        pieces: Seq::new(512, |t: int| base_piece(t)),
    }
}

/// Reads one rule line: its first two fields must name known entries; the
/// pair gets the next identifier, and their concatenation becomes an entry.
pub open spec fn read_rule(m: VocabModel, line: Seq<char>) -> Option<VocabModel> {
    let f = fields_of(line);
    if f.len() < 2 || !m.keys.dom().contains(f[0]) || !m.keys.dom().contains(f[1]) {
        None
    } else {
        let a = m.keys[f[0]];
        let b = m.keys[f[1]];
        let id = m.pieces.len() as u16;
        Some(
            VocabModel {
                keys: m.keys.insert(f[0] + f[1], id),
                rules: m.rules.insert((a, b), id),
                pieces: m.pieces.push(m.pieces[a as int] + m.pieces[b as int]),
            },
        )
    }
}

/// The state after the first `n` rule lines, or `None` when one of them is invalid.
pub open spec fn model_after(lines: Seq<Seq<char>>, n: nat) -> Option<VocabModel>
    decreases n,
{
    if n == 0 {
        Some(initial_model())
    } else {
        match model_after(lines, (n - 1) as nat) {
            None => None,
            Some(m) => read_rule(m, lines[n - 1]),
        }
    }
}

/// The rule lines of a source: the header line is skipped, and at most
/// `max_vocabulary_size - 514` lines are read.
pub open spec fn rule_lines(lines: Seq<Seq<char>>, max_vocabulary_size: u16) -> Seq<Seq<char>> {
    let budget = max_vocabulary_size - 514;
    if lines.len() <= 1 {
        Seq::empty()
    } else if lines.len() - 1 <= budget {
        lines.skip(1)
    } else {
        lines.subrange(1, 1 + budget)
    }
}

/// Tokens in a consistent state refer only to tokens that have bytes, and
/// every rule's result lies between the first rule identifier and the
/// next free one.
pub open spec fn model_wf(m: VocabModel) -> bool {
    &&& m.pieces.len() >= 512
    &&& forall|k: Seq<char>| #[trigger] m.keys.dom().contains(k) ==> m.keys[k] < m.pieces.len()
    &&& forall|p: (u16, u16)| #[trigger]
        m.rules.dom().contains(p) ==> {
            &&& p.0 < m.pieces.len()
            &&& p.1 < m.pieces.len()
            &&& 512 <= m.rules[p] < m.pieces.len()
        }
}

/// Once a line is invalid, construction fails whatever follows.
pub proof fn lemma_failure_is_final(lines: Seq<Seq<char>>, i: nat, n: nat)
    requires
        i <= n,
        model_after(lines, i) is None,
    ensures
        model_after(lines, n) is None,
    decreases n - i,
{
    if i < n {
        lemma_failure_is_final(lines, i, (n - 1) as nat);
    }
}

/// When rule line `k - 1` cannot be read, construction over `n >= k`
/// lines fails.
pub proof fn lemma_invalid_line_fails(lines: Seq<Seq<char>>, k: nat, n: nat)
    requires
        1 <= k <= n,
        model_after(lines, (k - 1) as nat) is Some,
        read_rule(model_after(lines, (k - 1) as nat)->0, lines[k - 1]) is None,
    ensures
        model_after(lines, n) is None,
{
    lemma_failure_is_final(lines, k, n);
}

/// After `n` valid rule lines the state is consistent and the next free
/// identifier is `512 + n`.
pub proof fn lemma_model_wf(lines: Seq<Seq<char>>, n: nat)
    requires
        model_after(lines, n) is Some,
        n <= 65021,
    ensures
        model_wf(model_after(lines, n)->0),
        (model_after(lines, n)->0).pieces.len() == 512 + n,
    decreases n,
{
    if n > 0 {
        lemma_model_wf(lines, (n - 1) as nat);
    } else {
        let m = initial_model();
        assert forall|k: Seq<char>| #[trigger] m.keys.dom().contains(k) implies m.keys[k]
            < m.pieces.len() by {
            assert(base_key_token(k) < 512);
        }
    }
}

/// Merge rule identifiers increase in the order the rules are read: the
/// rule of line `i` gets identifier `512 + i`, above every rule read before it.
pub proof fn lemma_rule_ids_increase(lines: Seq<Seq<char>>, i: nat)
    requires
        model_after(lines, i + 1) is Some,
        i < 65021,
    ensures
        ({
            let before = model_after(lines, i)->0;
            let after = model_after(lines, i + 1)->0;
            let f = fields_of(lines[i as int]);
            let pair = (before.keys[f[0]], before.keys[f[1]]);
            &&& after.rules == before.rules.insert(pair, (512 + i) as u16)
            &&& forall|p: (u16, u16)| #[trigger]
                before.rules.dom().contains(p) ==> before.rules[p] < 512 + i
        }),
{
    lemma_model_wf(lines, i);
}

} // verus!
