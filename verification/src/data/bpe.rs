//! Tokens that grow by joining the most frequent neighbours.

use super::tokenizer;
use super::tokenizer::{distinct_chars, places_of, Tokenizer};
use crate::text::{chars_of, push_text};
use std::collections::HashMap;
use vstd::prelude::*;

verus! {

/// What a tokenizer knows: the single characters, all tokens as text (the characters first,
/// then one for each join), and the joins in the order in which they are applied.
#[verifier::ext_equal]
pub struct BpeModel {
    pub chars: Seq<char>,
    pub words: Seq<Seq<char>>,
    pub joins: Seq<(usize, usize)>,
}

impl BpeModel {
    /// Whether each join is of two earlier tokens and has its own token.
    pub open spec fn well_formed(self) -> bool {
        &&& self.words.len() == self.chars.len() + self.joins.len()
        &&& self.words.len() <= usize::MAX
        &&& tokenizer::increasing(self.chars)
        &&& forall|i: int|
            0 <= i < self.chars.len() ==> #[trigger] self.words[i] == seq![self.chars[i]]
        &&& forall|k: int|
            0 <= k < self.joins.len() ==> {
                &&& (#[trigger] self.joins[k]).0 < self.chars.len() + k
                &&& self.joins[k].1 < self.chars.len() + k
                &&& self.words[self.chars.len() + k] == self.words[self.joins[k].0 as int]
                    + self.words[self.joins[k].1 as int]
            }
    }

    /// The ids of a text: those of its characters, with all joins applied in order.
    pub open spec fn ids_of(self, text: Seq<char>) -> Seq<usize> {
        joined_ids(self.words, self.joins, tokenizer::places(self.chars, text))
    }

    /// Whether the model results from joining, again and again, a pair of neighbours of
    /// which the training text has most, until there are `target` tokens or no neighbours.
    pub open spec fn trained_on(self, text: Seq<char>, target: usize) -> bool {
        let start = tokenizer::places(self.chars, text);
        &&& self.well_formed()
        &&& self.chars.to_set() == text.to_set()
        &&& forall|k: int|
            0 <= k < self.joins.len() ==> is_most_frequent(
                stage(start, self.chars.len(), self.joins.take(k)),
                #[trigger] self.joins[k],
            )
        &&& self.joins.len() > 0 ==> self.words.len() <= target
        &&& self.words.len() >= target || stage(start, self.chars.len(), self.joins).len() < 2
    }
}

/// How often the pair stands in `ids`, the second right behind the first.
pub open spec fn pair_count(ids: Seq<usize>, pair: (usize, usize)) -> nat
    decreases ids.len(),
{
    if ids.len() < 2 {
        0
    } else {
        pair_count(ids.drop_last(), pair) + (if (ids[ids.len() - 2], ids.last()) == pair {
            1nat
        } else {
            0nat
        })
    }
}

/// Whether the pair occurs in `ids`, and no pair more often.
pub open spec fn is_most_frequent(ids: Seq<usize>, pair: (usize, usize)) -> bool {
    &&& pair_count(ids, pair) > 0
    &&& forall|other: (usize, usize)| #[trigger] pair_count(ids, other) <= pair_count(ids, pair)
}

/// `ids` with every `a` followed by `b` replaced by `new`, from left to right; what was
/// replaced is not looked at again.
pub open spec fn joined(ids: Seq<usize>, a: usize, b: usize, new: usize) -> Seq<usize>
    decreases ids.len(),
{
    if ids.len() == 0 {
        seq![]
    } else if ids.len() >= 2 && ids[0] == a && ids[1] == b {
        seq![new] + joined(ids.skip(2), a, b, new)
    } else {
        seq![ids[0]] + joined(ids.skip(1), a, b, new)
    }
}

/// The training text after some joins, each with a token of its own.
pub open spec fn stage(start: Seq<usize>, chars: nat, joins: Seq<(usize, usize)>) -> Seq<usize>
    decreases joins.len(),
{
    if joins.len() == 0 {
        start
    } else {
        joined(
            stage(start, chars, joins.drop_last()),
            joins.last().0,
            joins.last().1,
            (chars + joins.len() - 1) as usize,
        )
    }
}

/// The last place of `word` in `words`; zero where it is missing.
pub open spec fn last_place(words: Seq<Seq<char>>, word: Seq<char>) -> nat
    decreases words.len(),
{
    if words.len() == 0 {
        0
    } else if words.last() == word {
        (words.len() - 1) as nat
    } else {
        last_place(words.drop_last(), word)
    }
}

/// `ids` after all joins in order. A join yields the last token with its text.
pub open spec fn joined_ids(
    words: Seq<Seq<char>>,
    joins: Seq<(usize, usize)>,
    ids: Seq<usize>,
) -> Seq<usize>
    decreases joins.len(),
{
    if joins.len() == 0 {
        ids
    } else {
        let (a, b) = joins.last();
        joined(
            joined_ids(words, joins.drop_last(), ids),
            a,
            b,
            last_place(words, words[a as int] + words[b as int]) as usize,
        )
    }
}

/// The text of some ids.
pub open spec fn spelled(words: Seq<Seq<char>>, ids: Seq<usize>) -> Seq<char>
    decreases ids.len(),
{
    if ids.len() == 0 {
        seq![]
    } else {
        words[ids[0] as int] + spelled(words, ids.skip(1))
    }
}

/// What some strings say.
pub open spec fn spellings(strings: Seq<String>) -> Seq<Seq<char>> {
    strings.map_values(|s: String| s@)
}

proof fn lemma_pair_count_bound(ids: Seq<usize>, pair: (usize, usize))
    ensures
        pair_count(ids, pair) <= ids.len(),
    decreases ids.len(),
{
    if ids.len() >= 2 {
        lemma_pair_count_bound(ids.drop_last(), pair);
    }
}

proof fn lemma_spelled_push(words: Seq<Seq<char>>, ids: Seq<usize>, id: usize)
    ensures
        spelled(words, ids.push(id)) == spelled(words, ids) + words[id as int],
    decreases ids.len(),
{
    if ids.len() > 0 {
        lemma_spelled_push(words, ids.skip(1), id);
        assert(ids.push(id).skip(1) =~= ids.skip(1).push(id));
        assert(words[ids[0] as int] + (spelled(words, ids.skip(1)) + words[id as int]) =~= (
        words[ids[0] as int] + spelled(words, ids.skip(1))) + words[id as int]);
    } else {
        assert(ids.push(id).skip(1) =~= seq![]);
        assert(spelled(words, ids.push(id).skip(1)) =~= seq![]);
        assert(ids.push(id)[0] == id);
        assert(spelled(words, ids.push(id)) =~= words[id as int]);
        assert(spelled(words, ids) + words[id as int] =~= words[id as int]);
    }
}

/// A join changes the ids, never the text.
pub proof fn law_join_keeps_text(
    words: Seq<Seq<char>>,
    ids: Seq<usize>,
    a: usize,
    b: usize,
    new: usize,
)
    requires
        words[new as int] == words[a as int] + words[b as int],
    ensures
        spelled(words, joined(ids, a, b, new)) == spelled(words, ids),
    decreases ids.len(),
{
    if ids.len() > 0 {
        if ids.len() >= 2 && ids[0] == a && ids[1] == b {
            law_join_keeps_text(words, ids.skip(2), a, b, new);
            let rest = joined(ids.skip(2), a, b, new);
            assert((seq![new] + rest).skip(1) =~= rest);
            assert(ids.skip(1).skip(1) =~= ids.skip(2));
            assert(ids.skip(1)[0] == b);
            assert(spelled(words, ids.skip(1)) == words[b as int] + spelled(words, ids.skip(2)));
            assert((words[a as int] + words[b as int]) + spelled(words, ids.skip(2))
                =~= words[a as int] + (words[b as int] + spelled(words, ids.skip(2))));
        } else {
            law_join_keeps_text(words, ids.skip(1), a, b, new);
            let rest = joined(ids.skip(1), a, b, new);
            assert((seq![ids[0]] + rest).skip(1) =~= rest);
        }
    }
}

/// A join never lengthens the ids, and keeps them below any bound that holds for the new id.
proof fn lemma_joined_bounds(ids: Seq<usize>, a: usize, b: usize, new: usize, bound: nat)
    requires
        forall|i: int| 0 <= i < ids.len() ==> (#[trigger] ids[i]) < bound,
        new < bound,
    ensures
        joined(ids, a, b, new).len() <= ids.len(),
        forall|i: int|
            0 <= i < joined(ids, a, b, new).len() ==> (#[trigger] joined(ids, a, b, new)[i])
                < bound,
    decreases ids.len(),
{
    if ids.len() > 0 {
        if ids.len() >= 2 && ids[0] == a && ids[1] == b {
            assert forall|i: int| 0 <= i < ids.skip(2).len() implies (#[trigger] ids.skip(2)[i])
                < bound by {
                assert(ids[i + 2] < bound);
            }
            lemma_joined_bounds(ids.skip(2), a, b, new, bound);
        } else {
            assert(ids[0] < bound);
            assert forall|i: int| 0 <= i < ids.skip(1).len() implies (#[trigger] ids.skip(1)[i])
                < bound by {
                assert(ids[i + 1] < bound);
            }
            lemma_joined_bounds(ids.skip(1), a, b, new, bound);
        }
    }
}

proof fn lemma_last_place(words: Seq<Seq<char>>, word: Seq<char>, i: int)
    requires
        0 <= i < words.len(),
        words[i] == word,
    ensures
        i <= last_place(words, word) < words.len(),
        words[last_place(words, word) as int] == word,
    decreases words.len(),
{
    if words.last() != word {
        lemma_last_place(words.drop_last(), word, i);
    }
}

/// Joins neither lengthen the ids of a text nor leave the tokens, nor change the text.
proof fn lemma_joined_ids(model: BpeModel, n: int, ids: Seq<usize>)
    requires
        model.well_formed(),
        0 <= n <= model.joins.len(),
        forall|i: int| 0 <= i < ids.len() ==> (#[trigger] ids[i]) < model.words.len(),
    ensures
        ({
            let out = joined_ids(model.words, model.joins.take(n), ids);
            &&& out.len() <= ids.len()
            &&& forall|i: int| 0 <= i < out.len() ==> (#[trigger] out[i]) < model.words.len()
            &&& spelled(model.words, out) == spelled(model.words, ids)
        }),
    decreases n,
{
    if n > 0 {
        let joins = model.joins.take(n);
        assert(joins.drop_last() =~= model.joins.take(n - 1));
        lemma_joined_ids(model, n - 1, ids);
        let (a, b) = model.joins[n - 1];
        let word = model.words[a as int] + model.words[b as int];
        let k = n - 1;
        assert(model.words[model.chars.len() + k] == word);
        lemma_last_place(model.words, word, model.chars.len() + k);
        let new = last_place(model.words, word) as usize;
        let before = joined_ids(model.words, model.joins.take(n - 1), ids);
        lemma_joined_bounds(before, a, b, new, model.words.len());
        law_join_keeps_text(model.words, before, a, b, new);
    }
}

proof fn lemma_places_spell(model: BpeModel, text: Seq<char>)
    requires
        model.well_formed(),
    ensures
        spelled(model.words, tokenizer::places(model.chars, text)) == tokenizer::known_part(
            model.chars,
            text,
        ),
        tokenizer::places(model.chars, text).len() <= text.len(),
        forall|i: int|
            0 <= i < tokenizer::places(model.chars, text).len() ==> (#[trigger] tokenizer::places(
                model.chars,
                text,
            )[i]) < model.chars.len(),
    decreases text.len(),
{
    if text.len() > 0 {
        let before = text.drop_last();
        lemma_places_spell(model, before);
        tokenizer::lemma_place(model.chars, text.last());
        if model.chars.contains(text.last()) {
            let id = tokenizer::place(model.chars, text.last()) as usize;
            lemma_spelled_push(model.words, tokenizer::places(model.chars, before), id);
            assert(model.words[id as int] == seq![text.last()]);
            assert(tokenizer::known_part(model.chars, before) + seq![text.last()]
                =~= tokenizer::known_part(model.chars, before).push(text.last()));
        }
    }
}

/// Decoding what was encoded gives the text without its unknown characters.
pub proof fn law_bpe_roundtrip(model: BpeModel, text: Seq<char>)
    requires
        model.well_formed(),
    ensures
        spelled(model.words, model.ids_of(text)) == tokenizer::known_part(model.chars, text),
{
    lemma_places_spell(model, text);
    let start = tokenizer::places(model.chars, text);
    assert(model.joins.take(model.joins.len() as int) =~= model.joins);
    lemma_joined_ids(model, model.joins.len() as int, start);
}

/// The training text, and every text of its characters, comes back unchanged.
pub proof fn law_bpe_roundtrip_of_known_text(
    model: BpeModel,
    training: Seq<char>,
    target: usize,
    text: Seq<char>,
)
    requires
        model.trained_on(training, target),
        forall|i: int| 0 <= i < text.len() ==> training.contains(#[trigger] text[i]),
    ensures
        spelled(model.words, model.ids_of(text)) == text,
{
    law_bpe_roundtrip(model, text);
    assert forall|i: int| 0 <= i < text.len() implies model.chars.contains(#[trigger] text[i]) by {
        assert(training.to_set().contains(text[i]));
    }
    tokenizer::lemma_all_known(model.chars, text);
}

/// Encoding never takes more tokens than the text has characters.
pub proof fn law_bpe_never_lengthens(model: BpeModel, text: Seq<char>)
    requires
        model.well_formed(),
    ensures
        model.ids_of(text).len() <= text.len(),
{
    lemma_places_spell(model, text);
    let start = tokenizer::places(model.chars, text);
    assert(model.joins.take(model.joins.len() as int) =~= model.joins);
    lemma_joined_ids(model, model.joins.len() as int, start);
}

/// A number for each pair, no two the same.
spec fn pair_key(pair: (usize, usize)) -> u128 {
    (pair.0 * 0x1_0000_0000_0000_0000 + pair.1) as u128
}

/// The number of a pair.
fn key_of(a: usize, b: usize) -> (key: u128)
    ensures
        key == pair_key((a, b)),
{
    (a as u128) * 0x1_0000_0000_0000_0000u128 + (b as u128)
}

proof fn lemma_pair_keys_differ(p: (usize, usize), q: (usize, usize))
    ensures
        pair_key(p) == pair_key(q) ==> p == q,
{
}

/// A pair of neighbours that `ids` has most often.
fn most_frequent_pair(ids: &Vec<usize>) -> (best: Option<(usize, usize)>)
    ensures
        best is None <==> ids@.len() < 2,
        best matches Some(pair) ==> is_most_frequent(ids@, pair),
{
    let len: usize = ids.len();
    if len < 2 {
        return None;
    }
    let mut counts: HashMap<u128, usize> = HashMap::new();
    let mut best: (usize, usize) = (ids[0], ids[1]);
    let mut best_count: usize = 0;
    let mut i: usize = 1;
    assert(forall|p: (usize, usize)| #[trigger] pair_count(ids@.take(1), p) == 0);
    while i < len
        invariant
            1 <= i <= len == ids@.len(),
            best_count == pair_count(ids@.take(i as int), best),
            i > 1 ==> best_count > 0,
            forall|p: (usize, usize)| #[trigger]
                pair_count(ids@.take(i as int), p) <= best_count,
            forall|p: (usize, usize)| #[trigger]
                pair_count(ids@.take(i as int), p) > 0 <==> counts@.contains_key(pair_key(p)),
            forall|p: (usize, usize)|
                counts@.contains_key(pair_key(p)) ==> counts@[pair_key(p)] == #[trigger] pair_count(
                    ids@.take(i as int),
                    p,
                ),
        decreases len - i,
    {
        let pair: (usize, usize) = (ids[i - 1], ids[i]);
        let key: u128 = key_of(pair.0, pair.1);
        proof {
            let next = ids@.take(i + 1);
            assert(next.drop_last() =~= ids@.take(i as int));
            assert((next[next.len() - 2], next.last()) == pair);
            lemma_pair_count_bound(ids@.take(i as int), pair);
            assert forall|p: (usize, usize)|
                pair_key(p) == pair_key(pair) implies p == pair by {
                lemma_pair_keys_differ(p, pair);
            }
            assert forall|p: (usize, usize)| #[trigger]
                pair_count(next, p) == pair_count(ids@.take(i as int), p) + (if p == pair {
                    1nat
                } else {
                    0nat
                }) by {}
        }
        let count: usize = match counts.get(&key) {
            Some(n) => *n + 1,
            None => 1,
        };
        counts.insert(key, count);
        if count > best_count {
            best = pair;
            best_count = count;
        }
        i = i + 1;
    }
    assert(ids@.take(i as int) =~= ids@);
    Some(best)
}

/// `ids` with every `a` followed by `b` replaced by `new`.
fn join(ids: &Vec<usize>, a: usize, b: usize, new: usize) -> (out: Vec<usize>)
    ensures
        out@ == joined(ids@, a, b, new),
{
    let mut out: Vec<usize> = Vec::new();
    let mut i: usize = 0;
    assert(ids@.skip(0) =~= ids@);
    assert(out@ + joined(ids@, a, b, new) =~= joined(ids@, a, b, new));
    while i < ids.len()
        invariant
            i <= ids@.len(),
            out@ + joined(ids@.skip(i as int), a, b, new) == joined(ids@, a, b, new),
        decreases ids@.len() - i,
    {
        let ghost before = out@;
        if i + 1 < ids.len() && ids[i] == a && ids[i + 1] == b {
            out.push(new);
            proof {
                let rest = joined(ids@.skip(i + 2), a, b, new);
                assert(ids@.skip(i as int).skip(2) =~= ids@.skip(i + 2));
                assert(before + (seq![new] + rest) =~= out@ + rest);
            }
            i = i + 2;
        } else {
            out.push(ids[i]);
            proof {
                let rest = joined(ids@.skip(i + 1), a, b, new);
                assert(ids@.skip(i as int).skip(1) =~= ids@.skip(i + 1));
                assert(before + (seq![ids@[i as int]] + rest) =~= out@ + rest);
            }
            i = i + 1;
        }
    }
    assert(out@ + joined(ids@.skip(i as int), a, b, new) =~= out@);
    out
}

/// The last token with the given text.
fn find_last(vocab: &Vec<String>, word: &String) -> (at: usize)
    requires
        spellings(vocab@).contains(word@),
    ensures
        at == last_place(spellings(vocab@), word@),
        at < vocab@.len(),
{
    let mut n: usize = vocab.len();
    let ghost words = spellings(vocab@);
    assert(words.take(n as int) =~= words);
    while n > 0 && !(vocab[n - 1] == *word)
        invariant
            n <= vocab@.len(),
            words == spellings(vocab@),
            words.contains(word@),
            last_place(words, word@) == last_place(words.take(n as int), word@),
            forall|j: int| n <= j < words.len() ==> words[j] != word@,
        decreases n,
    {
        assert(words.take(n as int).drop_last() =~= words.take(n - 1));
        assert(words.take(n as int).last() == words[n - 1]);
        n = n - 1;
    }
    assert(words.take(n as int).last() == words[n - 1]);
    n - 1
}

/// Joins tokens by frequency.
pub struct BpeTokenizer {
    chars: Vec<char>,
    vocab: Vec<String>,
    merges: Vec<(usize, usize)>,
}

impl View for BpeTokenizer {
    type V = BpeModel;

    closed spec fn view(&self) -> BpeModel {
        BpeModel {
            chars: self.chars@,
            words: spellings(self.vocab@),
            joins: self.merges@,
        }
    }
}

impl BpeTokenizer {
    #[verifier::type_invariant]
    spec fn is_well_formed(self) -> bool {
        self@.well_formed()
    }

    /// Trains a tokenizer on a text. The target is an upper bound for the number of joins:
    /// training ends early when the text has shrunk to a single token.
    pub fn train(text: &str, target_vocab_size: usize) -> (tokenizer: Self)
        ensures
            tokenizer@.trained_on(text@, target_vocab_size),
    {
        let letters: Vec<char> = chars_of(text);
        let chars: Vec<char> = distinct_chars(&letters);
        let mut vocab: Vec<String> = Vec::new();
        let mut i: usize = 0;
        while i < chars.len()
            invariant
                i <= chars@.len(),
                vocab@.len() == i,
                forall|j: int| 0 <= j < i ==> #[trigger] spellings(vocab@)[j] == seq![chars@[j]],
            decreases chars@.len() - i,
        {
            let mut word = String::new();
            word.push(chars[i]);
            let ghost before = spellings(vocab@);
            assert(word@ =~= seq![chars@[i as int]]);
            vocab.push(word);
            assert(spellings(vocab@) =~= before.push(word@));
            i = i + 1;
        }
        let mut ids: Vec<usize> = places_of(&chars, &letters);
        let ghost start = ids@;
        let mut merges: Vec<(usize, usize)> = Vec::new();
        let mut going: bool = true;
        let ghost mut model = BpeModel {
            chars: chars@,
            words: spellings(vocab@),
            joins: merges@,
        };
        while going && vocab.len() < target_vocab_size
            invariant
                model == (BpeModel {
                    chars: chars@,
                    words: spellings(vocab@),
                    joins: merges@,
                }),
                model.well_formed(),
                chars@.to_set() == text@.to_set(),
                start == tokenizer::places(chars@, text@),
                ids@ == stage(start, chars@.len(), merges@),
                forall|i: int| 0 <= i < ids@.len() ==> (#[trigger] ids@[i]) < vocab@.len(),
                forall|k: int|
                    0 <= k < merges@.len() ==> is_most_frequent(
                        stage(start, chars@.len(), merges@.take(k)),
                        #[trigger] merges@[k],
                    ),
                merges@.len() > 0 ==> vocab@.len() <= target_vocab_size,
                !going ==> ids@.len() < 2,
            decreases target_vocab_size - vocab@.len() + (if going { 1int } else { 0int }),
        {
            match most_frequent_pair(&ids) {
                None => {
                    going = false;
                },
                Some((a, b)) => {
                    let ghost before = model;
                    let ghost old_merges = merges@;
                    proof {
                        lemma_pair_members(ids@, (a, b));
                    }
                    let new_id: usize = vocab.len();
                    let mut word = vocab[a].clone();
                    push_text(&mut word, vocab[b].as_str());
                    vocab.push(word);
                    merges.push((a, b));
                    proof {
                        assert(spellings(vocab@) =~= before.words.push(word@));
                        model = BpeModel {
                            chars: chars@,
                            words: spellings(vocab@),
                            joins: merges@,
                        };
                        assert forall|k: int| 0 <= k < model.joins.len() implies {
                            &&& (#[trigger] model.joins[k]).0 < model.chars.len() + k
                            &&& model.joins[k].1 < model.chars.len() + k
                            &&& model.words[model.chars.len() + k]
                                == model.words[model.joins[k].0 as int]
                                + model.words[model.joins[k].1 as int]
                        } by {
                            if k < old_merges.len() {
                                assert(model.joins[k] == before.joins[k]);
                            }
                        }
                        assert(merges@.drop_last() =~= old_merges);
                        assert(forall|k: int|
                            0 <= k <= old_merges.len() ==> #[trigger] merges@.take(k)
                                =~= old_merges.take(k));
                        assert(old_merges.take(old_merges.len() as int) =~= old_merges);
                        lemma_joined_bounds(ids@, a, b, new_id, vocab@.len());
                    }
                    ids = join(&ids, a, b, new_id);
                },
            }
        }
        BpeTokenizer { chars, vocab, merges }
    }

    /// All tokens as text.
    pub fn vocab(&self) -> (vocab: &Vec<String>)
        ensures
            spellings(vocab@) == self@.words,
    {
        &self.vocab
    }
}

/// Both members of a pair that occurs in `ids` occur in `ids`.
proof fn lemma_pair_members(ids: Seq<usize>, pair: (usize, usize))
    requires
        pair_count(ids, pair) > 0,
    ensures
        ids.contains(pair.0),
        ids.contains(pair.1),
    decreases ids.len(),
{
    if (ids[ids.len() - 2], ids.last()) == pair {
        assert(ids[ids.len() - 2] == pair.0);
        assert(ids[ids.len() - 1] == pair.1);
    } else {
        lemma_pair_members(ids.drop_last(), pair);
        let i = choose|i: int| 0 <= i < ids.drop_last().len() && ids.drop_last()[i] == pair.0;
        let j = choose|j: int| 0 <= j < ids.drop_last().len() && ids.drop_last()[j] == pair.1;
        assert(ids[i] == pair.0 && ids[j] == pair.1);
    }
}

impl Tokenizer for BpeTokenizer {
    open spec fn ids_of(&self, text: Seq<char>) -> Seq<usize> {
        self@.ids_of(text)
    }

    open spec fn text_of(&self, ids: Seq<usize>) -> Seq<char> {
        spelled(self@.words, ids)
    }

    open spec fn size(&self) -> nat {
        self@.words.len()
    }

    fn encode(&self, text: &str) -> (ids: Vec<usize>) {
        proof {
            use_type_invariant(self);
        }
        let letters: Vec<char> = chars_of(text);
        let mut ids: Vec<usize> = places_of(&self.chars, &letters);
        let ghost start = ids@;
        let mut k: usize = 0;
        assert(self.merges@.take(0) =~= seq![]);
        while k < self.merges.len()
            invariant
                k <= self.merges@.len(),
                self@.well_formed(),
                start == tokenizer::places(self@.chars, text@),
                forall|i: int| 0 <= i < start.len() ==> (#[trigger] start[i]) < self@.words.len(),
                ids@ == joined_ids(self@.words, self@.joins.take(k as int), start),
            decreases self.merges@.len() - k,
        {
            let (a, b) = self.merges[k];
            assert(self@.joins[k as int] == (a, b));
            let mut word = self.vocab[a].clone();
            push_text(&mut word, self.vocab[b].as_str());
            assert(self@.words[self@.chars.len() + k] == word@);
            let new_id: usize = find_last(&self.vocab, &word);
            assert(self@.joins.take(k + 1).drop_last() =~= self@.joins.take(k as int));
            ids = join(&ids, a, b, new_id);
            k = k + 1;
        }
        proof {
            assert(self@.joins.take(k as int) =~= self@.joins);
            lemma_joined_ids(self@, self@.joins.len() as int, start);
        }
        ids
    }

    fn decode(&self, ids: &[usize]) -> (text: String) {
        let mut text = String::new();
        let mut i: usize = 0;
        while i < ids.len()
            invariant
                i <= ids@.len(),
                forall|j: int| 0 <= j < ids@.len() ==> (#[trigger] ids@[j]) < self.size(),
                text@ == spelled(self@.words, ids@.take(i as int)),
            decreases ids@.len() - i,
        {
            assert(ids@[i as int] < self.size());
            push_text(&mut text, self.vocab[ids[i]].as_str());
            proof {
                assert(ids@.take(i + 1) =~= ids@.take(i as int).push(ids@[i as int]));
                lemma_spelled_push(self@.words, ids@.take(i as int), ids@[i as int]);
            }
            i = i + 1;
        }
        assert(ids@.take(i as int) =~= ids@);
        text
    }

    fn vocab_size(&self) -> (n: usize) {
        self.vocab.len()
    }
}

} // verus!
