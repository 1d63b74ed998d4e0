//! Text and token ids.

use crate::text::chars_of;
use vstd::prelude::*;

verus! {

/// Turns text into token ids and back. A type outside of proofs need not define its tokens.
pub trait Tokenizer {
    /// The ids of a text.
    open spec fn ids_of(&self, text: Seq<char>) -> Seq<usize> {
        arbitrary()
    }

    /// The text of some ids.
    open spec fn text_of(&self, ids: Seq<usize>) -> Seq<char> {
        arbitrary()
    }

    /// How many tokens there are.
    open spec fn size(&self) -> nat {
        arbitrary()
    }

    /// The ids of a text.
    fn encode(&self, text: &str) -> (ids: Vec<usize>)
        ensures
            ids@ == self.ids_of(text@),
            forall|i: int| 0 <= i < ids@.len() ==> (#[trigger] ids@[i]) < self.size(),
    ;

    /// The text of some ids, all of them tokens.
    fn decode(&self, ids: &[usize]) -> (text: String)
        requires
            forall|i: int| 0 <= i < ids@.len() ==> (#[trigger] ids@[i]) < self.size(),
        ensures
            text@ == self.text_of(ids@),
    ;

    /// How many tokens there are.
    fn vocab_size(&self) -> (n: usize)
        ensures
            n == self.size(),
    ;
}

/// The first place of `c` in `chars`, counted from zero; the length where it is missing.
pub open spec fn place(chars: Seq<char>, c: char) -> nat
    decreases chars.len(),
{
    if chars.len() == 0 || chars[0] == c {
        0
    } else {
        1 + place(chars.skip(1), c)
    }
}

/// The places of the characters of `text`, those left out that are missing in `chars`.
pub open spec fn places(chars: Seq<char>, text: Seq<char>) -> Seq<usize>
    decreases text.len(),
{
    if text.len() == 0 {
        seq![]
    } else if chars.contains(text.last()) {
        places(chars, text.drop_last()).push(place(chars, text.last()) as usize)
    } else {
        places(chars, text.drop_last())
    }
}

/// The characters of `text` that occur in `chars`.
pub open spec fn known_part(chars: Seq<char>, text: Seq<char>) -> Seq<char>
    decreases text.len(),
{
    if text.len() == 0 {
        seq![]
    } else if chars.contains(text.last()) {
        known_part(chars, text.drop_last()).push(text.last())
    } else {
        known_part(chars, text.drop_last())
    }
}

/// Whether the characters stand in strictly increasing order of code points.
pub open spec fn increasing(chars: Seq<char>) -> bool {
    forall|i: int, j: int|
        0 <= i < j < chars.len() ==> (#[trigger] chars[i] as int) < (#[trigger] chars[j] as int)
}

/// A character that occurs stands at its place.
pub proof fn lemma_place(chars: Seq<char>, c: char)
    ensures
        place(chars, c) <= chars.len(),
        chars.contains(c) <==> place(chars, c) < chars.len(),
        chars.contains(c) ==> chars[place(chars, c) as int] == c,
    decreases chars.len(),
{
    if chars.len() > 0 {
        let rest = chars.skip(1);
        lemma_place(rest, c);
        if chars[0] != c {
            if rest.contains(c) {
                let i = choose|i: int| 0 <= i < rest.len() && rest[i] == c;
                assert(chars[i + 1] == c);
            }
            if chars.contains(c) {
                let i = choose|i: int| 0 <= i < chars.len() && chars[i] == c;
                assert(rest[i - 1] == c);
            }
        }
    }
}

/// The place of a character, if it occurs.
pub fn find_char(chars: &Vec<char>, c: char) -> (found: Option<usize>)
    ensures
        match found {
            Some(i) => chars@.contains(c) && i == place(chars@, c) && i < chars@.len(),
            None => !chars@.contains(c),
        },
{
    let mut i: usize = 0;
    assert(chars@.skip(0) =~= chars@);
    proof {
        lemma_place(chars@, c);
    }
    while i < chars.len()
        invariant
            i <= chars@.len(),
            place(chars@, c) == i + place(chars@.skip(i as int), c),
            chars@.contains(c) <==> place(chars@, c) < chars@.len(),
        decreases chars@.len() - i,
    {
        if chars[i] == c {
            return Some(i);
        }
        assert(chars@.skip(i as int).skip(1) =~= chars@.skip(i + 1));
        i = i + 1;
    }
    None
}

/// Whether `a` has the smaller code point.
fn comes_before(a: char, b: char) -> (yes: bool)
    ensures
        yes == ((a as int) < (b as int)),
{
    (a as u32) < (b as u32)
}

/// The distinct characters of a text in increasing order.
pub fn distinct_chars(text: &Vec<char>) -> (chars: Vec<char>)
    ensures
        increasing(chars@),
        chars@.to_set() == text@.to_set(),
{
    let mut chars: Vec<char> = Vec::new();
    let mut i: usize = 0;
    assert(chars@.to_set() =~= text@.take(0).to_set());
    while i < text.len()
        invariant
            i <= text@.len(),
            increasing(chars@),
            chars@.to_set() == text@.take(i as int).to_set(),
        decreases text@.len() - i,
    {
        let c: char = text[i];
        let ghost before = chars@;
        let mut at: usize = chars.len();
        while at > 0 && comes_before(c, chars[at - 1])
            invariant
                at <= chars@.len(),
                increasing(chars@),
                forall|j: int| at <= j < chars@.len() ==> (c as int) < (#[trigger] chars@[j] as int),
            decreases at,
        {
            at = at - 1;
        }
        if at == 0 || chars[at - 1] != c {
            proof {
                if at > 0 {
                    let last = before[at - 1];
                    assert(!((c as int) < (last as int)) && last != c);
                    assert(forall|j: int| 0 <= j < at ==> (#[trigger] before[j] as int) < (c as int));
                }
            }
            chars.insert(at, c);
            assert(chars@ =~= before.insert(at as int, c));
            assert(increasing(chars@));
        }
        proof {
            assert(text@.take(i + 1) =~= text@.take(i as int).push(c));
            assert(at > 0 && before[at - 1] == c ==> before.contains(c));
            lemma_insert_to_set(before, at as int, c);
            lemma_insert_to_set(text@.take(i as int), i as int, c);
            assert(text@.take(i as int).insert(i as int, c) =~= text@.take(i + 1));
            assert(before.to_set().contains(c) ==> before.to_set().insert(c) =~= before.to_set());
        }
        i = i + 1;
    }
    assert(text@.take(i as int) =~= text@);
    chars
}

proof fn lemma_insert_to_set(s: Seq<char>, at: int, c: char)
    requires
        0 <= at <= s.len(),
    ensures
        s.insert(at, c).to_set() == s.to_set().insert(c),
{
    let t = s.insert(at, c);
    assert forall|x: char| t.to_set().contains(x) == s.to_set().insert(c).contains(x) by {
        if s.contains(x) {
            let i = choose|i: int| 0 <= i < s.len() && s[i] == x;
            assert(t[if i < at { i } else { i + 1 }] == x);
        }
        if x == c {
            assert(t[at] == x);
        }
        if t.contains(x) && x != c {
            let i = choose|i: int| 0 <= i < t.len() && t[i] == x;
            assert(s[if i < at { i } else { i - 1 }] == x);
        }
    }
    assert(t.to_set() =~= s.to_set().insert(c));
}

/// One token for every character of a training text. Other characters are left out when a
/// text is encoded.
pub struct CharTokenizer {
    pub vocab: Vec<char>,
}

impl CharTokenizer {
    /// The tokenizer of the characters of `text`, in increasing order.
    pub fn from_text(text: &str) -> (tokenizer: Self)
        ensures
            increasing(tokenizer.vocab@),
            tokenizer.vocab@.to_set() == text@.to_set(),
    {
        CharTokenizer { vocab: distinct_chars(&chars_of(text)) }
    }
}

/// The places of the characters of `text` in `chars`.
pub fn places_of(chars: &Vec<char>, text: &Vec<char>) -> (ids: Vec<usize>)
    ensures
        ids@ == places(chars@, text@),
        forall|i: int| 0 <= i < ids@.len() ==> (#[trigger] ids@[i]) < chars@.len(),
{
    let mut ids: Vec<usize> = Vec::new();
    let mut i: usize = 0;
    while i < text.len()
        invariant
            i <= text@.len(),
            ids@ == places(chars@, text@.take(i as int)),
            forall|j: int| 0 <= j < ids@.len() ==> (#[trigger] ids@[j]) < chars@.len(),
        decreases text@.len() - i,
    {
        assert(text@.take(i + 1).drop_last() =~= text@.take(i as int));
        match find_char(chars, text[i]) {
            Some(id) => ids.push(id),
            None => {},
        }
        i = i + 1;
    }
    assert(text@.take(i as int) =~= text@);
    ids
}

impl Tokenizer for CharTokenizer {
    open spec fn ids_of(&self, text: Seq<char>) -> Seq<usize> {
        places(self.vocab@, text)
    }

    open spec fn text_of(&self, ids: Seq<usize>) -> Seq<char> {
        ids.map_values(|id: usize| self.vocab@[id as int])
    }

    open spec fn size(&self) -> nat {
        self.vocab@.len()
    }

    fn encode(&self, text: &str) -> (ids: Vec<usize>) {
        places_of(&self.vocab, &chars_of(text))
    }

    fn decode(&self, ids: &[usize]) -> (text: String) {
        let mut text = String::new();
        let mut i: usize = 0;
        while i < ids.len()
            invariant
                i <= ids@.len(),
                forall|j: int| 0 <= j < ids@.len() ==> (#[trigger] ids@[j]) < self.size(),
                text@ == self.text_of(ids@.take(i as int)),
            decreases ids@.len() - i,
        {
            assert(ids@[i as int] < self.size());
            text.push(self.vocab[ids[i]]);
            assert(self.text_of(ids@.take(i + 1)) =~= self.text_of(ids@.take(i as int)).push(
                self.vocab@[ids@[i as int] as int],
            ));
            i = i + 1;
        }
        assert(ids@.take(i as int) =~= ids@);
        text
    }

    fn vocab_size(&self) -> (n: usize) {
        self.vocab.len()
    }
}

/// Decoding what was encoded gives the text without its unknown characters.
pub proof fn law_char_roundtrip(tokenizer: &CharTokenizer, text: Seq<char>)
    ensures
        tokenizer.text_of(tokenizer.ids_of(text)) == known_part(tokenizer.vocab@, text),
    decreases text.len(),
{
    let chars = tokenizer.vocab@;
    if text.len() > 0 {
        law_char_roundtrip(tokenizer, text.drop_last());
        lemma_place(chars, text.last());
        let before = places(chars, text.drop_last());
        assert(chars.len() <= usize::MAX) by {
            assert(tokenizer.vocab@.len() == tokenizer.vocab.len());
        }
        assert(tokenizer.text_of(before.push(place(chars, text.last()) as usize))
            =~= tokenizer.text_of(before).push(chars[place(chars, text.last()) as int]));
    } else {
        assert(tokenizer.text_of(tokenizer.ids_of(text)) =~= seq![]);
    }
}

/// A text of known characters only is its own known part.
pub proof fn lemma_all_known(chars: Seq<char>, text: Seq<char>)
    requires
        forall|i: int| 0 <= i < text.len() ==> chars.contains(#[trigger] text[i]),
    ensures
        known_part(chars, text) == text,
    decreases text.len(),
{
    if text.len() > 0 {
        assert forall|i: int| 0 <= i < text.drop_last().len() implies chars.contains(
            #[trigger] text.drop_last()[i],
        ) by {
            assert(chars.contains(text[i]));
        }
        lemma_all_known(chars, text.drop_last());
        assert(chars.contains(text[text.len() - 1]));
        assert(text =~= text.drop_last().push(text.last()));
    }
}

/// A text whose characters the training text holds comes back unchanged.
pub proof fn law_char_roundtrip_of_known_text(
    tokenizer: &CharTokenizer,
    training: Seq<char>,
    text: Seq<char>,
)
    requires
        tokenizer.vocab@.to_set() == training.to_set(),
        forall|i: int| 0 <= i < text.len() ==> training.contains(#[trigger] text[i]),
    ensures
        tokenizer.text_of(tokenizer.ids_of(text)) == text,
{
    law_char_roundtrip(tokenizer, text);
    assert forall|i: int| 0 <= i < text.len() implies tokenizer.vocab@.contains(
        #[trigger] text[i],
    ) by {
        assert(training.to_set().contains(text[i]));
    }
    lemma_all_known(tokenizer.vocab@, text);
}

} // verus!
