//! The names of a model's parameters.

use super::operand;
use super::operand::Operand;
use crate::text;
use crate::text::{push_decimal, push_text};
use vstd::prelude::*;

verus! {

/// A parameter under a name that stays the same as long as the model does.
#[derive(Debug, Clone, PartialEq, Eq)]
pub struct NamedParameter<T> {
    pub name: String,
    pub tensor: T,
}

/// A part of the model `prefix`.
pub open spec fn part(prefix: Seq<char>, suffix: Seq<char>) -> Seq<char> {
    prefix + "."@ + suffix
}

/// Puts a part below a prefix.
pub fn part_name(prefix: &str, suffix: &str) -> (name: String)
    ensures
        name@ == part(prefix@, suffix@),
{
    let mut name = prefix.to_owned();
    push_text(&mut name, ".");
    push_text(&mut name, suffix);
    name
}

/// A parameter with its name.
pub fn named_parameter<T>(prefix: &str, suffix: &str, tensor: T) -> (parameter: NamedParameter<T>)
    ensures
        parameter.name@ == part(prefix@, suffix@),
        parameter.tensor == tensor,
{
    NamedParameter { name: part_name(prefix, suffix), tensor }
}

/// The names of a list of parameters.
pub open spec fn named_texts<V>(list: Seq<NamedParameter<V>>) -> Seq<Seq<char>> {
    list.map_values(|p: NamedParameter<V>| p.name@)
}

/// The tensors of a list of parameters.
pub open spec fn tensors<V>(list: Seq<NamedParameter<V>>) -> Seq<V> {
    list.map_values(|p: NamedParameter<V>| p.tensor)
}

/// Whether `list` holds handles of `weights` under `names`.
pub open spec fn is_listing<V: Operand>(
    list: Seq<NamedParameter<V>>,
    names: Seq<Seq<char>>,
    weights: Seq<V>,
) -> bool {
    &&& named_texts(list) == names
    &&& operand::are_handles(weights, tensors(list))
}

/// Puts two lists of parameters together.
pub fn join_listings<V: Operand>(
    list: Vec<NamedParameter<V>>,
    more: Vec<NamedParameter<V>>,
) -> (all: Vec<NamedParameter<V>>)
    ensures
        all@ == list@ + more@,
        forall|names: Seq<Seq<char>>, weights: Seq<V>, others: Seq<Seq<char>>, rest: Seq<V>|
            #[trigger] is_listing(list@, names, weights) && #[trigger] is_listing(
                more@,
                others,
                rest,
            ) ==> is_listing(all@, names + others, weights + rest),
{
    let ghost first = list@;
    let ghost second = more@;
    let mut all: Vec<NamedParameter<V>> = list;
    let mut more: Vec<NamedParameter<V>> = more;
    all.append(&mut more);
    proof {
        assert(named_texts(all@) =~= named_texts(first) + named_texts(second));
        assert(tensors(all@) =~= tensors(first) + tensors(second));
    }
    all
}

/// The parameters of a linear layer.
pub open spec fn linear(prefix: Seq<char>, bias: bool) -> Seq<Seq<char>> {
    if bias {
        seq![part(prefix, "weight"@), part(prefix, "bias"@)]
    } else {
        seq![part(prefix, "weight"@)]
    }
}

/// The parameters of a layer norm.
pub open spec fn layer_norm(prefix: Seq<char>) -> Seq<Seq<char>> {
    seq![part(prefix, "gamma"@), part(prefix, "beta"@)]
}

/// The only parameter of an embedding or of an RMS norm.
pub open spec fn weight(prefix: Seq<char>) -> Seq<Seq<char>> {
    seq![part(prefix, "weight"@)]
}

/// The parameters of an attention layer.
pub open spec fn attention(prefix: Seq<char>) -> Seq<Seq<char>> {
    linear(part(prefix, "wq"@), false) + linear(part(prefix, "wk"@), false) + linear(
        part(prefix, "wv"@),
        false,
    ) + linear(part(prefix, "wo"@), false)
}

/// The parameters of a transformer block.
pub open spec fn transformer_block(prefix: Seq<char>) -> Seq<Seq<char>> {
    layer_norm(part(prefix, "ln1"@)) + attention(part(prefix, "attn"@)) + layer_norm(
        part(prefix, "ln2"@),
    ) + linear(part(prefix, "ffn_up"@), true) + linear(part(prefix, "ffn_down"@), true)
}

/// The parameters of a block with rotary positions and a gated feed-forward part.
pub open spec fn qwen_like_block(prefix: Seq<char>) -> Seq<Seq<char>> {
    weight(part(prefix, "norm1"@)) + attention(part(prefix, "attn"@)) + weight(
        part(prefix, "norm2"@),
    ) + linear(part(prefix, "ffn_up"@), true) + linear(part(prefix, "ffn_gate"@), true) + linear(
        part(prefix, "ffn_down"@),
        true,
    )
}

/// The name of block `i`.
pub open spec fn block_prefix(i: nat) -> Seq<char> {
    "blocks."@ + text::decimal(i)
}

/// The name of block `i`.
pub fn block_name(i: usize) -> (name: String)
    ensures
        name@ == block_prefix(i as nat),
{
    let mut name = "blocks.".to_owned();
    push_decimal(&mut name, i as u64);
    name
}

/// The parameters of the first `n` blocks of a GPT model.
pub open spec fn gpt_blocks(n: nat) -> Seq<Seq<char>>
    decreases n,
{
    if n == 0 {
        seq![]
    } else {
        gpt_blocks((n - 1) as nat) + transformer_block(block_prefix((n - 1) as nat))
    }
}

/// The parameters of the first `n` blocks of a model with rotary positions.
pub open spec fn qwen_like_blocks(n: nat) -> Seq<Seq<char>>
    decreases n,
{
    if n == 0 {
        seq![]
    } else {
        qwen_like_blocks((n - 1) as nat) + qwen_like_block(block_prefix((n - 1) as nat))
    }
}

/// The parameters of a GPT model with `n` blocks.
pub open spec fn gpt(n: nat) -> Seq<Seq<char>> {
    weight("token_emb"@) + weight("pos_emb"@) + gpt_blocks(n) + layer_norm("ln_f"@) + linear(
        "lm_head"@,
        false,
    )
}

/// The parameters of a model with rotary positions and `n` blocks.
pub open spec fn qwen_like_gpt(n: nat) -> Seq<Seq<char>> {
    weight("token_emb"@) + qwen_like_blocks(n) + weight("norm_f"@) + linear("lm_head"@, false)
}

/// The number of a GPT model's parameters: twelve of each block and five more.
pub proof fn law_gpt_parameter_count(n: nat)
    ensures
        gpt_blocks(n).len() == 12 * n,
        gpt(n).len() == 12 * n + 5,
    decreases n,
{
    if n > 0 {
        law_gpt_parameter_count((n - 1) as nat);
    }
}

/// The number of the parameters of a model with rotary positions: twelve of each block and
/// three more.
pub proof fn law_qwen_like_parameter_count(n: nat)
    ensures
        qwen_like_blocks(n).len() == 12 * n,
        qwen_like_gpt(n).len() == 12 * n + 3,
    decreases n,
{
    if n > 0 {
        law_qwen_like_parameter_count((n - 1) as nat);
    }
}

/// The names below each of the first `n` blocks.
spec fn below_blocks(tails: Seq<Seq<char>>, n: nat) -> Seq<Seq<char>>
    decreases n,
{
    if n == 0 {
        seq![]
    } else {
        below_blocks(tails, (n - 1) as nat) + below(block_prefix((n - 1) as nat), tails)
    }
}

/// The names below a prefix.
spec fn below(prefix: Seq<char>, tails: Seq<Seq<char>>) -> Seq<Seq<char>> {
    tails.map_values(|tail: Seq<char>| prefix + tail)
}

/// Whether all of `tails` differ and begin with a dot.
spec fn are_tails(tails: Seq<Seq<char>>) -> bool {
    &&& tails.no_duplicates()
    &&& forall|k: int|
        0 <= k < tails.len() ==> (#[trigger] tails[k]).len() > 0 && tails[k][0] == '.'
}

/// The number of a block and what follows it can be read off a name.
proof fn lemma_block_is_read_back(i: nat, j: nat, t: Seq<char>, u: Seq<char>)
    requires
        block_prefix(i) + t == block_prefix(j) + u,
        t.len() > 0,
        t[0] == '.',
        u.len() > 0,
        u[0] == '.',
    ensures
        i == j,
        t == u,
{
    reveal_strlit("blocks.");
    text::law_decimal_is_read_back(i);
    text::law_decimal_is_read_back(j);
    let a = block_prefix(i);
    let b = block_prefix(j);
    let whole = a + t;
    let da = text::decimal(i);
    let db = text::decimal(j);
    assert forall|k: int| 0 <= k < da.len() implies whole[7 + k] == da[k] by {}
    assert forall|k: int| 0 <= k < db.len() implies whole[7 + k] == db[k] by {
        assert(whole[7 + k] == (b + u)[7 + k]);
    }
    if da.len() < db.len() {
        assert(whole[7 + da.len() as int] == t[0]);
        assert(text::is_digit(db[da.len() as int]));
    }
    if db.len() < da.len() {
        assert((b + u)[7 + db.len() as int] == u[0]);
        assert(text::is_digit(da[db.len() as int]));
    }
    assert(da =~= db);
    assert(t =~= whole.skip(a.len() as int));
    assert(u =~= (b + u).skip(b.len() as int));
}

proof fn lemma_below_blocks(tails: Seq<Seq<char>>, n: nat)
    requires
        are_tails(tails),
    ensures
        below_blocks(tails, n).no_duplicates(),
        forall|m: int|
            0 <= m < below_blocks(tails, n).len() ==> is_below(
                tails,
                n,
                #[trigger] below_blocks(tails, n)[m],
            ),
    decreases n,
{
    if n > 0 {
        let last = (n - 1) as nat;
        let before = below_blocks(tails, last);
        let added = below(block_prefix(last), tails);
        let all = below_blocks(tails, n);
        lemma_below_blocks(tails, last);
        assert forall|m: int| 0 <= m < all.len() implies is_below(tails, n, #[trigger] all[m]) by {
            if m < before.len() {
                assert(is_below(tails, last, before[m]));
                let (i, k) = choose|i: nat, k: int|
                    i < last && 0 <= k < tails.len() && before[m] == #[trigger] block_prefix(i)
                        + #[trigger] tails[k];
                assert(all[m] == block_prefix(i) + tails[k]);
            } else {
                let k = m - before.len();
                assert(all[m] == block_prefix(last) + tails[k]);
            }
        }
        assert forall|l: int, m: int| 0 <= l < m < all.len() implies all[l] != all[m] by {
            if m >= before.len() {
                let k = m - before.len();
                assert(all[m] == block_prefix(last) + tails[k]);
                if l >= before.len() {
                    let h = l - before.len();
                    assert(all[l] == block_prefix(last) + tails[h]);
                    if all[l] == all[m] {
                        lemma_block_is_read_back(last, last, tails[h], tails[k]);
                    }
                } else {
                    assert(is_below(tails, last, before[l]));
                    let (i, h) = choose|i: nat, h: int|
                        i < last && 0 <= h < tails.len() && before[l] == #[trigger] block_prefix(
                            i,
                        ) + #[trigger] tails[h];
                    if all[l] == all[m] {
                        lemma_block_is_read_back(i, last, tails[h], tails[k]);
                    }
                }
            }
        }
    }
}

/// Whether a name stands below one of the first `n` blocks.
spec fn is_below(tails: Seq<Seq<char>>, n: nat, name: Seq<char>) -> bool {
    exists|i: nat, k: int|
        i < n && 0 <= k < tails.len() && name == #[trigger] block_prefix(i) + #[trigger] tails[k]
}

/// The names of a part are those below nothing, put below its prefix.
proof fn lemma_parts(prefix: Seq<char>, a: Seq<char>, b: Seq<char>, c: Seq<char>)
    ensures
        part(prefix, a) == prefix + part(seq![], a),
        part(part(prefix, a), b) == prefix + part(part(seq![], a), b),
        part(part(part(prefix, a), b), c) == prefix + part(part(part(seq![], a), b), c),
{
    assert(part(prefix, a) =~= prefix + part(seq![], a));
    assert(part(part(prefix, a), b) =~= prefix + part(part(seq![], a), b));
    assert(part(part(part(prefix, a), b), c) =~= prefix + part(part(part(seq![], a), b), c));
}

proof fn lemma_transformer_tails(prefix: Seq<char>)
    ensures
        transformer_block(prefix) == below(prefix, transformer_block(seq![])),
{
    lemma_parts(prefix, "ln1"@, "gamma"@, seq![]);
    lemma_parts(prefix, "ln1"@, "beta"@, seq![]);
    lemma_parts(prefix, "attn"@, "wq"@, "weight"@);
    lemma_parts(prefix, "attn"@, "wk"@, "weight"@);
    lemma_parts(prefix, "attn"@, "wv"@, "weight"@);
    lemma_parts(prefix, "attn"@, "wo"@, "weight"@);
    lemma_parts(prefix, "ln2"@, "gamma"@, seq![]);
    lemma_parts(prefix, "ln2"@, "beta"@, seq![]);
    lemma_parts(prefix, "ffn_up"@, "weight"@, seq![]);
    lemma_parts(prefix, "ffn_up"@, "bias"@, seq![]);
    lemma_parts(prefix, "ffn_down"@, "weight"@, seq![]);
    lemma_parts(prefix, "ffn_down"@, "bias"@, seq![]);
    assert(transformer_block(prefix) =~= below(prefix, transformer_block(seq![])));
}

proof fn lemma_qwen_like_tails(prefix: Seq<char>)
    ensures
        qwen_like_block(prefix) == below(prefix, qwen_like_block(seq![])),
{
    lemma_parts(prefix, "norm1"@, "weight"@, seq![]);
    lemma_parts(prefix, "attn"@, "wq"@, "weight"@);
    lemma_parts(prefix, "attn"@, "wk"@, "weight"@);
    lemma_parts(prefix, "attn"@, "wv"@, "weight"@);
    lemma_parts(prefix, "attn"@, "wo"@, "weight"@);
    lemma_parts(prefix, "norm2"@, "weight"@, seq![]);
    lemma_parts(prefix, "ffn_up"@, "weight"@, seq![]);
    lemma_parts(prefix, "ffn_up"@, "bias"@, seq![]);
    lemma_parts(prefix, "ffn_gate"@, "weight"@, seq![]);
    lemma_parts(prefix, "ffn_gate"@, "bias"@, seq![]);
    lemma_parts(prefix, "ffn_down"@, "weight"@, seq![]);
    lemma_parts(prefix, "ffn_down"@, "bias"@, seq![]);
    assert(qwen_like_block(prefix) =~= below(prefix, qwen_like_block(seq![])));
}

proof fn lemma_transformer_tails_differ()
    ensures
        are_tails(transformer_block(seq![])),
{
    reveal_strlit(".");
    reveal_strlit("ln1");
    reveal_strlit("ln2");
    reveal_strlit("gamma");
    reveal_strlit("beta");
    reveal_strlit("attn");
    reveal_strlit("wq");
    reveal_strlit("wk");
    reveal_strlit("wv");
    reveal_strlit("wo");
    reveal_strlit("ffn_up");
    reveal_strlit("ffn_down");
    reveal_strlit("weight");
    reveal_strlit("bias");
    let t = transformer_block(seq![]);
    assert(t.len() == 12);
    assert(t[0].len() == 10 && t[0][3] == '1');
    assert(t[1].len() == 9 && t[1][3] == '1');
    assert(t[2].len() == 15 && t[2][1] == 'a' && t[2][7] == 'q');
    assert(t[3].len() == 15 && t[3][1] == 'a' && t[3][7] == 'k');
    assert(t[4].len() == 15 && t[4][1] == 'a' && t[4][7] == 'v');
    assert(t[5].len() == 15 && t[5][1] == 'a' && t[5][7] == 'o');
    assert(t[6].len() == 10 && t[6][3] == '2');
    assert(t[7].len() == 9 && t[7][3] == '2');
    assert(t[8].len() == 14 && t[8][5] == 'u');
    assert(t[9].len() == 12);
    assert(t[10].len() == 16 && t[10][1] == 'f');
    assert(t[11].len() == 14 && t[11][5] == 'd');
}

proof fn lemma_qwen_like_tails_differ()
    ensures
        are_tails(qwen_like_block(seq![])),
{
    reveal_strlit(".");
    reveal_strlit("norm1");
    reveal_strlit("norm2");
    reveal_strlit("attn");
    reveal_strlit("wq");
    reveal_strlit("wk");
    reveal_strlit("wv");
    reveal_strlit("wo");
    reveal_strlit("ffn_up");
    reveal_strlit("ffn_gate");
    reveal_strlit("ffn_down");
    reveal_strlit("weight");
    reveal_strlit("bias");
    let t = qwen_like_block(seq![]);
    assert(t.len() == 12);
    assert(t[0].len() == 13 && t[0][5] == '1');
    assert(t[1].len() == 15 && t[1][1] == 'a' && t[1][7] == 'q');
    assert(t[2].len() == 15 && t[2][1] == 'a' && t[2][7] == 'k');
    assert(t[3].len() == 15 && t[3][1] == 'a' && t[3][7] == 'v');
    assert(t[4].len() == 15 && t[4][1] == 'a' && t[4][7] == 'o');
    assert(t[5].len() == 13 && t[5][5] == '2');
    assert(t[6].len() == 14 && t[6][5] == 'u');
    assert(t[7].len() == 12);
    assert(t[8].len() == 16 && t[8][1] == 'f' && t[8][5] == 'g');
    assert(t[9].len() == 14 && t[9][5] == 'g');
    assert(t[10].len() == 16 && t[10][1] == 'f' && t[10][5] == 'd');
    assert(t[11].len() == 14 && t[11][5] == 'd');
}

proof fn lemma_gpt_blocks(n: nat)
    ensures
        gpt_blocks(n) == below_blocks(transformer_block(seq![]), n),
        qwen_like_blocks(n) == below_blocks(qwen_like_block(seq![]), n),
    decreases n,
{
    if n > 0 {
        lemma_gpt_blocks((n - 1) as nat);
        lemma_transformer_tails(block_prefix((n - 1) as nat));
        lemma_qwen_like_tails(block_prefix((n - 1) as nat));
    }
}

/// No two parameters of a GPT model have the same name.
pub proof fn law_gpt_names_differ(n: nat)
    ensures
        gpt(n).no_duplicates(),
{
    let tails = transformer_block(seq![]);
    lemma_gpt_blocks(n);
    lemma_transformer_tails_differ();
    lemma_below_blocks(tails, n);
    reveal_strlit("blocks.");
    reveal_strlit("token_emb");
    reveal_strlit("pos_emb");
    reveal_strlit("ln_f");
    reveal_strlit("lm_head");
    reveal_strlit(".");
    reveal_strlit("gamma");
    reveal_strlit("beta");
    reveal_strlit("weight");
    let all = gpt(n);
    let k = gpt_blocks(n).len() as int;
    assert(all[0][0] == 't');
    assert(all[1][0] == 'p');
    assert forall|m: int| 2 <= m < 2 + k implies (#[trigger] all[m])[0] == 'b' by {
        assert(all[m] == gpt_blocks(n)[m - 2]);
        assert(is_below(tails, n, gpt_blocks(n)[m - 2]));
    }
    assert(all[2 + k].len() == 10 && all[2 + k][0] == 'l' && all[2 + k][1] == 'n');
    assert(all[3 + k].len() == 9 && all[3 + k][0] == 'l');
    assert(all[4 + k].len() == 14 && all[4 + k][0] == 'l' && all[4 + k][1] == 'm');
    assert forall|l: int, m: int| 0 <= l < m < all.len() implies all[l] != all[m] by {
        if 2 <= l && m < 2 + k {
            assert(all[l] == gpt_blocks(n)[l - 2]);
            assert(all[m] == gpt_blocks(n)[m - 2]);
        }
    }
}

/// No two parameters of a model with rotary positions have the same name.
pub proof fn law_qwen_like_names_differ(n: nat)
    ensures
        qwen_like_gpt(n).no_duplicates(),
{
    let tails = qwen_like_block(seq![]);
    lemma_gpt_blocks(n);
    lemma_qwen_like_tails_differ();
    lemma_below_blocks(tails, n);
    reveal_strlit("blocks.");
    reveal_strlit("token_emb");
    reveal_strlit("norm_f");
    reveal_strlit("lm_head");
    reveal_strlit(".");
    reveal_strlit("weight");
    let all = qwen_like_gpt(n);
    let k = qwen_like_blocks(n).len() as int;
    assert(all[0][0] == 't');
    assert forall|m: int| 1 <= m < 1 + k implies (#[trigger] all[m])[0] == 'b' by {
        assert(all[m] == qwen_like_blocks(n)[m - 1]);
        assert(is_below(tails, n, qwen_like_blocks(n)[m - 1]));
    }
    assert(all[1 + k][0] == 'n');
    assert(all[2 + k][0] == 'l');
    assert forall|l: int, m: int| 0 <= l < m < all.len() implies all[l] != all[m] by {
        if 1 <= l && m < 1 + k {
            assert(all[l] == qwen_like_blocks(n)[l - 1]);
            assert(all[m] == qwen_like_blocks(n)[m - 1]);
        }
    }
}

} // verus!
