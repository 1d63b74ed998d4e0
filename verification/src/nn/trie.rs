//! Constraints on the next token, and the prefix tree that gives one.

use vstd::prelude::*;

verus! {

/// A node of the tree: the tokens that lead on, each with its node, and whether a sequence
/// ends here.
struct TrieNode {
    children: Vec<(usize, usize)>,
    is_terminal: bool,
}

/// A set of token sequences, kept as the tree of their beginnings.
pub struct TokenTrie {
    nodes: Vec<TrieNode>,
    paths: Ghost<Seq<Seq<usize>>>,
}

/// Whether some sequence of `words` starts with `prefix` and goes on with `token`.
pub open spec fn leads_on(words: Set<Seq<usize>>, prefix: Seq<usize>, token: usize) -> bool {
    exists|w: Seq<usize>| #[trigger] words.contains(w) && prefix.push(token).is_prefix_of(w)
}

/// Whether `allowed` names, each once, the tokens that go on from `prefix`; nothing is said
/// where none does.
pub open spec fn names_next(
    words: Set<Seq<usize>>,
    prefix: Seq<usize>,
    allowed: Option<Vec<usize>>,
) -> bool {
    match allowed {
        None => forall|t: usize| !leads_on(words, prefix, t),
        Some(list) => {
            &&& list@.len() > 0
            &&& list@.no_duplicates()
            &&& forall|t: usize| list@.contains(t) <==> leads_on(words, prefix, t)
        },
    }
}

/// Whether node `i` has an edge with `token` to node `j`.
spec fn edge(nodes: Seq<TrieNode>, i: int, token: usize, j: int) -> bool {
    exists|c: int|
        0 <= c < nodes[i].children@.len() && #[trigger] nodes[i].children@[c] == (
            token,
            j as usize,
        )
}

/// The nodes make up a tree, and each stands for its path from the root.
spec fn is_tree(nodes: Seq<TrieNode>, paths: Seq<Seq<usize>>) -> bool {
    &&& nodes.len() >= 1
    &&& nodes.len() <= usize::MAX
    &&& paths.len() == nodes.len()
    &&& paths[0].len() == 0
    &&& forall|i: int, c: int|
        0 <= i < nodes.len() && 0 <= c < nodes[i].children@.len() ==> {
            let (t, j) = #[trigger] nodes[i].children@[c];
            i < j < nodes.len() && paths[j as int] == paths[i].push(t)
        }
    &&& forall|i: int, j: int|
        0 <= i < paths.len() && 0 <= j < paths.len() && i != j ==> #[trigger] paths[i]
            != #[trigger] paths[j]
    &&& forall|j: int| 0 < j < nodes.len() ==> has_parent(nodes, paths, j)
    &&& forall|i: int, c: int, d: int|
        0 <= i < nodes.len() && 0 <= c < d < nodes[i].children@.len()
            ==> #[trigger] nodes[i].children@[c] != #[trigger] nodes[i].children@[d]
}

/// Node `j` hangs below the node of its path without the last token.
spec fn has_parent(nodes: Seq<TrieNode>, paths: Seq<Seq<usize>>, j: int) -> bool {
    paths[j].len() > 0 && exists|i: int|
        0 <= i < j && #[trigger] paths[i] == paths[j].drop_last() && edge(
            nodes,
            i,
            paths[j].last(),
            j,
        )
}

/// The sequences that end at a node.
spec fn ends(nodes: Seq<TrieNode>, paths: Seq<Seq<usize>>) -> Set<Seq<usize>> {
    Set::new(
        |w: Seq<usize>|
            exists|i: int|
                0 <= i < nodes.len() && #[trigger] nodes[i].is_terminal && paths[i] == w,
    )
}

/// Whether node `i` lies on the way to a sequence of `words`.
spec fn is_used(paths: Seq<Seq<usize>>, words: Set<Seq<usize>>, i: int) -> bool {
    exists|w: Seq<usize>| #[trigger] words.contains(w) && paths[i].is_prefix_of(w)
}

/// Every beginning of a node's path is the path of a node.
proof fn lemma_beginnings(nodes: Seq<TrieNode>, paths: Seq<Seq<usize>>, j: int, k: int)
    requires
        is_tree(nodes, paths),
        0 <= j < nodes.len(),
        0 <= k <= paths[j].len(),
    ensures
        exists|i: int| 0 <= i < nodes.len() && #[trigger] paths[i] == paths[j].take(k),
    decreases j,
{
    if k == paths[j].len() {
        assert(paths[j].take(k) =~= paths[j]);
    } else {
        assert(j > 0);
        assert(has_parent(nodes, paths, j));
        let i = choose|i: int|
            0 <= i < j && #[trigger] paths[i] == paths[j].drop_last() && edge(
                nodes,
                i,
                paths[j].last(),
                j,
            );
        lemma_beginnings(nodes, paths, i, k);
        assert(paths[i].take(k) =~= paths[j].take(k));
    }
}

/// A node whose path goes on from that of `i` by `token` hangs below `i`.
proof fn lemma_child(
    nodes: Seq<TrieNode>,
    paths: Seq<Seq<usize>>,
    i: int,
    token: usize,
    j: int,
)
    requires
        is_tree(nodes, paths),
        0 <= i < nodes.len(),
        0 <= j < nodes.len(),
        paths[j] == paths[i].push(token),
    ensures
        edge(nodes, i, token, j),
{
    assert(paths[j].len() > 0);
    assert(has_parent(nodes, paths, j));
    let p = choose|p: int|
        0 <= p < j && #[trigger] paths[p] == paths[j].drop_last() && edge(
            nodes,
            p,
            paths[j].last(),
            j,
        );
    assert(paths[j].drop_last() =~= paths[i]);
    assert(paths[j].last() == token);
}

/// Finds the node to which `token` leads.
fn find_child(children: &Vec<(usize, usize)>, token: usize) -> (child: Option<usize>)
    ensures
        child matches Some(j) ==> exists|c: int|
            0 <= c < children@.len() && #[trigger] children@[c] == (token, j),
        child is None ==> forall|c: int|
            0 <= c < children@.len() ==> (#[trigger] children@[c]).0 != token,
{
    let mut c: usize = 0;
    while c < children.len()
        invariant
            c <= children@.len(),
            forall|d: int| 0 <= d < c ==> (#[trigger] children@[d]).0 != token,
        decreases children@.len() - c,
    {
        if children[c].0 == token {
            assert(children@[c as int] == (token, children@[c as int].1));
            return Some(children[c].1);
        }
        c = c + 1;
    }
    None
}

impl TokenTrie {
    /// The sequences that were inserted.
    pub closed spec fn words(&self) -> Set<Seq<usize>> {
        ends(self.nodes@, self.paths@)
    }

    /// The nodes make up a tree, in which every node but the root lies on the way to a
    /// sequence.
    pub closed spec fn well_formed(&self) -> bool {
        &&& is_tree(self.nodes@, self.paths@)
        &&& forall|i: int|
            0 < i < self.nodes@.len() ==> #[trigger] is_used(self.paths@, self.words(), i)
    }

    /// The empty set.
    pub fn new() -> (trie: Self)
        ensures
            trie.well_formed(),
            trie.words() == Set::<Seq<usize>>::empty(),
    {
        let root = TrieNode { children: Vec::new(), is_terminal: false };
        let mut nodes: Vec<TrieNode> = Vec::new();
        nodes.push(root);
        let ghost paths = Seq::<Seq<usize>>::empty().push(Seq::<usize>::empty());
        let trie = TokenTrie { nodes, paths: Ghost(paths) };
        assert(trie.words() =~= Set::<Seq<usize>>::empty());
        trie
    }

    /// The node that stands for `prefix`, if there is one.
    fn walk(&self, prefix: &[usize]) -> (node: Option<usize>)
        requires
            self.well_formed(),
        ensures
            node matches Some(i) ==> i < self.nodes@.len() && self.paths@[i as int] == prefix@,
            node is None ==> forall|i: int|
                0 <= i < self.nodes@.len() ==> !prefix@.is_prefix_of(#[trigger] self.paths@[i]),
    {
        let mut node: usize = 0;
        let mut k: usize = 0;
        assert(prefix@.take(0) =~= self.paths@[0]);
        while k < prefix.len()
            invariant
                self.well_formed(),
                k <= prefix@.len(),
                node < self.nodes@.len(),
                self.paths@[node as int] == prefix@.take(k as int),
            decreases prefix@.len() - k,
        {
            let ghost longer = prefix@.take(k + 1);
            assert(longer =~= self.paths@[node as int].push(prefix@[k as int]));
            match find_child(&self.nodes[node].children, prefix[k]) {
                Some(child) => {
                    node = child;
                },
                None => {
                    proof {
                        assert forall|i: int| 0 <= i < self.nodes@.len() implies !prefix@.is_prefix_of(
                            #[trigger] self.paths@[i],
                        ) by {
                            if prefix@.is_prefix_of(self.paths@[i]) {
                                assert(self.paths@[i].take(k + 1) =~= longer);
                                lemma_beginnings(self.nodes@, self.paths@, i, k + 1);
                                let j = choose|j: int|
                                    0 <= j < self.nodes@.len() && #[trigger] self.paths@[j]
                                        == longer;
                                lemma_child(
                                    self.nodes@,
                                    self.paths@,
                                    node as int,
                                    prefix@[k as int],
                                    j,
                                );
                            }
                        }
                    }
                    return None;
                },
            }
            k = k + 1;
        }
        assert(prefix@.take(k as int) =~= prefix@);
        Some(node)
    }

    /// The tokens that may come after `prefix`. Where no sequence goes on from it, nothing is
    /// asked of the next token.
    pub fn allowed_tokens(&self, prefix: &[usize]) -> (allowed: Option<Vec<usize>>)
        requires
            self.well_formed(),
        ensures
            names_next(self.words(), prefix@, allowed),
    {
        let node: usize = match self.walk(prefix) {
            Some(node) => node,
            None => {
                assert forall|t: usize| !leads_on(self.words(), prefix@, t) by {
                    if leads_on(self.words(), prefix@, t) {
                        let w = choose|w: Seq<usize>| #[trigger]
                            self.words().contains(w) && prefix@.push(t).is_prefix_of(w);
                        let i = choose|i: int|
                            0 <= i < self.nodes@.len() && #[trigger] self.nodes@[i].is_terminal
                                && self.paths@[i] == w;
                        assert(w.take(prefix@.len() as int) =~= prefix@);
                        assert(prefix@.is_prefix_of(self.paths@[i]));
                    }
                }
                return None;
            },
        };
        let children: &Vec<(usize, usize)> = &self.nodes[node].children;
        proof {
            assert forall|t: usize| leads_on(self.words(), prefix@, t) <==> exists|c: int|
                0 <= c < children@.len() && (#[trigger] children@[c]).0 == t by {
                self.lemma_next(node as int, prefix@, t);
            }
        }
        if children.len() == 0 {
            return None;
        }
        let mut list: Vec<usize> = Vec::new();
        let mut c: usize = 0;
        while c < children.len()
            invariant
                c <= children@.len(),
                list@.len() == c,
                forall|d: int| 0 <= d < c ==> #[trigger] list@[d] == children@[d].0,
            decreases children@.len() - c,
        {
            list.push(children[c].0);
            c = c + 1;
        }
        proof {
            assert(list@.no_duplicates()) by {
                assert forall|a: int, b: int| 0 <= a < b < list@.len() implies list@[a]
                    != list@[b] by {
                    if list@[a] == list@[b] {
                        let ja = children@[a].1 as int;
                        let jb = children@[b].1 as int;
                        assert(self.paths@[ja] == self.paths@[jb]);
                        assert(children@[a] != children@[b]);
                    }
                }
            }
            assert forall|t: usize| list@.contains(t) <==> leads_on(self.words(), prefix@, t) by {
                if list@.contains(t) {
                    let d = choose|d: int| 0 <= d < list@.len() && list@[d] == t;
                    assert(children@[d].0 == t);
                }
                if leads_on(self.words(), prefix@, t) {
                    let d = choose|d: int|
                        0 <= d < children@.len() && (#[trigger] children@[d]).0 == t;
                    assert(list@[d] == t);
                }
            }
        }
        Some(list)
    }

    /// The tokens that go on from a node are those of its edges.
    proof fn lemma_next(&self, node: int, prefix: Seq<usize>, t: usize)
        requires
            self.well_formed(),
            0 <= node < self.nodes@.len(),
            self.paths@[node] == prefix,
        ensures
            leads_on(self.words(), prefix, t) <==> exists|c: int|
                0 <= c < self.nodes@[node].children@.len() && (
                #[trigger] self.nodes@[node].children@[c]).0 == t,
    {
        let nodes = self.nodes@;
        let paths = self.paths@;
        let children = nodes[node].children@;
        if leads_on(self.words(), prefix, t) {
            let w = choose|w: Seq<usize>| #[trigger]
                self.words().contains(w) && prefix.push(t).is_prefix_of(w);
            let i = choose|i: int|
                0 <= i < nodes.len() && #[trigger] nodes[i].is_terminal && paths[i] == w;
            assert(paths[i].take(prefix.len() as int + 1) =~= prefix.push(t));
            lemma_beginnings(nodes, paths, i, prefix.len() as int + 1);
            let j = choose|j: int| 0 <= j < nodes.len() && #[trigger] paths[j] == prefix.push(t);
            lemma_child(nodes, paths, node, t, j);
            let c = choose|c: int|
                0 <= c < nodes[node].children@.len() && #[trigger] nodes[node].children@[c] == (
                    t,
                    j as usize,
                );
            assert(children[c].0 == t);
        }
        if exists|c: int| 0 <= c < children.len() && (#[trigger] children[c]).0 == t {
            let c = choose|c: int| 0 <= c < children.len() && (#[trigger] children[c]).0 == t;
            let j = children[c].1 as int;
            assert(node < j < nodes.len() && paths[j] == prefix.push(t));
            assert(is_used(paths, self.words(), j));
        }
    }

    /// Adds a sequence.
    pub fn insert(&mut self, tokens: &[usize])
        requires
            old(self).well_formed(),
        ensures
            final(self).well_formed(),
            final(self).words() == old(self).words().insert(tokens@),
    {
        let ghost before = self.words();
        let mut node: usize = 0;
        let mut k: usize = 0;
        assert(tokens@.take(0) =~= self.paths@[0]);
        proof {
            assert forall|i: int| 0 < i < self.nodes@.len() implies #[trigger] is_used(
                self.paths@,
                before.insert(tokens@),
                i,
            ) by {
                assert(is_used(self.paths@, before, i));
                let w = choose|w: Seq<usize>| #[trigger]
                    before.contains(w) && self.paths@[i].is_prefix_of(w);
                assert(before.insert(tokens@).contains(w));
            }
        }
        while k < tokens.len()
            invariant
                is_tree(self.nodes@, self.paths@),
                self.words() == before,
                forall|i: int|
                    0 < i < self.nodes@.len() ==> #[trigger] is_used(
                        self.paths@,
                        before.insert(tokens@),
                        i,
                    ),
                k <= tokens@.len(),
                node < self.nodes@.len(),
                self.paths@[node as int] == tokens@.take(k as int),
            decreases tokens@.len() - k,
        {
            let token: usize = tokens[k];
            let ghost longer = tokens@.take(k + 1);
            assert(longer =~= self.paths@[node as int].push(token));
            match find_child(&self.nodes[node].children, token) {
                Some(child) => {
                    node = child;
                },
                None => {
                    let child: usize = self.nodes.len();
                    let ghost known = self.paths@;
                    self.add_node(node, token);
                    proof {
                        assert forall|i: int| 0 < i < known.len() implies #[trigger] is_used(
                            self.paths@,
                            before.insert(tokens@),
                            i,
                        ) by {
                            assert(is_used(known, before.insert(tokens@), i));
                            assert(self.paths@[i] == known[i]);
                        }
                        assert(self.paths@[child as int] == longer);
                        assert(tokens@.take(k + 1).is_prefix_of(tokens@));
                        assert(before.insert(tokens@).contains(tokens@));
                        assert(is_used(self.paths@, before.insert(tokens@), child as int));
                    }
                    node = child;
                },
            }
            k = k + 1;
        }
        assert(tokens@.take(k as int) =~= tokens@);
        self.mark_end(node);
    }

    /// Hangs a new node below `node`.
    fn add_node(&mut self, node: usize, token: usize)
        requires
            is_tree(old(self).nodes@, old(self).paths@),
            node < old(self).nodes@.len(),
            forall|c: int|
                0 <= c < old(self).nodes@[node as int].children@.len() ==> (
                #[trigger] old(self).nodes@[node as int].children@[c]).0 != token,
        ensures
            is_tree(final(self).nodes@, final(self).paths@),
            final(self).words() == old(self).words(),
            final(self).nodes@.len() == old(self).nodes@.len() + 1,
            final(self).paths@ == old(self).paths@.push(
                old(self).paths@[node as int].push(token),
            ),
    {
        let child: usize = self.nodes.len();
        self.nodes.push(TrieNode { children: Vec::new(), is_terminal: false });
        self.nodes[node].children.push((token, child));
        let count: usize = self.nodes.len();
        proof {
            assert(count == self.nodes@.len());
            let path = self.paths@[node as int].push(token);
            self.paths@ = self.paths@.push(path);
            lemma_node_added(
                old(self).nodes@,
                old(self).paths@,
                node as int,
                token,
                self.nodes@,
                self.paths@,
            );
        }
    }

    /// Marks the end of a sequence.
    fn mark_end(&mut self, node: usize)
        requires
            is_tree(old(self).nodes@, old(self).paths@),
            node < old(self).nodes@.len(),
            forall|i: int|
                0 < i < old(self).nodes@.len() ==> #[trigger] is_used(
                    old(self).paths@,
                    old(self).words().insert(old(self).paths@[node as int]),
                    i,
                ),
        ensures
            final(self).well_formed(),
            final(self).words() == old(self).words().insert(old(self).paths@[node as int]),
    {
        self.nodes[node].is_terminal = true;
        proof {
            let word = self.paths@[node as int];
            assert forall|j: int| 0 < j < self.nodes@.len() implies has_parent(
                self.nodes@,
                self.paths@,
                j,
            ) by {
                assert(has_parent(old(self).nodes@, old(self).paths@, j));
                let i = choose|i: int|
                    0 <= i < j && #[trigger] self.paths@[i] == self.paths@[j].drop_last() && edge(
                        old(self).nodes@,
                        i,
                        self.paths@[j].last(),
                        j,
                    );
                let c = choose|c: int|
                    0 <= c < old(self).nodes@[i].children@.len()
                        && #[trigger] old(self).nodes@[i].children@[c] == (
                        self.paths@[j].last(),
                        j as usize,
                    );
                assert(self.nodes@[i].children@[c] == old(self).nodes@[i].children@[c]);
                assert(edge(self.nodes@, i, self.paths@[j].last(), j));
            }
            assert forall|w: Seq<usize>| self.words().contains(w) <==> old(self).words().insert(
                word,
            ).contains(w) by {
                if self.words().contains(w) {
                    let i = choose|i: int|
                        0 <= i < self.nodes@.len() && #[trigger] self.nodes@[i].is_terminal
                            && self.paths@[i] == w;
                    if i != node {
                        assert(old(self).nodes@[i].is_terminal);
                    }
                }
                if w == word {
                    assert(self.nodes@[node as int].is_terminal);
                } else if old(self).words().contains(w) {
                    let i = choose|i: int|
                        0 <= i < self.nodes@.len() && #[trigger] old(self).nodes@[i].is_terminal
                            && self.paths@[i] == w;
                    assert(self.nodes@[i].is_terminal);
                }
            }
            assert(self.words() =~= old(self).words().insert(word));
        }
    }
}

/// A tree with one more leaf is a tree with the same sequences.
proof fn lemma_node_added(
    nodes: Seq<TrieNode>,
    paths: Seq<Seq<usize>>,
    node: int,
    token: usize,
    more: Seq<TrieNode>,
    longer: Seq<Seq<usize>>,
)
    requires
        is_tree(nodes, paths),
        0 <= node < nodes.len(),
        more.len() <= usize::MAX,
        forall|c: int|
            0 <= c < nodes[node].children@.len() ==> (#[trigger] nodes[node].children@[c]).0
                != token,
        more.len() == nodes.len() + 1,
        longer == paths.push(paths[node].push(token)),
        forall|i: int| 0 <= i < nodes.len() && i != node ==> #[trigger] more[i] == nodes[i],
        more[node].is_terminal == nodes[node].is_terminal,
        more[node].children@ == nodes[node].children@.push((token, nodes.len() as usize)),
        !more[nodes.len() as int].is_terminal,
        more[nodes.len() as int].children@.len() == 0,
    ensures
        is_tree(more, longer),
        ends(more, longer) == ends(nodes, paths),
{
    let leaf = nodes.len() as int;
    let path = paths[node].push(token);
    assert forall|i: int| 0 <= i < leaf implies paths[i] != path by {
        if paths[i] == path {
            lemma_child(nodes, paths, node, token, i);
            let c = choose|c: int|
                0 <= c < nodes[node].children@.len() && #[trigger] nodes[node].children@[c] == (
                    token,
                    i as usize,
                );
            assert(nodes[node].children@[c].0 != token);
        }
    }
    assert forall|i: int, c: int|
        0 <= i < more.len() && 0 <= c < more[i].children@.len() implies {
        let (t, j) = #[trigger] more[i].children@[c];
        i < j < more.len() && longer[j as int] == longer[i].push(t)
    } by {
        if i == node && c == nodes[node].children@.len() {
            assert(more[i].children@[c] == (token, leaf as usize));
        } else {
            assert(i < leaf);
            assert(more[i].children@[c] == nodes[i].children@[c]);
        }
    }
    assert forall|j: int| 0 < j < more.len() implies has_parent(more, longer, j) by {
        if j == leaf {
            assert(longer[j].drop_last() =~= paths[node]);
            assert(longer[j].last() == token);
            let c = nodes[node].children@.len() as int;
            assert(more[node].children@[c] == (token, leaf as usize));
            assert(edge(more, node, token, leaf));
            assert(longer[node] == longer[j].drop_last());
        } else {
            assert(has_parent(nodes, paths, j));
            let i = choose|i: int|
                0 <= i < j && #[trigger] paths[i] == paths[j].drop_last() && edge(
                    nodes,
                    i,
                    paths[j].last(),
                    j,
                );
            let c = choose|c: int|
                0 <= c < nodes[i].children@.len() && #[trigger] nodes[i].children@[c] == (
                    paths[j].last(),
                    j as usize,
                );
            assert(more[i].children@[c] == nodes[i].children@[c]);
            assert(edge(more, i, longer[j].last(), j));
            assert(longer[i] == longer[j].drop_last());
        }
    }
    assert forall|i: int, c: int, d: int|
        0 <= i < more.len() && 0 <= c < d < more[i].children@.len() implies
        #[trigger] more[i].children@[c] != #[trigger] more[i].children@[d] by {
        if i == node && d == nodes[node].children@.len() {
            assert(more[i].children@[c] == nodes[i].children@[c]);
            assert(nodes[node].children@[c].0 != token);
        } else {
            assert(i < leaf);
            assert(more[i].children@[c] == nodes[i].children@[c]);
            assert(more[i].children@[d] == nodes[i].children@[d]);
        }
    }
    assert forall|w: Seq<usize>| ends(more, longer).contains(w) <==> ends(
        nodes,
        paths,
    ).contains(w) by {
        if ends(more, longer).contains(w) {
            let i = choose|i: int|
                0 <= i < more.len() && #[trigger] more[i].is_terminal && longer[i] == w;
            assert(nodes[i].is_terminal && paths[i] == w);
        }
        if ends(nodes, paths).contains(w) {
            let i = choose|i: int|
                0 <= i < nodes.len() && #[trigger] nodes[i].is_terminal && paths[i] == w;
            assert(more[i].is_terminal && longer[i] == w);
        }
    }
    assert(ends(more, longer) =~= ends(nodes, paths));
}

impl Default for TokenTrie {
    fn default() -> (trie: Self)
        ensures
            trie.well_formed(),
            trie.words() == Set::<Seq<usize>>::empty(),
    {
        Self::new()
    }
}

/// Something that narrows down the next token.
pub trait TokenConstraint {
    /// Whether the constraint is in a state in which it can be asked.
    open spec fn ready(&self) -> bool {
        true
    }

    /// Whether `allowed` is what the constraint says after `generated`.
    open spec fn answers(&self, generated: Seq<usize>, allowed: Option<Vec<usize>>) -> bool {
        true
    }

    /// The tokens that may come after `generated`; any may where there is no list.
    fn allowed_next(&self, generated: &[usize]) -> (allowed: Option<Vec<usize>>)
        requires
            self.ready(),
        ensures
            self.answers(generated@, allowed),
    ;
}

impl TokenConstraint for TokenTrie {
    open spec fn ready(&self) -> bool {
        self.well_formed()
    }

    open spec fn answers(&self, generated: Seq<usize>, allowed: Option<Vec<usize>>) -> bool {
        names_next(self.words(), generated, allowed)
    }

    fn allowed_next(&self, generated: &[usize]) -> (allowed: Option<Vec<usize>>) {
        self.allowed_tokens(generated)
    }
}

} // verus!
