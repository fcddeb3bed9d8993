//! Aho-Corasick-style automaton over the digit alphabet 0-9.
//!
//! The trie is stored as an index-based arena: node 0 is the root, and all
//! links (`children`, `s_link`, `ts_link`) are indices into parallel tables.
//! `s_link` is the failure link (longest proper suffix of the node's path
//! that is present in the trie), `ts_link` the output link (nearest terminal
//! node reachable through one or more failure hops).

use vstd::prelude::*;

verus! {

use crate::valid_digit;

/// Is `a` a proper suffix of `b`?
pub open spec fn is_proper_suffix(a: Seq<usize>, b: Seq<usize>) -> bool {
    a.len() < b.len() && a == b.skip(b.len() - a.len())
}

/// Multi-pattern matching automaton: a trie over digits 0-9 whose nodes are
/// kept in parallel index tables, plus the dictionary words attached to its
/// terminal nodes.
pub struct Trie {
    /// Child links, ten slots per node: slot `10 * v + d` is node `v`'s child on digit `d`.
    children: Vec<Option<usize>>,
    /// Depth of each node, i.e. the length of the digit path from the root to it.
    depth: Vec<usize>,
    /// Failure link of each node; `None` at the root and before `build` runs.
    s_link: Vec<Option<usize>>,
    /// Output link of each node: nearest terminal node reachable via failure hops.
    ts_link: Vec<Option<usize>>,
    /// Whether at least one dictionary word ends exactly at this node.
    terminal: Vec<bool>,
    /// Display text of each inserted word, in insertion order.
    words: Vec<String>,
    /// For each inserted word, the node where its digit encoding ends.
    word_node: Vec<usize>,
    /// Ghost: the digit path from the root to each node.
    paths: Ghost<Seq<Seq<usize>>>,
}

impl Trie {
    /// Number of nodes in the arena.
    pub closed spec fn node_count(self) -> int {
        self.depth@.len() as int
    }

    /// Digit path from the root to node `v`.
    pub closed spec fn path(self, v: int) -> Seq<usize> {
        self.paths@[v]
    }

    /// Well-formedness of the arena: table lengths agree, child edges extend
    /// paths by one digit, failure and output links point to proper suffixes
    /// (output links to terminal ones), paths are unique, and every non-root
    /// node is some node's child.
    pub closed spec fn wf(self) -> bool {
        let n = self.depth@.len() as int;
        &&& n >= 1
        &&& self.children@.len() == 10 * n
        &&& self.s_link@.len() == n
        &&& self.ts_link@.len() == n
        &&& self.terminal@.len() == n
        &&& self.paths@.len() == n
        &&& self.words@.len() == self.word_node@.len()
        &&& self.paths@[0] == Seq::<usize>::empty()
        &&& !self.terminal@[0]
        &&& forall|v: int| 0 <= v < n ==> #[trigger] self.depth@[v] == self.paths@[v].len()
        &&& forall|v: int| 0 <= v < n ==> (#[trigger] self.paths@[v]).len() < n
        &&& forall|v: int, k: int|
            0 <= v < n && 0 <= k < self.paths@[v].len() ==> valid_digit(
                #[trigger] self.paths@[v][k],
            )
        &&& forall|v: int, d: int|
            0 <= v < n && 0 <= d < 10 && (#[trigger] self.children@[10 * v + d]) is Some
                ==> {
                let u = self.children@[10 * v + d]->0 as int;
                &&& 0 < u < n
                &&& self.paths@[u] == self.paths@[v].push(d as usize)
            }
        &&& forall|v: int|
            0 <= v < n && (#[trigger] self.s_link@[v]) is Some ==> {
                let u = self.s_link@[v]->0 as int;
                &&& 0 <= u < n
                &&& is_proper_suffix(self.paths@[u], self.paths@[v])
            }
        &&& forall|v: int|
            0 <= v < n && (#[trigger] self.ts_link@[v]) is Some ==> {
                let u = self.ts_link@[v]->0 as int;
                &&& 0 <= u < n
                &&& is_proper_suffix(self.paths@[u], self.paths@[v])
                &&& self.terminal@[u]
            }
        &&& forall|j: int|
            0 <= j < self.word_node@.len() ==> {
                let v = #[trigger] self.word_node@[j] as int;
                &&& 0 < v < n
                &&& self.terminal@[v]
            }
        &&& forall|v: int|
            0 <= v < n && #[trigger] self.terminal@[v] ==> exists|j: int|
                0 <= j < self.word_node@.len() && (#[trigger] self.word_node@[j]) as int == v
        &&& forall|v1: int, v2: int|
            0 <= v1 < n && 0 <= v2 < n && v1 != v2 ==> self.paths@[v1] != self.paths@[v2]
        &&& forall|u: int| 0 < u < n ==> #[trigger] self.has_parent(u)
    }

    /// Node `u` is the child of some node on some digit.
    pub closed spec fn has_parent(self, u: int) -> bool {
        exists|v: int, d: int|
            0 <= v < self.depth@.len() && 0 <= d < 10 && #[trigger] self.children@[10 * v + d]
                == Some(u as usize)
    }

    /// The dictionary this automaton was built from: one (digit encoding,
    /// display text) pair per successfully inserted word, in insertion order.
    pub closed spec fn dict(self) -> Seq<(Seq<usize>, Seq<char>)> {
        Seq::new(
            self.words@.len(),
            |j: int| (self.paths@[self.word_node@[j] as int], self.words@[j]@),
        )
    }

    /// Creates an automaton holding only the root node and no words.
    pub fn new() -> (t: Trie)
        ensures
            t.wf(),
            t.node_count() == 1,
            t.dict() == Seq::<(Seq<usize>, Seq<char>)>::empty(),
    {
        let mut children: Vec<Option<usize>> = Vec::new();
        let mut d: usize = 0;
        while d < 10
            invariant
                d <= 10,
                children@.len() == d,
                forall|k: int| 0 <= k < d ==> children@[k] is None,
            decreases 10 - d,
        {
            children.push(None);
            d += 1;
        }
        let ghost root_paths: Seq<Seq<usize>> = seq![Seq::<usize>::empty()];
        let t = Trie {
            children,
            depth: vec![0],
            s_link: vec![None],
            ts_link: vec![None],
            terminal: vec![false],
            words: Vec::new(),
            word_node: Vec::new(),
            paths: Ghost(root_paths),
        };
        proof {
            assert(t.dict() =~= Seq::<(Seq<usize>, Seq<char>)>::empty());
        }
        t
    }

    /// Inserts one dictionary word under its digit encoding.  An empty
    /// encoding would end at the root and corrupt terminal/root identity, so
    /// it is explicitly skipped and the automaton is left unchanged.
    pub fn add_seq(&mut self, digits: &[usize], word: String)
        requires
            old(self).wf(),
            forall|k: int| 0 <= k < digits@.len() ==> valid_digit(#[trigger] digits@[k]),
        ensures
            final(self).wf(),
            digits@.len() == 0 ==> *final(self) == *old(self),
            digits@.len() > 0 ==> final(self).dict() == old(self).dict().push(
                (digits@, word@),
            ),
    {
        if digits.len() == 0 {
            return ;
        }
        let ghost orig = *self;
        let mut cur: usize = 0;
        let mut i: usize = 0;
        while i < digits.len()
            invariant
                self.wf(),
                self.dict() == orig.dict(),
                forall|k: int| 0 <= k < digits@.len() ==> valid_digit(#[trigger] digits@[k]),
                i <= digits@.len(),
                cur < self.depth@.len(),
                self.paths@[cur as int] == digits@.take(i as int),
            decreases digits@.len() - i,
        {
            let d = digits[i];
            let total = self.children.len();
            assert(10 * (cur as int) + (d as int) < total as int);
            let slot = 10 * cur + d;
            match self.children[slot] {
                Some(u) => {
                    proof {
                        assert(self.paths@[u as int] == self.paths@[cur as int].push(d));
                        assert(self.paths@[cur as int].push(d) =~= digits@.take(i as int + 1));
                    }
                    cur = u;
                },
                None => {
                    let u = self.depth.len();
                    let ghost pre = *self;
                    let ghost new_path = digits@.take(i as int + 1);
                    let next_depth = self.depth[cur] + 1;
                    self.depth.push(next_depth);
                    self.s_link.push(None);
                    self.ts_link.push(None);
                    self.terminal.push(false);
                    let mut k: usize = 0;
                    while k < 10
                        invariant
                            k <= 10,
                            self.children@.len() == pre.children@.len() + k,
                            forall|m: int|
                                0 <= m < pre.children@.len() ==> self.children@[m]
                                    == pre.children@[m],
                            forall|m: int|
                                pre.children@.len() <= m < self.children@.len()
                                    ==> self.children@[m] is None,
                            self.depth@ == pre.depth@.push(next_depth),
                            self.s_link@ == pre.s_link@.push(None::<usize>),
                            self.ts_link@ == pre.ts_link@.push(None::<usize>),
                            self.terminal@ == pre.terminal@.push(false),
                            self.words == pre.words,
                            self.word_node == pre.word_node,
                            self.paths == pre.paths,
                        decreases 10 - k,
                    {
                        self.children.push(None);
                        k += 1;
                    }
                    self.children[slot] = Some(u);
                    proof {
                        self.paths@ = pre.paths@.push(new_path);
                    }
                    proof {
                        assert(new_path =~= pre.paths@[cur as int].push(d));
                        assert(self.children@ =~= pre.children@.add(
                            Seq::new(10, |m: int| None::<usize>),
                        ).update(10 * (cur as int) + (d as int), Some(pre.depth@.len() as usize)));
                        lemma_add_node_wf(pre, *self, cur as int, d as int, new_path);
                        assert(self.dict() =~= pre.dict());
                    }
                    cur = u;
                },
            }
            i += 1;
        }
        proof {
            assert(digits@.take(digits@.len() as int) =~= digits@);
            assert(self.paths@[cur as int] == digits@);
            assert(cur != 0) by {
                if cur == 0 {
                    assert(self.paths@[0].len() == 0);
                }
            }
        }
        let ghost pre = *self;
        self.terminal[cur] = true;
        self.words.push(word);
        self.word_node.push(cur);
        proof {
            assert(self.wf()) by {
                assert(forall|v: int|
                    0 <= v < pre.depth@.len() && pre.terminal@[v] ==> #[trigger] self.terminal@[v]);
                assert(forall|u: int|
                    0 < u < self.depth@.len() && pre.has_parent(u)
                        ==> #[trigger] self.has_parent(u)) by {
                    assert(forall|u: int|
                        0 < u < self.depth@.len() && pre.has_parent(u) ==> self.children@
                            == pre.children@);
                }
                assert forall|v: int|
                    0 <= v < self.depth@.len() && #[trigger] self.terminal@[v] implies exists|
                    j: int,
                |
                    0 <= j < self.word_node@.len() && (#[trigger] self.word_node@[j]) as int
                        == v by {
                    if v == cur as int {
                        assert(self.word_node@[self.word_node@.len() - 1] == cur);
                    } else {
                        assert(pre.terminal@[v]);
                        let j0 = choose|j0: int|
                            0 <= j0 < pre.word_node@.len() && (#[trigger] pre.word_node@[
                                j0
                            ]) as int == v;
                        assert(self.word_node@[j0] == pre.word_node@[j0]);
                    }
                }
            }
            assert(self.dict() =~= orig.dict().push((digits@, word@)));
        }
    }
}

/// After hanging a fresh node (with path `new_path = path(parent).push(d)`)
/// onto `parent` at digit `d`, the arena is well-formed again and nothing
/// already present has moved.
proof fn lemma_add_node_wf(pre: Trie, post: Trie, parent: int, d: int, new_path: Seq<usize>)
    requires
        pre.wf(),
        0 <= parent < pre.depth@.len(),
        0 <= d < 10,
        pre.children@[10 * parent + d] is None,
        new_path == pre.paths@[parent as int].push(d as usize),
        post.depth@ == pre.depth@.push((pre.paths@[parent].len() + 1) as usize),
        post.s_link@ == pre.s_link@.push(None::<usize>),
        post.ts_link@ == pre.ts_link@.push(None::<usize>),
        post.terminal@ == pre.terminal@.push(false),
        post.paths@ == pre.paths@.push(new_path),
        post.words@ == pre.words@,
        post.word_node@ == pre.word_node@,
        post.children@ == pre.children@.add(
            Seq::new(10, |m: int| None::<usize>),
        ).update(10 * parent + d, Some(pre.depth@.len() as usize)),
    ensures
        post.wf(),
        post.dict() == pre.dict(),
{
    let n = pre.depth@.len() as int;
    assert(pre.depth.len() == pre.depth@.len());
    assert(post.children@.len() == 10 * (n + 1));
    // Child edges: old edges unchanged, the one new edge reaches the new node.
    assert(forall|m: int|
        0 <= m < 10 * n && m != 10 * parent + d ==> post.children@[m] == pre.children@[m]);
    // Uniqueness of the new path among the old nodes.
    assert forall|v: int| 0 <= v < n implies pre.paths@[v] != new_path by {
        if pre.paths@[v] == new_path {
            assert(v != 0) by {
                assert(new_path.len() > 0);
            }
            assert(pre.has_parent(v));
            let (p, dd): (int, int) = choose|p: int, dd: int|
                0 <= p < pre.depth@.len() && 0 <= dd < 10 && #[trigger] pre.children@[10 * p + dd]
                    == Some(v as usize);
            assert(pre.children@[10 * p + dd] is Some);
            let u = pre.children@[10 * p + dd]->0 as int;
            assert(pre.paths@[u] == pre.paths@[p].push(dd as usize));
            assert(u == v);
            lemma_push_injective(pre.paths@[p], pre.paths@[parent], dd as usize, d as usize);
            assert(p == parent);
            assert(pre.children@[10 * parent + d] == Some(v as usize));
        }
    }
    // The new node is parented; old nodes keep their parents.
    assert(post.children@[10 * parent + d] == Some(n as usize));
    assert(post.has_parent(n));
    assert forall|u: int| 0 < u < n implies #[trigger] post.has_parent(u) by {
        assert(pre.has_parent(u));
        let (p, dd): (int, int) = choose|p: int, dd: int|
            0 <= p < pre.depth@.len() && 0 <= dd < 10 && #[trigger] pre.children@[10 * p + dd]
                == Some(u as usize);
        assert(10 * p + dd != 10 * parent + d) by {
            if 10 * p + dd == 10 * parent + d {
                assert(pre.children@[10 * parent + d] == Some(u as usize));
            }
        }
        assert(post.children@[10 * p + dd] == Some(u as usize));
    }
    assert(post.dict() =~= pre.dict());
}

/// Pushing onto sequences is injective in both the sequence and the element.
proof fn lemma_push_injective(a: Seq<usize>, b: Seq<usize>, x: usize, y: usize)
    requires
        a.push(x) == b.push(y),
    ensures
        a == b,
        x == y,
{
    assert(a.push(x).len() == a.len() + 1);
    assert(b.push(y).len() == b.len() + 1);
    assert(a.push(x).len() == b.push(y).len());
    assert(a.len() == b.len());
    assert(a =~= b) by {
        assert(forall|k: int| 0 <= k < a.len() ==> a[k] == a.push(x)[k] && b[k] == b.push(y)[k]);
    }
    assert(x == a.push(x)[a.len() as int]);
    assert(y == b.push(y)[b.len() as int]);
}


/// A proper suffix of a proper suffix is a proper suffix.
proof fn lemma_suffix_trans(a: Seq<usize>, b: Seq<usize>, c: Seq<usize>)
    requires
        is_proper_suffix(a, b),
        is_proper_suffix(b, c),
    ensures
        is_proper_suffix(a, c),
{
    assert(a =~= c.skip(c.len() - a.len())) by {
        assert forall|k: int| 0 <= k < a.len() implies a[k] == c.skip(c.len() - a.len())[k] by {
            assert(a[k] == b.skip(b.len() - a.len())[k]);
            assert(b[b.len() - a.len() + k] == c.skip(c.len() - b.len())[b.len() - a.len() + k]);
        }
    }
}

/// Extending both sequences by the same digit preserves proper suffixes.
proof fn lemma_suffix_push(a: Seq<usize>, b: Seq<usize>, x: usize)
    requires
        is_proper_suffix(a, b),
    ensures
        is_proper_suffix(a.push(x), b.push(x)),
{
    assert(a.push(x) =~= b.push(x).skip(b.push(x).len() - a.push(x).len())) by {
        assert forall|k: int| 0 <= k < a.len() + 1 implies a.push(x)[k] == b.push(x).skip(
            b.len() - a.len(),
        )[k] by {
            if k < a.len() {
                assert(a[k] == b.skip(b.len() - a.len())[k]);
            }
        }
    }
}

/// The empty sequence is a proper suffix of every non-empty sequence.
proof fn lemma_empty_suffix(b: Seq<usize>)
    requires
        b.len() > 0,
    ensures
        is_proper_suffix(Seq::<usize>::empty(), b),
{
    assert(Seq::<usize>::empty() =~= b.skip(b.len() as int));
}

/// A non-root node's path is non-empty.
proof fn lemma_nonroot_path_nonempty(t: Trie, v: int)
    requires
        t.wf(),
        0 < v < t.node_count(),
    ensures
        t.path(v).len() >= 1,
{
    if t.path(v).len() == 0 {
        assert(t.path(v) =~= t.path(0));
    }
}

impl Trie {
    /// Walks the failure chain starting at `start` — the node of the longest
    /// proper suffix of `p` present in the trie, `None` when no proper
    /// suffix of `p` is present — and returns the first child on digit `d`
    /// found along it.  That child is the node of the longest proper suffix
    /// of `p.push(d)` present in the trie; `None` means only the empty
    /// suffix is present.  Every node strictly shallower than `p` must
    /// already carry its correct failure link.
    fn chain_child(&self, start: Option<usize>, d: usize, Ghost(p): Ghost<Seq<usize>>) -> (r:
        Option<usize>)
        requires
            self.wf(),
            valid_digit(d),
            forall|w2: int|
                0 < w2 < self.node_count() && (#[trigger] self.path(w2)).len() < p.len()
                    ==> self.slink_correct(w2),
            match start {
                Some(w) => (w as int) < self.node_count() && is_proper_suffix(
                    self.path(w as int),
                    p,
                ) && forall|w2: int|
                    0 <= w2 < self.node_count() && is_proper_suffix(#[trigger] self.path(w2), p)
                        ==> self.path(w2).len() <= self.path(w as int).len(),
                None => forall|w2: int|
                    0 <= w2 < self.node_count() ==> !is_proper_suffix(#[trigger] self.path(w2), p),
            },
        ensures
            match r {
                Some(x) => (x as int) < self.node_count() && is_proper_suffix(
                    self.path(x as int),
                    p.push(d),
                ) && forall|w2: int|
                    0 <= w2 < self.node_count() && is_proper_suffix(
                        #[trigger] self.path(w2),
                        p.push(d),
                    ) ==> self.path(w2).len() <= self.path(x as int).len(),
                None => forall|w2: int|
                    0 <= w2 < self.node_count() && is_proper_suffix(
                        #[trigger] self.path(w2),
                        p.push(d),
                    ) ==> self.path(w2).len() == 0,
            },
    {
        let ghost n = self.node_count();
        let mut link = start;
        loop
            invariant
                self.wf(),
                valid_digit(d),
                n == self.node_count(),
                forall|w2: int|
                    0 < w2 < n && (#[trigger] self.path(w2)).len() < p.len()
                        ==> self.slink_correct(w2),
                match link {
                    Some(w) => (w as int) < n && is_proper_suffix(self.path(w as int), p) && forall|
                        w2: int,
                    |
                        0 <= w2 < n && is_proper_suffix(#[trigger] self.path(w2), p) && self.path(
                            w2,
                        ).len() > self.path(w as int).len() ==> self.children@[10 * w2 + d as int]
                            is None,
                    None => forall|w2: int|
                        0 <= w2 < n && is_proper_suffix(#[trigger] self.path(w2), p)
                            ==> self.children@[10 * w2 + d as int] is None,
                },
            decreases match link {
                Some(w) => self.path(w as int).len() + 1,
                None => 0,
            },
        {
            match link {
                None => {
                    proof {
                        assert forall|w2: int|
                            0 <= w2 < n && is_proper_suffix(#[trigger] self.path(w2), p.push(d))
                            implies self.path(w2).len() == 0 by {
                            if self.path(w2).len() > 0 {
                                self.lemma_chain_no_extension(w2, p, d);
                                let q = self.paths@[w2];
                                let parent = self.node_of(q.drop_last());
                                self.lemma_node_of(q.drop_last());
                                assert(q.drop_last().len() < p.len());
                                assert(is_proper_suffix(self.path(parent), p));
                                assert(self.children@[10 * parent + d as int] is None);
                            }
                        }
                    }
                    return None;
                },
                Some(w) => {
                    let total = self.children.len();
                    assert(10 * (w as int) + (d as int) < total as int);
                    match self.children[10 * w + d] {
                        Some(x) => {
                            proof {
                                assert(self.paths@[x as int] == self.paths@[w as int].push(d));
                                lemma_suffix_push(self.paths@[w as int], p, d);
                                assert forall|w2: int|
                                    0 <= w2 < n && is_proper_suffix(
                                        #[trigger] self.path(w2),
                                        p.push(d),
                                    ) implies self.path(w2).len() <= self.path(x as int).len() by {
                                    if self.path(w2).len() > self.path(x as int).len() {
                                        self.lemma_chain_no_extension(w2, p, d);
                                        let q = self.paths@[w2];
                                        let parent = self.node_of(q.drop_last());
                                        self.lemma_node_of(q.drop_last());
                                        assert(q.drop_last().len() < p.len());
                                        assert(is_proper_suffix(self.path(parent), p));
                                        assert(self.path(parent).len() > self.path(
                                            w as int,
                                        ).len());
                                        assert(self.children@[10 * parent + d as int] is None);
                                    }
                                }
                            }
                            return Some(x);
                        },
                        None => {
                            let ghost wi = w as int;
                            if w == 0 {
                                proof {
                                    assert(self.s_link@[0] is None) by {
                                        if self.s_link@[0] is Some {
                                            assert(is_proper_suffix(
                                                self.paths@[self.s_link@[0]->0 as int],
                                                self.paths@[0],
                                            ));
                                        }
                                    }
                                }
                            }
                            link = self.s_link[w];
                            proof {
                                if link is Some {
                                    assert(wi != 0) by {
                                        if wi == 0 {
                                            assert(self.s_link@[0] is None);
                                        }
                                    }
                                    assert(self.slink_correct(wi));
                                    let w2i = link->0 as int;
                                    lemma_suffix_trans(self.paths@[w2i], self.paths@[wi], p);
                                    assert forall|w3: int|
                                        0 <= w3 < n && is_proper_suffix(
                                            #[trigger] self.path(w3),
                                            p,
                                        ) && self.path(w3).len() > self.path(w2i).len()
                                        implies self.children@[10 * w3 + d as int] is None by {
                                        if self.path(w3).len() > self.path(wi).len() {
                                        } else if self.path(w3).len() == self.path(wi).len() {
                                            lemma_suffix_same_len(
                                                self.paths@[w3],
                                                self.paths@[wi],
                                                p,
                                            );
                                            assert(w3 == wi);
                                        } else {
                                            lemma_suffix_of_suffix(
                                                self.paths@[w3],
                                                self.paths@[wi],
                                                p,
                                            );
                                        }
                                    }
                                } else {
                                    assert(wi == 0) by {
                                        if wi != 0 {
                                            assert(self.path(wi).len() < p.len());
                                            assert(self.slink_correct(wi));
                                        }
                                    }
                                    assert forall|w3: int|
                                        0 <= w3 < n && is_proper_suffix(#[trigger] self.path(w3), p)
                                        implies self.children@[10 * w3 + d as int] is None by {
                                        if self.path(w3).len() == 0 {
                                            assert(self.path(w3) =~= self.path(0));
                                            assert(w3 == 0);
                                        }
                                    }
                                }
                            }
                        },
                    }
                },
            }
        }
    }

    /// If a node's path is a non-empty proper suffix of `p.push(d)` and is
    /// longer than one digit more than the longest chain candidate tried so
    /// far, its parent is a proper suffix of `p` without a child on `d` —
    /// used contrapositively: under the chain invariant such a node cannot
    /// exist beyond the found candidate.
    proof fn lemma_chain_no_extension(self, w2: int, p: Seq<usize>, d: usize)
        requires
            self.wf(),
            0 <= w2 < self.node_count(),
            is_proper_suffix(self.paths@[w2], p.push(d)),
            self.paths@[w2].len() > 0,
        ensures
            self.paths@[w2].last() == d,
            self.has_path(self.paths@[w2].drop_last()),
            is_proper_suffix(self.paths@[w2].drop_last(), p) || self.paths@[w2].drop_last() == p,
            self.children@[10 * self.node_of(self.paths@[w2].drop_last()) + d as int] == Some(
                w2 as usize,
            ),
    {
        let q = self.paths@[w2];
        lemma_suffix_pop(q, p, d);
        assert(self.has_path(q));
        assert(self.node_of(q) == w2) by {
            self.lemma_node_of(q);
        }
        self.lemma_path_extension(q);
        assert(self.depth.len() == self.depth@.len());
    }
}


impl Trie {
    /// The parts of the automaton that `build` must not disturb: everything
    /// except the failure and output links.
    pub closed spec fn same_skeleton(self, other: Trie) -> bool {
        &&& self.children@ == other.children@
        &&& self.depth@ == other.depth@
        &&& self.terminal@ == other.terminal@
        &&& self.words@ == other.words@
        &&& self.word_node@ == other.word_node@
        &&& self.paths@ == other.paths@
    }

    /// Computes failure and output links for every node in breadth-first
    /// (level) order: a node's failure link is found by walking its parent's
    /// failure chain for an ancestor with a child on the same digit (the
    /// root if none exists), and its output link is its failure link if that
    /// target is terminal, otherwise the target's own output link.
    ///
    /// Afterwards `links_built` holds: every non-root node's failure link
    /// points to the node of the longest proper suffix of its path present
    /// in the trie, and its output link to the node of the longest terminal
    /// proper suffix, absent exactly when none exists.
    pub fn build(&mut self)
        requires
            old(self).wf(),
        ensures
            final(self).wf(),
            final(self).dict() == old(self).dict(),
            final(self).same_skeleton(*old(self)),
            final(self).links_built(),
    {
        let ghost orig = *self;
        let n = self.depth.len();
        proof {
            assert forall|w: int| 0 < w < n && (#[trigger] self.path(w)).len() < 1
                implies self.settled(w) by {
                assert(self.paths@[w] =~= self.paths@[0]);
            }
        }
        let mut target: usize = 1;
        while target < n
            invariant
                self.wf(),
                self.dict() == orig.dict(),
                self.same_skeleton(orig),
                n == self.depth@.len(),
                1 <= target <= n,
                self.s_link@[0] is None,
                self.ts_link@[0] is None,
                forall|w: int|
                    0 < w < n && (#[trigger] self.path(w)).len() < target ==> self.settled(w),
            decreases n - target,
        {
            let mut v: usize = 0;
            while v < n
                invariant
                    self.wf(),
                    self.dict() == orig.dict(),
                    self.same_skeleton(orig),
                    n == self.depth@.len(),
                    1 <= target < n,
                    v <= n,
                    self.s_link@[0] is None,
                    self.ts_link@[0] is None,
                    forall|w: int|
                        0 < w < n && (#[trigger] self.path(w)).len() < target ==> self.settled(w),
                    forall|pv: int, dd: int|
                        0 <= pv < v && 0 <= dd < 10 && self.paths@[pv].len() + 1 == target && (
                        #[trigger] self.children@[10 * pv + dd]) is Some ==> self.settled(
                            self.children@[10 * pv + dd]->0 as int,
                        ),
                decreases n - v,
            {
                let vd = self.depth[v];
                if vd + 1 == target {
                    let mut dd: usize = 0;
                    while dd < 10
                        invariant
                            self.wf(),
                            self.dict() == orig.dict(),
                            self.same_skeleton(orig),
                            n == self.depth@.len(),
                            1 <= target < n,
                            v < n,
                            self.paths@[v as int].len() + 1 == target,
                            dd <= 10,
                            self.s_link@[0] is None,
                            self.ts_link@[0] is None,
                            forall|w: int|
                                0 < w < n && (#[trigger] self.path(w)).len() < target
                                    ==> self.settled(w),
                            forall|pv: int, d2: int|
                                0 <= pv < v && 0 <= d2 < 10 && self.paths@[pv].len() + 1 == target
                                    && (#[trigger] self.children@[10 * pv + d2]) is Some
                                    ==> self.settled(self.children@[10 * pv + d2]->0 as int),
                            forall|d2: int|
                                0 <= d2 < dd && (#[trigger] self.children@[10 * (v as int) + d2])
                                    is Some ==> self.settled(
                                    self.children@[10 * (v as int) + d2]->0 as int,
                                ),
                        decreases 10 - dd,
                    {
                        let total = self.children.len();
                        assert(10 * (v as int) + (dd as int) < total as int);
                        match self.children[10 * v + dd] {
                            Some(u) => {
                                let ghost pre = *self;
                                proof {
                                    assert(self.depth.len() == self.depth@.len());
                                }
                                assert(self.paths@[u as int] == self.paths@[v as int].push(dd));
                                proof {
                                    assert(self.path(v as int).len() + 1 == target);
                                    if v != 0 {
                                        assert(self.settled(v as int));
                                    }
                                }
                                let sl = self.chain_child(
                                    self.s_link[v],
                                    dd,
                                    Ghost(self.paths@[v as int]),
                                );
                                let slv: usize = match sl {
                                    Some(x) => x,
                                    None => 0,
                                };
                                proof {
                                    if sl is None {
                                        lemma_empty_suffix(self.paths@[u as int]);
                                    }
                                    assert(self.paths@[v as int].push(dd) == self.paths@[u as int]);
                                    assert(is_proper_suffix(
                                        self.paths@[slv as int],
                                        self.paths@[u as int],
                                    ));
                                    assert forall|w2: int|
                                        0 <= w2 < n && is_proper_suffix(
                                            #[trigger] self.paths@[w2],
                                            self.paths@[u as int],
                                        ) implies self.paths@[w2].len() <= self.paths@[
                                        slv as int
                                    ].len() by {
                                        assert(self.path(w2) == self.paths@[w2]);
                                        assert(is_proper_suffix(
                                            self.path(w2),
                                            self.paths@[v as int].push(dd),
                                        ));
                                    }
                                }
                                self.s_link[u] = Some(slv);
                                let ghost mid = *self;
                                if self.terminal[slv] {
                                    self.ts_link[u] = Some(slv);
                                } else {
                                    let t = self.ts_link[slv];
                                    proof {
                                        if slv != 0 {
                                            assert(pre.settled(slv as int));
                                        }
                                        if t is Some {
                                            lemma_suffix_trans(
                                                self.paths@[t->0 as int],
                                                self.paths@[slv as int],
                                                self.paths@[u as int],
                                            );
                                        }
                                    }
                                    self.ts_link[u] = t;
                                }
                                proof {
                                    lemma_set_links_ok(
                                        pre,
                                        *self,
                                        u as int,
                                        slv as int,
                                        target as int,
                                        v as int,
                                        dd as int,
                                    );
                                    assert(pre.paths@ == self.paths@);
                                    assert(pre.children@ == self.children@);
                                    assert forall|w: int|
                                        0 < w < n && (#[trigger] self.path(w)).len() < target
                                        implies self.settled(w) by {
                                        assert(pre.path(w) == self.path(w));
                                        assert(pre.settled(w));
                                        assert(w != u as int);
                                    }
                                    assert forall|pv: int, d2: int|
                                        0 <= pv < v && 0 <= d2 < 10 && self.paths@[pv].len() + 1
                                            == target && (#[trigger] self.children@[10 * pv + d2])
                                            is Some implies self.settled(
                                        self.children@[10 * pv + d2]->0 as int,
                                    ) by {
                                        let c = self.children@[10 * pv + d2]->0 as int;
                                        assert(self.paths@[c] == self.paths@[pv].push(d2 as usize));
                                        if c == u as int {
                                            lemma_push_injective(
                                                self.paths@[pv],
                                                self.paths@[v as int],
                                                d2 as usize,
                                                dd,
                                            );
                                        }
                                        assert(c != u as int);
                                        assert(pre.children@[10 * pv + d2] is Some);
                                        assert(pre.settled(c));
                                    }
                                    assert forall|d2: int|
                                        0 <= d2 < dd + 1 && (#[trigger] self.children@[10 * (
                                        v as int) + d2]) is Some implies self.settled(
                                        self.children@[10 * (v as int) + d2]->0 as int,
                                    ) by {
                                        let c = self.children@[10 * (v as int) + d2]->0 as int;
                                        assert(self.paths@[c] == self.paths@[v as int].push(
                                            d2 as usize,
                                        ));
                                        if d2 == dd {
                                            assert(c == u as int);
                                        } else {
                                            if c == u as int {
                                                lemma_push_injective(
                                                    self.paths@[v as int],
                                                    self.paths@[v as int],
                                                    d2 as usize,
                                                    dd,
                                                );
                                            }
                                            assert(c != u as int);
                                            assert(pre.children@[10 * (v as int) + d2] is Some);
                                            assert(pre.settled(c));
                                        }
                                    }
                                }
                            },
                            None => {},
                        }
                        dd += 1;
                    }
                }
                v += 1;
            }
            proof {
                assert(self.depth.len() == self.depth@.len());
                assert forall|w: int|
                    0 < w < n && (#[trigger] self.path(w)).len() < target + 1
                    implies self.settled(w) by {
                    if self.path(w).len() == target {
                        assert(self.has_parent(w));
                        let (pv, d2): (int, int) = choose|pv: int, d2: int|
                            0 <= pv < self.depth@.len() && 0 <= d2 < 10
                                && #[trigger] self.children@[10 * pv + d2] == Some(w as usize);
                        assert(self.paths@[w] == self.paths@[pv].push(d2 as usize));
                        assert(self.settled(self.children@[10 * pv + d2]->0 as int));
                    }
                }
            }
            target += 1;
        }
        proof {
            assert forall|w: int| 0 < w < self.node_count() implies #[trigger] self.slink_correct(
                w,
            ) && self.tslink_correct(w) by {
                assert(self.path(w).len() < n);
                assert(self.settled(w));
            }
        }
    }
}


/// Setting the freshly computed failure and output links of node `u` (the
/// child of `parent` on digit `d`, with `slv` the node of the longest
/// proper suffix of `u`'s path) keeps the arena well-formed, settles `u`,
/// and disturbs no other node.
proof fn lemma_set_links_ok(
    pre: Trie,
    post: Trie,
    u: int,
    slv: int,
    target: int,
    parent: int,
    d: int,
)
    requires
        pre.wf(),
        0 <= parent < pre.node_count(),
        0 <= d < 10,
        0 < u < pre.node_count(),
        0 <= slv < pre.node_count(),
        pre.children@[10 * parent + d] == Some(u as usize),
        pre.paths@[u] == pre.paths@[parent].push(d as usize),
        pre.paths@[u].len() == target,
        is_proper_suffix(pre.paths@[slv], pre.paths@[u]),
        forall|w2: int|
            0 <= w2 < pre.node_count() && is_proper_suffix(
                #[trigger] pre.paths@[w2],
                pre.paths@[u],
            ) ==> pre.paths@[w2].len() <= pre.paths@[slv].len(),
        pre.s_link@[0] is None,
        pre.ts_link@[0] is None,
        forall|w: int|
            0 < w < pre.node_count() && (#[trigger] pre.path(w)).len() < target ==> pre.settled(w),
        post.children@ == pre.children@,
        post.depth@ == pre.depth@,
        post.terminal@ == pre.terminal@,
        post.words@ == pre.words@,
        post.word_node@ == pre.word_node@,
        post.paths@ == pre.paths@,
        post.s_link@ == pre.s_link@.update(u, Some(slv as usize)),
        post.ts_link@ == pre.ts_link@.update(
            u,
            if pre.terminal@[slv] {
                Some(slv as usize)
            } else {
                pre.ts_link@[slv]
            },
        ),
    ensures
        post.wf(),
        post.dict() == pre.dict(),
        post.same_skeleton(pre),
        post.s_link@[0] is None,
        post.ts_link@[0] is None,
        post.settled(u),
        forall|w: int|
            0 <= w < post.node_count() && w != u && #[trigger] pre.settled(w) ==> post.settled(w),
{
    let n = pre.node_count();
    assert(pre.depth.len() == pre.depth@.len());
    lemma_nonroot_path_nonempty(pre, u);
    // Root links untouched.
    assert(post.s_link@[0] == pre.s_link@[0]);
    assert(post.ts_link@[0] == pre.ts_link@[0]);
    // The new output link target, by cases.
    let tsv = if pre.terminal@[slv] {
        Some(slv as usize)
    } else {
        pre.ts_link@[slv]
    };
    assert(post.ts_link@[u] == tsv);
    if !pre.terminal@[slv] && slv != 0 {
        assert(pre.path(slv).len() < target);
        assert(pre.settled(slv));
    }
    if !pre.terminal@[slv] && slv == 0 {
        assert(tsv is None);
    }
    if tsv is Some && !pre.terminal@[slv] {
        let z = tsv->0 as int;
        assert(pre.tslink_correct(slv));
        lemma_suffix_trans(pre.paths@[z], pre.paths@[slv], pre.paths@[u]);
    }
    // Well-formedness: only the two link tables changed, at index u.
    assert(post.wf()) by {
        assert forall|w: int| 0 < w < n implies #[trigger] post.has_parent(w) by {
            assert(pre.has_parent(w));
            let (pv, dd): (int, int) = choose|pv: int, dd: int|
                0 <= pv < pre.depth@.len() && 0 <= dd < 10 && #[trigger] pre.children@[10 * pv + dd]
                    == Some(w as usize);
            assert(post.children@[10 * pv + dd] == Some(w as usize));
        }
        assert forall|w: int|
            0 <= w < n && (#[trigger] post.s_link@[w]) is Some implies {
            let x = post.s_link@[w]->0 as int;
            &&& 0 <= x < n
            &&& is_proper_suffix(post.paths@[x], post.paths@[w])
        } by {
            if w != u {
                assert(post.s_link@[w] == pre.s_link@[w]);
            }
        }
        assert forall|w: int|
            0 <= w < n && (#[trigger] post.ts_link@[w]) is Some implies {
            let x = post.ts_link@[w]->0 as int;
            &&& 0 <= x < n
            &&& is_proper_suffix(post.paths@[x], post.paths@[w])
            &&& post.terminal@[x]
        } by {
            if w != u {
                assert(post.ts_link@[w] == pre.ts_link@[w]);
            }
        }
    }
    assert(post.dict() =~= pre.dict());
    // `u` is settled: its failure link is the longest proper suffix by
    // hypothesis, and its output link the longest terminal one by the case
    // analysis on `slv`.
    assert(post.slink_correct(u));
    assert(post.tslink_correct(u)) by {
        if pre.terminal@[slv] {
            assert forall|w2: int|
                0 <= w2 < n && is_proper_suffix(#[trigger] post.paths@[w2], post.paths@[u])
                    && post.terminal@[w2] implies post.paths@[w2].len() <= post.paths@[slv].len() by {
                assert(pre.paths@[w2].len() <= pre.paths@[slv].len());
            }
        } else if slv == 0 {
            assert forall|w2: int|
                0 <= w2 < n && is_proper_suffix(#[trigger] post.paths@[w2], post.paths@[u])
                implies !post.terminal@[w2] by {
                assert(pre.paths@[w2].len() <= pre.paths@[0].len());
                if post.terminal@[w2] {
                    assert(pre.paths@[w2] =~= pre.paths@[0]);
                    assert(w2 == 0);
                }
            }
        } else {
            match pre.ts_link@[slv] {
                Some(z0) => {
                    let z = z0 as int;
                    assert forall|w2: int|
                        0 <= w2 < n && is_proper_suffix(#[trigger] post.paths@[w2], post.paths@[u])
                            && post.terminal@[w2] implies post.paths@[w2].len()
                        <= post.paths@[z].len() by {
                        assert(pre.paths@[w2].len() <= pre.paths@[slv].len());
                        if pre.paths@[w2].len() == pre.paths@[slv].len() {
                            lemma_suffix_same_len(pre.paths@[w2], pre.paths@[slv], pre.paths@[u]);
                            assert(w2 == slv);
                        } else {
                            lemma_suffix_of_suffix(pre.paths@[w2], pre.paths@[slv], pre.paths@[u]);
                        }
                    }
                },
                None => {
                    assert forall|w2: int|
                        0 <= w2 < n && is_proper_suffix(#[trigger] post.paths@[w2], post.paths@[u])
                        implies !post.terminal@[w2] by {
                        assert(pre.paths@[w2].len() <= pre.paths@[slv].len());
                        if post.terminal@[w2] {
                            if pre.paths@[w2].len() == pre.paths@[slv].len() {
                                lemma_suffix_same_len(
                                    pre.paths@[w2],
                                    pre.paths@[slv],
                                    pre.paths@[u],
                                );
                                assert(w2 == slv);
                            } else {
                                lemma_suffix_of_suffix(
                                    pre.paths@[w2],
                                    pre.paths@[slv],
                                    pre.paths@[u],
                                );
                            }
                        }
                    }
                },
            }
        }
    }
    // Nothing else moved.
    assert forall|w: int| 0 <= w < n && w != u && #[trigger] pre.settled(w) implies post.settled(
        w,
    ) by {
        assert(post.s_link@[w] == pre.s_link@[w]);
        assert(post.ts_link@[w] == pre.ts_link@[w]);
    }
}

/// Is `a` a suffix of `b` (possibly `b` itself)?
pub open spec fn is_suffix(a: Seq<usize>, b: Seq<usize>) -> bool {
    a == b || is_proper_suffix(a, b)
}

impl Trie {
    /// The node reached from node `v` on symbol `d`: the child on `d` if it
    /// exists, otherwise the result of retrying from the failure link, with
    /// the root as the final fallback.  This is the automaton's goto
    /// function; `next_node` computes it.
    pub closed spec fn spec_next(self, v: int, d: usize) -> int
        decreases self.path(v).len(),
        when self.wf() && 0 <= v < self.node_count()
    {
        if self.children@[10 * v + d as int] is Some {
            self.children@[10 * v + d as int]->0 as int
        } else if self.s_link@[v] is Some {
            self.spec_next(self.s_link@[v]->0 as int, d)
        } else {
            0
        }
    }

    /// The display texts of the words attached to node `v` among the first
    /// `j` inserted words, in insertion order.
    pub closed spec fn spec_words_at_prefix(self, v: int, j: int) -> Seq<Seq<char>>
        decreases j,
    {
        if j <= 0 {
            Seq::empty()
        } else {
            self.spec_words_at_prefix(v, j - 1) + if self.word_node@[j - 1] == v {
                seq![self.words@[j - 1]@]
            } else {
                Seq::empty()
            }
        }
    }

    /// The display texts of all words attached to node `v`, in insertion order.
    pub closed spec fn spec_words_at(self, v: int) -> Seq<Seq<char>> {
        self.spec_words_at_prefix(v, self.words@.len() as int)
    }

    /// The (word length, words) entries contributed by the output-link chain
    /// starting at `l`.
    pub closed spec fn spec_chain_occ(self, l: Option<usize>) -> Seq<(usize, Seq<Seq<char>>)>
        decreases (match l {
            Some(w) => self.path(w as int).len() + 1,
            None => 0,
        }),
        when self.wf() && (l matches Some(w) ==> (w as int) < self.node_count())
    {
        match l {
            None => Seq::empty(),
            Some(w) => seq![(self.depth@[w as int], self.spec_words_at(w as int))]
                + self.spec_chain_occ(self.ts_link@[w as int]),
        }
    }

    /// All (word length, words) entries reported at node `v`: the node's own
    /// words if it is terminal, then everything along its output-link chain.
    pub closed spec fn spec_node_occ(self, v: int) -> Seq<(usize, Seq<Seq<char>>)> {
        (if self.terminal@[v] {
            seq![(self.depth@[v], self.spec_words_at(v))]
        } else {
            Seq::empty()
        }) + self.spec_chain_occ(self.ts_link@[v])
    }

    /// The node the automaton is at after feeding it the digits of `s`.
    pub closed spec fn spec_scan_node(self, s: Seq<usize>) -> int
        decreases s.len(),
    {
        if s.len() == 0 {
            0
        } else {
            self.spec_next(self.spec_scan_node(s.drop_last()), s.last())
        }
    }

    /// The occurrence table of `s`: entry `i` lists, for every dictionary
    /// word ending exactly at position `i`, its length paired with all words
    /// of that length ending there, longest first.  Entry 0 is always empty.
    pub closed spec fn spec_occurrences(self, s: Seq<usize>) -> Seq<Seq<(usize, Seq<Seq<char>>)>> {
        Seq::new(
            s.len() + 1,
            |i: int|
                if i == 0 {
                    Seq::empty()
                } else {
                    self.spec_node_occ(self.spec_scan_node(s.take(i)))
                },
        )
    }

    /// Follows the digit `symbol` out of `cur_node`, falling back through
    /// failure links, with the root as universal fallback.
    fn next_node(&self, cur_node: usize, symbol: usize) -> (r: usize)
        requires
            self.wf(),
            (cur_node as int) < self.node_count(),
            valid_digit(symbol),
        ensures
            r as int == self.spec_next(cur_node as int, symbol),
            (r as int) < self.node_count(),
    {
        let mut w = cur_node;
        loop
            invariant
                self.wf(),
                valid_digit(symbol),
                (w as int) < self.node_count(),
                self.spec_next(cur_node as int, symbol) == self.spec_next(w as int, symbol),
            decreases self.paths@[w as int].len(),
        {
            let total = self.children.len();
            assert(10 * (w as int) + (symbol as int) < total as int);
            match self.children[10 * w + symbol] {
                Some(x) => {
                    return x;
                },
                None => {
                    match self.s_link[w] {
                        Some(next) => {
                            w = next;
                        },
                        None => {
                            return 0;
                        },
                    }
                },
            }
        }
    }

    /// Collects the display texts of the words attached to node `v`, in
    /// insertion order.
    fn words_at(&self, v: usize) -> (r: Vec<String>)
        requires
            self.wf(),
            (v as int) < self.node_count(),
        ensures
            r.deep_view() == self.spec_words_at(v as int),
    {
        let mut r: Vec<String> = Vec::new();
        let mut j: usize = 0;
        while j < self.word_node.len()
            invariant
                self.wf(),
                j <= self.word_node@.len(),
                r.deep_view() == self.spec_words_at_prefix(v as int, j as int),
            decreases self.word_node@.len() - j,
        {
            if self.word_node[j] == v {
                r.push(self.words[j].clone());
                proof {
                    assert(r.deep_view() =~= self.spec_words_at_prefix(v as int, j as int + 1));
                }
            } else {
                proof {
                    assert(r.deep_view() =~= self.spec_words_at_prefix(v as int, j as int + 1));
                }
            }
            j += 1;
        }
        r
    }
}


impl Trie {
    /// Soundness of one occurrence-table entry `e` at position `i` of the
    /// scanned sequence `s`: the reported length fits, and every reported
    /// word is a dictionary word whose digit encoding is exactly the `e.0`
    /// digits of `s` ending at position `i`.
    pub open spec fn occ_entry_ok(self, s: Seq<usize>, i: int, e: (usize, Seq<Seq<char>>)) -> bool {
        &&& 1 <= e.0 as int <= i
        &&& forall|m: int|
            0 <= m < e.1.len() ==> self.dict().contains(
                (s.subrange(i - e.0, i), #[trigger] e.1[m]),
            )
    }

    /// Every word attached to node `v` is a dictionary word encoded by `v`'s path.
    proof fn lemma_words_at_prefix_sound(self, v: int, j: int)
        requires
            self.wf(),
            0 <= v < self.node_count(),
            0 <= j <= self.words@.len(),
        ensures
            forall|m: int|
                0 <= m < self.spec_words_at_prefix(v, j).len() ==> self.dict().contains(
                    (self.path(v), #[trigger] self.spec_words_at_prefix(v, j)[m]),
                ),
        decreases j,
    {
        if j > 0 {
            self.lemma_words_at_prefix_sound(v, j - 1);
            if self.word_node@[j - 1] == v {
                assert(self.dict()[j - 1] == (self.path(v), self.words@[j - 1]@));
                assert(self.dict().contains((self.path(v), self.words@[j - 1]@)));
            }
        }
    }

    /// Every entry on the output-link chain starting at `l` is sound for a
    /// scanned prefix `p` that the chain nodes' paths are proper suffixes of.
    proof fn lemma_chain_occ_ok(self, l: Option<usize>, p: Seq<usize>)
        requires
            self.wf(),
            l matches Some(w) ==> (w as int) < self.node_count() && self.terminal@[w as int]
                && is_proper_suffix(self.path(w as int), p),
        ensures
            forall|k: int|
                0 <= k < self.spec_chain_occ(l).len() ==> self.chain_entry_ok(
                    p,
                    #[trigger] self.spec_chain_occ(l)[k],
                ),
        decreases (match l {
            Some(w) => self.path(w as int).len() + 1,
            None => 0,
        }),
    {
        match l {
            None => {},
            Some(w) => {
                let wi = w as int;
                assert(w != 0) by {
                    if w == 0 {
                        assert(self.terminal@[0]);
                    }
                }
                self.lemma_words_at_prefix_sound(wi, self.words@.len() as int);
                let next = self.ts_link@[wi];
                if next is Some {
                    lemma_suffix_trans(self.path(next->0 as int), self.path(wi), p);
                }
                self.lemma_chain_occ_ok(next, p);
                assert forall|k: int| 0 <= k < self.spec_chain_occ(l).len()
                    implies self.chain_entry_ok(p, #[trigger] self.spec_chain_occ(l)[k]) by {
                    if k == 0 {
                        assert(self.depth@[wi] == self.path(wi).len());
                        lemma_nonroot_path_nonempty(self, wi);
                        assert(self.path(wi) =~= p.skip(p.len() - self.path(wi).len()));
                        assert(self.spec_chain_occ(l)[0] == (
                            self.depth@[wi],
                            self.spec_words_at(wi),
                        ));
                        assert forall|m: int| 0 <= m < self.spec_words_at(wi).len()
                            implies self.dict().contains(
                            (
                                p.skip(p.len() - self.depth@[wi]),
                                #[trigger] self.spec_words_at(wi)[m],
                            ),
                        ) by {
                            assert(self.spec_words_at(wi)[m] == self.spec_words_at_prefix(
                                wi,
                                self.words@.len() as int,
                            )[m]);
                        }
                    } else {
                        assert(self.spec_chain_occ(l)[k] == self.spec_chain_occ(next)[k - 1]);
                    }
                }
            },
        }
    }

    /// One entry is sound for prefix `p`: the reported length is between 1
    /// and `p.len()`, and every reported word's encoding is the suffix of
    /// `p` of that length.
    pub open spec fn chain_entry_ok(self, p: Seq<usize>, e: (usize, Seq<Seq<char>>)) -> bool {
        &&& 1 <= e.0 as int <= p.len()
        &&& forall|m: int|
            0 <= m < e.1.len() ==> self.dict().contains(
                (p.skip(p.len() - e.0), #[trigger] e.1[m]),
            )
    }

    /// Every entry reported at a node whose path is a suffix of the scanned
    /// prefix `p` is sound for `p`.
    proof fn lemma_node_occ_ok(self, v: int, p: Seq<usize>)
        requires
            self.wf(),
            0 <= v < self.node_count(),
            is_suffix(self.path(v), p),
        ensures
            forall|k: int|
                0 <= k < self.spec_node_occ(v).len() ==> self.chain_entry_ok(
                    p,
                    #[trigger] self.spec_node_occ(v)[k],
                ),
    {
        let own = if self.terminal@[v] {
            seq![(self.depth@[v], self.spec_words_at(v))]
        } else {
            Seq::<(usize, Seq<Seq<char>>)>::empty()
        };
        if self.terminal@[v] {
            assert(v != 0) by {
                if v == 0 {
                    assert(self.terminal@[0]);
                }
            }
            self.lemma_words_at_prefix_sound(v, self.words@.len() as int);
            assert(self.path(v) =~= p.skip(p.len() - self.path(v).len()));
            assert forall|m: int| 0 <= m < self.spec_words_at(v).len()
                implies self.dict().contains(
                (p.skip(p.len() - self.depth@[v]), #[trigger] self.spec_words_at(v)[m]),
            ) by {
                assert(self.spec_words_at(v)[m] == self.spec_words_at_prefix(
                    v,
                    self.words@.len() as int,
                )[m]);
            }
            assert(self.depth@[v] == self.path(v).len());
            lemma_nonroot_path_nonempty(self, v);
            assert(self.chain_entry_ok(p, own[0]));
        }
        let next = self.ts_link@[v];
        if next is Some {
            if self.path(v) == p {
                assert(is_proper_suffix(self.path(next->0 as int), p));
            } else {
                lemma_suffix_trans(self.path(next->0 as int), self.path(v), p);
            }
        }
        self.lemma_chain_occ_ok(next, p);
        assert forall|k: int| 0 <= k < self.spec_node_occ(v).len()
            implies self.chain_entry_ok(p, #[trigger] self.spec_node_occ(v)[k]) by {
            if k >= own.len() {
                assert(self.spec_node_occ(v)[k] == self.spec_chain_occ(next)[k - own.len()]);
            }
        }
    }

    /// The goto function lands on a node whose path is a suffix of the
    /// scanned prefix extended by the symbol just read.
    proof fn lemma_next_suffix(self, v: int, d: usize, s: Seq<usize>)
        requires
            self.wf(),
            0 <= v < self.node_count(),
            valid_digit(d),
            is_suffix(self.path(v), s),
        ensures
            0 <= self.spec_next(v, d) < self.node_count(),
            is_suffix(self.path(self.spec_next(v, d)), s.push(d)),
        decreases self.path(v).len(),
    {
        if self.children@[10 * v + d as int] is Some {
            let u = self.children@[10 * v + d as int]->0 as int;
            assert(self.path(u) == self.path(v).push(d));
            if self.path(v) == s {
            } else {
                lemma_suffix_push(self.path(v), s, d);
            }
        } else if self.s_link@[v] is Some {
            let w = self.s_link@[v]->0 as int;
            if self.path(v) == s {
            } else {
                lemma_suffix_trans(self.path(w), self.path(v), s);
            }
            self.lemma_next_suffix(w, d, s);
        } else {
            if s.push(d).len() > 0 {
                lemma_empty_suffix(s.push(d));
            }
        }
    }

    /// After scanning `s` the automaton sits on a node whose path is a
    /// suffix of `s`.
    proof fn lemma_scan_suffix(self, s: Seq<usize>)
        requires
            self.wf(),
            forall|k: int| 0 <= k < s.len() ==> valid_digit(#[trigger] s[k]),
        ensures
            0 <= self.spec_scan_node(s) < self.node_count(),
            is_suffix(self.path(self.spec_scan_node(s)), s),
        decreases s.len(),
    {
        if s.len() == 0 {
            assert(s =~= Seq::<usize>::empty());
            assert(self.path(0) == Seq::<usize>::empty());
        } else {
            assert(forall|k: int|
                0 <= k < s.drop_last().len() ==> valid_digit(#[trigger] s.drop_last()[k]));
            self.lemma_scan_suffix(s.drop_last());
            self.lemma_next_suffix(self.spec_scan_node(s.drop_last()), s.last(), s.drop_last());
            assert(s.drop_last().push(s.last()) =~= s);
        }
    }

    /// Soundness of the whole occurrence table: every entry at position `i`
    /// reports only dictionary words whose encoding ends exactly at `i`.
    pub proof fn lemma_occurrences_sound(self, s: Seq<usize>)
        requires
            self.wf(),
            forall|k: int| 0 <= k < s.len() ==> valid_digit(#[trigger] s[k]),
        ensures
            self.spec_occurrences(s).len() == s.len() + 1,
            self.spec_occurrences(s)[0] == Seq::<(usize, Seq<Seq<char>>)>::empty(),
            forall|i: int, k: int|
                1 <= i <= s.len() && 0 <= k < self.spec_occurrences(s)[i].len()
                    ==> self.occ_entry_ok(s, i, #[trigger] self.spec_occurrences(s)[i][k]),
    {
        assert forall|i: int, k: int|
            1 <= i <= s.len() && 0 <= k < self.spec_occurrences(s)[i].len()
            implies self.occ_entry_ok(s, i, #[trigger] self.spec_occurrences(s)[i][k]) by {
            let p = s.take(i);
            let v = self.spec_scan_node(p);
            assert(forall|k: int| 0 <= k < p.len() ==> valid_digit(#[trigger] p[k]));
            self.lemma_scan_suffix(p);
            self.lemma_node_occ_ok(v, p);
            let e = self.spec_occurrences(s)[i][k];
            assert(self.chain_entry_ok(p, e));
            assert(p.skip(p.len() - e.0) =~= s.subrange(i - e.0, i));
        }
    }

    /// Collects, longest first, every (word length, words) pair ending at
    /// node `v`: the node's own words if terminal, then the words of each
    /// node along its output-link chain.
    fn node_occurrences(&self, v: usize) -> (r: Vec<(usize, Vec<String>)>)
        requires
            self.wf(),
            (v as int) < self.node_count(),
        ensures
            r.deep_view() == self.spec_node_occ(v as int),
    {
        let mut r: Vec<(usize, Vec<String>)> = Vec::new();
        if self.terminal[v] {
            r.push((self.depth[v], self.words_at(v)));
        }
        proof {
            assert(r.deep_view() =~= (if self.terminal@[v as int] {
                seq![(self.depth@[v as int], self.spec_words_at(v as int))]
            } else {
                Seq::<(usize, Seq<Seq<char>>)>::empty()
            }));
        }
        let ghost own: Seq<(usize, Seq<Seq<char>>)> = r.deep_view();
        let mut link = self.ts_link[v];
        while link.is_some()
            invariant
                self.wf(),
                (v as int) < self.node_count(),
                link matches Some(w) ==> (w as int) < self.node_count(),
                own + self.spec_chain_occ(self.ts_link@[v as int]) == self.spec_node_occ(v as int),
                r.deep_view() + self.spec_chain_occ(link) =~= self.spec_node_occ(v as int),
            decreases (match link {
                Some(w) => self.path(w as int).len() + 1,
                None => 0,
            }),
        {
            let w = link.unwrap();
            let ghost prev_dv = r.deep_view();
            let entry = (self.depth[w], self.words_at(w));
            r.push(entry);
            let ghost prev = link;
            link = self.ts_link[w];
            proof {
                let e: (usize, Seq<Seq<char>>) = (
                    self.depth@[w as int],
                    self.spec_words_at(w as int),
                );
                assert(r.deep_view() =~= prev_dv.push(e));
                assert(self.spec_chain_occ(prev) == seq![e] + self.spec_chain_occ(link));
                assert(prev_dv.push(e) + self.spec_chain_occ(link) =~= prev_dv
                    + self.spec_chain_occ(prev));
                assert(r.deep_view() + self.spec_chain_occ(link) =~= self.spec_node_occ(
                    v as int,
                ));
            }
        }
        proof {
            assert(r.deep_view() =~= self.spec_node_occ(v as int));
        }
        r
    }

    /// Scans `seq` through the automaton and returns, for every position
    /// `0..=seq.len()`, the (word length, words) pairs of all dictionary
    /// words ending exactly there (longest first; position 0 is empty).
    ///
    /// The table is a pure function of the automaton and the sequence, so
    /// re-running the scan always yields an identical table.
    pub fn find_all_occurrences(&self, seq: &[usize]) -> (res: Vec<Vec<(usize, Vec<String>)>>)
        requires
            self.wf(),
            forall|k: int| 0 <= k < seq@.len() ==> valid_digit(#[trigger] seq@[k]),
        ensures
            res.deep_view() == self.spec_occurrences(seq@),
            res@.len() == seq@.len() + 1,
            res.deep_view()[0] == Seq::<(usize, Seq<Seq<char>>)>::empty(),
            forall|i: int, k: int|
                1 <= i <= seq@.len() && 0 <= k < res.deep_view()[i].len() ==> self.occ_entry_ok(
                    seq@,
                    i,
                    #[trigger] res.deep_view()[i][k],
                ),
            self.links_built() ==> forall|j: int, i: int|
                0 <= j < self.dict().len() && 0 < i <= seq@.len() && self.dict()[j].0.len() <= i
                    && (#[trigger] self.dict()[j]).0 == #[trigger] seq@.subrange(
                    i - self.dict()[j].0.len(),
                    i,
                ) ==> exists|k: int|
                    0 <= k < res.deep_view()[i].len() && (#[trigger] res.deep_view()[i][k]).0 as int
                        == self.dict()[j].0.len() && res.deep_view()[i][k].1.contains(
                        self.dict()[j].1,
                    ),
    {
        let mut res: Vec<Vec<(usize, Vec<String>)>> = Vec::new();
        res.push(Vec::new());
        let mut cur: usize = 0;
        let mut i: usize = 0;
        proof {
            assert(seq@.take(0) =~= Seq::<usize>::empty());
        }
        while i < seq.len()
            invariant
                self.wf(),
                forall|k: int| 0 <= k < seq@.len() ==> valid_digit(#[trigger] seq@[k]),
                i <= seq@.len(),
                (cur as int) < self.node_count(),
                cur as int == self.spec_scan_node(seq@.take(i as int)),
                res@.len() == i + 1,
                forall|j: int|
                    0 <= j <= i ==> #[trigger] res.deep_view()[j] == self.spec_occurrences(
                        seq@,
                    )[j],
            decreases seq@.len() - i,
        {
            let d = seq[i];
            cur = self.next_node(cur, d);
            proof {
                let t = seq@.take(i as int + 1);
                assert(t.drop_last() =~= seq@.take(i as int));
                assert(t.last() == seq@[i as int]);
            }
            let ghost prev_dv = res.deep_view();
            let occ = self.node_occurrences(cur);
            let ghost occ_dv = occ.deep_view();
            res.push(occ);
            proof {
                assert(res.deep_view() =~= prev_dv.push(occ_dv));
                assert(seq@.take(i as int + 1).drop_last() =~= seq@.take(i as int));
                assert(self.spec_occurrences(seq@)[i as int + 1] == self.spec_node_occ(
                    self.spec_scan_node(seq@.take(i as int + 1)),
                ));
            }
            i += 1;
        }
        proof {
            assert(res.deep_view() =~= self.spec_occurrences(seq@));
            self.lemma_occurrences_sound(seq@);
            if self.links_built() {
                self.lemma_occurrences_complete(seq@);
            }
        }
        res
    }
}


impl Trie {
    /// Entries along an output-link chain have strictly decreasing lengths,
    /// all bounded by the depth of the chain's first node.
    proof fn lemma_chain_occ_decreasing(self, l: Option<usize>)
        requires
            self.wf(),
            l matches Some(w) ==> (w as int) < self.node_count(),
        ensures
            forall|k1: int, k2: int|
                0 <= k1 < k2 < self.spec_chain_occ(l).len() ==> (#[trigger] self.spec_chain_occ(
                    l,
                )[k1]).0 > (#[trigger] self.spec_chain_occ(l)[k2]).0,
            l matches Some(w) ==> forall|k: int|
                0 <= k < self.spec_chain_occ(l).len() ==> (#[trigger] self.spec_chain_occ(
                    l,
                )[k]).0 <= self.depth@[w as int],
        decreases (match l {
            Some(w) => self.path(w as int).len() + 1,
            None => 0,
        }),
    {
        match l {
            None => {},
            Some(w) => {
                let wi = w as int;
                let next = self.ts_link@[wi];
                if next is Some {
                    assert(is_proper_suffix(self.path(next->0 as int), self.path(wi)));
                    assert(self.depth@[next->0 as int] < self.depth@[wi]);
                }
                self.lemma_chain_occ_decreasing(next);
                let chain = self.spec_chain_occ(l);
                assert(chain[0] == (self.depth@[wi], self.spec_words_at(wi)));
                assert forall|k1: int, k2: int| 0 <= k1 < k2 < chain.len() implies (
                #[trigger] chain[k1]).0 > (#[trigger] chain[k2]).0 by {
                    if k1 == 0 {
                        assert(chain[k2] == self.spec_chain_occ(next)[k2 - 1]);
                    } else {
                        assert(chain[k1] == self.spec_chain_occ(next)[k1 - 1]);
                        assert(chain[k2] == self.spec_chain_occ(next)[k2 - 1]);
                    }
                }
                assert forall|k: int| 0 <= k < chain.len() implies (#[trigger] chain[k]).0
                    <= self.depth@[wi] by {
                    if k > 0 {
                        assert(chain[k] == self.spec_chain_occ(next)[k - 1]);
                    }
                }
            },
        }
    }

    /// The entries reported at one node have pairwise distinct lengths, so
    /// the enumerator is never offered the same word-length branch twice at
    /// one position.
    pub proof fn lemma_node_occ_lengths_distinct(self, v: int)
        requires
            self.wf(),
            0 <= v < self.node_count(),
        ensures
            forall|k1: int, k2: int|
                0 <= k1 < k2 < self.spec_node_occ(v).len() ==> (#[trigger] self.spec_node_occ(
                    v,
                )[k1]).0 > (#[trigger] self.spec_node_occ(v)[k2]).0,
    {
        let next = self.ts_link@[v];
        if next is Some {
            assert(is_proper_suffix(self.path(next->0 as int), self.path(v)));
            assert(self.depth@[next->0 as int] < self.depth@[v]);
        }
        self.lemma_chain_occ_decreasing(next);
        let own_len: int = if self.terminal@[v] {
            1
        } else {
            0
        };
        let occ = self.spec_node_occ(v);
        assert forall|k1: int, k2: int| 0 <= k1 < k2 < occ.len() implies (#[trigger] occ[k1]).0 > (
        #[trigger] occ[k2]).0 by {
            if k1 >= own_len {
                assert(occ[k1] == self.spec_chain_occ(next)[k1 - own_len]);
                assert(occ[k2] == self.spec_chain_occ(next)[k2 - own_len]);
            } else {
                assert(occ[0] == (self.depth@[v], self.spec_words_at(v)));
                assert(occ[k2] == self.spec_chain_occ(next)[k2 - own_len]);
            }
        }
    }

    /// `w` is the text of a word among the first `j` inserted that is
    /// attached to node `v`.
    spec fn word_from(self, v: int, j: int, w: Seq<char>) -> bool {
        exists|j2: int| 0 <= j2 < j && self.word_node@[j2] == v && w == (#[trigger] self.words@[j2])@
    }

    /// Each element of a words-at-node prefix is the text of an earlier
    /// inserted word attached to that node.
    proof fn lemma_words_at_prefix_from(self, v: int, j: int)
        requires
            0 <= j <= self.words@.len(),
            self.words@.len() == self.word_node@.len(),
        ensures
            forall|m: int|
                0 <= m < self.spec_words_at_prefix(v, j).len() ==> #[trigger] self.word_from(
                    v,
                    j,
                    self.spec_words_at_prefix(v, j)[m],
                ),
        decreases j,
    {
        if j > 0 {
            self.lemma_words_at_prefix_from(v, j - 1);
            assert forall|m: int| 0 <= m < self.spec_words_at_prefix(v, j).len()
                implies #[trigger] self.word_from(v, j, self.spec_words_at_prefix(v, j)[m]) by {
                let prev = self.spec_words_at_prefix(v, j - 1);
                if m < prev.len() {
                    assert(self.spec_words_at_prefix(v, j)[m] == prev[m]);
                    assert(self.word_from(v, j - 1, prev[m]));
                    let j2 = choose|j2: int|
                        0 <= j2 < j - 1 && self.word_node@[j2] == v && prev[m] == (
                        #[trigger] self.words@[j2])@;
                    assert(self.spec_words_at_prefix(v, j)[m] == self.words@[j2]@);
                } else {
                    assert(self.word_node@[j - 1] == v);
                    assert(self.spec_words_at_prefix(v, j)[m] == self.words@[j - 1]@);
                }
            }
        }
    }

    /// When the dictionary holds no duplicate entry, the words attached to
    /// one node are pairwise distinct, so the enumerator is never offered
    /// the same word twice at one branch.
    pub proof fn lemma_words_at_distinct(self, v: int)
        requires
            self.wf(),
            0 <= v < self.node_count(),
            self.dict().no_duplicates(),
        ensures
            self.spec_words_at(v).no_duplicates(),
    {
        self.lemma_words_at_prefix_distinct(v, self.words@.len() as int);
    }

    /// Induction step for `lemma_words_at_distinct`.
    proof fn lemma_words_at_prefix_distinct(self, v: int, j: int)
        requires
            self.wf(),
            0 <= v < self.node_count(),
            0 <= j <= self.words@.len(),
            self.dict().no_duplicates(),
        ensures
            self.spec_words_at_prefix(v, j).no_duplicates(),
        decreases j,
    {
        if j > 0 {
            self.lemma_words_at_prefix_distinct(v, j - 1);
            self.lemma_words_at_prefix_from(v, j - 1);
            let prev = self.spec_words_at_prefix(v, j - 1);
            let cur = self.spec_words_at_prefix(v, j);
            if self.word_node@[j - 1] == v {
                assert forall|m: int| 0 <= m < prev.len() implies prev[m] != self.words@[j - 1]@ by {
                    assert(self.word_from(v, j - 1, prev[m]));
                    let j2 = choose|j2: int|
                        0 <= j2 < j - 1 && self.word_node@[j2] == v && prev[m] == (
                        #[trigger] self.words@[j2])@;
                    if prev[m] == self.words@[j - 1]@ {
                        assert(self.dict()[j2] == (
                            self.paths@[self.word_node@[j2] as int],
                            self.words@[j2]@,
                        ));
                        assert(self.dict()[j - 1] == (
                            self.paths@[self.word_node@[j - 1] as int],
                            self.words@[j - 1]@,
                        ));
                        assert(self.dict()[j2] == self.dict()[j - 1]);
                    }
                }
                assert forall|m1: int, m2: int| 0 <= m1 < m2 < cur.len() implies cur[m1]
                    != cur[m2] by {
                    if m2 < prev.len() {
                        assert(cur[m1] == prev[m1] && cur[m2] == prev[m2]);
                    } else {
                        assert(cur[m1] == prev[m1] && cur[m2] == self.words@[j - 1]@);
                    }
                }
            } else {
                assert(cur =~= prev);
            }
        }
    }
}

impl Trie {
    /// `e` is the (length, words) report of some terminal node.
    spec fn entry_of_node(self, e: (usize, Seq<Seq<char>>)) -> bool {
        exists|x: int|
            0 <= x < self.node_count() && self.terminal@[x] && e == (
                (#[trigger] self.depth@[x]),
                self.spec_words_at(x),
            )
    }

    /// Every entry on an output-link chain is the report of some terminal node.
    proof fn lemma_chain_occ_of_nodes(self, l: Option<usize>)
        requires
            self.wf(),
            l matches Some(w) ==> (w as int) < self.node_count() && self.terminal@[w as int],
        ensures
            forall|k: int|
                0 <= k < self.spec_chain_occ(l).len() ==> #[trigger] self.entry_of_node(
                    self.spec_chain_occ(l)[k],
                ),
        decreases (match l {
            Some(w) => self.path(w as int).len() + 1,
            None => 0,
        }),
    {
        match l {
            None => {},
            Some(w) => {
                let wi = w as int;
                let next = self.ts_link@[wi];
                if next is Some {
                    assert(is_proper_suffix(self.path(next->0 as int), self.path(wi)));
                }
                self.lemma_chain_occ_of_nodes(next);
                assert forall|k: int| 0 <= k < self.spec_chain_occ(l).len()
                    implies #[trigger] self.entry_of_node(self.spec_chain_occ(l)[k]) by {
                    if k == 0 {
                        assert(self.spec_chain_occ(l)[0] == (
                            self.depth@[wi],
                            self.spec_words_at(wi),
                        ));
                    } else {
                        assert(self.spec_chain_occ(l)[k] == self.spec_chain_occ(next)[k - 1]);
                    }
                }
            },
        }
    }

    /// No duplicate alternative is ever offered while enumerating
    /// decompositions: at every position of every scan, the reported
    /// occurrence entries have pairwise distinct lengths, and (when the
    /// dictionary holds no duplicate entry) each entry's word list holds no
    /// word twice.
    pub proof fn lemma_occurrence_branches_distinct(self, s: Seq<usize>)
        requires
            self.wf(),
            forall|k: int| 0 <= k < s.len() ==> valid_digit(#[trigger] s[k]),
            self.dict().no_duplicates(),
        ensures
            forall|i: int, k1: int, k2: int|
                0 <= i <= s.len() && 0 <= k1 < k2 < self.spec_occurrences(s)[i].len() ==> (
                #[trigger] self.spec_occurrences(s)[i][k1]).0 != (
                #[trigger] self.spec_occurrences(s)[i][k2]).0,
            forall|i: int, k: int|
                0 <= i <= s.len() && 0 <= k < self.spec_occurrences(s)[i].len() ==> (
                #[trigger] self.spec_occurrences(s)[i][k]).1.no_duplicates(),
    {
        assert forall|i: int, k1: int, k2: int|
            0 <= i <= s.len() && 0 <= k1 < k2 < self.spec_occurrences(s)[i].len() implies (
        #[trigger] self.spec_occurrences(s)[i][k1]).0 != (
        #[trigger] self.spec_occurrences(s)[i][k2]).0 by {
            if i > 0 {
                let p = s.take(i);
                assert(forall|k: int| 0 <= k < p.len() ==> valid_digit(#[trigger] p[k]));
                self.lemma_scan_suffix(p);
                self.lemma_node_occ_lengths_distinct(self.spec_scan_node(p));
            }
        }
        assert forall|i: int, k: int|
            0 <= i <= s.len() && 0 <= k < self.spec_occurrences(s)[i].len() implies (
        #[trigger] self.spec_occurrences(s)[i][k]).1.no_duplicates() by {
            if i > 0 {
                let p = s.take(i);
                assert(forall|k2: int| 0 <= k2 < p.len() ==> valid_digit(#[trigger] p[k2]));
                self.lemma_scan_suffix(p);
                let v = self.spec_scan_node(p);
                let occ = self.spec_node_occ(v);
                let next = self.ts_link@[v];
                if next is Some {
                    assert(is_proper_suffix(self.path(next->0 as int), self.path(v)));
                }
                self.lemma_chain_occ_of_nodes(next);
                let own_len: int = if self.terminal@[v] {
                    1
                } else {
                    0
                };
                if k < own_len {
                    assert(occ[0] == (self.depth@[v], self.spec_words_at(v)));
                    self.lemma_words_at_distinct(v);
                } else {
                    assert(occ[k] == self.spec_chain_occ(next)[k - own_len]);
                    assert(self.entry_of_node(occ[k]));
                    let x = choose|x: int|
                        0 <= x < self.node_count() && occ[k] == (
                            (#[trigger] self.depth@[x]),
                            self.spec_words_at(x),
                        );
                    self.lemma_words_at_distinct(x);
                }
            }
        }
    }
}


impl Trie {
    /// `p` is the digit path of some node of the trie.
    pub closed spec fn has_path(self, p: Seq<usize>) -> bool {
        exists|v: int| 0 <= v < self.node_count() && #[trigger] self.paths@[v] == p
    }

    /// The node whose path is `p` (unique by path injectivity).
    pub closed spec fn node_of(self, p: Seq<usize>) -> int {
        choose|v: int| 0 <= v < self.node_count() && #[trigger] self.paths@[v] == p
    }

    /// Node `v`'s failure link is set and points to the node whose path is
    /// the longest proper suffix of `v`'s path present in the trie: no other
    /// node's path is a longer proper suffix of it.
    spec fn slink_correct(self, v: int) -> bool {
        &&& self.s_link@[v] is Some
        &&& {
            let u = self.s_link@[v]->0 as int;
            &&& 0 <= u < self.node_count()
            &&& is_proper_suffix(self.paths@[u], self.paths@[v])
            &&& forall|w2: int|
                0 <= w2 < self.node_count() && is_proper_suffix(
                    #[trigger] self.paths@[w2],
                    self.paths@[v],
                ) ==> self.paths@[w2].len() <= self.paths@[u].len()
        }
    }

    /// Node `v`'s output link points to the terminal node whose path is the
    /// longest terminal proper suffix of `v`'s path, and is absent exactly
    /// when no node with a proper-suffix path is terminal.
    spec fn tslink_correct(self, v: int) -> bool {
        match self.ts_link@[v] {
            Some(u) => {
                let ui = u as int;
                &&& 0 <= ui < self.node_count()
                &&& is_proper_suffix(self.paths@[ui], self.paths@[v])
                &&& self.terminal@[ui]
                &&& forall|w2: int|
                    0 <= w2 < self.node_count() && is_proper_suffix(
                        #[trigger] self.paths@[w2],
                        self.paths@[v],
                    ) && self.terminal@[w2] ==> self.paths@[w2].len() <= self.paths@[ui].len()
            },
            None => forall|w2: int|
                0 <= w2 < self.node_count() && is_proper_suffix(
                    #[trigger] self.paths@[w2],
                    self.paths@[v],
                ) ==> !self.terminal@[w2],
        }
    }

    /// Links of `v` are computed: both the failure and the output link.
    spec fn settled(self, v: int) -> bool {
        self.slink_correct(v) && self.tslink_correct(v)
    }

    /// What `build` computes: every non-root node's failure link points to
    /// the node of the longest proper suffix of its path present in the trie
    /// (the root when only the empty suffix is present), and every non-root
    /// node's output link points to the node of the longest terminal proper
    /// suffix of its path, absent exactly when no proper suffix of its path
    /// is terminal.
    pub closed spec fn links_built(self) -> bool {
        forall|v: int|
            0 < v < self.node_count() ==> #[trigger] self.slink_correct(v) && self.tslink_correct(
                v,
            )
    }

    /// The node of a present path is in range and carries that path.
    proof fn lemma_node_of(self, p: Seq<usize>)
        requires
            self.wf(),
            self.has_path(p),
        ensures
            0 <= self.node_of(p) < self.node_count(),
            self.paths@[self.node_of(p)] == p,
            forall|v: int| 0 <= v < self.node_count() && self.paths@[v] == p ==> v == self.node_of(
                p,
            ),
    {
    }
}

/// Of two suffixes of one sequence, the shorter is a suffix of the longer
/// (proper when strictly shorter).
proof fn lemma_suffix_of_suffix(a: Seq<usize>, b: Seq<usize>, s: Seq<usize>)
    requires
        is_suffix(a, s),
        is_suffix(b, s),
        a.len() < b.len(),
    ensures
        is_proper_suffix(a, b),
{
    assert(a =~= b.skip(b.len() - a.len())) by {
        assert forall|k: int| 0 <= k < a.len() implies a[k] == b.skip(b.len() - a.len())[k] by {
            if a != s {
                assert(a[k] == s.skip(s.len() - a.len())[k]);
            }
            if b != s {
                assert(b[b.len() - a.len() + k] == s.skip(s.len() - b.len())[b.len() - a.len()
                    + k]);
            }
        }
    }
}

/// Two suffixes of one sequence with equal lengths are equal.
proof fn lemma_suffix_same_len(a: Seq<usize>, b: Seq<usize>, s: Seq<usize>)
    requires
        is_suffix(a, s),
        is_suffix(b, s),
        a.len() == b.len(),
    ensures
        a == b,
{
    assert(a =~= b) by {
        assert forall|k: int| 0 <= k < a.len() implies a[k] == b[k] by {
            if a != s {
                assert(a[k] == s.skip(s.len() - a.len())[k]);
            }
            if b != s {
                assert(b[k] == s.skip(s.len() - b.len())[k]);
            }
        }
    }
}

/// A non-empty proper suffix of `p.push(d)` ends in `d` and its front is a
/// proper suffix of `p`.
proof fn lemma_suffix_pop(q: Seq<usize>, p: Seq<usize>, d: usize)
    requires
        is_proper_suffix(q, p.push(d)),
        q.len() > 0,
    ensures
        q.last() == d,
        q == q.drop_last().push(d),
        is_proper_suffix(q.drop_last(), p),
{
    let pp = p.push(d);
    let k = pp.len() - q.len();
    assert(q == pp.skip(k));
    assert(q.last() == pp.skip(k)[q.len() - 1]);
    assert(q =~= q.drop_last().push(q.last()));
    assert(q.drop_last() =~= p.skip(k)) by {
        assert forall|m: int| 0 <= m < q.len() - 1 implies q.drop_last()[m] == p.skip(k)[m] by {
            assert(q[m] == pp.skip(k)[m]);
        }
    }
}


impl Trie {
    /// A present non-empty path extends a present path by one child edge.
    proof fn lemma_path_extension(self, q: Seq<usize>)
        requires
            self.wf(),
            self.has_path(q),
            q.len() > 0,
        ensures
            self.has_path(q.drop_last()),
            valid_digit(q.last()),
            self.children@[10 * self.node_of(q.drop_last()) + q.last()] == Some(
                self.node_of(q) as usize,
            ),
    {
        self.lemma_node_of(q);
        assert(self.depth.len() == self.depth@.len());
        let y = self.node_of(q);
        assert(y != 0) by {
            if y == 0 {
                assert(self.paths@[0].len() == 0);
            }
        }
        assert(self.has_parent(y));
        let (pv, d): (int, int) = choose|pv: int, d: int|
            0 <= pv < self.depth@.len() && 0 <= d < 10 && #[trigger] self.children@[10 * pv + d]
                == Some(y as usize);
        assert(self.paths@[y] == self.paths@[pv].push(d as usize));
        assert(q =~= q.drop_last().push(q.last()));
        lemma_push_injective(self.paths@[pv], q.drop_last(), d as usize, q.last());
        assert(self.paths@[pv] == q.drop_last());
        assert(self.has_path(q.drop_last()));
        self.lemma_node_of(q.drop_last());
        assert(self.node_of(q.drop_last()) == pv);
        assert(valid_digit(self.paths@[y][q.len() - 1]));
    }

    /// A fresh (root-only) automaton reports no occurrence anywhere, for any
    /// sequence: every row of the occurrence table is empty.
    pub proof fn lemma_single_node_scan_empty(self, s: Seq<usize>)
        requires
            self.wf(),
            self.node_count() == 1,
            forall|k: int| 0 <= k < s.len() ==> valid_digit(#[trigger] s[k]),
        ensures
            forall|i: int| 0 <= i <= s.len() ==> #[trigger] self.spec_occurrences(s)[i] == Seq::<
                (usize, Seq<Seq<char>>),
            >::empty(),
    {
        assert(self.s_link@[0] is None) by {
            if self.s_link@[0] is Some {
                assert(is_proper_suffix(
                    self.paths@[self.s_link@[0]->0 as int],
                    self.paths@[0],
                ));
            }
        }
        assert(self.ts_link@[0] is None) by {
            if self.ts_link@[0] is Some {
                assert(is_proper_suffix(
                    self.paths@[self.ts_link@[0]->0 as int],
                    self.paths@[0],
                ));
            }
        }
        assert forall|i: int| 0 <= i <= s.len() implies #[trigger] self.spec_occurrences(s)[i]
            == Seq::<(usize, Seq<Seq<char>>)>::empty() by {
            if i > 0 {
                let p = s.take(i);
                assert(forall|k: int| 0 <= k < p.len() ==> valid_digit(#[trigger] p[k]));
                self.lemma_scan_suffix(p);
                assert(self.spec_scan_node(p) == 0);
                assert(self.spec_node_occ(0) =~= Seq::<(usize, Seq<Seq<char>>)>::empty());
            }
        }
    }
}


impl Trie {
    /// A node with a non-empty path that is a suffix of `s.push(d)` is the
    /// `d`-child of a node whose path is a suffix of `s`.
    proof fn lemma_suffix_parent(self, w2: int, s: Seq<usize>, d: usize)
        requires
            self.wf(),
            0 <= w2 < self.node_count(),
            is_suffix(self.paths@[w2], s.push(d)),
            self.paths@[w2].len() > 0,
        ensures
            exists|pw: int|
                0 <= pw < self.node_count() && is_suffix(#[trigger] self.paths@[pw], s)
                    && self.paths@[pw].len() == self.paths@[w2].len() - 1
                    && self.children@[10 * pw + d as int] == Some(w2 as usize),
    {
        assert(self.depth.len() == self.depth@.len());
        let q = self.paths@[w2];
        assert(q.last() == d && q.drop_last() =~= q.drop_last() && is_suffix(q.drop_last(), s)) by {
            if q == s.push(d) {
                assert(q.last() == d);
                assert(q.drop_last() =~= s);
            } else {
                lemma_suffix_pop(q, s, d);
            }
        }
        assert(w2 != 0) by {
            if w2 == 0 {
                assert(self.paths@[0].len() == 0);
            }
        }
        assert(self.has_parent(w2));
        let (pw, dd): (int, int) = choose|pw: int, dd: int|
            0 <= pw < self.depth@.len() && 0 <= dd < 10 && #[trigger] self.children@[10 * pw + dd]
                == Some(w2 as usize);
        assert(self.paths@[w2] == self.paths@[pw].push(dd as usize));
        assert(q =~= q.drop_last().push(q.last()));
        lemma_push_injective(self.paths@[pw], q.drop_last(), dd as usize, q.last());
        assert(self.paths@[pw] == q.drop_last());
        assert(is_suffix(self.paths@[pw], s));
    }

    /// With links built, the goto function lands on the node of the longest
    /// suffix of the scanned prefix (extended by the symbol just read) that
    /// is present in the trie, provided no longer present suffix of the old
    /// prefix has a child on that symbol.
    proof fn lemma_next_longest(self, v: int, d: usize, s: Seq<usize>)
        requires
            self.wf(),
            self.links_built(),
            valid_digit(d),
            0 <= v < self.node_count(),
            is_suffix(self.path(v), s),
            forall|w2: int|
                0 <= w2 < self.node_count() && is_suffix(#[trigger] self.paths@[w2], s)
                    && self.paths@[w2].len() > self.path(v).len() ==> self.children@[10 * w2
                    + d as int] is None,
        ensures
            0 <= self.spec_next(v, d) < self.node_count(),
            is_suffix(self.path(self.spec_next(v, d)), s.push(d)),
            forall|w2: int|
                0 <= w2 < self.node_count() && is_suffix(#[trigger] self.paths@[w2], s.push(d))
                    ==> self.paths@[w2].len() <= self.path(self.spec_next(v, d)).len(),
        decreases self.path(v).len(),
    {
        let n = self.node_count();
        if self.children@[10 * v + d as int] is Some {
            let u = self.children@[10 * v + d as int]->0 as int;
            assert(self.paths@[u] == self.paths@[v].push(d));
            if self.paths@[v] == s {
            } else {
                lemma_suffix_push(self.paths@[v], s, d);
            }
            assert forall|w2: int|
                0 <= w2 < n && is_suffix(#[trigger] self.paths@[w2], s.push(d))
                implies self.paths@[w2].len() <= self.path(u).len() by {
                if self.paths@[w2].len() > self.path(u).len() {
                    self.lemma_suffix_parent(w2, s, d);
                    let pw = choose|pw: int|
                        0 <= pw < self.node_count() && is_suffix(#[trigger] self.paths@[pw], s)
                            && self.paths@[pw].len() == self.paths@[w2].len() - 1
                            && self.children@[10 * pw + d as int] == Some(w2 as usize);
                    assert(self.paths@[pw].len() > self.path(v).len());
                }
            }
        } else if self.s_link@[v] is Some {
            assert(v != 0) by {
                if v == 0 {
                    assert(is_proper_suffix(
                        self.paths@[self.s_link@[0]->0 as int],
                        self.paths@[0],
                    ));
                }
            }
            assert(self.slink_correct(v));
            let w = self.s_link@[v]->0 as int;
            assert(is_suffix(self.path(w), s)) by {
                if self.paths@[v] == s {
                } else {
                    lemma_suffix_trans(self.paths@[w], self.paths@[v], s);
                }
            }
            assert forall|w2: int|
                0 <= w2 < n && is_suffix(#[trigger] self.paths@[w2], s) && self.paths@[w2].len()
                    > self.path(w).len() implies self.children@[10 * w2 + d as int] is None by {
                if self.paths@[w2].len() > self.paths@[v].len() {
                } else if self.paths@[w2].len() == self.paths@[v].len() {
                    lemma_suffix_same_len(self.paths@[w2], self.paths@[v], s);
                    assert(w2 == v);
                } else {
                    lemma_suffix_of_suffix(self.paths@[w2], self.paths@[v], s);
                }
            }
            self.lemma_next_longest(w, d, s);
        } else {
            assert(v == 0) by {
                if v != 0 {
                    assert(self.slink_correct(v));
                }
            }
            lemma_empty_suffix(s.push(d));
            assert forall|w2: int|
                0 <= w2 < n && is_suffix(#[trigger] self.paths@[w2], s.push(d))
                implies self.paths@[w2].len() <= self.path(0).len() by {
                if self.paths@[w2].len() > 0 {
                    self.lemma_suffix_parent(w2, s, d);
                    let pw = choose|pw: int|
                        0 <= pw < self.node_count() && is_suffix(#[trigger] self.paths@[pw], s)
                            && self.paths@[pw].len() == self.paths@[w2].len() - 1
                            && self.children@[10 * pw + d as int] == Some(w2 as usize);
                    if self.paths@[pw].len() == 0 {
                        assert(self.paths@[pw] =~= self.paths@[0]);
                        assert(pw == 0);
                    }
                }
            }
        }
    }

    /// With links built, scanning a sequence lands on the node of its
    /// longest suffix present in the trie.
    pub proof fn lemma_scan_longest(self, s: Seq<usize>)
        requires
            self.wf(),
            self.links_built(),
            forall|k: int| 0 <= k < s.len() ==> valid_digit(#[trigger] s[k]),
        ensures
            0 <= self.spec_scan_node(s) < self.node_count(),
            is_suffix(self.path(self.spec_scan_node(s)), s),
            forall|w2: int|
                0 <= w2 < self.node_count() && is_suffix(#[trigger] self.path(w2), s)
                    ==> self.path(w2).len() <= self.path(self.spec_scan_node(s)).len(),
        decreases s.len(),
    {
        if s.len() == 0 {
            assert(s =~= Seq::<usize>::empty());
            assert(self.path(0) == Seq::<usize>::empty());
        } else {
            let front = s.drop_last();
            assert(forall|k: int| 0 <= k < front.len() ==> valid_digit(#[trigger] front[k]));
            self.lemma_scan_longest(front);
            let v = self.spec_scan_node(front);
            assert forall|w2: int|
                0 <= w2 < self.node_count() && is_suffix(#[trigger] self.paths@[w2], front)
                    && self.paths@[w2].len() > self.path(v).len() implies self.children@[10 * w2
                + s.last() as int] is None by {
                assert(is_suffix(self.path(w2), front));
                assert(self.paths@[w2].len() <= self.path(v).len());
            }
            self.lemma_next_longest(v, s.last(), front);
            assert(front.push(s.last()) =~= s);
        }
    }

    /// With links built, the entries reported at node `v` include one for
    /// every terminal node whose path is a suffix of `v`'s path.
    proof fn lemma_node_occ_complete(self, v: int)
        requires
            self.wf(),
            self.links_built(),
            0 <= v < self.node_count(),
        ensures
            forall|w2: int|
                0 <= w2 < self.node_count() && is_suffix(#[trigger] self.paths@[w2], self.paths@[v])
                    && self.terminal@[w2] ==> exists|k: int|
                    0 <= k < self.spec_node_occ(v).len() && #[trigger] self.spec_node_occ(v)[k]
                        == (self.depth@[w2], self.spec_words_at(w2)),
        decreases self.path(v).len(),
    {
        let n = self.node_count();
        let own: Seq<(usize, Seq<Seq<char>>)> = if self.terminal@[v] {
            seq![(self.depth@[v], self.spec_words_at(v))]
        } else {
            Seq::empty()
        };
        assert forall|w2: int|
            0 <= w2 < n && is_suffix(#[trigger] self.paths@[w2], self.paths@[v])
                && self.terminal@[w2] implies exists|k: int|
            0 <= k < self.spec_node_occ(v).len() && #[trigger] self.spec_node_occ(v)[k] == (
                self.depth@[w2],
                self.spec_words_at(w2),
            ) by {
            if self.paths@[w2] == self.paths@[v] {
                assert(w2 == v);
                assert(self.spec_node_occ(v)[0] == (self.depth@[v], self.spec_words_at(v)));
            } else {
                match self.ts_link@[v] {
                    Some(z0) => {
                        let z = z0 as int;
                        if v != 0 {
                            assert(self.slink_correct(v) && self.tslink_correct(v));
                        } else {
                            assert(is_proper_suffix(self.paths@[z], self.paths@[0]));
                        }
                        assert(self.paths@[w2].len() <= self.paths@[z].len());
                        assert(self.spec_chain_occ(Some(z0)) =~= self.spec_node_occ(z)) by {
                            assert(self.terminal@[z]);
                        }
                        if self.paths@[w2].len() == self.paths@[z].len() {
                            lemma_suffix_same_len(self.paths@[w2], self.paths@[z], self.paths@[v]);
                            assert(w2 == z);
                            assert(self.spec_node_occ(v)[own.len() as int] == (
                                self.depth@[z],
                                self.spec_words_at(z),
                            ));
                        } else {
                            lemma_suffix_of_suffix(self.paths@[w2], self.paths@[z], self.paths@[v]);
                            self.lemma_node_occ_complete(z);
                            let k0 = choose|k0: int|
                                0 <= k0 < self.spec_node_occ(z).len()
                                    && #[trigger] self.spec_node_occ(z)[k0] == (
                                    self.depth@[w2],
                                    self.spec_words_at(w2),
                                );
                            assert(self.spec_node_occ(v)[own.len() + k0] == self.spec_chain_occ(
                                Some(z0),
                            )[k0]);
                        }
                    },
                    None => {
                        if v != 0 {
                            assert(self.slink_correct(v) && self.tslink_correct(v));
                        } else {
                            assert(self.paths@[w2].len() < 0);
                        }
                    },
                }
            }
        }
    }

    /// A word attached to node `x` appears among the words reported for `x`.
    proof fn lemma_words_at_prefix_contains(self, x: int, j: int, jj: int)
        requires
            0 <= jj < j <= self.words@.len(),
            self.word_node@[jj] == x,
        ensures
            exists|m: int|
                0 <= m < self.spec_words_at_prefix(x, j).len()
                    && #[trigger] self.spec_words_at_prefix(x, j)[m] == self.words@[jj]@,
        decreases j,
    {
        let prev = self.spec_words_at_prefix(x, j - 1);
        if jj == j - 1 {
            assert(self.spec_words_at_prefix(x, j)[prev.len() as int] == self.words@[j - 1]@);
        } else {
            self.lemma_words_at_prefix_contains(x, j - 1, jj);
            let m0 = choose|m0: int|
                0 <= m0 < prev.len() && #[trigger] prev[m0] == self.words@[jj]@;
            assert(self.spec_words_at_prefix(x, j)[m0] == prev[m0]);
        }
    }

    /// Completeness of the occurrence table after `build`: every dictionary
    /// pair whose digit encoding is exactly the digits of `s` ending at
    /// position `i` is reported at entry `i`, under its length and with its
    /// display text among the words of that length.
    pub proof fn lemma_occurrences_complete(self, s: Seq<usize>)
        requires
            self.wf(),
            self.links_built(),
            forall|k: int| 0 <= k < s.len() ==> valid_digit(#[trigger] s[k]),
        ensures
            forall|j: int, i: int|
                0 <= j < self.dict().len() && 0 < i <= s.len() && self.dict()[j].0.len() <= i && (
                #[trigger] self.dict()[j]).0 == #[trigger] s.subrange(i - self.dict()[j].0.len(), i)
                    ==> exists|k: int|
                    0 <= k < self.spec_occurrences(s)[i].len() && (
                    #[trigger] self.spec_occurrences(s)[i][k]).0 as int == self.dict()[j].0.len()
                        && self.spec_occurrences(s)[i][k].1.contains(self.dict()[j].1),
    {
        assert forall|j: int, i: int|
            0 <= j < self.dict().len() && 0 < i <= s.len() && self.dict()[j].0.len() <= i && (
            #[trigger] self.dict()[j]).0 == #[trigger] s.subrange(i - self.dict()[j].0.len(), i)
            implies exists|k: int|
            0 <= k < self.spec_occurrences(s)[i].len() && (
            #[trigger] self.spec_occurrences(s)[i][k]).0 as int == self.dict()[j].0.len()
                && self.spec_occurrences(s)[i][k].1.contains(self.dict()[j].1) by {
            let wn = self.word_node@[j] as int;
            let enc = self.paths@[wn];
            assert(self.dict()[j] == (enc, self.words@[j]@));
            let p = s.take(i);
            assert(forall|k: int| 0 <= k < p.len() ==> valid_digit(#[trigger] p[k]));
            assert(is_suffix(enc, p)) by {
                assert(enc =~= p.skip(p.len() - enc.len()));
                if enc.len() == p.len() {
                    assert(enc =~= p);
                }
            }
            self.lemma_scan_longest(p);
            let sv = self.spec_scan_node(p);
            assert(is_suffix(enc, self.paths@[sv])) by {
                assert(is_suffix(self.path(wn), p));
                assert(enc.len() <= self.path(sv).len());
                if enc.len() == self.path(sv).len() {
                    lemma_suffix_same_len(enc, self.paths@[sv], p);
                } else {
                    lemma_suffix_of_suffix(enc, self.paths@[sv], p);
                }
            }
            self.lemma_node_occ_complete(sv);
            let k0 = choose|k0: int|
                0 <= k0 < self.spec_node_occ(sv).len() && #[trigger] self.spec_node_occ(sv)[k0]
                    == (self.depth@[wn], self.spec_words_at(wn));
            assert(self.spec_occurrences(s)[i] == self.spec_node_occ(sv));
            assert(self.depth@[wn] == enc.len());
            self.lemma_words_at_prefix_contains(wn, self.words@.len() as int, j);
            let m0 = choose|m0: int|
                0 <= m0 < self.spec_words_at(wn).len() && #[trigger] self.spec_words_at(wn)[m0]
                    == self.words@[j]@;
            assert(self.spec_occurrences(s)[i][k0].1.contains(self.words@[j]@));
        }
    }
}


impl Trie {
    /// At every position of every scan, the occurrence entries come in
    /// strictly decreasing order of word length.
    pub proof fn lemma_occurrence_entries_ordered(self, s: Seq<usize>)
        requires
            self.wf(),
            forall|k: int| 0 <= k < s.len() ==> valid_digit(#[trigger] s[k]),
        ensures
            forall|i: int, k1: int, k2: int|
                0 <= i <= s.len() && 0 <= k1 < k2 < self.spec_occurrences(s)[i].len() ==> (
                #[trigger] self.spec_occurrences(s)[i][k1]).0 > (
                #[trigger] self.spec_occurrences(s)[i][k2]).0,
    {
        assert forall|i: int, k1: int, k2: int|
            0 <= i <= s.len() && 0 <= k1 < k2 < self.spec_occurrences(s)[i].len() implies (
        #[trigger] self.spec_occurrences(s)[i][k1]).0 > (
        #[trigger] self.spec_occurrences(s)[i][k2]).0 by {
            if i > 0 {
                let p = s.take(i);
                assert(forall|k: int| 0 <= k < p.len() ==> valid_digit(#[trigger] p[k]));
                self.lemma_scan_suffix(p);
                self.lemma_node_occ_lengths_distinct(self.spec_scan_node(p));
            }
        }
    }
}


impl Trie {
    /// Every reported occurrence entry carries at least one word: entries
    /// come from terminal nodes, and a node is terminal exactly because some
    /// inserted word ends there.
    pub proof fn lemma_occurrence_words_nonempty(self, s: Seq<usize>)
        requires
            self.wf(),
            forall|k: int| 0 <= k < s.len() ==> valid_digit(#[trigger] s[k]),
        ensures
            forall|i: int, k: int|
                0 <= i <= s.len() && 0 <= k < self.spec_occurrences(s)[i].len() ==> (
                #[trigger] self.spec_occurrences(s)[i][k]).1.len() >= 1,
    {
        assert forall|i: int, k: int|
            0 <= i <= s.len() && 0 <= k < self.spec_occurrences(s)[i].len() implies (
        #[trigger] self.spec_occurrences(s)[i][k]).1.len() >= 1 by {
            if i > 0 {
                let p = s.take(i);
                assert(forall|k2: int| 0 <= k2 < p.len() ==> valid_digit(#[trigger] p[k2]));
                self.lemma_scan_suffix(p);
                let v = self.spec_scan_node(p);
                let next = self.ts_link@[v];
                if next is Some {
                    assert(is_proper_suffix(self.path(next->0 as int), self.path(v)));
                }
                self.lemma_chain_occ_of_nodes(next);
                let occ = self.spec_node_occ(v);
                let own_len: int = if self.terminal@[v] {
                    1
                } else {
                    0
                };
                assert(self.entry_of_node(occ[k])) by {
                    if k < own_len {
                        assert(occ[0] == (self.depth@[v], self.spec_words_at(v)));
                    } else {
                        assert(occ[k] == self.spec_chain_occ(next)[k - own_len]);
                    }
                }
                let x = choose|x: int|
                    0 <= x < self.node_count() && self.terminal@[x] && occ[k] == (
                        (#[trigger] self.depth@[x]),
                        self.spec_words_at(x),
                    );
                let j = choose|j: int|
                    0 <= j < self.word_node@.len() && (#[trigger] self.word_node@[j]) as int == x;
                self.lemma_words_at_prefix_contains(x, self.words@.len() as int, j);
            }
        }
    }
}

} // verus!
