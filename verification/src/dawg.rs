//! A prefix automaton indexing the dictionary. Nodes form a tree rooted at
//! index 0; every edge points to a strictly larger node index, and each node
//! has at most one incoming edge, so each node is reached by exactly one
//! letter path.

use vstd::prelude::*;
use vstd::string::StrSliceExecFns;
use crate::domain::{is_letter, letter_idx, idx_char, spec_to_upper, to_upper};

verus! {

/// One automaton node: an outgoing edge per letter (indexed by alphabet
/// position) and a flag marking that the path to this node spells a word.
#[derive(Clone, Debug)]
pub struct DawgNode {
    pub children: Vec<Option<usize>>,
    pub is_terminal: bool,
}

/// The automaton: node 0 is the root.
#[derive(Clone, Debug)]
pub struct Dawg {
    pub nodes: Vec<DawgNode>,
}

/// The outgoing edge of node `n` labelled with alphabet index `c`, if any.
pub open spec fn edge(d: Dawg, n: int, c: int) -> Option<int> {
    if 0 <= n < d.nodes@.len() && 0 <= c < 26 {
        match d.nodes@[n].children@[c] {
            Some(k) => Some(k as int),
            None => None,
        }
    } else {
        None
    }
}

impl Dawg {
    /// Structural well-formedness: a root exists, edges go strictly forward,
    /// and no two edges share a target.
    pub open spec fn wf(self) -> bool {
        &&& self.nodes@.len() >= 1
        &&& forall|n: int|
            0 <= n < self.nodes@.len() ==> (#[trigger] self.nodes@[n].children@.len()) == 26
        &&& forall|n: int, c: int|
            (#[trigger] edge(self, n, c)) matches Some(k) ==> n < k < self.nodes@.len()
        &&& forall|n1: int, c1: int, n2: int, c2: int|
            ((#[trigger] edge(self, n1, c1)) matches Some(k1) && (#[trigger] edge(
                self,
                n2,
                c2,
            )) matches Some(k2) && k1 == k2) ==> (n1 == n2 && c1 == c2)
    }
}

/// Walks `w` from node `n`, returning the node reached, if any.
pub open spec fn walk(d: Dawg, n: int, w: Seq<char>) -> Option<int>
    decreases w.len(),
{
    if w.len() == 0 {
        Some(n)
    } else if !is_letter(w[0]) {
        None
    } else {
        match edge(d, n, letter_idx(w[0])) {
            Some(m) => walk(d, m, w.skip(1)),
            None => None,
        }
    }
}

/// Walking `w` from node `n` reaches a terminal node.
pub open spec fn accepts_from(d: Dawg, n: int, w: Seq<char>) -> bool {
    match walk(d, n, w) {
        Some(m) => 0 <= m < d.nodes@.len() && d.nodes@[m].is_terminal,
        None => false,
    }
}

/// The automaton accepts `w`: walking it from the root ends on a terminal
/// node.
pub open spec fn accepts(d: Dawg, w: Seq<char>) -> bool {
    accepts_from(d, 0, w)
}

/// `w` with every character case-folded to uppercase.
pub open spec fn fold_word(w: Seq<char>) -> Seq<char> {
    w.map_values(|c: char| spec_to_upper(c))
}

/// One step of a walk, on an optional starting node.
pub open spec fn step_opt(d: Dawg, o: Option<int>, c: char) -> Option<int> {
    match o {
        Some(m) => if is_letter(c) {
            edge(d, m, letter_idx(c))
        } else {
            None
        },
        None => None,
    }
}

/// A walk of `a + b` is a walk of `a` followed by a walk of `b`.
pub proof fn lemma_walk_append(d: Dawg, n: int, a: Seq<char>, b: Seq<char>)
    ensures
        walk(d, n, a + b) == (match walk(d, n, a) {
            Some(m) => walk(d, m, b),
            None => None,
        }),
    decreases a.len(),
{
    if a.len() == 0 {
        assert(a + b =~= b);
    } else {
        assert((a + b)[0] == a[0]);
        assert((a + b).skip(1) =~= a.skip(1) + b);
        if is_letter(a[0]) {
            match edge(d, n, letter_idx(a[0])) {
                Some(m) => {
                    lemma_walk_append(d, m, a.skip(1), b);
                },
                None => {},
            }
        }
    }
}

/// A walk of `w.push(c)` is a walk of `w` followed by one step on `c`.
pub proof fn lemma_walk_snoc(d: Dawg, n: int, w: Seq<char>, c: char)
    ensures
        walk(d, n, w.push(c)) == step_opt(d, walk(d, n, w), c),
{
    lemma_walk_append(d, n, w, seq![c]);
    assert(w.push(c) =~= w + seq![c]);
    match walk(d, n, w) {
        Some(m) => {
            assert(walk(d, m, seq![c]) == step_opt(d, Some(m), c)) by {
                assert(seq![c].len() == 1);
                assert(seq![c][0] == c);
                if is_letter(c) {
                    match edge(d, m, letter_idx(c)) {
                        Some(k) => {
                            assert(seq![c].skip(1) =~= Seq::<char>::empty());
                            assert(walk(d, k, Seq::<char>::empty()) == Some(k));
                        },
                        None => {},
                    }
                }
            }
        },
        None => {},
    }
}

/// In a well-formed automaton a walk from a valid node stays in range and
/// never goes backward; a non-empty walk moves strictly forward.
pub proof fn lemma_walk_in_range(d: Dawg, n: int, w: Seq<char>)
    requires
        d.wf(),
        0 <= n < d.nodes@.len(),
        walk(d, n, w) is Some,
    ensures
        n <= walk(d, n, w)->Some_0 < d.nodes@.len(),
        w.len() > 0 ==> n < walk(d, n, w)->Some_0,
    decreases w.len(),
{
    if w.len() > 0 {
        let m = edge(d, n, letter_idx(w[0]))->Some_0;
        lemma_walk_in_range(d, m, w.skip(1));
    }
}

/// Each node of a well-formed automaton is reached from the root by at most
/// one letter path.
pub proof fn lemma_path_unique(d: Dawg, v: Seq<char>, w: Seq<char>, m: int)
    requires
        d.wf(),
        walk(d, 0, v) == Some(m),
        walk(d, 0, w) == Some(m),
    ensures
        v == w,
    decreases m,
{
    lemma_walk_in_range(d, 0, v);
    if v.len() == 0 {
        if w.len() > 0 {
            lemma_walk_in_range(d, 0, w);
        }
        assert(w.len() == 0);
        assert(v =~= w);
    } else {
        if w.len() == 0 {
            lemma_walk_in_range(d, 0, v);
            assert(false);
        }
        let v1 = v.drop_last();
        let w1 = w.drop_last();
        assert(v =~= v1.push(v.last()));
        assert(w =~= w1.push(w.last()));
        lemma_walk_snoc(d, 0, v1, v.last());
        lemma_walk_snoc(d, 0, w1, w.last());
        let p1 = walk(d, 0, v1)->Some_0;
        let p2 = walk(d, 0, w1)->Some_0;
        assert(edge(d, p1, letter_idx(v.last())) == Some(m));
        assert(edge(d, p2, letter_idx(w.last())) == Some(m));
        assert(p1 == p2 && letter_idx(v.last()) == letter_idx(w.last()));
        assert(v.last() == w.last());
        lemma_walk_in_range(d, 0, v1);
        assert(p1 < m);
        lemma_path_unique(d, v1, w1, p1);
    }
}

/// A fresh node with no children and one letter of walking gives up at once.
proof fn lemma_walk_childless(d: Dawg, f: int, w: Seq<char>)
    requires
        0 <= f < d.nodes@.len(),
        forall|c: int| 0 <= c < 26 ==> (#[trigger] d.nodes@[f].children@[c]) is None,
    ensures
        w.len() == 0 ==> walk(d, f, w) == Some(f),
        w.len() > 0 ==> walk(d, f, w) is None,
{
}

/// `d2` extends `d1` with one fresh childless non-terminal node `f` and one
/// new edge from `p` to `f` labelled `c`, where `d1` had no such edge.
pub open spec fn extend_rel(d1: Dawg, d2: Dawg, p: int, c: int, f: int) -> bool {
    &&& d1.wf()
    &&& 0 <= p < d1.nodes@.len()
    &&& 0 <= c < 26
    &&& edge(d1, p, c) is None
    &&& f == d1.nodes@.len()
    &&& d2.nodes@.len() == f + 1
    &&& forall|n: int| 0 <= n < f && n != p ==> d2.nodes@[n] == d1.nodes@[n]
    &&& d2.nodes@[p].is_terminal == d1.nodes@[p].is_terminal
    &&& d2.nodes@[p].children@.len() == 26
    &&& forall|cc: int|
        0 <= cc < 26 && cc != c ==> d2.nodes@[p].children@[cc] == d1.nodes@[p].children@[cc]
    &&& edge(d2, p, c) == Some(f)
    &&& d2.nodes@[f].is_terminal == false
    &&& d2.nodes@[f].children@.len() == 26
    &&& forall|cc: int| 0 <= cc < 26 ==> (#[trigger] d2.nodes@[f].children@[cc]) is None
}

/// Under `extend_rel`, every edge but the new one is unchanged.
proof fn lemma_extend_edges(d1: Dawg, d2: Dawg, p: int, c: int, f: int)
    requires
        extend_rel(d1, d2, p, c, f),
    ensures
        forall|n: int, cc: int|
            !(n == p && cc == c) ==> (#[trigger] edge(d2, n, cc)) == edge(d1, n, cc),
        edge(d2, p, c) == Some(f),
{
    assert forall|n: int, cc: int|
        !(n == p && cc == c) implies (#[trigger] edge(d2, n, cc)) == edge(d1, n, cc) by {
        if 0 <= n < f && 0 <= cc < 26 {
            assert(d2.nodes@[n].children@[cc] == d1.nodes@[n].children@[cc]);
        }
    }
}

/// Under `extend_rel`, the extended automaton is well-formed.
proof fn lemma_extend_wf(d1: Dawg, d2: Dawg, p: int, c: int, f: int)
    requires
        extend_rel(d1, d2, p, c, f),
    ensures
        d2.wf(),
{
    lemma_extend_edges(d1, d2, p, c, f);
    assert forall|n: int| 0 <= n < d2.nodes@.len() implies (#[trigger] d2.nodes@[n].children@.len())
        == 26 by {
        if n < f && n != p {
            assert(d2.nodes@[n] == d1.nodes@[n]);
        }
    }
    assert forall|n: int, cc: int| (#[trigger] edge(d2, n, cc)) is Some implies n < edge(
        d2,
        n,
        cc,
    )->Some_0 < d2.nodes@.len() by {
        if !(n == p && cc == c) {
            assert(edge(d2, n, cc) == edge(d1, n, cc));
        }
    }
    assert forall|n1: int, c1: int, n2: int, c2: int|
        ((#[trigger] edge(d2, n1, c1)) is Some && (#[trigger] edge(d2, n2, c2)) is Some && edge(
            d2,
            n1,
            c1,
        )->Some_0 == edge(d2, n2, c2)->Some_0) implies (n1 == n2 && c1 == c2) by {
        if edge(d2, n1, c1) is Some && edge(d2, n2, c2) is Some && edge(d2, n1, c1)->Some_0 == edge(
            d2,
            n2,
            c2,
        )->Some_0 {
            if n1 == p && c1 == c {
                if !(n2 == p && c2 == c) {
                    assert(edge(d2, n2, c2) == edge(d1, n2, c2));
                    assert(edge(d2, n2, c2)->Some_0 < f);
                }
            } else {
                assert(edge(d2, n1, c1) == edge(d1, n1, c1));
                if n2 == p && c2 == c {
                    assert(edge(d2, n1, c1)->Some_0 < f);
                } else {
                    assert(edge(d2, n2, c2) == edge(d1, n2, c2));
                }
            }
        }
    }
}

/// Under `extend_rel`, a walk that succeeded before is unchanged, and a walk
/// that failed before now at worst ends on the fresh node.
proof fn lemma_extend_walk(d1: Dawg, d2: Dawg, p: int, c: int, f: int, n: int, v: Seq<char>)
    requires
        extend_rel(d1, d2, p, c, f),
        0 <= n < f,
    ensures
        match walk(d1, n, v) {
            Some(m) => walk(d2, n, v) == Some(m),
            None => walk(d2, n, v) is None || walk(d2, n, v) == Some(f),
        },
    decreases v.len(),
{
    lemma_extend_edges(d1, d2, p, c, f);
    if v.len() > 0 && is_letter(v[0]) {
        let cc = letter_idx(v[0]);
        if n == p && cc == c {
            lemma_walk_childless(d2, f, v.skip(1));
        } else {
            match edge(d1, n, cc) {
                Some(m) => {
                    lemma_extend_walk(d1, d2, p, c, f, m, v.skip(1));
                },
                None => {},
            }
        }
    }
}

/// Under `extend_rel`, the accepted set is unchanged.
proof fn lemma_extend_accepts(d1: Dawg, d2: Dawg, p: int, c: int, f: int)
    requires
        extend_rel(d1, d2, p, c, f),
    ensures
        d2.wf(),
        forall|v: Seq<char>| accepts(d2, v) == accepts(d1, v),
        forall|n: int, v: Seq<char>|
            0 <= n < f && (#[trigger] walk(d1, n, v)) is Some ==> walk(d2, n, v) == walk(d1, n, v),
        edge(d2, p, c) == Some(f),
{
    lemma_extend_wf(d1, d2, p, c, f);
    lemma_extend_edges(d1, d2, p, c, f);
    assert forall|n: int, v: Seq<char>|
        0 <= n < f && (#[trigger] walk(d1, n, v)) is Some implies walk(d2, n, v) == walk(
        d1,
        n,
        v,
    ) by {
        lemma_extend_walk(d1, d2, p, c, f, n, v);
    }
    assert forall|v: Seq<char>| accepts(d2, v) == accepts(d1, v) by {
        lemma_extend_walk(d1, d2, p, c, f, 0, v);
        match walk(d1, 0, v) {
            Some(m) => {
                lemma_walk_in_range(d1, 0, v);
                if m != p {
                    assert(d2.nodes@[m] == d1.nodes@[m]);
                }
            },
            None => {},
        }
    }
}

/// `d2` equals `d1` except that node `t` is marked terminal.
pub open spec fn terminal_rel(d1: Dawg, d2: Dawg, t: int) -> bool {
    &&& d1.wf()
    &&& 0 <= t < d1.nodes@.len()
    &&& d2.nodes@.len() == d1.nodes@.len()
    &&& forall|n: int| 0 <= n < d1.nodes@.len() && n != t ==> d2.nodes@[n] == d1.nodes@[n]
    &&& d2.nodes@[t].children@ == d1.nodes@[t].children@
    &&& d2.nodes@[t].is_terminal == true
}

/// Two automatons with identical edges walk identically.
proof fn lemma_same_edges_walk(d1: Dawg, d2: Dawg, n: int, v: Seq<char>)
    requires
        forall|a: int, cc: int| (#[trigger] edge(d2, a, cc)) == edge(d1, a, cc),
    ensures
        walk(d2, n, v) == walk(d1, n, v),
    decreases v.len(),
{
    if v.len() > 0 && is_letter(v[0]) {
        match edge(d1, n, letter_idx(v[0])) {
            Some(m) => {
                lemma_same_edges_walk(d1, d2, m, v.skip(1));
            },
            None => {},
        }
    }
}

/// Marking one node terminal keeps the automaton well-formed, changes no
/// walk, and adds to the accepted set exactly the words whose walk ends on
/// that node.
proof fn lemma_terminal_frame(d1: Dawg, d2: Dawg, t: int)
    requires
        terminal_rel(d1, d2, t),
    ensures
        d2.wf(),
        forall|n: int, v: Seq<char>| (#[trigger] walk(d2, n, v)) == walk(d1, n, v),
        forall|v: Seq<char>|
            (#[trigger] accepts(d2, v)) == (accepts(d1, v) || walk(d1, 0, v) == Some(t)),
{
    assert forall|a: int, cc: int| (#[trigger] edge(d2, a, cc)) == edge(d1, a, cc) by {
        if 0 <= a < d1.nodes@.len() && 0 <= cc < 26 {
            if a != t {
                assert(d2.nodes@[a] == d1.nodes@[a]);
            } else {
                assert(d2.nodes@[a].children@ == d1.nodes@[a].children@);
            }
        }
    }
    assert forall|n: int| 0 <= n < d2.nodes@.len() implies (#[trigger] d2.nodes@[n].children@.len())
        == 26 by {
        if n != t {
            assert(d2.nodes@[n] == d1.nodes@[n]);
        }
    }
    assert forall|n: int, v: Seq<char>| (#[trigger] walk(d2, n, v)) == walk(d1, n, v) by {
        lemma_same_edges_walk(d1, d2, n, v);
    }
    assert forall|v: Seq<char>|
        (#[trigger] accepts(d2, v)) == (accepts(d1, v) || walk(d1, 0, v) == Some(t)) by {
        lemma_same_edges_walk(d1, d2, 0, v);
        match walk(d1, 0, v) {
            Some(m) => {
                lemma_walk_in_range(d1, 0, v);
                if m != t {
                    assert(d2.nodes@[m] == d1.nodes@[m]);
                }
            },
            None => {},
        }
    }
}

/// A node with no outgoing edges and the terminal flag clear.
fn blank_node() -> (r: DawgNode)
    ensures
        r.children@.len() == 26,
        forall|k: int| 0 <= k < 26 ==> (#[trigger] r.children@[k]) is None,
        r.is_terminal == false,
{
    let mut children: Vec<Option<usize>> = Vec::new();
    let mut i: usize = 0;
    while i < 26
        invariant
            i <= 26,
            children@.len() == i,
            forall|k: int| 0 <= k < i ==> (#[trigger] children@[k]) is None,
        decreases 26 - i,
    {
        children.push(None);
        i = i + 1;
    }
    DawgNode { children, is_terminal: false }
}

impl Dawg {
    /// A fresh automaton holding the root alone; it accepts nothing.
    pub fn new() -> (r: Dawg)
        ensures
            r.wf(),
            forall|w: Seq<char>| !accepts(r, w),
            r.nodes@.len() == 1,
    {
        let root = blank_node();
        let mut nodes: Vec<DawgNode> = Vec::new();
        nodes.push(root);
        let r = Dawg { nodes };
        proof {
            assert forall|w: Seq<char>| !accepts(r, w) by {
                if w.len() > 0 && is_letter(w[0]) {
                    assert(edge(r, 0, letter_idx(w[0])) is None);
                }
            }
        }
        r
    }

    /// Adds `word` (case-folded) to the accepted set, changing the verdict
    /// on no other word. Words must fold to letters A-Z; the caller screens
    /// its input (the word list itself silently drops other strings).
    pub fn insert(&mut self, word: &str)
        requires
            old(self).wf(),
            forall|i: int| 0 <= i < word@.len() ==> is_letter(spec_to_upper(word@[i])),
        ensures
            final(self).wf(),
            accepts(*final(self), fold_word(word@)),
            forall|v: Seq<char>|
                v != fold_word(word@) ==> accepts(*final(self), v) == accepts(*old(self), v),
    {
        let ghost d0 = *old(self);
        let ghost u = fold_word(word@);
        let n = word.unicode_len();
        let mut node_idx: usize = 0;
        let mut i: usize = 0;
        proof {
            assert(u.take(0) =~= Seq::<char>::empty());
        }
        while i < n
            invariant
                self.wf(),
                n == word@.len(),
                u == fold_word(word@),
                forall|k: int| 0 <= k < word@.len() ==> is_letter(spec_to_upper(word@[k])),
                i <= n,
                node_idx < self.nodes@.len(),
                walk(*self, 0, u.take(i as int)) == Some(node_idx as int),
                forall|v: Seq<char>| accepts(*self, v) == accepts(d0, v),
            decreases n - i,
        {
            let c = word.get_char(i);
            let up = to_upper(c);
            proof {
                assert(u[i as int] == spec_to_upper(word@[i as int]));
                assert(is_letter(up));
            }
            let ci = (up as u32 - 65) as usize;
            proof {
                assert(self.nodes@[node_idx as int].children@.len() == 26);
            }
            let child = self.nodes[node_idx].children[ci];
            match child {
                Some(k) => {
                    proof {
                        assert(edge(*self, node_idx as int, ci as int) == Some(k as int));
                        lemma_walk_snoc(*self, 0, u.take(i as int), u[i as int]);
                        assert(u.take(i as int).push(u[i as int]) =~= u.take(i as int + 1));
                    }
                    node_idx = k;
                },
                None => {
                    let ghost d1 = *self;
                    let fresh = self.nodes.len();
                    self.nodes.push(blank_node());
                    let mut nd = copy_node(&self.nodes[node_idx]);
                    nd.children.set(ci, Some(fresh));
                    self.nodes.set(node_idx, nd);
                    proof {
                        let d2 = *self;
                        let p = node_idx as int;
                        let cidx = ci as int;
                        let f = fresh as int;
                        assert(edge(d1, p, cidx) is None);
                        assert forall|nn: int| 0 <= nn < f && nn != p implies d2.nodes@[nn]
                            == d1.nodes@[nn] by {}
                        assert(extend_rel(d1, d2, p, cidx, f));
                        lemma_extend_accepts(d1, d2, p, cidx, f);
                        assert(walk(d2, 0, u.take(i as int)) == Some(p));
                        lemma_walk_snoc(d2, 0, u.take(i as int), u[i as int]);
                        assert(u.take(i as int).push(u[i as int]) =~= u.take(i as int + 1));
                        assert(walk(d2, 0, u.take(i as int + 1)) == Some(f));
                    }
                    node_idx = fresh;
                },
            }
            i = i + 1;
        }
        proof {
            assert(u.take(n as int) =~= u);
        }
        let ghost d3 = *self;
        let mut nd = copy_node(&self.nodes[node_idx]);
        nd.is_terminal = true;
        self.nodes.set(node_idx, nd);
        proof {
            let d4 = *self;
            assert(terminal_rel(d3, d4, node_idx as int));
            lemma_terminal_frame(d3, d4, node_idx as int);
            assert forall|v: Seq<char>|
                v != u implies accepts(d4, v) == accepts(d0, v) by {
                if walk(d3, 0, v) == Some(node_idx as int) {
                    lemma_path_unique(d3, v, u, node_idx as int);
                }
            }
        }
    }

    /// Walks the case-folded characters of `s` from the root, returning the
    /// node reached, if any.
    fn walk_str(&self, s: &str) -> (r: Option<usize>)
        requires
            self.wf(),
        ensures
            match r {
                Some(m) => m < self.nodes@.len() && walk(*self, 0, fold_word(s@)) == Some(m as int),
                None => walk(*self, 0, fold_word(s@)) is None,
            },
    {
        let ghost u = fold_word(s@);
        let n = s.unicode_len();
        let mut node_idx: usize = 0;
        let mut i: usize = 0;
        proof {
            assert(u.take(0) =~= Seq::<char>::empty());
        }
        while i < n
            invariant
                self.wf(),
                n == s@.len(),
                u == fold_word(s@),
                i <= n,
                node_idx < self.nodes@.len(),
                walk(*self, 0, u.take(i as int)) == Some(node_idx as int),
            decreases n - i,
        {
            let c = to_upper(s.get_char(i));
            proof {
                assert(u[i as int] == spec_to_upper(s@[i as int]));
                lemma_walk_snoc(*self, 0, u.take(i as int), u[i as int]);
                assert(u.take(i as int).push(u[i as int]) =~= u.take(i as int + 1));
            }
            let uc = c as u32;
            if uc < 65 || uc > 90 {
                proof {
                    assert(!is_letter(u[i as int]));
                    assert(walk(*self, 0, u.take(i as int + 1)) is None);
                    lemma_walk_append(*self, 0, u.take(i as int + 1), u.skip(i as int + 1));
                    assert(u =~= u.take(i as int + 1) + u.skip(i as int + 1));
                }
                return None;
            }
            let ci = (uc - 65) as usize;
            proof {
                assert(self.nodes@[node_idx as int].children@.len() == 26);
            }
            match self.nodes[node_idx].children[ci] {
                Some(k) => {
                    proof {
                        assert(edge(*self, node_idx as int, ci as int) == Some(k as int));
                    }
                    node_idx = k;
                },
                None => {
                    proof {
                        assert(edge(*self, node_idx as int, ci as int) is None);
                        assert(walk(*self, 0, u.take(i as int + 1)) is None);
                        lemma_walk_append(*self, 0, u.take(i as int + 1), u.skip(i as int + 1));
                        assert(u =~= u.take(i as int + 1) + u.skip(i as int + 1));
                    }
                    return None;
                },
            }
            i = i + 1;
        }
        proof {
            assert(u.take(n as int) =~= u);
        }
        Some(node_idx)
    }

    /// Walking the characters of `w` (no case folding) from the root
    /// reaches a terminal node.
    pub fn accepts_chars(&self, w: &Vec<char>) -> (r: bool)
        requires
            self.wf(),
        ensures
            r == accepts(*self, w@),
    {
        let n = w.len();
        let mut node_idx: usize = 0;
        let mut i: usize = 0;
        proof {
            assert(w@.take(0) =~= Seq::<char>::empty());
        }
        while i < n
            invariant
                self.wf(),
                n == w@.len(),
                i <= n,
                node_idx < self.nodes@.len(),
                walk(*self, 0, w@.take(i as int)) == Some(node_idx as int),
            decreases n - i,
        {
            let c = w[i];
            proof {
                lemma_walk_snoc(*self, 0, w@.take(i as int), w@[i as int]);
                assert(w@.take(i as int).push(w@[i as int]) =~= w@.take(i as int + 1));
            }
            let uc = crate::domain::char_code(c);
            if uc < 65 || uc > 90 {
                proof {
                    assert(!is_letter(w@[i as int]));
                    assert(walk(*self, 0, w@.take(i as int + 1)) is None);
                    lemma_walk_append(*self, 0, w@.take(i as int + 1), w@.skip(i as int + 1));
                    assert(w@ =~= w@.take(i as int + 1) + w@.skip(i as int + 1));
                }
                return false;
            }
            let ci = (uc - 65) as usize;
            proof {
                assert(self.nodes@[node_idx as int].children@.len() == 26);
            }
            match self.nodes[node_idx].children[ci] {
                Some(k) => {
                    proof {
                        assert(c == w@[i as int]);
                        assert(is_letter(c));
                        assert(letter_idx(c) == ci as int);
                        assert(edge(*self, node_idx as int, ci as int) == Some(k as int));
                        assert(walk(*self, 0, w@.take(i as int + 1)) == Some(k as int));
                    }
                    node_idx = k;
                },
                None => {
                    proof {
                        assert(edge(*self, node_idx as int, ci as int) is None);
                        assert(walk(*self, 0, w@.take(i as int + 1)) is None);
                        lemma_walk_append(*self, 0, w@.take(i as int + 1), w@.skip(i as int + 1));
                        assert(w@ =~= w@.take(i as int + 1) + w@.skip(i as int + 1));
                    }
                    return false;
                },
            }
            i = i + 1;
        }
        proof {
            assert(w@.take(n as int) =~= w@);
        }
        self.nodes[node_idx].is_terminal
    }

    /// Walking the case-folded word from the root reaches a terminal node.
    pub fn is_word(&self, word: &str) -> (r: bool)
        requires
            self.wf(),
        ensures
            r == accepts(*self, fold_word(word@)),
    {
        match self.walk_str(word) {
            Some(m) => self.nodes[m].is_terminal,
            None => false,
        }
    }

    /// Walking the case-folded prefix from the root reaches some node.
    pub fn is_valid_prefix(&self, prefix: &str) -> (r: bool)
        requires
            self.wf(),
        ensures
            r == (walk(*self, 0, fold_word(prefix@)) is Some),
    {
        match self.walk_str(prefix) {
            Some(_) => true,
            None => false,
        }
    }

    /// The letters on the outgoing edges of the node the case-folded prefix
    /// reaches, in ascending order; `None` when no node is reached.
    pub fn next_chars(&self, prefix: &str) -> (r: Option<Vec<char>>)
        requires
            self.wf(),
        ensures
            match r {
                Some(v) => {
                    &&& walk(*self, 0, fold_word(prefix@)) is Some
                    &&& forall|k: int|
                        0 <= k < v@.len() ==> is_letter(#[trigger] v@[k]) && edge(
                            *self,
                            walk(*self, 0, fold_word(prefix@))->Some_0,
                            letter_idx(v@[k]),
                        ) is Some
                    &&& forall|c: int|
                        0 <= c < 26 ==> ((#[trigger] edge(
                            *self,
                            walk(*self, 0, fold_word(prefix@))->Some_0,
                            c,
                        )) is Some <==> v@.contains(idx_char(c)))
                    &&& forall|a: int, b: int|
                        0 <= a < b < v@.len() ==> (v@[a] as int) < (v@[b] as int)
                },
                None => walk(*self, 0, fold_word(prefix@)) is None,
            },
    {
        match self.walk_str(prefix) {
            Some(m) => {
                let ghost mm = m as int;
                let mut out: Vec<char> = Vec::new();
                let mut ci: u32 = 0;
                proof {
                    assert(self.nodes@[mm].children@.len() == 26);
                }
                while ci < 26
                    invariant
                        self.wf(),
                        m < self.nodes@.len(),
                        mm == m as int,
                        ci <= 26,
                        forall|k: int|
                            0 <= k < out@.len() ==> is_letter(out@[k]) && edge(
                                *self,
                                mm,
                                letter_idx(out@[k]),
                            ) is Some && (out@[k] as int) < 65 + ci,
                        forall|c: int|
                            0 <= c < ci && (#[trigger] edge(*self, mm, c)) is Some
                                ==> out@.contains(idx_char(c)),
                        forall|a: int, b: int|
                            0 <= a < b < out@.len() ==> (out@[a] as int) < (out@[b] as int),
                    decreases 26 - ci,
                {
                    proof {
                        assert(self.nodes@[mm].children@.len() == 26);
                    }
                    if self.nodes[m].children[ci as usize].is_some() {
                        let c = ((65 + ci) as u8) as char;
                        let ghost prev = out@;
                        out.push(c);
                        proof {
                            assert(out@[prev.len() as int] == idx_char(ci as int));
                            assert forall|cc: int|
                                0 <= cc < ci + 1 && (#[trigger] edge(*self, mm, cc))
                                    is Some implies out@.contains(idx_char(cc)) by {
                                if cc < ci {
                                    let k = choose|k: int|
                                        0 <= k < prev.len() && prev[k] == idx_char(cc);
                                    assert(out@[k] == idx_char(cc));
                                }
                            }
                        }
                    }
                    ci = ci + 1;
                }
                Some(out)
            },
            None => None,
        }
    }
}

/// A field-for-field copy of one node.
fn copy_node(nd: &DawgNode) -> (r: DawgNode)
    ensures
        r.children@ == nd.children@,
        r.is_terminal == nd.is_terminal,
{
    let mut children: Vec<Option<usize>> = Vec::new();
    let mut i: usize = 0;
    let len = nd.children.len();
    while i < len
        invariant
            i <= len,
            len == nd.children@.len(),
            children@.len() == i,
            forall|k: int| 0 <= k < i ==> children@[k] == nd.children@[k],
        decreases len - i,
    {
        children.push(nd.children[i]);
        i = i + 1;
    }
    proof {
        assert(children@ =~= nd.children@);
    }
    DawgNode { children, is_terminal: nd.is_terminal }
}

} // verus!
