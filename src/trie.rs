use std::collections::HashMap;
use vstd::prelude::*;
use crate::segment::{
    Cell, alpha_run, dict_hit, freqs_fit, joined, lemma_partition, lemma_table_fits, offer, primary,
    relax, scan, segmentation, table, trace,
};
use crate::text::{chars_of, string_of};
use crate::token::{Token, opt_view};
use crate::utils::{alpha_char, connector, is_alpha_char, is_connector};

verus! {

broadcast use vstd::std_specs::hash::group_hash_axioms;

/// What the dictionary holds for one key: its readings (the first is the
/// primary one), the weights that ordered them, and its usage frequency.
pub struct NodeModel {
    pub readings: Seq<Seq<char>>,
    pub weights: Seq<u32>,
    pub freq: int,
}

pub open spec fn empty_model() -> NodeModel {
    NodeModel { readings: Seq::empty(), weights: Seq::empty(), freq: 0 }
}

pub open spec fn strings_view(v: Seq<String>) -> Seq<Seq<char>> {
    v.map_values(|s: String| s@)
}

/// One node of the dictionary: its children by code point (an index into the
/// trie's node table), its candidate readings, their weights and a frequency.
pub struct TrieNode {
    pub children: HashMap<u32, usize>,
    pub readings: Vec<String>,
    pub char_weights: Vec<u32>,
    pub freq: i64,
}

impl TrieNode {
    pub open spec fn model(&self) -> NodeModel {
        NodeModel {
            readings: strings_view(self.readings@),
            weights: self.char_weights@,
            freq: self.freq as int,
        }
    }

    pub fn new() -> (r: Self)
        ensures
            r.model() == empty_model(),
            r.children@ == Map::<u32, usize>::empty(),
    {
        let r = TrieNode {
            children: HashMap::new(),
            readings: Vec::new(),
            char_weights: Vec::new(),
            freq: 0,
        };
        assert(strings_view(r.readings@) =~= Seq::empty());
        r
    }
}

/// Whether `p` is a prefix of `w`.
pub open spec fn prefix_of(p: Seq<char>, w: Seq<char>) -> bool {
    p.len() <= w.len() && w.subrange(0, p.len() as int) == p
}

/// `m` with a key for every prefix of `w`; the new keys hold nothing yet.
pub open spec fn with_prefixes(m: Map<Seq<char>, NodeModel>, w: Seq<char>) -> Map<
    Seq<char>,
    NodeModel,
> {
    Map::new(
        |p: Seq<char>| m.contains_key(p) || prefix_of(p, w),
        |p: Seq<char>|
            if m.contains_key(p) {
                m[p]
            } else {
                empty_model()
            },
    )
}

/// `m` with `r` appended to the readings of `w`, unless it is there already.
pub open spec fn with_reading(m: Map<Seq<char>, NodeModel>, w: Seq<char>, r: Seq<char>) -> Map<
    Seq<char>,
    NodeModel,
> {
    let e = m[w];
    if e.readings.contains(r) {
        m
    } else {
        m.insert(w, NodeModel { readings: e.readings.push(r), ..e })
    }
}

/// Index of the first weight strictly below `w`, or the length if there is none.
pub open spec fn weight_slot(ws: Seq<u32>, w: u32) -> nat
    decreases ws.len(),
{
    if ws.len() == 0 {
        0
    } else if ws[0] < w {
        0
    } else {
        1 + weight_slot(ws.drop_first(), w)
    }
}

/// `m` with reading `r` of weight `w` placed for the one-character key `[ch]`:
/// before the first reading of strictly lower weight, else last.
pub open spec fn with_weighted_reading(
    m: Map<Seq<char>, NodeModel>,
    ch: char,
    r: Seq<char>,
    w: u32,
) -> Map<Seq<char>, NodeModel> {
    let e = m[seq![ch]];
    let slot = weight_slot(e.weights, w);
    let pos = if slot < e.weights.len() {
        slot as int
    } else {
        e.readings.len() as int
    };
    if e.readings.contains(r) {
        m
    } else {
        m.insert(
            seq![ch],
            NodeModel {
                readings: e.readings.insert(pos, r),
                weights: e.weights.insert(slot as int, w),
                freq: e.freq,
            },
        )
    }
}

/// `m` with the frequency of `w` set to `f`, if `w` is a key.
pub open spec fn with_freq(m: Map<Seq<char>, NodeModel>, w: Seq<char>, f: int) -> Map<
    Seq<char>,
    NodeModel,
> {
    if m.contains_key(w) {
        m.insert(w, NodeModel { freq: f, ..m[w] })
    } else {
        m
    }
}

proof fn lemma_code_point(c: char)
    ensures
        (c as u32) as int == c as int,
{
}

/// A prefix tree over code points, held as a table of nodes; node 0 is the root.
pub struct Trie {
    nodes: Vec<TrieNode>,
    paths: Ghost<Seq<Seq<char>>>,
    parents: Ghost<Seq<int>>,
}

impl View for Trie {
    type V = Map<Seq<char>, NodeModel>;

    closed spec fn view(&self) -> Map<Seq<char>, NodeModel> {
        Map::new(
            |p: Seq<char>| exists|i: int| 0 <= i < self.nodes@.len() && self.paths@[i] == p,
            |p: Seq<char>| self.nodes@[self.index_of(p)].model(),
        )
    }
}

impl Trie {
    closed spec fn index_of(&self, p: Seq<char>) -> int {
        choose|i: int| 0 <= i < self.nodes@.len() && self.paths@[i] == p
    }

    /// The node table is a tree: node `i` is reached from the root by the
    /// characters `paths[i]`, and each edge leads from `parents[j]` to `j`.
    pub closed spec fn wf(&self) -> bool {
        let n = self.nodes@.len();
        &&& n >= 1
        &&& self.paths@.len() == n
        &&& self.parents@.len() == n
        &&& self.paths@[0] == Seq::<char>::empty()
        &&& forall|i: int, j: int|
            0 <= i < n && 0 <= j < n && #[trigger] self.paths@[i] == #[trigger] self.paths@[j]
                ==> i == j
        &&& forall|i: int|
            0 <= i < n ==> (#[trigger] self.nodes@[i]).char_weights@.len()
                <= self.nodes@[i].readings@.len()
        &&& forall|i: int, k: u32|
            0 <= i < n && #[trigger] self.nodes@[i].children@.contains_key(k) ==> {
                let j = self.nodes@[i].children@[k] as int;
                &&& 0 < j < n
                &&& self.parents@[j] == i
                &&& k == self.paths@[j].last() as u32
            }
        &&& forall|j: int|
            0 < j < n ==> {
                let p = #[trigger] self.parents@[j];
                &&& 0 <= p < n
                &&& self.paths@[j].len() > 0
                &&& self.paths@[p] == self.paths@[j].drop_last()
                &&& self.nodes@[p].children@.contains_key(self.paths@[j].last() as u32)
                &&& self.nodes@[p].children@[self.paths@[j].last() as u32] == j
            }
    }

    proof fn lemma_view_at(&self, i: int)
        requires
            self.wf(),
            0 <= i < self.nodes@.len(),
        ensures
            self@.contains_key(self.paths@[i]),
            self@[self.paths@[i]] == self.nodes@[i].model(),
    {
        assert(self@.contains_key(self.paths@[i]));
        let j = self.index_of(self.paths@[i]);
        assert(self.paths@[j] == self.paths@[i]);
    }

    /// The node whose path extends that of `i` by `c` is its child under `c`.
    proof fn lemma_child(&self, i: int, j: int, c: char)
        requires
            self.wf(),
            0 <= i < self.nodes@.len(),
            0 <= j < self.nodes@.len(),
            self.paths@[j] == self.paths@[i].push(c),
        ensures
            self.nodes@[i].children@.contains_key(c as u32),
            self.nodes@[i].children@[c as u32] == j,
    {
        assert(self.paths@[j].len() == self.paths@[i].len() + 1);
        assert(self.paths@[j] != self.paths@[0]);
        let p = self.parents@[j];
        assert(self.paths@[j].drop_last() =~= self.paths@[i]);
        assert(self.paths@[p] == self.paths@[i]);
    }

    /// Every prefix of a key is a key.
    proof fn lemma_prefix(&self, j: int, m: int)
        requires
            self.wf(),
            0 <= j < self.nodes@.len(),
            0 <= m <= self.paths@[j].len(),
        ensures
            exists|i: int|
                0 <= i < self.nodes@.len() && self.paths@[i] == self.paths@[j].subrange(0, m),
        decreases self.paths@[j].len() - m,
    {
        if m == self.paths@[j].len() {
            assert(self.paths@[j].subrange(0, m) =~= self.paths@[j]);
        } else {
            if j == 0 {
                assert(false);
            }
            let p = self.parents@[j];
            assert(self.paths@[p].subrange(0, m) =~= self.paths@[j].subrange(0, m));
            self.lemma_prefix(p, m);
        }
    }

    pub fn new() -> (r: Self)
        ensures
            r.wf(),
            r@ == map![Seq::<char>::empty() => empty_model()],
    {
        let mut nodes: Vec<TrieNode> = Vec::new();
        nodes.push(TrieNode::new());
        let ghost paths = seq![Seq::<char>::empty()];
        let ghost parents = seq![0int];
        let r = Trie { nodes, paths: Ghost(paths), parents: Ghost(parents) };
        assert(r@ =~= map![Seq::<char>::empty() => empty_model()]) by {
            r.lemma_view_at(0);
        }
        r
    }
}


impl Trie {
    /// Replacing node models one for one and appending nodes changes the view
    /// only at the touched paths.
    proof fn lemma_view_push(a: &Trie, b: &Trie, q: Seq<char>)
        requires
            a.wf(),
            b.wf(),
            b.nodes@.len() == a.nodes@.len() + 1,
            b.paths@ == a.paths@.push(q),
            forall|i: int| 0 <= i < a.nodes@.len() ==> b.nodes@[i].model() == a.nodes@[i].model(),
            b.nodes@[a.nodes@.len() as int].model() == empty_model(),
        ensures
            b@ == a@.insert(q, empty_model()),
    {
        let n = a.nodes@.len() as int;
        assert forall|p: Seq<char>| #[trigger] b@.contains_key(p) == a@.insert(q, empty_model()).contains_key(p) by {
            if b@.contains_key(p) {
                let i = choose|i: int| 0 <= i < b.nodes@.len() && b.paths@[i] == p;
                if i < n {
                    assert(a.paths@[i] == p);
                }
            }
            if a@.contains_key(p) {
                let i = choose|i: int| 0 <= i < a.nodes@.len() && a.paths@[i] == p;
                assert(b.paths@[i] == p);
            }
            if p == q {
                assert(b.paths@[n] == p);
            }
        }
        assert forall|p: Seq<char>| #[trigger] b@.contains_key(p) implies b@[p] == a@.insert(q, empty_model())[p] by {
            let i = choose|i: int| 0 <= i < b.nodes@.len() && b.paths@[i] == p;
            b.lemma_view_at(i);
            if i < n {
                a.lemma_view_at(i);
                if p == q {
                    assert(b.paths@[n] == b.paths@[i]);
                }
            }
        }
        assert(b@ =~= a@.insert(q, empty_model()));
    }

    proof fn lemma_view_update(a: &Trie, b: &Trie, k: int)
        requires
            a.wf(),
            b.wf(),
            0 <= k < a.nodes@.len(),
            b.nodes@.len() == a.nodes@.len(),
            b.paths@ == a.paths@,
            forall|i: int|
                0 <= i < a.nodes@.len() && i != k ==> b.nodes@[i].model() == a.nodes@[i].model(),
        ensures
            b@ == a@.insert(a.paths@[k], b.nodes@[k].model()),
    {
        let q = a.paths@[k];
        assert forall|p: Seq<char>| #[trigger] b@.contains_key(p) == a@.contains_key(p) by {
            if b@.contains_key(p) {
                let i = choose|i: int| 0 <= i < b.nodes@.len() && b.paths@[i] == p;
                assert(a.paths@[i] == p);
            }
            if a@.contains_key(p) {
                let i = choose|i: int| 0 <= i < a.nodes@.len() && a.paths@[i] == p;
                assert(b.paths@[i] == p);
            }
        }
        assert forall|p: Seq<char>| #[trigger] b@.contains_key(p) implies b@[p] == a@.insert(q, b.nodes@[k].model())[p] by {
            let i = choose|i: int| 0 <= i < b.nodes@.len() && b.paths@[i] == p;
            b.lemma_view_at(i);
            a.lemma_view_at(i);
        }
        a.lemma_view_at(k);
        assert(b@ =~= a@.insert(q, b.nodes@[k].model()));
    }

    /// The child of node `i` under `c`, if there is one.
    fn child(&self, i: usize, c: char) -> (r: Option<usize>)
        requires
            self.wf(),
            i < self.nodes@.len(),
        ensures
            match r {
                Some(j) => j < self.nodes@.len() && self.paths@[j as int] == self.paths@[i as int].push(c),
                None => forall|j: int|
                    0 <= j < self.nodes@.len() ==> self.paths@[j] != self.paths@[i as int].push(c),
            },
    {
        let key: u32 = c as u32;
        match self.nodes[i].children.get(&key) {
            Some(j) => {
                let j = *j;
                proof {
                    let ghost pj = self.paths@[j as int];
                    lemma_code_point(pj.last());
                    lemma_code_point(c);
                    assert(pj.last() == c);
                    assert(pj =~= self.paths@[i as int].push(c));
                }
                Some(j)
            },
            None => {
                proof {
                    assert forall|j: int| 0 <= j < self.nodes@.len() implies self.paths@[j] != self.paths@[i as int].push(c) by {
                        if self.paths@[j] == self.paths@[i as int].push(c) {
                            self.lemma_child(i as int, j, c);
                        }
                    }
                }
                None
            },
        }
    }

    /// The node whose key is `w[from..to]`, if there is one.
    fn find(&self, w: &Vec<char>, from: usize, to: usize) -> (r: Option<usize>)
        requires
            self.wf(),
            from <= to <= w@.len(),
        ensures
            match r {
                Some(j) => j < self.nodes@.len() && self.paths@[j as int] == w@.subrange(from as int, to as int),
                None => !self@.contains_key(w@.subrange(from as int, to as int)),
            },
    {
        let mut cur: usize = 0;
        let mut k: usize = from;
        while k < to
            invariant
                self.wf(),
                from <= k <= to <= w@.len(),
                cur < self.nodes@.len(),
                self.paths@[cur as int] == w@.subrange(from as int, k as int),
            decreases to - k,
        {
            match self.child(cur, w[k]) {
                Some(j) => {
                    cur = j;
                    k = k + 1;
                    assert(w@.subrange(from as int, k - 1).push(w@[k - 1]) =~= w@.subrange(from as int, k as int));
                },
                None => {
                    proof {
                        let key = w@.subrange(from as int, to as int);
                        if self@.contains_key(key) {
                            let j = choose|j: int| 0 <= j < self.nodes@.len() && self.paths@[j] == key;
                            self.lemma_prefix(j, k - from + 1);
                            let i = choose|i: int| 0 <= i < self.nodes@.len() && self.paths@[i] == self.paths@[j].subrange(0, k - from + 1);
                            assert(self.paths@[i] =~= self.paths@[cur as int].push(w@[k as int]));
                        }
                    }
                    return None;
                },
            }
        }
        Some(cur)
    }
}


proof fn lemma_prefixes_step(m: Map<Seq<char>, NodeModel>, w: Seq<char>, k: int)
    requires
        0 <= k < w.len(),
    ensures
        with_prefixes(m, w.subrange(0, k + 1)) == with_prefixes(m, w.subrange(0, k)).insert(
            w.subrange(0, k + 1),
            if m.contains_key(w.subrange(0, k + 1)) {
                m[w.subrange(0, k + 1)]
            } else {
                empty_model()
            },
        ),
{
    let a = with_prefixes(m, w.subrange(0, k + 1));
    let b = with_prefixes(m, w.subrange(0, k));
    assert forall|p: Seq<char>|
        prefix_of(p, w.subrange(0, k + 1)) <==> (prefix_of(p, w.subrange(0, k)) || p == w.subrange(0, k + 1)) by {
        if p.len() <= k {
            assert(w.subrange(0, k).subrange(0, p.len() as int) =~= w.subrange(0, p.len() as int));
            assert(w.subrange(0, k + 1).subrange(0, p.len() as int) =~= w.subrange(0, p.len() as int));
        } else if p.len() == k + 1 {
            assert(w.subrange(0, k + 1).subrange(0, p.len() as int) =~= w.subrange(0, k + 1));
        }
    }
    assert forall|p: Seq<char>| #[trigger] a.contains_key(p) == b.insert(w.subrange(0, k + 1), empty_model()).contains_key(p) by {
        assert(prefix_of(p, w.subrange(0, k + 1)) <==> (prefix_of(p, w.subrange(0, k)) || p == w.subrange(0, k + 1)));
    }
    assert(!prefix_of(w.subrange(0, k + 1), w.subrange(0, k)));
    assert(a =~= b.insert(
        w.subrange(0, k + 1),
        if m.contains_key(w.subrange(0, k + 1)) {
            m[w.subrange(0, k + 1)]
        } else {
            empty_model()
        },
    ));
}

/// Whether `r` is among the readings `v`.
fn has_reading(v: &Vec<String>, r: &String) -> (b: bool)
    ensures
        b == strings_view(v@).contains(r@),
{
    let mut k: usize = 0;
    while k < v.len()
        invariant
            k <= v@.len(),
            forall|m: int| 0 <= m < k ==> v@[m]@ != r@,
        decreases v@.len() - k,
    {
        if v[k] == *r {
            assert(strings_view(v@)[k as int] == r@);
            return true;
        }
        k = k + 1;
    }
    assert(!strings_view(v@).contains(r@)) by {
        if strings_view(v@).contains(r@) {
            let m = choose|m: int| 0 <= m < strings_view(v@).len() && strings_view(v@)[m] == r@;
            assert(v@[m]@ == r@);
        }
    }
    false
}

impl Trie {
    /// The node for `w`, made along with any missing node on its path.
    fn path_node(&mut self, w: &Vec<char>) -> (r: usize)
        requires
            old(self).wf(),
        ensures
            final(self).wf(),
            r < final(self).nodes@.len(),
            final(self).paths@[r as int] == w@,
            final(self)@ == with_prefixes(old(self)@, w@),
    {
        let ghost m0 = self@;
        proof {
            self.lemma_view_at(0);
            assert(w@.subrange(0, 0) =~= Seq::<char>::empty());
            assert forall|p: Seq<char>| prefix_of(p, w@.subrange(0, 0)) implies m0.contains_key(p) by {
                assert(p =~= Seq::<char>::empty());
            }
            assert(with_prefixes(m0, w@.subrange(0, 0)) =~= m0);
        }
        let mut cur: usize = 0;
        let mut k: usize = 0;
        while k < w.len()
            invariant
                self.wf(),
                k <= w@.len(),
                cur < self.nodes@.len(),
                self.paths@[cur as int] == w@.subrange(0, k as int),
                self@ == with_prefixes(m0, w@.subrange(0, k as int)),
            decreases w@.len() - k,
        {
            let c = w[k];
            let ghost q = w@.subrange(0, k + 1);
            proof {
                assert(w@.subrange(0, k as int).push(c) =~= q);
                lemma_prefixes_step(m0, w@, k as int);
            }
            match self.child(cur, c) {
                Some(j) => {
                    proof {
                        self.lemma_view_at(j as int);
                        if !m0.contains_key(q) {
                            assert(!prefix_of(q, w@.subrange(0, k as int)));
                        }
                        assert(with_prefixes(m0, q) =~= with_prefixes(m0, w@.subrange(0, k as int)));
                    }
                    cur = j;
                },
                None => {
                    let ghost a = *self;
                    let new_idx = self.nodes.len();
                    let key: u32 = c as u32;
                    proof {
                        lemma_code_point(c);
                        assert(!a@.contains_key(q));
                        assert(!prefix_of(q, w@.subrange(0, k as int)));
                        assert(!m0.contains_key(q));
                        assert(!self.nodes@[cur as int].children@.contains_key(key)) by {
                            if self.nodes@[cur as int].children@.contains_key(key) {
                                let j = self.nodes@[cur as int].children@[key] as int;
                                let pj = self.paths@[j];
                                lemma_code_point(pj.last());
                                assert(pj =~= q);
                            }
                        }
                    }
                    self.nodes[cur].children.insert(key, new_idx);
                    self.nodes.push(TrieNode::new());
                    let ghost np = self.paths@.push(q);
                    let ghost npar = self.parents@.push(cur as int);
                    self.paths = Ghost(np);
                    self.parents = Ghost(npar);
                    proof {
                        let n = a.nodes@.len() as int;
                        assert forall|i: int| 0 <= i < n implies self.nodes@[i].model() == a.nodes@[i].model() by {}
                        assert forall|i: int, j: int|
                            0 <= i < n + 1 && 0 <= j < n + 1 && #[trigger] self.paths@[i] == #[trigger] self.paths@[j]
                            implies i == j by {
                            if i < n && j == n {
                                assert(a.paths@[i] == q);
                            }
                            if j < n && i == n {
                                assert(a.paths@[j] == q);
                            }
                        }
                        assert forall|i: int, kk: u32|
                            0 <= i < n + 1 && #[trigger] self.nodes@[i].children@.contains_key(kk) implies {
                                let j = self.nodes@[i].children@[kk] as int;
                                &&& 0 < j < n + 1
                                &&& self.parents@[j] == i
                                &&& kk == self.paths@[j].last() as u32
                            } by {
                            if i == cur && kk == key {
                            } else {
                                assert(a.nodes@[i].children@.contains_key(kk));
                            }
                        }
                        assert forall|j: int| 0 < j < n + 1 implies {
                                let p = #[trigger] self.parents@[j];
                                &&& 0 <= p < n + 1
                                &&& self.paths@[j].len() > 0
                                &&& self.paths@[p] == self.paths@[j].drop_last()
                                &&& self.nodes@[p].children@.contains_key(self.paths@[j].last() as u32)
                                &&& self.nodes@[p].children@[self.paths@[j].last() as u32] == j
                            } by {
                            if j == n {
                                assert(q.drop_last() =~= w@.subrange(0, k as int));
                            } else {
                                let p = a.parents@[j];
                                if p == cur {
                                    assert(a.nodes@[p].children@.contains_key(a.paths@[j].last() as u32));
                                }
                            }
                        }
                        assert(self.wf());
                        Trie::lemma_view_push(&a, self, q);
                    }
                    cur = new_idx;
                },
            }
            k = k + 1;
        }
        proof {
            assert(w@.subrange(0, k as int) =~= w@);
        }
        cur
    }
}


impl Trie {
    /// Appends `r` to the readings of node `k` unless it is there already.
    fn add_reading(&mut self, k: usize, r: String)
        requires
            old(self).wf(),
            k < old(self).nodes@.len(),
        ensures
            final(self).wf(),
            final(self)@ == with_reading(old(self)@, old(self).paths@[k as int], r@),
    {
        let ghost a = *self;
        proof {
            a.lemma_view_at(k as int);
        }
        if !has_reading(&self.nodes[k].readings, &r) {
            self.nodes[k].readings.push(r);
            proof {
                assert(strings_view(self.nodes@[k as int].readings@) =~= strings_view(
                    a.nodes@[k as int].readings@,
                ).push(r@));
                assert(self.wf());
                Trie::lemma_view_update(&a, self, k as int);
                assert(self.nodes@[k as int].model() == NodeModel {
                    readings: a.nodes@[k as int].model().readings.push(r@),
                    ..a.nodes@[k as int].model()
                });
            }
        }
    }

    /// Adds a reading for the single character `ch`. Readings stay sorted by
    /// descending weight; one of equal weight goes after those already there.
    /// A reading already present is ignored.
    pub fn insert_char(&mut self, ch: char, reading: &str, weight: u32)
        requires
            old(self).wf(),
        ensures
            final(self).wf(),
            final(self)@ == with_weighted_reading(
                with_prefixes(old(self)@, seq![ch]),
                ch,
                reading@,
                weight,
            ),
    {
        let mut key: Vec<char> = Vec::new();
        key.push(ch);
        let k = self.path_node(&key);
        let ghost a = *self;
        let r = reading.to_owned();
        proof {
            a.lemma_view_at(k as int);
            assert(key@ =~= seq![ch]);
        }
        if !has_reading(&self.nodes[k].readings, &r) {
            let mut slot: usize = 0;
            let wlen = self.nodes[k].char_weights.len();
            assert(a.nodes@[k as int].char_weights@.subrange(0, wlen as int) =~= a.nodes@[k as int].char_weights@);
            while slot < wlen && self.nodes[k].char_weights[slot] >= weight
                invariant
                    *self == a,
                    k < a.nodes@.len(),
                    wlen == a.nodes@[k as int].char_weights@.len(),
                    slot <= wlen,
                    weight_slot(a.nodes@[k as int].char_weights@, weight) == slot + weight_slot(
                        a.nodes@[k as int].char_weights@.subrange(slot as int, wlen as int),
                        weight,
                    ),
                decreases wlen - slot,
            {
                let ghost ws = a.nodes@[k as int].char_weights@;
                assert(ws.subrange(slot as int, wlen as int).drop_first() =~= ws.subrange(
                    slot + 1,
                    wlen as int,
                ));
                slot = slot + 1;
            }
            proof {
                let ws = a.nodes@[k as int].char_weights@;
                if slot < wlen {
                    assert(ws.subrange(slot as int, wlen as int)[0] == ws[slot as int]);
                } else {
                    assert(ws.subrange(slot as int, wlen as int).len() == 0);
                }
            }
            let pos = if slot < wlen {
                slot
            } else {
                self.nodes[k].readings.len()
            };
            self.nodes[k].readings.insert(pos, r);
            self.nodes[k].char_weights.insert(slot, weight);
            proof {
                let e = a.nodes@[k as int].model();
                assert(strings_view(self.nodes@[k as int].readings@) =~= e.readings.insert(
                    pos as int,
                    reading@,
                ));
                assert(self.wf());
                Trie::lemma_view_update(&a, self, k as int);
            }
        }
    }

    /// Adds a reading for a word of two or more characters; shorter words are
    /// ignored. Readings keep their order of arrival, and a reading already
    /// present is ignored.
    pub fn insert_word(&mut self, word: &str, reading: &str)
        requires
            old(self).wf(),
        ensures
            final(self).wf(),
            word@.len() < 2 ==> final(self)@ == old(self)@,
            word@.len() >= 2 ==> final(self)@ == with_reading(
                with_prefixes(old(self)@, word@),
                word@,
                reading@,
            ),
    {
        let w = chars_of(word);
        if w.len() < 2 {
            return;
        }
        let k = self.path_node(&w);
        self.add_reading(k, reading.to_owned());
    }

    /// Sets the frequency of `word` if it is already a key; otherwise does nothing.
    pub fn insert_freq(&mut self, word: &str, freq: i64)
        requires
            old(self).wf(),
        ensures
            final(self).wf(),
            final(self)@ == with_freq(old(self)@, word@, freq as int),
    {
        let w = chars_of(word);
        let ghost a = *self;
        assert(w@.subrange(0, w@.len() as int) =~= w@);
        match self.find(&w, 0, w.len()) {
            None => {},
            Some(k) => {
                self.nodes[k].freq = freq;
                proof {
                    a.lemma_view_at(k as int);
                    assert forall|i: int| 0 <= i < self.nodes@.len() implies #[trigger] self.nodes@[i].children@ == a.nodes@[i].children@
                        && self.nodes@[i].readings@ == a.nodes@[i].readings@
                        && self.nodes@[i].char_weights@ == a.nodes@[i].char_weights@ by {}
                    assert(self.wf());
                    Trie::lemma_view_update(&a, self, k as int);
                }
            },
        }
    }

    /// Adds a reading for a key of one or more characters in any mix of
    /// scripts; the empty key is ignored. Readings keep their order of arrival,
    /// and a reading already present is ignored.
    pub fn insert_lettered(&mut self, word: &str, reading: &str)
        requires
            old(self).wf(),
        ensures
            final(self).wf(),
            word@.len() == 0 ==> final(self)@ == old(self)@,
            word@.len() > 0 ==> final(self)@ == with_reading(
                with_prefixes(old(self)@, word@),
                word@,
                reading@,
            ),
    {
        let w = chars_of(word);
        if w.len() == 0 {
            return;
        }
        let k = self.path_node(&w);
        self.add_reading(k, reading.to_owned());
    }
}


/// The best cover found so far for a prefix of the text.
struct Slot {
    count: usize,
    freq: i128,
    prev: usize,
    reading: Option<String>,
}

spec fn slot_view(o: Option<Slot>) -> Option<Cell> {
    match o {
        None => None,
        Some(x) => Some(
            Cell { count: x.count as int, freq: x.freq as int, prev: x.prev as int, reading: opt_view(x.reading) },
        ),
    }
}

fn clone_reading(o: &Option<String>) -> (r: Option<String>)
    ensures
        opt_view(r) == opt_view(*o),
{
    match o {
        Some(s) => Some(s.clone()),
        None => None,
    }
}

/// Whether `c[start..end]` is an alphabetic run: letters, digits and
/// connectors, with a letter or digit at each end.
fn is_alpha_run(c: &Vec<char>, start: usize, end: usize) -> (r: bool)
    requires
        start <= end <= c@.len(),
    ensures
        r == alpha_run(c@.subrange(start as int, end as int)),
{
    if start == end {
        return false;
    }
    let mut k: usize = start;
    while k < end
        invariant
            start <= k <= end <= c@.len(),
            forall|q: int| start <= q < k ==> alpha_char(c@[q]) || connector(c@[q]),
        decreases end - k,
    {
        if !(is_alpha_char(c[k]) || is_connector(c[k])) {
            assert(!(alpha_char(c@.subrange(start as int, end as int)[k - start]) || connector(c@.subrange(start as int, end as int)[k - start])));
            return false;
        }
        k = k + 1;
    }
    let ghost s = c@.subrange(start as int, end as int);
    assert forall|q: int| 0 <= q < s.len() implies alpha_char(#[trigger] s[q]) || connector(s[q]) by {
        assert(s[q] == c@[start + q]);
    }
    is_alpha_char(c[start]) && is_alpha_char(c[end - 1])
}

/// Puts `cand` in `dp[end]` if it beats what is there.
fn offer_slot(dp: &mut Vec<Option<Slot>>, end: usize, cand: Slot)
    requires
        end < old(dp)@.len(),
    ensures
        final(dp)@.len() == old(dp)@.len(),
        forall|j: int| 0 <= j < old(dp)@.len() && j != end ==> final(dp)@[j] == old(dp)@[j],
        slot_view(final(dp)@[end as int]) == offer(slot_view(old(dp)@[end as int]), slot_view(Some(cand))->Some_0),
{
    let wins = match &dp[end] {
        None => true,
        Some(cur) => Trie::better(&(cand.count, cand.freq), &(cur.count, cur.freq)),
    };
    if wins {
        dp[end] = Some(cand);
    }
}

impl Trie {
    /// Fewer tokens wins; with as many tokens, a strictly higher total frequency wins.
    fn better(candidate: &(usize, i128), current: &(usize, i128)) -> (r: bool)
        ensures
            r == (candidate.0 < current.0 || (candidate.0 == current.0 && candidate.1 > current.1)),
    {
        if candidate.0 != current.0 {
            candidate.0 < current.0
        } else {
            candidate.1 > current.1
        }
    }

    /// Every frequency in the dictionary fits an `i64`.
    pub proof fn lemma_freqs_fit(&self)
        requires
            self.wf(),
        ensures
            freqs_fit(self@),
    {
        assert forall|s: Seq<char>| #[trigger] self@.contains_key(s) implies i64::MIN <= self@[s].freq <= i64::MAX by {
            let i = choose|i: int| 0 <= i < self.nodes@.len() && self.paths@[i] == s;
            self.lemma_view_at(i);
        }
    }

    /// The primary reading of the single character `ch`, if it has one.
    fn primary_of_char(&self, ch: char) -> (r: Option<String>)
        requires
            self.wf(),
        ensures
            opt_view(r) == primary(self@, seq![ch]),
    {
        proof {
            self.lemma_view_at(0);
            assert(Seq::<char>::empty().push(ch) =~= seq![ch]);
        }
        match self.child(0, ch) {
            Some(j) => {
                proof {
                    self.lemma_view_at(j as int);
                }
                if self.nodes[j].readings.len() > 0 {
                    Some(self.nodes[j].readings[0].clone())
                } else {
                    None
                }
            },
            None => {
                proof {
                    if self@.contains_key(seq![ch]) {
                        let i = choose|i: int| 0 <= i < self.nodes@.len() && self.paths@[i] == seq![ch];
                    }
                }
                None
            },
        }
    }

    /// Splits `text` into tokens: fewest tokens first, then greatest total
    /// frequency of the dictionary words used, earlier candidates keeping
    /// ties. A token is one character (with its reading if the dictionary has
    /// one), a dictionary word (with its primary reading), or an alphabetic
    /// run that is not a dictionary word (without a reading).
    pub fn segment(&self, text: &str) -> (r: Vec<Token>)
        requires
            self.wf(),
        ensures
            r@.len() == segmentation(self@, text@).len(),
            forall|k: int| 0 <= k < r@.len() ==> #[trigger] r@[k].piece() == segmentation(self@, text@)[k],
            forall|k: int| 0 <= k < r@.len() ==> (#[trigger] r@[k]).yale is None,
            joined(segmentation(self@, text@)) == text@,
    {
        let chars = chars_of(text);
        let n = chars.len();
        let ghost m = self@;
        let ghost c = chars@;
        proof {
            self.lemma_freqs_fit();
            lemma_table_fits(m, c, n as nat);
            lemma_partition(m, c);
        }
        let mut dp: Vec<Option<Slot>> = Vec::new();
        dp.push(Some(Slot { count: 0, freq: 0, prev: 0, reading: None }));
        let mut k: usize = 0;
        while k < n
            invariant
                k <= n,
                dp@.len() == k + 1,
                slot_view(dp@[0]) == table(m, c, 0)[0],
                forall|j: int| 1 <= j < dp@.len() ==> dp@[j] is None,
            decreases n - k,
        {
            dp.push(None);
            k = k + 1;
        }
        let mut end: usize = 1;
        while end <= n
            invariant
                self.wf(),
                m == self@,
                c == chars@,
                n == c.len(),
                1 <= end <= n + 1,
                dp@.len() == n + 1,
                freqs_fit(m),
                table(m, c, n as nat).len() == n + 1,
                forall|j: int| 0 <= j <= n ==> crate::segment::cell_fits(table(m, c, n as nat), j),
                forall|j: nat| j <= n ==> #[trigger] table(m, c, j) == table(m, c, n as nat).subrange(0, j as int + 1),
                forall|j: int| 0 <= j < end ==> slot_view(dp@[j]) == table(m, c, (end - 1) as nat)[j],
                forall|j: int| end <= j <= n ==> dp@[j] is None,
            decreases n + 1 - end,
        {
            let ghost t = table(m, c, (end - 1) as nat);
            proof {
                assert(table(m, c, end as nat) == t.push(scan(m, c, t, end as int, 0)));
                assert(t == table(m, c, n as nat).subrange(0, end as int));
                assert(t.len() == end);
                assert(forall|j: int| 0 <= j < end ==> t[j] == table(m, c, n as nat)[j]);
                assert(crate::segment::cell_fits(table(m, c, n as nat), end - 1));
            }
            let single_reading = self.primary_of_char(chars[end - 1]);
            match &dp[end - 1] {
                Some(p) => {
                    let cand = Slot { count: p.count + 1, freq: p.freq, prev: end - 1, reading: single_reading };
                    offer_slot(&mut dp, end, cand);
                },
                None => {},
            }
            assert(slot_view(dp@[end as int]) == scan(m, c, t, end as int, end as int));
            let mut start: usize = end;
            while start > 0
                invariant
                    self.wf(),
                    m == self@,
                    c == chars@,
                    n == c.len(),
                    1 <= end <= n,
                    start <= end,
                    dp@.len() == n + 1,
                    t == table(m, c, (end - 1) as nat),
                    t.len() == end,
                    forall|j: int| 0 <= j < end ==> t[j] == table(m, c, n as nat)[j],
                    forall|j: int| 0 <= j <= n ==> crate::segment::cell_fits(table(m, c, n as nat), j),
                    forall|j: int| 0 <= j < end ==> slot_view(dp@[j]) == t[j],
                    forall|j: int| end < j <= n ==> dp@[j] is None,
                    slot_view(dp@[end as int]) == scan(m, c, t, end as int, start as int),
                decreases start,
            {
                start = start - 1;
                let ghost before = slot_view(dp@[end as int]);
                let (pc, pf) = match &dp[start] {
                    Some(p) => (p.count, p.freq),
                    None => {
                        continue;
                    },
                };
                proof {
                    assert(crate::segment::cell_fits(table(m, c, n as nat), start as int));
                    assert(pc <= start);
                }
                let mut matched = false;
                let ghost span = c.subrange(start as int, end as int);
                match self.find(&chars, start, end) {
                    Some(j) => {
                        proof {
                            self.lemma_view_at(j as int);
                        }
                        if self.nodes[j].readings.len() > 0 {
                            matched = true;
                            let cand = Slot {
                                count: pc + 1,
                                freq: pf + self.nodes[j].freq as i128,
                                prev: start,
                                reading: Some(self.nodes[j].readings[0].clone()),
                            };
                            offer_slot(&mut dp, end, cand);
                        }
                    },
                    None => {},
                }
                assert(matched == dict_hit(m, span));
                if !matched && is_alpha_run(&chars, start, end) {
                    let cand = Slot { count: pc + 1, freq: pf, prev: start, reading: None };
                    offer_slot(&mut dp, end, cand);
                }
                assert(slot_view(dp@[end as int]) == relax(m, c, t, before, start as int, end as int));
            }
            proof {
                assert(table(m, c, end as nat) =~= t.push(slot_view(dp@[end as int])));
            }
            assert(end < dp.len());
            end = end + 1;
        }
        let ghost full = trace(c, table(m, c, n as nat), n as int);
        proof {
            assert(table(m, c, n as nat).subrange(0, n as int + 1) =~= table(m, c, n as nat));
        }
        let mut rev: Vec<Token> = Vec::new();
        let mut curr: usize = n;
        while curr > 0
            invariant
                curr <= n,
                dp@.len() == n + 1,
                c == chars@,
                n == c.len(),
                forall|j: int| 0 <= j <= n ==> slot_view(dp@[j]) == table(m, c, n as nat)[j],
                forall|j: int| 0 <= j <= n ==> crate::segment::cell_fits(table(m, c, n as nat), j),
                table(m, c, n as nat).len() == n + 1,
                trace(c, table(m, c, n as nat), curr as int) == full.subrange(0, full.len() - rev@.len()),
                rev@.len() <= full.len(),
                forall|q: int| 0 <= q < rev@.len() ==> #[trigger] rev@[q].piece() == full[full.len() - 1 - q] && rev@[q].yale is None,
            decreases curr,
        {
            proof {
                assert(crate::segment::cell_fits(table(m, c, n as nat), curr as int));
            }
            let (prev, reading) = match &dp[curr] {
                Some(x) => (x.prev, clone_reading(&x.reading)),
                None => {
                    proof {
                        assert(false);
                    }
                    return Vec::new();
                },
            };
            let word = string_of(&chars, prev, curr);
            let ghost len0 = rev@.len();
            rev.push(Token { word, reading, yale: None });
            proof {
                let tr = trace(c, table(m, c, n as nat), curr as int);
                assert(tr == trace(c, table(m, c, n as nat), prev as int).push((c.subrange(prev as int, curr as int), opt_view(reading))));
                assert(full.subrange(0, full.len() - len0).last() == full[full.len() - 1 - len0]);
                assert(trace(c, table(m, c, n as nat), prev as int) =~= full.subrange(0, full.len() - rev@.len()));
            }
            curr = prev;
        }
        proof {
            assert(trace(c, table(m, c, n as nat), 0) =~= Seq::<(Seq<char>, Option<Seq<char>>)>::empty());
        }
        let mut out: Vec<Token> = Vec::new();
        while rev.len() > 0
            invariant
                out@.len() + rev@.len() == full.len(),
                forall|q: int| 0 <= q < rev@.len() ==> #[trigger] rev@[q].piece() == full[full.len() - 1 - q] && rev@[q].yale is None,
                forall|q: int| 0 <= q < out@.len() ==> #[trigger] out@[q].piece() == full[q] && out@[q].yale is None,
            decreases rev@.len(),
        {
            let tok = rev.pop().unwrap();
            proof {
                assert(tok.piece() == full[out@.len() as int]);
            }
            out.push(tok);
        }
        assert(full == segmentation(self@, text@));
        assert(out@.len() == full.len());
        assert forall|k: int| 0 <= k < out@.len() implies #[trigger] out@[k].piece() == segmentation(self@, text@)[k] by {
            assert(out@[k].piece() == full[k]);
        }
        assert forall|k: int| 0 <= k < out@.len() implies (#[trigger] out@[k]).yale is None by {
            assert(out@[k].piece() == full[k]);
        }
        out
    }
}

} // verus!
