//! A set of strings kept as a tree with one edge for each character.

use vstd::prelude::*;
use vstd::string::StrSliceExecFns;

verus! {

/// An edge of the tree: the character that leads to a node, and the node.
#[derive(Debug)]
pub struct CritEdge {
    label: char,
    node: CritNode,
}

/// A node of the tree. It holds the string that ends at it, if one does,
/// and the edges to the nodes one character further on.
#[derive(Debug)]
pub struct CritNode {
    value: Option<String>,
    children: Vec<CritEdge>,
}

/// The set of strings.
#[derive(Debug)]
pub struct CritBit {
    root: CritNode,
}

/// The index of the first edge labelled `c`, or the number of edges where
/// there is none.
pub closed spec fn position(edges: Seq<CritEdge>, c: char) -> int
    decreases edges.len(),
{
    if edges.len() == 0 {
        0
    } else if edges[0].label == c {
        0
    } else {
        1 + position(edges.drop_first(), c)
    }
}

/// Whether `j` is where the first edge labelled `c` stands, or the number of
/// edges where there is none.
pub closed spec fn is_position(edges: Seq<CritEdge>, c: char, j: int) -> bool {
    &&& 0 <= j <= edges.len()
    &&& forall|i: int| 0 <= i < j ==> (#[trigger] edges[i]).label != c
    &&& j < edges.len() ==> edges[j].label == c
}

proof fn lemma_position_is(edges: Seq<CritEdge>, c: char)
    ensures
        is_position(edges, c, position(edges, c)),
    decreases edges.len(),
{
    if edges.len() > 0 && edges[0].label != c {
        let tail = edges.drop_first();
        lemma_position_is(tail, c);
        let j = position(edges, c);
        assert forall|i: int| 0 <= i < j implies (#[trigger] edges[i]).label != c by {
            if i > 0 {
                assert(edges[i] == tail[i - 1]);
            }
        }
        if j < edges.len() {
            assert(edges[j] == tail[j - 1]);
        }
    }
}

proof fn lemma_position_unique(edges: Seq<CritEdge>, c: char, j: int)
    requires
        is_position(edges, c, j),
    ensures
        position(edges, c) == j,
{
    lemma_position_is(edges, c);
    let p = position(edges, c);
    if p < j {
        assert(edges[p].label != c);
    } else if j < p {
        assert(edges[j].label == c);
    }
}

impl CritNode {
    /// The string held by the node at which `key` ends, on the way that
    /// starts here; nothing where the way breaks off or the node is bare.
    pub closed spec fn value_at(&self, key: Seq<char>) -> Option<Seq<char>>
        decreases key.len(),
    {
        if key.len() == 0 {
            match self.value {
                Some(s) => Some(s@),
                None => None,
            }
        } else {
            let j = position(self.children@, key[0]);
            if j < self.children@.len() {
                self.children@[j].node.value_at(key.drop_first())
            } else {
                None
            }
        }
    }

    fn empty() -> (n: CritNode)
        ensures
            forall|key: Seq<char>| #[trigger] n.value_at(key) is None,
    {
        CritNode { value: None, children: Vec::new() }
    }

    fn find(&self, c: char) -> (j: usize)
        ensures
            j == position(self.children@, c),
            j <= self.children@.len(),
    {
        let mut j: usize = 0;
        while j < self.children.len() && self.children[j].label != c
            invariant
                j <= self.children@.len(),
                forall|i: int| 0 <= i < j ==> (#[trigger] self.children@[i]).label != c,
            decreases self.children@.len() - j,
        {
            j = j + 1;
        }
        proof {
            lemma_position_unique(self.children@, c, j as int);
        }
        j
    }

    fn insert_at(&mut self, key: &str, at: usize, whole: String)
        requires
            at <= key@.len(),
        ensures
            forall|k: Seq<char>|
                #[trigger] final(self).value_at(k) == if k == key@.skip(at as int) {
                    Some(whole@)
                } else {
                    old(self).value_at(k)
                },
        decreases key@.len() - at,
    {
        let ghost suffix = key@.skip(at as int);
        if at == key.unicode_len() {
            self.value = Some(whole);
            proof {
                assert forall|k: Seq<char>| #[trigger]
                    self.value_at(k) == if k == suffix {
                        Some(whole@)
                    } else {
                        old(self).value_at(k)
                    } by {
                    if k.len() == 0 {
                        assert(k =~= suffix);
                    }
                }
            }
        } else {
            let c = key.get_char(at);
            let j = self.find(c);
            if j == self.children.len() {
                self.children.push(CritEdge { label: c, node: CritNode::empty() });
            }
            let ghost mid = *self;
            proof {
                lemma_position_is(old(self).children@, c);
            }
            self.children[j].node.insert_at(key, at + 1, whole);
            proof {
                let deeper = key@.skip(at + 1);
                assert(suffix.drop_first() =~= deeper);
                assert forall|k: Seq<char>| #[trigger]
                    self.value_at(k) == if k == suffix {
                        Some(whole@)
                    } else {
                        old(self).value_at(k)
                    } by {
                    if k.len() > 0 {
                        let p = position(old(self).children@, k[0]);
                        lemma_position_is(old(self).children@, k[0]);
                        if k[0] == c {
                            assert(is_position(self.children@, c, j as int)) by {
                                assert forall|i: int| 0 <= i < j implies (
                                #[trigger] self.children@[i]).label != c by {
                                    assert(self.children@[i] == old(self).children@[i]);
                                }
                            }
                            lemma_position_unique(self.children@, c, j as int);
                            if k == suffix {
                                assert(k.drop_first() == deeper);
                            }
                            if k.drop_first() == deeper {
                                assert(k.len() == suffix.len());
                                assert forall|i: int| 0 <= i < k.len() implies k[i]
                                    == suffix[i] by {
                                    if i > 0 {
                                        assert(k[i] == k.drop_first()[i - 1]);
                                        assert(suffix[i] == suffix.drop_first()[i - 1]);
                                    }
                                }
                                assert(k =~= suffix);
                            }
                            let below = k.drop_first();
                            assert(self.children@[j as int].node.value_at(below) == if below
                                == deeper {
                                Some(whole@)
                            } else {
                                mid.children@[j as int].node.value_at(below)
                            });
                            assert(old(self).value_at(k) == mid.children@[j as int].node.value_at(
                                below,
                            ));
                        } else {
                            let q: int = if p < old(self).children@.len() {
                                p
                            } else {
                                self.children@.len() as int
                            };
                            assert(is_position(self.children@, k[0], q)) by {
                                assert forall|i: int| 0 <= i < q implies (
                                #[trigger] self.children@[i]).label != k[0] by {
                                    if i < old(self).children@.len() {
                                        assert(self.children@[i].label == old(
                                            self,
                                        ).children@[i].label);
                                        assert(old(self).children@[i].label != k[0]);
                                    }
                                }
                            }
                            lemma_position_unique(self.children@, k[0], q);
                            if p < old(self).children@.len() {
                                assert(p != j);
                                assert(self.children@[p] == old(self).children@[p]);
                            }
                            assert(k[0] != suffix[0]);
                        }
                    } else {
                        assert(suffix.len() > 0);
                    }
                }
            }
        }
    }
}

impl View for CritBit {
    type V = Set<Seq<char>>;

    closed spec fn view(&self) -> Set<Seq<char>> {
        Set::new(|key: Seq<char>| self.stored(key) is Some)
    }
}

impl Default for CritBit {
    /// The empty set.
    fn default() -> (t: Self)
        ensures
            t@ == Set::<Seq<char>>::empty(),
            forall|key: Seq<char>| #[trigger] t.stored(key) is None,
    {
        CritBit::new()
    }
}

impl CritBit {
    /// The string that the tree holds at the end of the way that `key`
    /// spells; nothing where `key` is no member.
    pub closed spec fn stored(&self, key: Seq<char>) -> Option<Seq<char>> {
        self.root.value_at(key)
    }

    /// The empty set.
    pub fn new() -> (t: Self)
        ensures
            t@ == Set::<Seq<char>>::empty(),
            forall|key: Seq<char>| #[trigger] t.stored(key) is None,
    {
        let t = CritBit { root: CritNode::empty() };
        proof {
            assert(t@ =~= Set::<Seq<char>>::empty());
        }
        t
    }

    /// Adds `str` to the set: the tree then holds `str` at the end of the
    /// way that it spells, and what it held elsewhere.
    pub fn insert(&mut self, str: String)
        ensures
            final(self)@ == old(self)@.insert(str@),
            forall|key: Seq<char>|
                #[trigger] final(self).stored(key) == if key == str@ {
                    Some(str@)
                } else {
                    old(self).stored(key)
                },
    {
        let key = str.clone();
        proof {
            assert(key@.skip(0) =~= key@);
        }
        self.root.insert_at(key.as_str(), 0, str);
        proof {
            assert(self@ =~= old(self)@.insert(str@));
        }
    }

    /// Whether `value` is in the set.
    pub fn search(&self, value: &str) -> (found: bool)
        ensures
            found == self@.contains(value@),
            found == (self.stored(value@) is Some),
    {
        let n = value.unicode_len();
        let mut node = &self.root;
        let mut at: usize = 0;
        proof {
            assert(value@.skip(0) =~= value@);
        }
        while at < n
            invariant
                at <= n,
                n == value@.len(),
                self.root.value_at(value@) == node.value_at(value@.skip(at as int)),
            decreases n - at,
        {
            let c = value.get_char(at);
            let j = node.find(c);
            if j == node.children.len() {
                return false;
            }
            proof {
                assert(value@.skip(at as int).drop_first() =~= value@.skip(at + 1));
            }
            node = &node.children[j].node;
            at = at + 1;
        }
        node.value.is_some()
    }
}

} // verus!
