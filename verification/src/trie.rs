//! A radix-8 trie over three-bit symbols, kept in one growing arena of nodes.

use crate::arena::{
    arena_wf, children_from, children_of, follow, fresh_slots, insert_path, lemma_follow_wf,
    lemma_inserted_path_walks, walk, Arena,
};
use crate::iters::octals::{lemma_octal_count, octal_digits, Octals};
use crate::source::SliceSource;
use vstd::prelude::*;
use vstd::string::StringSliceAdditionalSpecFns;

verus! {

/// One branch point: a slot for each of the eight symbols, empty or holding
/// the address of a child.
#[derive(Clone, Copy, Debug)]
struct Node([Option<usize>; 8]);

impl Node {
    /// The slots as a mathematical value.
    spec fn model(self) -> Seq<Option<int>> {
        Seq::new(
            8,
            |v: int|
                match self.0@[v] {
                    Some(c) => Some(c as int),
                    None => None,
                },
        )
    }

    /// A node without children.
    fn fresh() -> (node: Node)
        ensures
            node.model() == fresh_slots(),
    {
        let node = Node([None, None, None, None, None, None, None, None]);
        assert(node.model() =~= fresh_slots());
        node
    }
}

/// Walks over the filled slots of one node, in ascending order of the
/// symbols.
pub struct ChildIter<'a> {
    node: &'a Node,
    nth: u8,
}

impl<'a> ChildIter<'a> {
    /// The position is a symbol, or one past the last.
    pub closed spec fn wf(&self) -> bool {
        self.nth <= 8
    }

    /// Hands out the next filled slot as its symbol and the child's address,
    /// or `None` once the last one has been handed out.
    pub fn next(&mut self) -> (r: Option<(u8, usize)>)
        requires
            old(self).wf(),
        ensures
            final(self).wf(),
            old(self)@.len() == 0 ==> r is None && final(self)@ == old(self)@,
            old(self)@.len() > 0 ==> final(self)@ == old(self)@.skip(1) && (r matches Some(pair)
                && (pair.0 as int, pair.1 as int) == old(self)@[0]),
    {
        while self.nth < 8 && self.node.0[self.nth as usize].is_none()
            invariant
                self.nth <= 8,
                self.node == old(self).node,
                self@ == old(self)@,
            decreases 8 - self.nth,
        {
            self.nth = self.nth + 1;
        }
        if self.nth == 8 {
            return None;
        }
        let ghost before = self@;
        self.nth = self.nth + 1;
        assert(self@ =~= before.skip(1));
        Some((self.nth - 1, self.node.0[self.nth as usize - 1].unwrap()))
    }
}

impl<'a> View for ChildIter<'a> {
    type V = Seq<(int, int)>;

    /// The filled slots not handed out yet, each with the child it holds.
    closed spec fn view(&self) -> Seq<(int, int)> {
        children_from(self.node.model(), self.nth as int)
    }
}

/// A trie over three-bit symbols. Its nodes live in one arena that only
/// grows; a node's address is its place in the arena, and the root has
/// address 0.
#[derive(Debug)]
pub struct Trie {
    nodes: Vec<Node>,
}

impl Clone for Trie {
    /// A trie with the same arena, which grows on its own from here on.
    fn clone(&self) -> (copy: Self)
        ensures
            copy@ == self@,
    {
        let copy = Trie { nodes: self.nodes.clone() };
        assert(copy@ =~= self@);
        copy
    }
}

impl Trie {
    /// The arena is a trie in the sense of [`arena_wf`].
    pub open spec fn wf(&self) -> bool {
        arena_wf(self@)
    }

    /// A trie that holds the root and nothing else.
    pub fn new() -> (trie: Self)
        ensures
            trie.wf(),
            trie@ == seq![fresh_slots()],
    {
        let mut nodes: Vec<Node> = Vec::new();
        nodes.push(Node::fresh());
        let trie = Trie { nodes };
        assert(trie@ =~= seq![fresh_slots()]);
        trie
    }

    /// The number of nodes in the arena. Every address below it is valid.
    pub fn len(&self) -> (n: usize)
        ensures
            n == self@.len(),
    {
        self.nodes.len()
    }

    /// Follows `val` from the node at `addr` and returns the address reached.
    /// Where the slot is empty, a node is added at the end of the arena and
    /// the slot is made to point to it.
    pub fn navigate(&mut self, addr: usize, val: u8) -> (next: usize)
        requires
            old(self).wf(),
            addr < old(self)@.len(),
            val < 8,
        ensures
            final(self).wf(),
            final(self)@ == follow(old(self)@, addr as int, val as int).0,
            next == follow(old(self)@, addr as int, val as int).1,
            next < final(self)@.len(),
            old(self)@.len() <= final(self)@.len(),
    {
        proof {
            lemma_follow_wf(self@, addr as int, val as int);
        }
        let ghost before = self@;
        let mut node: Node = self.nodes[addr];
        match node.0[val as usize] {
            Some(next) => next,
            None => {
                let next: usize = self.nodes.len();
                self.nodes.push(Node::fresh());
                node.0[val as usize] = Some(next);
                self.nodes[addr] = node;
                assert(self@ =~~= follow(before, addr as int, val as int).0);
                next
            },
        }
    }

    /// The node at `addr`.
    fn get(&self, addr: usize) -> (node: &Node)
        requires
            addr < self@.len(),
        ensures
            node.model() == self@[addr as int],
    {
        &self.nodes[addr]
    }

    /// The number of filled slots of the node at `addr`.
    pub fn childcount(&self, addr: usize) -> (count: u8)
        requires
            addr < self@.len(),
        ensures
            count == children_of(self@[addr as int]).len(),
    {
        let node = self.get(addr);
        let mut count: u8 = 0;
        let mut i: usize = 0;
        while i < 8
            invariant
                i <= 8,
                count <= i,
                count + children_from(node.model(), i as int).len() == children_of(
                    node.model(),
                ).len(),
            decreases 8 - i,
        {
            if node.0[i].is_some() {
                count = count + 1;
            }
            i = i + 1;
        }
        count
    }

    /// The filled slots of the node at `addr`, to be walked over in ascending
    /// order of the symbols.
    pub fn children(&self, addr: usize) -> (iter: ChildIter<'_>)
        requires
            addr < self@.len(),
        ensures
            iter.wf(),
            iter@ == children_of(self@[addr as int]),
    {
        ChildIter { node: self.get(addr), nth: 0 }
    }

    /// Puts a string into the trie: its bytes are cut into three-bit symbols,
    /// and the symbols are followed from the root, one step each. Afterwards
    /// the whole path can be walked from the root.
    pub fn add_string(&mut self, string: &str)
        requires
            old(self).wf(),
        ensures
            final(self).wf(),
            final(self)@ == insert_path(old(self)@, 0, octal_digits(string.spec_bytes())),
            walk(final(self)@, 0, octal_digits(string.spec_bytes())) is Some,
            old(self)@.len() <= final(self)@.len(),
    {
        let ghost path = octal_digits(string.spec_bytes());
        proof {
            lemma_octal_count(string.spec_bytes());
            lemma_inserted_path_walks(self@, 0, path);
        }
        let mut symbols = Octals::new(SliceSource::new(string.as_bytes()));
        let mut pointer: usize = 0;
        loop
            invariant
                self.wf(),
                symbols.wf(),
                pointer < self@.len(),
                old(self)@.len() <= self@.len(),
                insert_path(self@, pointer as int, symbols@) == insert_path(old(self)@, 0, path),
            ensures
                self.wf(),
                old(self)@.len() <= self@.len(),
                self@ == insert_path(old(self)@, 0, path),
            decreases symbols@.len(),
        {
            match symbols.next() {
                Some(oct) => {
                    pointer = self.navigate(pointer, oct);
                },
                None => {
                    break ;
                },
            }
        }
    }
}

impl View for Trie {
    type V = Arena;

    /// The arena: the slots of every node, in the order of the addresses.
    closed spec fn view(&self) -> Arena {
        Seq::new(self.nodes@.len(), |a: int| self.nodes@[a].model())
    }
}

} // verus!
