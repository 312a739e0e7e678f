//! Reading a tree chunk by chunk.

use super::edge::edge_data;
use super::navigator::CordRepBtreeNavigator;
use super::shared::shares;
use super::subtree::{lemma_start_beyond, lemma_start_ends, lemma_start_step};
use super::{compact, leaves, lemma_edges_bytes_split, lemma_leaves_bytes, CordRep};
use std::sync::Arc;
use vstd::prelude::*;
use vstd::slice::slice_subrange;

verus! {

/// A reader of the data edges of a tree, in order.
pub struct CordRepBtreeReader<'a> {
    /// Bytes after the end of the last returned chunk.
    pub remaining: usize,
    /// The position of the last returned chunk.
    pub navigator: CordRepBtreeNavigator<'a>,
}

impl<'a> CordRepBtreeReader<'a> {
    /// The bytes of the tree.
    pub open spec fn bytes(self) -> Seq<u8> {
        match self.navigator.tree {
            Some(tree) => tree.bytes(),
            None => Seq::empty(),
        }
    }

    /// Where the data edge of the last returned chunk ends.
    pub open spec fn end(self) -> int {
        self.navigator.offset() + self.navigator.edges()[self.navigator.position()].bytes().len()
    }

    /// The reader has a tree, and what remains is what follows the current data edge.
    pub open spec fn synced(self) -> bool {
        &&& self.navigator.wf()
        &&& self.navigator.tree is Some
        &&& self.remaining == self.bytes().len() - self.end()
    }

    /// What remains is what follows the current data edge, or nothing.
    pub open spec fn wf(self) -> bool {
        self.synced() || (self.navigator.wf() && self.remaining == 0)
    }

    /// An empty reader.
    pub fn new() -> (reader: CordRepBtreeReader<'a>)
        ensures
            reader.wf(),
            reader.navigator.tree is None,
            reader.remaining == 0,
    {
        CordRepBtreeReader { remaining: 0, navigator: CordRepBtreeNavigator::new() }
    }

    /// Whether there is a tree.
    pub fn is_some(&self) -> (r: bool)
        ensures
            r == (self.navigator.tree is Some),
    {
        self.navigator.is_some()
    }

    /// Length of the tree.
    pub fn length(&self) -> (len: usize)
        requires
            self.navigator.wf(),
            self.navigator.tree is Some,
        ensures
            len == self.bytes().len(),
    {
        self.navigator.btree().unwrap().len()
    }

    /// Bytes after the last returned chunk.
    pub fn remaining(&self) -> (n: usize)
        ensures
            n == self.remaining,
    {
        self.remaining
    }

    /// The bytes of the current data edge among those of the tree.
    pub proof fn lemma_chunk(self)
        requires
            self.navigator.wf(),
            self.navigator.tree is Some,
        ensures
            0 <= self.navigator.offset() < self.end() <= self.bytes().len(),
            self.navigator.edges()[self.navigator.position()].is_leaf_edge(),
            self.navigator.edges()[self.navigator.position()].bytes() == self.bytes().subrange(
                self.navigator.offset(),
                self.end(),
            ),
    {
        let edges = self.navigator.edges();
        let i = self.navigator.position();
        self.navigator.lemma_current();
        lemma_leaves_bytes(*self.navigator.tree->0);
        lemma_edges_bytes_split(edges, i);
        lemma_start_step(edges, i);
        assert(edges[i].bytes() =~= self.bytes().subrange(self.navigator.offset(), self.end()));
    }

    /// Starts to read `tree`, and returns its first chunk.
    pub fn init(&mut self, tree: &'a Arc<CordRep>) -> (chunk: &'a [u8])
        requires
            tree.is_tree(tree.height()),
        ensures
            final(self).synced(),
            final(self).navigator.at(*tree, 0),
            chunk@ == leaves(*tree)[0].bytes(),
            final(self).remaining == tree.bytes().len() - chunk@.len(),
    {
        let edge = self.navigator.init_first(tree);
        proof {
            self.lemma_chunk();
            assert(leaves(*tree).take(0) =~= Seq::<Arc<CordRep>>::empty());
        }
        self.remaining = tree.len() - edge.len();
        edge_data(edge)
    }

    /// The next chunk, or an empty one at the end.
    pub fn next(&mut self) -> (chunk: &'a [u8])
        requires
            old(self).wf(),
        ensures
            old(self).remaining == 0 ==> chunk@.len() == 0 && *final(self) == *old(self),
            old(self).remaining > 0 ==> {
                &&& final(self).synced()
                &&& final(self).navigator.at(*old(self).navigator.tree->0, old(self).navigator.position() + 1)
                &&& chunk@ == old(self).navigator.edges()[old(self).navigator.position() + 1].bytes()
                &&& chunk@ == old(self).bytes().subrange(old(self).end(), old(self).end() + chunk@.len())
                &&& chunk@.len() > 0
                &&& final(self).remaining == old(self).remaining - chunk@.len()
            },
    {
        if self.remaining == 0 {
            return &[];
        }
        let ghost i = self.navigator.position();
        let ghost edges = self.navigator.edges();
        proof {
            self.lemma_chunk();
            self.navigator.lemma_current();
            lemma_leaves_bytes(*self.navigator.tree->0);
            lemma_start_step(edges, i);
            if i + 1 == edges.len() {
                lemma_start_ends(edges);
            }
        }
        let edge = self.navigator.next().unwrap();
        proof {
            self.lemma_chunk();
            self.navigator.lemma_current();
            assert(self.navigator.offset() == old(self).end());
        }
        self.remaining = self.remaining - edge.len();
        edge_data(edge)
    }

    /// Skips `skip` bytes past the end of the current data edge, and returns the
    /// rest of the data edge behind them.
    pub fn skip(&mut self, skip: usize) -> (chunk: &'a [u8])
        requires
            old(self).synced(),
            old(self).end() - old(self).navigator.offset() + skip <= usize::MAX,
        ensures
            final(self).wf(),
            final(self).navigator.tree == old(self).navigator.tree,
            old(self).end() + skip >= old(self).bytes().len() ==> chunk@.len() == 0 && final(self).remaining == 0,
            old(self).end() + skip < old(self).bytes().len() ==> {
                &&& final(self).synced()
                &&& chunk@.len() > 0
                &&& chunk@ == old(self).bytes().subrange(old(self).end() + skip, final(self).end())
                &&& final(self).navigator.offset() <= old(self).end() + skip < final(self).end()
            },
    {
        proof {
            self.lemma_chunk();
        }
        let edge_length: usize = self.navigator.current().len();
        let pos = self.navigator.skip(skip + edge_length);
        match pos.edge {
            None => {
                self.remaining = 0;
                &[]
            },
            Some(edge) => {
                proof {
                    self.lemma_chunk();
                }
                let data = edge_data(edge);
                self.remaining = self.remaining - (skip + (edge.len() - pos.offset));
                let chunk = slice_subrange(data, pos.offset, data.len());
                assert(chunk@ =~= old(self).bytes().subrange(old(self).end() + skip, self.end()));
                chunk
            },
        }
    }

    /// Moves to the data edge that holds the byte at `offset`, and returns its
    /// data from that byte on.
    pub fn seek(&mut self, offset: usize) -> (chunk: &'a [u8])
        requires
            old(self).wf(),
            old(self).navigator.tree is Some,
        ensures
            final(self).wf(),
            final(self).navigator.tree == old(self).navigator.tree,
            offset >= old(self).bytes().len() ==> chunk@.len() == 0 && final(self).remaining == 0,
            offset < old(self).bytes().len() ==> {
                &&& final(self).synced()
                &&& chunk@.len() > 0
                &&& chunk@ == old(self).bytes().subrange(offset as int, final(self).end())
                &&& final(self).navigator.offset() <= offset < final(self).end()
            },
    {
        let pos = self.navigator.seek(offset);
        match pos.edge {
            None => {
                self.remaining = 0;
                &[]
            },
            Some(edge) => {
                proof {
                    self.lemma_chunk();
                }
                let data = edge_data(edge);
                let chunk = slice_subrange(data, pos.offset, data.len());
                self.remaining = self.length() - offset - chunk.len();
                assert(chunk@ =~= old(self).bytes().subrange(offset as int, self.end()));
                chunk
            },
        }
    }

    /// Reads `n` bytes. If `chunk_size` is zero the read starts at the next
    /// data edge, and otherwise at the last `chunk_size` bytes of the current
    /// one. Returns the rest of the data edge in which the read ended, and the
    /// bytes read: nothing where there are fewer than `n`, or `n` is zero.
    pub fn read(&mut self, n: usize, chunk_size: usize) -> (r: (&'a [u8], Option<Arc<CordRep>>))
        requires
            old(self).synced(),
            chunk_size <= old(self).end() - old(self).navigator.offset(),
            chunk_size == 0 ==> old(self).remaining > 0,
            old(self).end() - old(self).navigator.offset() - chunk_size + n <= usize::MAX,
        ensures
            final(self).wf(),
            final(self).navigator.tree == old(self).navigator.tree,
            ({
                let all = old(self).bytes();
                let start = old(self).end() - chunk_size;
                &&& r.1 is Some <==> n > 0 && start + n <= all.len()
                &&& r.1 matches Some(tree) ==> {
                    &&& tree.is_edge()
                    &&& tree.bytes() == all.subrange(start, start + n)
                    &&& shares(leaves(tree), old(self).navigator.edges())
                    &&& compact(tree)
                    &&& tree.height() <= old(self).navigator.tree->0.height()
                }
                &&& start + n >= all.len() ==> r.0@.len() == 0 && final(self).remaining == 0
                &&& start + n < all.len() ==> {
                    &&& final(self).synced()
                    &&& r.0@.len() > 0
                    &&& r.0@ == all.subrange(start + n, final(self).end())
                    &&& final(self).navigator.offset() <= start + n < final(self).end()
                }
            }),
    {
        let ghost all = self.bytes();
        let ghost start = self.end() - chunk_size;
        proof {
            self.lemma_chunk();
            self.navigator.lemma_current();
        }
        let mut edge = self.navigator.current();
        let mut offset: usize = 0;
        if chunk_size != 0 {
            offset = edge.len() - chunk_size;
        } else {
            let ghost i = self.navigator.position();
            let ghost edges = self.navigator.edges();
            proof {
                lemma_leaves_bytes(*self.navigator.tree->0);
                lemma_start_step(edges, i);
                if i + 1 == edges.len() {
                    lemma_start_ends(edges);
                }
            }
            edge = self.navigator.next().unwrap();
            proof {
                self.lemma_chunk();
                self.navigator.lemma_current();
            }
        }
        assert(self.navigator.offset() + offset == start);
        let result = self.navigator.read(offset, n);
        proof {
            self.lemma_chunk();
        }
        if n < chunk_size {
            let data = edge_data(edge);
            let chunk = slice_subrange(data, result.n, data.len());
            assert(chunk@ =~= all.subrange(start + n, self.end()));
            return (chunk, result.tree);
        }
        proof {
            old(self).navigator.lemma_current();
            self.navigator.lemma_current();
            if start + n < all.len() {
                lemma_start_beyond(
                    self.navigator.edges(),
                    old(self).navigator.position(),
                    self.navigator.position(),
                    result.n as int,
                );
            }
        }
        let consumed: usize = n - chunk_size - result.n;
        if consumed >= self.remaining {
            self.remaining = 0;
            return (&[], result.tree);
        }
        let edge = self.navigator.current();
        self.remaining = self.remaining - (consumed + edge.len());
        let data = edge_data(edge);
        let chunk = slice_subrange(data, result.n, data.len());
        assert(chunk@ =~= all.subrange(start + n, self.end()));
        (chunk, result.tree)
    }
}

} // verus!
