//! The fork set manager: every live candidate chain sharing one finalized
//! ancestor, best-chain selection, pruning of losers, and promotion of a
//! finalized root.

use vstd::prelude::*;
use crate::chain::{
    block_fields_eq, blocks_updates, state_can_apply_seq, state_can_revert_blockseq,
    state_revert_blockseq, state_revert_seq_rev, Block, ChainForkNode,
};
use crate::errors::{ApplyError, CommitError, StructuralFault};
use crate::response::Response;

verus! {

/// Two chain lists agree in everything observable: per-address states,
/// block sequences, and roots.
pub open spec fn chains_equiv(a: Seq<ChainForkNode>, b: Seq<ChainForkNode>) -> bool {
    a.len() == b.len() && forall|i: int|
        0 <= i < a.len() ==> ((#[trigger] a[i]).state() == b[i].state() && a[i].blocks_seq()
            == b[i].blocks_seq() && a[i].spec_root_parent_hash() == b[i].spec_root_parent_hash()
            && a[i].spec_root_height() == b[i].spec_root_height())
}

/// All live candidate chains growing from one finalized ancestor. The best
/// chain is the longest (first among equals): chain length since the shared
/// ancestor stands in for the externally supplied work comparison.
pub struct ForkSet {
    chains: Vec<ChainForkNode>,
    finalized_hash: u64,
    next_root_height: u32,
    reorg_limit: usize,
    finality_depth: usize,
}

impl ForkSet {
    /// The live candidate chains.
    pub closed spec fn chains_seq(self) -> Seq<ChainForkNode> {
        self.chains@
    }

    /// The hash of the finalized tip all chains grow from.
    pub closed spec fn spec_finalized_hash(self) -> u64 {
        self.finalized_hash
    }

    /// The height the oldest non-finalized block has.
    pub closed spec fn spec_next_root_height(self) -> u32 {
        self.next_root_height
    }

    /// The reorganization limit past which losing forks are dropped.
    pub closed spec fn spec_reorg_limit(self) -> usize {
        self.reorg_limit
    }

    /// The confirmation threshold past which the best chain's root is
    /// promoted into finalized storage.
    pub closed spec fn spec_finality_depth(self) -> usize {
        self.finality_depth
    }

    /// Every chain is well formed and rooted on the shared finalized
    /// ancestor.
    pub closed spec fn wf(self) -> bool {
        forall|i: int|
            0 <= i < self.chains@.len() ==> ((#[trigger] self.chains@[i]).wf()
                && self.chains@[i].spec_root_parent_hash() == self.finalized_hash
                && self.chains@[i].spec_root_height() == self.next_root_height)
    }

    /// Whether chain `i` is the best: the longest, first among equals.
    pub open spec fn is_best(self, i: int) -> bool {
        &&& 0 <= i < self.chains_seq().len()
        &&& forall|j: int|
            0 <= j < self.chains_seq().len() ==> (#[trigger] self.chains_seq()[j]).blocks_seq().len()
                <= self.chains_seq()[i].blocks_seq().len()
        &&& forall|j: int|
            0 <= j < i ==> (#[trigger] self.chains_seq()[j]).blocks_seq().len()
                < self.chains_seq()[i].blocks_seq().len()
    }

    /// Some chain's tip carries this hash.
    pub open spec fn tip_matches(self, parent: u64) -> bool {
        exists|i: int|
            0 <= i < self.chains_seq().len() && (#[trigger] self.chains_seq()[i]).spec_tip_hash()
                == parent
    }

    /// Chain `i` is the first whose tip carries this hash.
    pub open spec fn first_tip_match(self, parent: u64, i: int) -> bool {
        &&& 0 <= i < self.chains_seq().len()
        &&& self.chains_seq()[i].spec_tip_hash() == parent
        &&& forall|j: int|
            0 <= j < i ==> (#[trigger] self.chains_seq()[j]).spec_tip_hash() != parent
    }

    /// The block grows straight from the finalized tip.
    pub open spec fn finalized_route(self, block: Block) -> bool {
        block.parent_hash == self.spec_finalized_hash() && block.height
            == self.spec_next_root_height()
    }

    /// Some chain holds a block with this hash.
    pub open spec fn holds_block(self, h: u64) -> bool {
        exists|c: int, b: int|
            #![trigger self.chains_seq()[c].blocks_seq()[b]]
            0 <= c < self.chains_seq().len() && 0 <= b < self.chains_seq()[c].blocks_seq().len()
                && self.chains_seq()[c].blocks_seq()[b].hash == h
    }

    /// Block `(c, b)` is the first with this hash, scanning chains in order
    /// and each chain's blocks oldest first.
    pub open spec fn first_block_match(self, h: u64, c: int, b: int) -> bool {
        &&& 0 <= c < self.chains_seq().len()
        &&& 0 <= b < self.chains_seq()[c].blocks_seq().len()
        &&& self.chains_seq()[c].blocks_seq()[b].hash == h
        &&& forall|c2: int, b2: int|
            #![trigger self.chains_seq()[c2].blocks_seq()[b2]]
            0 <= c2 < self.chains_seq().len() && 0 <= b2 < self.chains_seq()[c2].blocks_seq().len()
                && (c2 < c || (c2 == c && b2 < b)) ==> self.chains_seq()[c2].blocks_seq()[b2].hash
                != h
    }

    /// An empty fork set over a finalized tip.
    pub fn new(
        finalized_hash: u64,
        next_root_height: u32,
        reorg_limit: usize,
        finality_depth: usize,
    ) -> (r: ForkSet)
        ensures
            r.wf(),
            r.chains_seq().len() == 0,
            r.spec_finalized_hash() == finalized_hash,
            r.spec_next_root_height() == next_root_height,
            r.spec_reorg_limit() == reorg_limit,
            r.spec_finality_depth() == finality_depth,
    {
        ForkSet {
            chains: Vec::new(),
            finalized_hash,
            next_root_height,
            reorg_limit,
            finality_depth,
        }
    }

    /// How many candidate chains are live.
    pub fn chain_count(&self) -> (r: usize)
        ensures
            r == self.chains_seq().len(),
    {
        self.chains.len()
    }

    /// A borrow of chain `i`.
    pub fn chain_at(&self, i: usize) -> (r: &ChainForkNode)
        requires
            i < self.chains_seq().len(),
        ensures
            *r == self.chains_seq()[i as int],
    {
        &self.chains[i]
    }

    /// The index of the best chain, or none when no chain is live.
    fn best_index(&self) -> (r: Option<usize>)
        ensures
            r is None <==> self.chains_seq().len() == 0,
            r is Some ==> self.is_best(r->0 as int),
    {
        let n = self.chains.len();
        if n == 0 {
            return None;
        }
        let mut best: usize = 0;
        let mut i: usize = 1;
        while i < n
            invariant
                n == self.chains_seq().len(),
                best < i <= n,
                forall|j: int|
                    0 <= j < i ==> (#[trigger] self.chains_seq()[j]).blocks_seq().len()
                        <= self.chains_seq()[best as int].blocks_seq().len(),
                forall|j: int|
                    0 <= j < best ==> (#[trigger] self.chains_seq()[j]).blocks_seq().len()
                        < self.chains_seq()[best as int].blocks_seq().len(),
            decreases n - i,
        {
            if self.chains[i].len() > self.chains[best].len() {
                best = i;
            }
            i = i + 1;
        }
        Some(best)
    }

    /// The current best chain tip, as height and hash, or none when no chain
    /// holds a block.
    pub fn tip(&self) -> (r: Response)
        requires
            self.wf(),
        ensures
            match r {
                Response::Tip(t) => match t {
                    Some(pair) => exists|i: int|
                        self.is_best(i) && (#[trigger] self.chains_seq()[i]).blocks_seq().len()
                            > 0 && pair.0 == self.chains_seq()[i].blocks_seq().last().height
                            && pair.1 == self.chains_seq()[i].blocks_seq().last().hash,
                    None => forall|i: int|
                        0 <= i < self.chains_seq().len() ==> (#[trigger] self.chains_seq()[
                        i]).blocks_seq().len() == 0,
                },
                _ => false,
            },
    {
        match self.best_index() {
            None => Response::Tip(None),
            Some(i) => {
                let node = &self.chains[i];
                let n = node.len();
                if n == 0 {
                    proof {
                        assert forall|j: int|
                            0 <= j < self.chains_seq().len() implies (#[trigger] self.chains_seq()[
                        j]).blocks_seq().len() == 0 by {}
                    }
                    Response::Tip(None)
                } else {
                    let b = node.last_block();
                    Response::Tip(Some((b.0, b.1)))
                }
            },
        }
    }

    /// The confirmation depth of a block in the best chain: the number of
    /// blocks after it, or none when no best-chain block has that hash.
    pub fn depth(&self, hash: u64) -> (r: Response)
        requires
            self.wf(),
        ensures
            match r {
                Response::Depth(d) => match d {
                    Some(depth) => exists|i: int, b: int|
                        self.is_best(i) && 0 <= b < (#[trigger] self.chains_seq()[
                        i]).blocks_seq().len() && (#[trigger] self.chains_seq()[i].blocks_seq()[
                        b]).hash == hash && depth == self.chains_seq()[i].blocks_seq().len() - 1
                            - b,
                    None => forall|i: int, b: int|
                        self.is_best(i) && 0 <= b < (#[trigger] self.chains_seq()[
                        i]).blocks_seq().len() ==> (#[trigger] self.chains_seq()[i].blocks_seq()[
                        b]).hash != hash,
                },
                _ => false,
            },
    {
        let bi = match self.best_index() {
            None => {
                return Response::Depth(None);
            },
            Some(i) => i,
        };
        let node = &self.chains[bi];
        let n = node.len();
        let mut b: usize = 0;
        while b < n
            invariant
                self.wf(),
                bi < self.chains_seq().len(),
                self.is_best(bi as int),
                n == self.chains_seq()[bi as int].blocks_seq().len(),
                b <= n,
                *node == self.chains_seq()[bi as int],
                forall|x: int|
                    0 <= x < b ==> (#[trigger] self.chains_seq()[bi as int].blocks_seq()[x]).hash
                        != hash,
            decreases n - b,
        {
            let (_, bhash) = node.block_id(b);
            if bhash == hash {
                let depth = (n - 1 - b) as u32;
                proof {
                    self.chains@[bi as int].lemma_wf_facts();
                    assert(n - 1 - b <= u32::MAX);
                    assert(self.is_best(bi as int) && 0 <= b < (#[trigger] self.chains_seq()[
                    bi as int]).blocks_seq().len() && (#[trigger] self.chains_seq()[
                    bi as int].blocks_seq()[b as int]).hash == hash && depth == self.chains_seq()[
                        bi as int].blocks_seq().len() - 1 - b);
                }
                return Response::Depth(Some(depth));
            }
            b = b + 1;
        }
        proof {
            assert forall|i: int, x: int|
                self.is_best(i) && 0 <= x < (#[trigger] self.chains_seq()[i]).blocks_seq().len()
                implies (#[trigger] self.chains_seq()[i].blocks_seq()[x]).hash != hash by {
                assert(self.chains_seq()[i].blocks_seq().len()
                    == self.chains_seq()[bi as int].blocks_seq().len());
                if i != bi as int {
                    if i < bi as int {
                        assert(self.chains_seq()[i].blocks_seq().len()
                            < self.chains_seq()[bi as int].blocks_seq().len());
                    } else {
                        assert(self.chains_seq()[bi as int].blocks_seq().len()
                            < self.chains_seq()[i].blocks_seq().len());
                    }
                }
            }
        }
        Response::Depth(None)
    }

    /// Routes a block to the chain it extends: the chain whose tip it names
    /// as parent, a new chain growing straight from the finalized tip, or a
    /// fork of the chain holding its parent in the interior. A commit is owed
    /// whenever a route matches at the right height and every update of the
    /// block applies; the parent is unknown exactly when no route matches.
    pub fn submit(&mut self, block: Block) -> (r: Result<Response, CommitError>)
        requires
            old(self).wf(),
            block.wf(),
        ensures
            final(self).spec_finalized_hash() == old(self).spec_finalized_hash(),
            final(self).spec_next_root_height() == old(self).spec_next_root_height(),
            r is Ok ==> final(self).wf(),
            r is Ok ==> r->Ok_0 == Response::Committed(block.hash),
            r is Ok ==> exists|i: int|
                0 <= i < final(self).chains_seq().len() && (#[trigger] final(self).chains_seq()[
                i]).blocks_seq().len() > 0 && block_fields_eq(
                    final(self).chains_seq()[i].blocks_seq().last(),
                    block,
                ),
            (r is Err && !(r->Err_0 matches CommitError::Apply(ApplyError::Fault(_)))) ==> {
                &&& final(self).wf()
                &&& chains_equiv(final(self).chains_seq(), old(self).chains_seq())
            },
            r == Err::<Response, CommitError>(CommitError::UnknownParent) <==> {
                &&& block.height != u32::MAX
                &&& !old(self).tip_matches(block.parent_hash)
                &&& !old(self).finalized_route(block)
                &&& !old(self).holds_block(block.parent_hash)
            },
            r == Err::<Response, CommitError>(CommitError::WrongHeight) <==> {
                ||| block.height == u32::MAX
                ||| exists|i: int|
                    (#[trigger] old(self).first_tip_match(block.parent_hash, i)) && block.height
                        != old(self).chains_seq()[i].spec_next_height()
                ||| {
                    &&& !old(self).tip_matches(block.parent_hash)
                    &&& !old(self).finalized_route(block)
                    &&& exists|c: int, b: int|
                        (#[trigger] old(self).first_block_match(block.parent_hash, c, b)) && (old(self).chains_seq()[c].blocks_seq()[b].height == u32::MAX || block.height != old(self).chains_seq()[c].blocks_seq()[b].height + 1)
                }
            },
            forall|i: int|
                ({
                    &&& #[trigger] old(self).first_tip_match(block.parent_hash, i)
                    &&& block.height < u32::MAX
                    &&& block.height == old(self).chains_seq()[i].spec_next_height()
                    &&& state_can_apply_seq(old(self).chains_seq()[i].state(), block.updates@)
                }) ==> r is Ok,
            ({
                &&& !old(self).tip_matches(block.parent_hash)
                &&& old(self).finalized_route(block)
                &&& block.height < u32::MAX
                &&& state_can_apply_seq(Map::empty(), block.updates@)
            }) ==> r is Ok,
            forall|c: int, b: int|
                ({
                    &&& #[trigger] old(self).first_block_match(block.parent_hash, c, b)
                    &&& !old(self).tip_matches(block.parent_hash)
                    &&& !old(self).finalized_route(block)
                    &&& block.height < u32::MAX
                    &&& old(self).chains_seq()[c].blocks_seq()[b].height < u32::MAX
                    &&& block.height == old(self).chains_seq()[c].blocks_seq()[b].height + 1
                    &&& state_can_revert_blockseq(
                        old(self).chains_seq()[c].state(),
                        blocks_updates(old(self).chains_seq()[c].blocks_seq()).skip(b + 1),
                    )
                    &&& state_can_apply_seq(
                        state_revert_blockseq(
                            old(self).chains_seq()[c].state(),
                            blocks_updates(old(self).chains_seq()[c].blocks_seq()).skip(b + 1),
                        ),
                        block.updates@,
                    )
                }) ==> r is Ok,
    {
        if block.height == u32::MAX {
            // the next height would not fit in the height word
            return Err(CommitError::WrongHeight);
        }
        let n = self.chains.len();
        // a chain whose tip is the block's parent
        let mut i: usize = 0;
        while i < n
            invariant
                old(self).wf(),
                *self == *old(self),
                n == self.chains_seq().len(),
                i <= n,
                block.height < u32::MAX,
                block.wf(),
                forall|j: int|
                    0 <= j < i ==> (#[trigger] self.chains_seq()[j]).spec_tip_hash()
                        != block.parent_hash,
            decreases n - i,
        {
            if self.chains[i].tip_hash() == block.parent_hash {
                proof {
                    assert(old(self).first_tip_match(block.parent_hash, i as int));
                    assert(old(self).tip_matches(block.parent_hash));
                    assert forall|i2: int|
                        #[trigger] old(self).first_tip_match(block.parent_hash, i2) implies i2
                        == i as int by {
                        lemma_first_tip_match_unique(*old(self), block.parent_hash, i2, i as int);
                    }
                }
                if block.height != self.chains[i].next_height() {
                    return Err(CommitError::WrongHeight);
                }
                let ghost pre = self.chains@[i as int];
                let mut node = self.chains.remove(i);
                let block_hash = block.hash;
                match node.extend(block) {
                    Ok(()) => {
                        let ghost blk = node.blocks_seq().last();
                        self.chains.push(node);
                        proof {
                            let w = self.chains@.len() - 1;
                            assert(self.chains@[w].blocks_seq().last() == blk);
                            assert((#[trigger] self.chains_seq()[w]).blocks_seq().len() > 0
                                && block_fields_eq(self.chains_seq()[w].blocks_seq().last(), block));
                            assert(self.wf());
                        }
                        return Ok(Response::Committed(block_hash));
                    },
                    Err(e) => {
                        proof {
                            assert(!state_can_apply_seq(pre.state(), block.updates@));
                        }
                        match e {
                            ApplyError::Validation(v) => {
                                self.chains.insert(i, node);
                                proof {
                                    assert(chains_equiv(self.chains@, old(self).chains@)) by {
                                        assert(forall|j: int|
                                            0 <= j < i ==> self.chains@[j] == old(self).chains@[j]);
                                        assert(forall|j: int|
                                            i < j < self.chains@.len() ==> self.chains@[j] == old(self).chains@[j]);
                                        assert(self.chains@[i as int] == node);
                                    }
                                    assert(self.wf());
                                }
                                return Err(CommitError::Apply(ApplyError::Validation(v)));
                            },
                            ApplyError::Fault(f) => {
                                self.chains.insert(i, node);
                                return Err(CommitError::Apply(ApplyError::Fault(f)));
                            },
                        }
                    },
                }
            }
            i = i + 1;
        }
        proof {
            assert(!old(self).tip_matches(block.parent_hash)) by {
                if old(self).tip_matches(block.parent_hash) {
                    let j = choose|j: int|
                        0 <= j < old(self).chains_seq().len() && (#[trigger] old(self).chains_seq()[j]).spec_tip_hash() == block.parent_hash;
                }
            }
            lemma_no_tip_match_no_first(*old(self), block.parent_hash);
        }
        // a block growing straight from the finalized tip
        if block.parent_hash == self.finalized_hash && block.height == self.next_root_height {
            let mut node = ChainForkNode::new(self.finalized_hash, self.next_root_height);
            let block_hash = block.hash;
            proof {
                assert(old(self).finalized_route(block));
            }
            match node.extend(block) {
                Ok(()) => {
                    let ghost blk = node.blocks_seq().last();
                    self.chains.push(node);
                    proof {
                        let w = self.chains@.len() - 1;
                        assert(self.chains@[w].blocks_seq().last() == blk);
                        assert((#[trigger] self.chains_seq()[w]).blocks_seq().len() > 0
                            && block_fields_eq(self.chains_seq()[w].blocks_seq().last(), block));
                        assert(self.wf());
                    }
                    return Ok(Response::Committed(block_hash));
                },
                Err(e) => {
                    proof {
                        assert(!state_can_apply_seq(Map::empty(), block.updates@));
                    }
                    return Err(CommitError::Apply(e));
                },
            }
        }
        proof {
            assert(!old(self).finalized_route(block));
        }
        // a fork from the interior of a chain holding the parent
        let mut c: usize = 0;
        while c < n
            invariant
                old(self).wf(),
                *self == *old(self),
                n == self.chains_seq().len(),
                c <= n,
                block.height < u32::MAX,
                block.wf(),
                !old(self).tip_matches(block.parent_hash),
                !old(self).finalized_route(block),
                forall|c2: int, b2: int|
                    #![trigger old(self).chains_seq()[c2].blocks_seq()[b2]]
                    0 <= c2 < c && 0 <= b2 < old(self).chains_seq()[c2].blocks_seq().len() ==> old(self).chains_seq()[c2].blocks_seq()[b2].hash != block.parent_hash,
            decreases n - c,
        {
            let node_len = self.chains[c].len();
            let mut b: usize = 0;
            while b < node_len
                invariant
                    old(self).wf(),
                    *self == *old(self),
                    n == self.chains_seq().len(),
                    c < n,
                    node_len == self.chains_seq()[c as int].blocks_seq().len(),
                    b <= node_len,
                    block.height < u32::MAX,
                    block.wf(),
                    !old(self).tip_matches(block.parent_hash),
                    !old(self).finalized_route(block),
                    forall|c2: int, b2: int|
                        #![trigger old(self).chains_seq()[c2].blocks_seq()[b2]]
                        0 <= c2 < c && 0 <= b2 < old(self).chains_seq()[c2].blocks_seq().len()
                            ==> old(self).chains_seq()[c2].blocks_seq()[b2].hash
                            != block.parent_hash,
                    forall|b2: int|
                        0 <= b2 < b ==> (#[trigger] old(self).chains_seq()[c as int].blocks_seq()[
                        b2]).hash != block.parent_hash,
                decreases node_len - b,
            {
                let (bh, bhash) = self.chains[c].block_id(b);
                if bhash == block.parent_hash {
                    proof {
                        assert(old(self).first_block_match(block.parent_hash, c as int, b as int));
                        assert(old(self).holds_block(block.parent_hash));
                        lemma_no_tip_match_no_first(*old(self), block.parent_hash);
                        assert forall|c2: int, b2: int|
                            #[trigger] old(self).first_block_match(block.parent_hash, c2, b2)
                            implies c2 == c as int && b2 == b as int by {
                            lemma_first_block_match_unique(
                                *old(self),
                                block.parent_hash,
                                c2,
                                b2,
                                c as int,
                                b as int,
                            );
                        }
                    }
                    if bh == u32::MAX || block.height != bh + 1 {
                        return Err(CommitError::WrongHeight);
                    }
                    proof {
                        old(self).chains@[c as int].lemma_wf_facts();
                        assert(old(self).chains_seq()[c as int].kept_blocks(bh) == b as int + 1);
                    }
                    let mut node = match self.chains[c].fork_at(bh) {
                        Ok(f) => f,
                        Err(f) => {
                            return Err(CommitError::Apply(ApplyError::Fault(f)));
                        },
                    };
                    proof {
                        assert(node.blocks_seq().len() == b as int + 1);
                        assert(block_fields_eq(
                            node.blocks_seq()[b as int],
                            old(self).chains_seq()[c as int].blocks_seq()[b as int],
                        ));
                        assert(node.spec_tip_hash() == block.parent_hash);
                        assert(node.spec_next_height() == block.height);
                    }
                    let ghost forked = node;
                    let block_hash = block.hash;
                    match node.extend(block) {
                        Ok(()) => {
                            let ghost blk = node.blocks_seq().last();
                            self.chains.push(node);
                            proof {
                                let w = self.chains@.len() - 1;
                                assert(self.chains@[w].blocks_seq().last() == blk);
                                assert((#[trigger] self.chains_seq()[w]).blocks_seq().len() > 0
                                    && block_fields_eq(self.chains_seq()[w].blocks_seq().last(), block));
                                assert(self.wf());
                            }
                            return Ok(Response::Committed(block_hash));
                        },
                        Err(e) => {
                            proof {
                                assert(!state_can_apply_seq(forked.state(), block.updates@));
                            }
                            return Err(CommitError::Apply(e));
                        },
                    }
                }
                b = b + 1;
            }
            c = c + 1;
        }
        proof {
            assert(!old(self).holds_block(block.parent_hash)) by {
                if old(self).holds_block(block.parent_hash) {
                    let (c2, b2) = choose|c2: int, b2: int|
                        #![trigger old(self).chains_seq()[c2].blocks_seq()[b2]]
                        0 <= c2 < old(self).chains_seq().len() && 0 <= b2 < old(self).chains_seq()[c2].blocks_seq().len() && old(self).chains_seq()[c2].blocks_seq()[b2].hash == block.parent_hash;
                }
            }
            lemma_no_tip_match_no_first(*old(self), block.parent_hash);
            lemma_no_held_block_no_first(*old(self), block.parent_hash);
        }
        Err(CommitError::UnknownParent)
    }

    /// Drops every chain but the best exactly when the best chain has grown
    /// past the reorganization limit; a shorter race is left to play out.
    pub fn prune_losers(&mut self) -> (r: bool)
        requires
            old(self).wf(),
        ensures
            final(self).wf(),
            final(self).spec_finalized_hash() == old(self).spec_finalized_hash(),
            final(self).spec_next_root_height() == old(self).spec_next_root_height(),
            final(self).spec_reorg_limit() == old(self).spec_reorg_limit(),
            final(self).spec_finality_depth() == old(self).spec_finality_depth(),
            r <==> exists|i: int|
                (#[trigger] old(self).is_best(i)) && old(self).chains_seq()[i].blocks_seq().len()
                    > old(self).spec_reorg_limit(),
            r ==> exists|i: int|
                old(self).is_best(i) && final(self).chains_seq() =~= seq![
                    old(self).chains_seq()[i],
                ],
            !r ==> *final(self) == *old(self),
    {
        match self.best_index() {
            None => {
                proof {
                    assert forall|i: int| !(#[trigger] old(self).is_best(i)) by {}
                }
                false
            },
            Some(i) => {
                if self.chains[i].len() > self.reorg_limit {
                    let ghost winner_idx = i as int;
                    let winner = self.chains.remove(i);
                    let mut kept: Vec<ChainForkNode> = Vec::new();
                    kept.push(winner);
                    self.chains = kept;
                    proof {
                        assert(self.chains@ =~= seq![old(self).chains@[winner_idx]]);
                        assert(self.wf());
                        assert(old(self).is_best(winner_idx) && old(self).chains_seq()[winner_idx].blocks_seq().len() > old(self).spec_reorg_limit());
                    }
                    true
                } else {
                    proof {
                        assert forall|j: int| #[trigger] old(self).is_best(j) implies !(old(self).chains_seq()[j].blocks_seq().len() > old(self).spec_reorg_limit()) by {
                            lemma_is_best_unique(*old(self), j, i as int);
                        }
                    }
                    false
                }
            },
        }
    }

    /// Exactly when the best chain has grown past the confirmation
    /// threshold, its oldest block is retracted from every chain still
    /// rooted on it and returned for promotion into finalized storage;
    /// chains rooted on a competing block are dropped. The promotion is owed
    /// whenever every such root revert finds what it expects; a failing
    /// revert is a fatal fault and the caller must abort the process.
    pub fn finalize_root(&mut self) -> (r: Result<Option<Block>, StructuralFault>)
        requires
            old(self).wf(),
        ensures
            r is Ok ==> final(self).wf(),
            r is Ok && r->Ok_0 is None ==> *final(self) == *old(self),
            (r is Ok && r->Ok_0 is None) <==> !(exists|i: int|
                (#[trigger] old(self).is_best(i)) && old(self).chains_seq()[i].blocks_seq().len()
                    > old(self).spec_finality_depth()),
            forall|i: int|
                ({
                    &&& #[trigger] old(self).is_best(i)
                    &&& old(self).chains_seq()[i].blocks_seq().len() > old(self).spec_finality_depth()
                    &&& forall|j: int|
                        (0 <= j < old(self).chains_seq().len() && (#[trigger] old(self).chains_seq()[j]).blocks_seq().len() > 0 && old(self).chains_seq()[j].blocks_seq()[0].hash == old(self).chains_seq()[i].blocks_seq()[0].hash) ==> old(self).chains_seq()[j].can_retract_root()
                }) ==> (r is Ok && r->Ok_0 is Some),
            r is Ok && r->Ok_0 is Some ==> {
                &&& final(self).spec_finalized_hash() == r->Ok_0->0.hash
                &&& final(self).spec_next_root_height() == old(self).spec_next_root_height() + 1
                &&& exists|i: int|
                    old(self).is_best(i) && block_fields_eq(
                        r->Ok_0->0,
                        (#[trigger] old(self).chains_seq()[i]).blocks_seq()[0],
                    )
                &&& final(self).chains_seq().len() >= 1
                &&& exists|i: int|
                    (#[trigger] old(self).is_best(i)) && final(self).chains_seq()[0].state()
                        == state_revert_seq_rev(
                        old(self).chains_seq()[i].state(),
                        old(self).chains_seq()[i].blocks_seq()[0].updates@,
                    ) && final(self).chains_seq()[0].blocks_seq() == old(self).chains_seq()[i].blocks_seq().subrange(
                        1,
                        old(self).chains_seq()[i].blocks_seq().len() as int,
                    )
                &&& forall|k: int|
                    #![trigger final(self).chains_seq()[k]]
                    1 <= k < final(self).chains_seq().len() ==> exists|j: int|
                        0 <= j < old(self).chains_seq().len() && (#[trigger] old(self).chains_seq()[j]).blocks_seq().len() > 0 && old(self).chains_seq()[j].blocks_seq()[0].hash == r->Ok_0->0.hash && final(self).chains_seq()[k].state() == state_revert_seq_rev(
                            old(self).chains_seq()[j].state(),
                            old(self).chains_seq()[j].blocks_seq()[0].updates@,
                        ) && final(self).chains_seq()[k].blocks_seq() == old(self).chains_seq()[j].blocks_seq().subrange(
                            1,
                            old(self).chains_seq()[j].blocks_seq().len() as int,
                        )
            },
    {
        let bi = match self.best_index() {
            None => {
                proof {
                    assert forall|i: int| !(#[trigger] old(self).is_best(i)) by {}
                }
                return Ok(None);
            },
            Some(i) => i,
        };
        if self.chains[bi].len() <= self.finality_depth {
            proof {
                assert forall|j: int| #[trigger] old(self).is_best(j) implies !(old(self).chains_seq()[j].blocks_seq().len() > old(self).spec_finality_depth()) by {
                    lemma_is_best_unique(*old(self), j, bi as int);
                }
            }
            return Ok(None);
        }
        let ghost best_idx = bi as int;
        proof {
            old(self).chains@[best_idx].lemma_wf_facts();
            assert(old(self).is_best(best_idx) && old(self).chains_seq()[best_idx].blocks_seq().len() > old(self).spec_finality_depth());
        }
        let mut best = self.chains.remove(bi);
        let finalized = match best.retract_root() {
            Ok(b) => b,
            Err(f) => {
                proof {
                    assert(!old(self).chains_seq()[best_idx].can_retract_root());
                    assert forall|i2: int|
                        ({
                            &&& #[trigger] old(self).is_best(i2)
                            &&& old(self).chains_seq()[i2].blocks_seq().len() > old(self).spec_finality_depth()
                            &&& forall|j: int|
                                (0 <= j < old(self).chains_seq().len() && (#[trigger] old(self).chains_seq()[j]).blocks_seq().len() > 0 && old(self).chains_seq()[j].blocks_seq()[0].hash == old(self).chains_seq()[i2].blocks_seq()[0].hash) ==> old(self).chains_seq()[j].can_retract_root()
                        }) implies false by {
                        lemma_is_best_unique(*old(self), i2, best_idx);
                        assert(old(self).chains_seq()[best_idx].blocks_seq().len() > 0);
                        assert(old(self).chains_seq()[best_idx].can_retract_root());
                    }
                }
                return Err(f);
            },
        };
        let mut kept: Vec<ChainForkNode> = Vec::new();
        kept.push(best);
        let ghost rem = old(self).chains@.remove(best_idx);
        let ghost mut processed: int = 0;
        proof {
            assert(finalized.height == old(self).spec_next_root_height());
            assert(old(self).spec_next_root_height() + 1 <= u32::MAX);
            assert(finalized.hash == old(self).chains_seq()[best_idx].blocks_seq()[0].hash);
            assert(self.chains@ =~= rem.skip(0));
            assert forall|j: int| 0 <= j < rem.len() implies ((#[trigger] rem[j]).wf()
                && rem[j].spec_root_parent_hash() == old(self).spec_finalized_hash()
                && rem[j].spec_root_height() == old(self).spec_next_root_height() && exists|
                j2: int,
            |
                0 <= j2 < old(self).chains_seq().len() && (#[trigger] old(self).chains_seq()[j2])
                    == rem[j]) by {
                if j < best_idx {
                    assert(rem[j] == old(self).chains@[j]);
                    assert(old(self).chains_seq()[j] == rem[j]);
                } else {
                    assert(rem[j] == old(self).chains@[j + 1]);
                    assert(old(self).chains_seq()[j + 1] == rem[j]);
                }
            }
        }
        while self.chains.len() > 0
            invariant
                old(self).wf(),
                0 <= processed <= rem.len(),
                self.chains@ == rem.skip(processed),
                finalized.height == old(self).spec_next_root_height(),
                finalized.hash == old(self).chains_seq()[best_idx].blocks_seq()[0].hash,
                0 <= best_idx < old(self).chains_seq().len(),
                old(self).is_best(best_idx),
                old(self).chains_seq()[best_idx].blocks_seq().len() > old(self).spec_finality_depth(),
                rem == old(self).chains@.remove(best_idx),
                forall|j: int|
                    0 <= j < rem.len() ==> ((#[trigger] rem[j]).wf()
                        && rem[j].spec_root_parent_hash() == old(self).spec_finalized_hash()
                        && rem[j].spec_root_height() == old(self).spec_next_root_height()
                        && exists|j2: int|
                        0 <= j2 < old(self).chains_seq().len() && (#[trigger] old(self).chains_seq()[j2]) == rem[j]),
                kept@.len() >= 1,
                forall|j: int|
                    0 <= j < kept@.len() ==> ((#[trigger] kept@[j]).wf()
                        && kept@[j].spec_root_parent_hash() == finalized.hash && kept@[
                    j].spec_root_height() == old(self).spec_next_root_height() + 1),
                kept@[0].state() == state_revert_seq_rev(
                    old(self).chains_seq()[best_idx].state(),
                    old(self).chains_seq()[best_idx].blocks_seq()[0].updates@,
                ),
                kept@[0].blocks_seq() == old(self).chains_seq()[best_idx].blocks_seq().subrange(
                    1,
                    old(self).chains_seq()[best_idx].blocks_seq().len() as int,
                ),
                forall|k: int|
                    #![trigger kept@[k]]
                    1 <= k < kept@.len() ==> exists|j: int|
                        0 <= j < old(self).chains_seq().len() && (#[trigger] old(self).chains_seq()[j]).blocks_seq().len() > 0 && old(self).chains_seq()[j].blocks_seq()[0].hash == finalized.hash && kept@[k].state()
                            == state_revert_seq_rev(
                            old(self).chains_seq()[j].state(),
                            old(self).chains_seq()[j].blocks_seq()[0].updates@,
                        ) && kept@[k].blocks_seq() == old(self).chains_seq()[j].blocks_seq().subrange(
                            1,
                            old(self).chains_seq()[j].blocks_seq().len() as int,
                        ),
                old(self).spec_next_root_height() + 1 <= u32::MAX,
                self.next_root_height == old(self).spec_next_root_height(),
                self.finalized_hash == old(self).spec_finalized_hash(),
            decreases self.chains@.len(),
        {
            let ghost pre_node = rem.skip(processed)[0];
            proof {
                assert(pre_node == rem[processed]);
            }
            let mut node = self.chains.remove(0);
            proof {
                processed = processed + 1;
                assert(self.chains@ =~= rem.skip(processed));
            }
            let drop_node = match node.root_hash() {
                Some(h) => h != finalized.hash,
                None => true,
            };
            if !drop_node {
                let ghost jj = choose|j2: int|
                    0 <= j2 < old(self).chains_seq().len() && (#[trigger] old(self).chains_seq()[j2]) == pre_node;
                match node.retract_root() {
                    Ok(_) => {
                        kept.push(node);
                        proof {
                            assert(kept@.last() == node);
                            assert(old(self).chains_seq()[jj].blocks_seq().len() > 0);
                            assert(old(self).chains_seq()[jj].blocks_seq()[0].hash
                                == finalized.hash);
                        }
                    },
                    Err(f) => {
                        proof {
                            assert(!old(self).chains_seq()[jj].can_retract_root());
                            assert forall|i2: int|
                                ({
                                    &&& #[trigger] old(self).is_best(i2)
                                    &&& old(self).chains_seq()[i2].blocks_seq().len() > old(self).spec_finality_depth()
                                    &&& forall|j: int|
                                        (0 <= j < old(self).chains_seq().len() && (#[trigger] old(self).chains_seq()[j]).blocks_seq().len() > 0 && old(self).chains_seq()[j].blocks_seq()[0].hash == old(self).chains_seq()[i2].blocks_seq()[0].hash) ==> old(self).chains_seq()[j].can_retract_root()
                                }) implies false by {
                                lemma_is_best_unique(*old(self), i2, best_idx);
                                assert(old(self).chains_seq()[jj].blocks_seq().len() > 0);
                                assert(old(self).chains_seq()[jj].blocks_seq()[0].hash == old(self).chains_seq()[best_idx].blocks_seq()[0].hash);
                                assert(old(self).chains_seq()[jj].can_retract_root());
                            }
                        }
                        return Err(f);
                    },
                }
            }
        }
        self.chains = kept;
        self.finalized_hash = finalized.hash;
        self.next_root_height = self.next_root_height + 1;
        proof {
            assert(self.wf());
            assert(old(self).is_best(best_idx) && block_fields_eq(
                finalized,
                (#[trigger] old(self).chains_seq()[best_idx]).blocks_seq()[0],
            ));
        }
        Ok(Some(finalized))
    }
}

/// At most one chain is the first with a given tip hash.
proof fn lemma_first_tip_match_unique(s: ForkSet, p: u64, i: int, j: int)
    requires
        s.first_tip_match(p, i),
        s.first_tip_match(p, j),
    ensures
        i == j,
{
    if i < j {
        assert(s.chains_seq()[i].spec_tip_hash() != p);
    }
    if j < i {
        assert(s.chains_seq()[j].spec_tip_hash() != p);
    }
}

/// Where no tip carries the hash, no chain is a first tip match.
proof fn lemma_no_tip_match_no_first(s: ForkSet, p: u64)
    requires
        !s.tip_matches(p),
    ensures
        forall|i: int| !(#[trigger] s.first_tip_match(p, i)),
{
    assert forall|i: int| !(#[trigger] s.first_tip_match(p, i)) by {
        if s.first_tip_match(p, i) {
            assert((#[trigger] s.chains_seq()[i]).spec_tip_hash() == p);
            assert(s.tip_matches(p));
        }
    }
}

/// At most one block is the first, in scan order, with a given hash.
proof fn lemma_first_block_match_unique(s: ForkSet, h: u64, c1: int, b1: int, c2: int, b2: int)
    requires
        s.first_block_match(h, c1, b1),
        s.first_block_match(h, c2, b2),
    ensures
        c1 == c2,
        b1 == b2,
{
    if c1 < c2 || (c1 == c2 && b1 < b2) {
        assert(s.chains_seq()[c1].blocks_seq()[b1].hash != h);
    }
    if c2 < c1 || (c1 == c2 && b2 < b1) {
        assert(s.chains_seq()[c2].blocks_seq()[b2].hash != h);
    }
}

/// Where no chain holds a block with the hash, nothing is a first match.
proof fn lemma_no_held_block_no_first(s: ForkSet, h: u64)
    requires
        !s.holds_block(h),
    ensures
        forall|c: int, b: int| !(#[trigger] s.first_block_match(h, c, b)),
{
    assert forall|c: int, b: int| !(#[trigger] s.first_block_match(h, c, b)) by {
        if s.first_block_match(h, c, b) {
            assert(0 <= c < s.chains_seq().len() && 0 <= b < s.chains_seq()[c].blocks_seq().len()
                && (#[trigger] s.chains_seq()[c].blocks_seq()[b]).hash == h);
            assert(s.holds_block(h));
        }
    }
}

/// The best chain, first among equals, is unique.
proof fn lemma_is_best_unique(s: ForkSet, i: int, j: int)
    requires
        s.is_best(i),
        s.is_best(j),
    ensures
        i == j,
{
    if i < j {
        assert(s.chains_seq()[i].blocks_seq().len() < s.chains_seq()[j].blocks_seq().len());
        assert(s.chains_seq()[j].blocks_seq().len() <= s.chains_seq()[i].blocks_seq().len());
    }
    if j < i {
        assert(s.chains_seq()[j].blocks_seq().len() < s.chains_seq()[i].blocks_seq().len());
        assert(s.chains_seq()[i].blocks_seq().len() <= s.chains_seq()[j].blocks_seq().len());
    }
}

} // verus!
