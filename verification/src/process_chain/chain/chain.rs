//! Process chains: blocks run one after another, and a registry of chains
//! by id.
use vstd::prelude::*;
use crate::process_chain::block::block::{Block, LineModel, labels_model, lines_model};
use crate::process_chain::block::context::Context;
use crate::process_chain::block::exec::{
    BlockExecuter, BlockResult, BlockRun, jumps_left, run_block, run_line, Run,
};
use crate::process_chain::block::cmd::cmd::ActionModel;
use crate::process_chain::block::block::label_target;
use crate::text::{chars_eq, chars_of};

verus! {

broadcast use vstd::std_specs::vec::group_vec_axioms;

/// The parsed form of a block as the runner sees it: its lines and its
/// labels.
pub open spec fn block_model(b: Block) -> (Seq<LineModel>, Seq<(Seq<char>, usize)>) {
    (lines_model(b.lines@), labels_model(b.label_map@))
}

/// Running blocks from `i` on with `counter` jumps taken: the first block
/// that does not complete decides; the jump count carries across blocks.
pub open spec fn run_chain(blocks: Seq<Block>, i: int, counter: int) -> (BlockRun, int)
    decreases blocks.len() - i,
{
    if i < 0 || i >= blocks.len() {
        (BlockRun::Gives(BlockResult::Complete), counter)
    } else {
        let (r, c) = run_block(block_model(blocks[i]).0, block_model(blocks[i]).1, 0, counter);
        match r {
            BlockRun::Gives(BlockResult::Complete) => run_chain(blocks, i + 1, c),
            _ => (r, c),
        }
    }
}

/// Law: a block that completes hands on to the next block, with the jump
/// count it reached; any other end of a block (drop, pass, an error, a
/// panic) is the end of the chain.
pub proof fn law_chain_steps(blocks: Seq<Block>, i: int, counter: int)
    requires
        0 <= i < blocks.len(),
    ensures
        ({
            let (r, c) = run_block(block_model(blocks[i]).0, block_model(blocks[i]).1, 0, counter);
            &&& r == BlockRun::Gives(BlockResult::Complete) ==> run_chain(blocks, i, counter)
                == run_chain(blocks, i + 1, c)
            &&& r != BlockRun::Gives(BlockResult::Complete) ==> run_chain(blocks, i, counter) == (
            r, c)
        }),
{
}

/// Law: a chain completes exactly when each of its blocks, run in turn
/// with the jump count the ones before it left, completes.
pub proof fn law_chain_completes(blocks: Seq<Block>, i: int, counter: int)
    requires
        0 <= i <= blocks.len(),
    ensures
        run_chain(blocks, i, counter).0 == BlockRun::Gives(BlockResult::Complete) <==> (i
            == blocks.len() || (run_block(
            block_model(blocks[i]).0,
            block_model(blocks[i]).1,
            0,
            counter,
        ).0 == BlockRun::Gives(BlockResult::Complete) && run_chain(
            blocks,
            i + 1,
            run_block(block_model(blocks[i]).0, block_model(blocks[i]).1, 0, counter).1,
        ).0 == BlockRun::Gives(BlockResult::Complete))),
{
}

/// Law: past its last block a chain completes, with the count unchanged.
pub proof fn law_chain_ends(blocks: Seq<Block>, counter: int)
    ensures
        run_chain(blocks, blocks.len() as int, counter) == (
            BlockRun::Gives(BlockResult::Complete),
            counter,
        ),
{
}

/// Lemma: a block that ends well leaves the jump count within the limit
/// when it started there, and never lowers it.
pub proof fn lemma_run_block_counter(
    lines: Seq<LineModel>,
    labels: Seq<(Seq<char>, usize)>,
    cur: int,
    counter: int,
)
    ensures
        run_block(lines, labels, cur, counter).1 >= counter,
        counter <= 128 && run_block(lines, labels, cur, counter).0 is Gives ==> run_block(
            lines,
            labels,
            cur,
            counter,
        ).1 <= 128,
    decreases jumps_left(counter), lines.len() - cur,
{
    if !(cur < 0 || cur >= lines.len()) {
        match run_line(lines[cur]) {
            Run::Panics => {},
            Run::Gives(r) => match r.action {
                ActionModel::Continue => lemma_run_block_counter(lines, labels, cur + 1, counter),
                ActionModel::Goto(t) => match label_target(labels, t) {
                    Some(n) => {
                        if counter + 1 <= 128 {
                            lemma_run_block_counter(lines, labels, n as int, counter + 1);
                        }
                    },
                    None => {},
                },
                _ => {},
            },
        }
    }
}

/// Law: a block run that starts within the jump limit ends with at most
/// one jump past it, and within it when the block ends well.
pub proof fn law_goto_counter_bounded(
    lines: Seq<LineModel>,
    labels: Seq<(Seq<char>, usize)>,
    cur: int,
    counter: int,
)
    requires
        0 <= counter <= 128,
    ensures
        counter <= run_block(lines, labels, cur, counter).1 <= 129,
        run_block(lines, labels, cur, counter).0 is Gives ==> run_block(
            lines,
            labels,
            cur,
            counter,
        ).1 <= 128,
    decreases jumps_left(counter), lines.len() - cur,
{
    lemma_run_block_counter(lines, labels, cur, counter);
    if !(cur < 0 || cur >= lines.len()) {
        match run_line(lines[cur]) {
            Run::Panics => {},
            Run::Gives(r) => match r.action {
                ActionModel::Continue => law_goto_counter_bounded(lines, labels, cur + 1, counter),
                ActionModel::Goto(t) => match label_target(labels, t) {
                    Some(n) => {
                        if counter + 1 <= 128 {
                            law_goto_counter_bounded(lines, labels, n as int, counter + 1);
                        }
                    },
                    None => {},
                },
                _ => {},
            },
        }
    }
}

/// The blocks after adding `added` one by one to `start`.
pub open spec fn add_all(start: Seq<Block>, added: Seq<Block>) -> Seq<Block>
    decreases added.len(),
{
    if added.len() == 0 {
        start
    } else {
        add_all(start, added.drop_last()).push(added.last())
    }
}

/// Law: blocks added one by one follow the ones there, in the order they
/// were added.
pub proof fn law_blocks_in_order(start: Seq<Block>, added: Seq<Block>)
    ensures
        add_all(start, added) == start + added,
    decreases added.len(),
{
    if added.len() > 0 {
        law_blocks_in_order(start, added.drop_last());
        assert(start + added =~= (start + added.drop_last()).push(added.last()));
    } else {
        assert(start + added =~= start);
    }
}

/// A chain of blocks with an id.
pub struct ProcessChain {
    id: String,
    blocks: Vec<Block>,
}

impl ProcessChain {
    /// The chain's id.
    pub closed spec fn id(&self) -> Seq<char> {
        self.id@
    }

    /// The chain's blocks, in order.
    pub closed spec fn blocks(&self) -> Seq<Block> {
        self.blocks@
    }

    pub fn new(id: String) -> (r: Self)
        ensures
            r.id() == id@,
            r.blocks().len() == 0,
    {
        ProcessChain { id, blocks: Vec::new() }
    }

    /// Adds a block after the others.
    pub fn add_block(&mut self, block: Block)
        ensures
            final(self).id() == old(self).id(),
            final(self).blocks() == old(self).blocks().push(block),
    {
        self.blocks.push(block);
    }

    pub fn get_blocks(&self) -> (r: &Vec<Block>)
        ensures
            r@ == self.blocks(),
    {
        &self.blocks
    }

    /// The chain's id as a string.
    pub fn get_id(&self) -> (r: &String)
        ensures
            r@ == self.id(),
    {
        &self.id
    }

    /// Runs the blocks in order with one executor, so jumps count across
    /// blocks. The first block that drops, passes or fails decides; if
    /// every block completes, the chain completes. The chain must hold a
    /// block, and no block run may reach a command.
    pub fn execute(&self, context: &mut Context) -> (r: Result<BlockResult, String>)
        requires
            self.blocks().len() > 0,
            !(run_chain(self.blocks(), 0, 0).0 is Panics),
        ensures
            run_chain(self.blocks(), 0, 0).0 matches BlockRun::Gives(b) ==> r == Ok::<
                BlockResult,
                String,
            >(b),
            run_chain(self.blocks(), 0, 0).0 matches BlockRun::Fails(m) ==> r matches Err(e) && e@
                == m,
            *final(context) == *old(context),
    {
        let mut block_executer = BlockExecuter::new();
        let ghost whole = run_chain(self.blocks@, 0, 0);
        let mut i: usize = 0;
        while i < self.blocks.len()
            invariant
                i <= self.blocks.len(),
                whole == run_chain(self.blocks@, 0, 0),
                whole == run_chain(self.blocks@, i as int, block_executer.goto_counter as int),
                !(whole.0 is Panics),
                block_executer.goto_counter <= 128,
                *context == *old(context),
            decreases self.blocks.len() - i,
        {
            let block = &self.blocks[i];
            let ghost before = block_executer.goto_counter as int;
            proof {
                lemma_run_block_counter(
                    block_model(*block).0,
                    block_model(*block).1,
                    0,
                    before,
                );
            }
            let result = block_executer.execute_block(block, context);
            match result {
                Err(e) => {
                    return Err(e);
                },
                Ok(res) => {
                    match res {
                        BlockResult::Complete => {},
                        _ => {
                            return Ok(res);
                        },
                    }
                },
            }
            i = i + 1;
        }
        Ok(BlockResult::Complete)
    }
}

/// The map of chains by id; a later chain replaces an earlier one with the
/// same id.
pub open spec fn chains_map(cs: Seq<ProcessChain>) -> Map<Seq<char>, ProcessChain>
    decreases cs.len(),
{
    if cs.len() == 0 {
        Map::empty()
    } else {
        chains_map(cs.drop_last()).insert(cs.last().id(), cs.last())
    }
}

/// Lemma: with distinct ids, the map holds an id exactly when a chain
/// has it, and then that chain.
pub proof fn lemma_chains_map(cs: Seq<ProcessChain>, id: Seq<char>)
    requires
        forall|i: int, j: int| 0 <= i < j < cs.len() ==> cs[i].id() != cs[j].id(),
    ensures
        chains_map(cs).contains_key(id) <==> exists|i: int| 0 <= i < cs.len() && cs[i].id() == id,
        forall|i: int| 0 <= i < cs.len() && cs[i].id() == id ==> chains_map(cs)[id] == cs[i],
    decreases cs.len(),
{
    if cs.len() > 0 {
        let d = cs.drop_last();
        assert forall|i: int, j: int| 0 <= i < j < d.len() implies d[i].id() != d[j].id() by {
            assert(d[i] == cs[i] && d[j] == cs[j]);
        }
        lemma_chains_map(d, id);
        if chains_map(cs).contains_key(id) && id != cs.last().id() {
            let i = choose|i: int| 0 <= i < d.len() && d[i].id() == id;
            assert(cs[i] == d[i]);
        }
        if exists|i: int| 0 <= i < cs.len() && cs[i].id() == id {
            let i = choose|i: int| 0 <= i < cs.len() && cs[i].id() == id;
            if i < cs.len() - 1 {
                assert(d[i] == cs[i]);
            }
        }
        assert forall|i: int| 0 <= i < cs.len() && cs[i].id() == id implies chains_map(cs)[id]
            == cs[i] by {
            if i < cs.len() - 1 {
                assert(d[i] == cs[i]);
                assert(cs[i].id() != cs[cs.len() - 1].id());
            }
        }
    }
}

/// Process chains by id.
pub struct ProcessChainManager {
    chains: Vec<ProcessChain>,
}

impl ProcessChainManager {
    /// The chains by id.
    pub closed spec fn chains(&self) -> Map<Seq<char>, ProcessChain> {
        chains_map(self.chains@)
    }

    #[verifier::type_invariant]
    closed spec fn wf(&self) -> bool {
        forall|i: int, j: int|
            0 <= i < j < self.chains@.len() ==> self.chains@[i].id() != self.chains@[j].id()
    }

    pub fn new() -> (r: Self)
        ensures
            r.chains() == Map::<Seq<char>, ProcessChain>::empty(),
    {
        ProcessChainManager { chains: Vec::new() }
    }

    fn find(&self, id: &Vec<char>) -> (r: Option<usize>)
        ensures
            r matches Some(i) ==> i < self.chains@.len() && self.chains@[i as int].id() == id@,
            r is None ==> forall|i: int|
                0 <= i < self.chains@.len() ==> self.chains@[i].id() != id@,
    {
        let mut i: usize = 0;
        while i < self.chains.len()
            invariant
                i <= self.chains.len(),
                forall|j: int| 0 <= j < i ==> self.chains@[j].id() != id@,
            decreases self.chains.len() - i,
        {
            let c = chars_of(self.chains[i].id.as_str());
            if chars_eq(&c, id) {
                return Some(i);
            }
            i = i + 1;
        }
        None
    }

    /// Adds a chain under its id, replacing any chain with that id.
    pub fn add_chain(&mut self, chain: ProcessChain)
        ensures
            final(self).chains() == old(self).chains().insert(chain.id(), chain),
    {
        proof {
            use_type_invariant(&*self);
        }
        let ghost old_cs = self.chains@;
        let ghost cid = chain.id();
        let idv = chars_of(chain.id.as_str());
        let found = self.find(&idv);
        let mut cs: Vec<ProcessChain> = Vec::new();
        std::mem::swap(&mut cs, &mut self.chains);
        match found {
            Some(i) => {
                cs.set(i, chain);
                proof {
                    let ghost new_cs = cs@;
                    assert(new_cs == old_cs.update(i as int, chain));
                    assert forall|a: int, b: int| 0 <= a < b < new_cs.len() implies new_cs[a].id()
                        != new_cs[b].id() by {
                        assert(new_cs[a].id() == old_cs[a].id() && new_cs[b].id() == old_cs[b].id());
                    }
                    let m1 = chains_map(new_cs);
                    let m2 = chains_map(old_cs).insert(cid, chain);
                    assert forall|h: Seq<char>| #[trigger] m1.contains_key(h) == m2.contains_key(h) by {
                        lemma_chains_map(old_cs, h);
                        lemma_chains_map(new_cs, h);
                        if h != cid {
                            if m2.contains_key(h) {
                                let j = choose|j: int| 0 <= j < old_cs.len() && old_cs[j].id() == h;
                                assert(new_cs[j].id() == h);
                            }
                            if m1.contains_key(h) {
                                let j = choose|j: int| 0 <= j < new_cs.len() && new_cs[j].id() == h;
                                assert(old_cs[j].id() == h);
                            }
                        } else {
                            assert(new_cs[i as int].id() == h);
                        }
                    }
                    assert forall|h: Seq<char>| m1.contains_key(h) implies #[trigger] m1[h] == m2[h] by {
                        lemma_chains_map(old_cs, h);
                        lemma_chains_map(new_cs, h);
                        let j = choose|j: int| 0 <= j < new_cs.len() && new_cs[j].id() == h;
                        if j != i {
                            assert(old_cs[j] == new_cs[j]);
                        }
                    }
                    assert(m1 =~= m2);
                }
            },
            None => {
                cs.push(chain);
                proof {
                    let ghost new_cs = cs@;
                    assert(new_cs == old_cs.push(chain));
                    assert(new_cs.drop_last() =~= old_cs);
                    assert forall|a: int, b: int| 0 <= a < b < new_cs.len() implies new_cs[a].id()
                        != new_cs[b].id() by {
                        assert(new_cs[a] == old_cs[a]);
                        if b < old_cs.len() {
                            assert(new_cs[b] == old_cs[b]);
                        }
                    }
                }
            },
        }
        self.chains = cs;
    }

    /// The chain with id `id`, if any.
    pub fn get_chain(&self, id: &str) -> (r: Option<&ProcessChain>)
        ensures
            r is Some <==> self.chains().contains_key(id@),
            r matches Some(c) ==> *c == self.chains()[id@],
    {
        proof {
            use_type_invariant(self);
            lemma_chains_map(self.chains@, id@);
        }
        let idv = chars_of(id);
        match self.find(&idv) {
            Some(i) => Some(&self.chains[i]),
            None => None,
        }
    }
}

/// Law: a chain added under its id is the one that id then gives, and
/// every other id gives what it gave before.
pub proof fn law_get_after_add(
    before: Map<Seq<char>, ProcessChain>,
    after: Map<Seq<char>, ProcessChain>,
    chain: ProcessChain,
    other: Seq<char>,
)
    requires
        after == before.insert(chain.id(), chain),
    ensures
        after.contains_key(chain.id()) && after[chain.id()] == chain,
        other != chain.id() ==> (after.contains_key(other) == before.contains_key(other)
            && (before.contains_key(other) ==> after[other] == before[other])),
{
}

} // verus!
