//! Apps: ordered lists of blocks whose scopes are balanced, and the hashes of their
//! prefixes.

use crate::blocks::block::{Block, BlockType};
use crate::blocks::root::Root;
use crate::blocks::search::Search;
use crate::blocks::while_loop::While;
use crate::hashing::{absorb, content_hash, hash_bytes};
use crate::text::same_text;
use vstd::prelude::*;
use vstd::string::StringExecFns;
use vstd::utf8::encode_utf8;

verus! {

/// One block of an app: its kind, its name, the hash of its parameters, and, for a `while`
/// block, the number of passes that it allows.
pub struct AppBlock {
    pub block_type: BlockType,
    pub name: String,
    pub inner_hash: String,
    pub max_iterations: usize,
}

/// The mathematical form of an [`AppBlock`].
pub struct BlockShape {
    pub block_type: BlockType,
    pub name: Seq<char>,
    pub inner_hash: Seq<char>,
    pub max_iterations: nat,
}

impl DeepView for AppBlock {
    type V = BlockShape;

    open spec fn deep_view(&self) -> BlockShape {
        BlockShape {
            block_type: self.block_type,
            name: self.name@,
            inner_hash: self.inner_hash@,
            max_iterations: self.max_iterations as nat,
        }
    }
}

impl AppBlock {
    /// A block of the given kind that is executed by what runs the app.
    pub fn new(block_type: BlockType, name: &str, inner_hash: &str) -> (b: AppBlock)
        ensures
            b.deep_view() == (BlockShape {
                block_type,
                name: name@,
                inner_hash: inner_hash@,
                max_iterations: 0,
            }),
    {
        AppBlock {
            block_type,
            name: String::from_str(name),
            inner_hash: String::from_str(inner_hash),
            max_iterations: 0,
        }
    }

    /// A `root` block under the given name.
    pub fn root(name: &str, block: &Root) -> (b: AppBlock)
        ensures
            b.deep_view() == (BlockShape {
                block_type: BlockType::Root,
                name: name@,
                inner_hash: content_hash(block.hashed()),
                max_iterations: 0,
            }),
    {
        AppBlock {
            block_type: BlockType::Root,
            name: String::from_str(name),
            inner_hash: block.inner_hash(),
            max_iterations: 0,
        }
    }

    /// A `search` block under the given name.
    pub fn search(name: &str, block: &Search) -> (b: AppBlock)
        ensures
            b.deep_view() == (BlockShape {
                block_type: BlockType::Search,
                name: name@,
                inner_hash: content_hash(block.hashed()),
                max_iterations: 0,
            }),
    {
        AppBlock {
            block_type: BlockType::Search,
            name: String::from_str(name),
            inner_hash: block.inner_hash(),
            max_iterations: 0,
        }
    }

    /// A `while` block under the given name.
    pub fn while_loop(name: &str, block: &While) -> (b: AppBlock)
        ensures
            b.deep_view() == (BlockShape {
                block_type: BlockType::While,
                name: name@,
                inner_hash: content_hash(block.hashed()),
                max_iterations: block@.max_iterations,
            }),
            b.max_iterations <= 32,
    {
        AppBlock {
            block_type: BlockType::While,
            name: String::from_str(name),
            inner_hash: block.inner_hash(),
            max_iterations: block.max_iterations(),
        }
    }
}

/// Why a list of blocks is no app. Positions are counted from 0.
#[derive(Debug, PartialEq, Eq)]
pub enum AppError {
    /// The first block is no `root` block, or there is no block.
    RootMissing,
    /// A `root` block that is not the first block.
    RootRepeated { position: usize },
    /// A block whose name an earlier block has.
    DuplicateName { position: usize },
    /// A `reduce` that closes no `map`, or an `end` that closes no `while`.
    Unmatched { position: usize },
    /// A `map` without its `reduce`, or a `while` without its `end`.
    Unclosed { position: usize },
}

/// The kind of block that closes a scope which a block of the given kind opens.
pub open spec fn closer_of(opener: BlockType) -> Option<BlockType> {
    match opener {
        BlockType::MapEach => Some(BlockType::Reduce),
        BlockType::While => Some(BlockType::End),
        _ => None,
    }
}

/// True of `reduce` and `end`, which close a scope.
pub open spec fn closes(block_type: BlockType) -> bool {
    block_type == BlockType::Reduce || block_type == BlockType::End
}

/// Whether the blocks from `from` up to `to` are a sequence of plain blocks and of scopes,
/// each opened by a `map` or `while` and closed by its `reduce` or `end` at the position that
/// `closers` names, with such a sequence in between.
pub open spec fn well_scoped(types: Seq<BlockType>, closers: Seq<int>, from: int, to: int) -> bool
    decreases to - from,
{
    if from >= to {
        from == to
    } else if closes(types[from]) {
        false
    } else if closer_of(types[from]) is Some {
        let end = closers[from];
        from < end < to && Some(types[end]) == closer_of(types[from]) && well_scoped(
            types,
            closers,
            from + 1,
            end,
        ) && well_scoped(types, closers, end + 1, to)
    } else {
        well_scoped(types, closers, from + 1, to)
    }
}

/// What is wrong with the scopes of a list of blocks.
pub enum ScopeFault {
    /// A closer that closes nothing, or not the scope that is open.
    Unmatched { position: int },
    /// An opener whose scope is not closed.
    Unclosed { position: int },
}

/// Where the sequence of blocks and scopes that starts at `from` stops: at the first closer
/// that closes none of its scopes, or behind the last block. An error names the first scope
/// that is not closed by a closer of its kind.
pub open spec fn scanned(types: Seq<BlockType>, from: int) -> Result<int, ScopeFault>
    decreases types.len() - from,
{
    if from < 0 || from >= types.len() {
        Ok(types.len() as int)
    } else if closes(types[from]) {
        Ok(from)
    } else if closer_of(types[from]) is Some {
        match scanned(types, from + 1) {
            Err(fault) => Err(fault),
            Ok(end) => if end <= from || end >= types.len() {
                Err(ScopeFault::Unclosed { position: from })
            } else if Some(types[end]) != closer_of(types[from]) {
                Err(ScopeFault::Unmatched { position: end })
            } else {
                scanned(types, end + 1)
            },
        }
    } else {
        scanned(types, from + 1)
    }
}

/// The first position behind the first block that holds a `root` block.
pub open spec fn repeated_root(types: Seq<BlockType>, from: int) -> Option<int>
    decreases types.len() - from,
{
    if from < 1 || from >= types.len() {
        None
    } else if types[from] == BlockType::Root {
        Some(from)
    } else {
        repeated_root(types, from + 1)
    }
}

/// Whether a name is that of one of the first `count` blocks.
pub open spec fn named_before(blocks: Seq<AppBlock>, count: int, name: Seq<char>) -> bool {
    exists|k: int| 0 <= k < count && k < blocks.len() && #[trigger] blocks[k].name@ == name
}

/// The first position from `from` on whose block has the name of an earlier block.
pub open spec fn duplicate_name(blocks: Seq<AppBlock>, from: int) -> Option<int>
    decreases blocks.len() - from,
{
    if from < 0 || from >= blocks.len() {
        None
    } else if named_before(blocks, from, blocks[from].name@) {
        Some(from)
    } else {
        duplicate_name(blocks, from + 1)
    }
}

/// The mathematical form of an [`AppError`].
pub enum AppFault {
    RootMissing,
    RootRepeated { position: int },
    DuplicateName { position: int },
    Unmatched { position: int },
    Unclosed { position: int },
}

impl View for AppError {
    type V = AppFault;

    open spec fn view(&self) -> AppFault {
        match self {
            AppError::RootMissing => AppFault::RootMissing,
            AppError::RootRepeated { position } => AppFault::RootRepeated {
                position: *position as int,
            },
            AppError::DuplicateName { position } => AppFault::DuplicateName {
                position: *position as int,
            },
            AppError::Unmatched { position } => AppFault::Unmatched { position: *position as int },
            AppError::Unclosed { position } => AppFault::Unclosed { position: *position as int },
        }
    }
}

/// What is wrong with a list of blocks, if anything. An app starts with its one `root`
/// block, no two of its blocks have the same name, and its scopes are balanced.
pub open spec fn app_fault(blocks: Seq<AppBlock>) -> Option<AppFault> {
    let types = types_of(blocks);
    if blocks.len() == 0 || types[0] != BlockType::Root {
        Some(AppFault::RootMissing)
    } else if repeated_root(types, 1) is Some {
        Some(AppFault::RootRepeated { position: repeated_root(types, 1)->0 })
    } else if duplicate_name(blocks, 0) is Some {
        Some(AppFault::DuplicateName { position: duplicate_name(blocks, 0)->0 })
    } else {
        match scanned(types, 0) {
            Err(ScopeFault::Unmatched { position }) => Some(AppFault::Unmatched { position }),
            Err(ScopeFault::Unclosed { position }) => Some(AppFault::Unclosed { position }),
            Ok(end) => if end < types.len() {
                Some(AppFault::Unmatched { position: end })
            } else {
                None
            },
        }
    }
}

/// The kinds of a list of blocks.
pub open spec fn types_of(blocks: Seq<AppBlock>) -> Seq<BlockType> {
    Seq::new(blocks.len(), |i: int| blocks[i].block_type)
}

/// The bytes that are hashed for the prefix of an app that ends at position `upto`: the
/// hashes of its blocks, one after the other.
pub open spec fn prefix_bytes(blocks: Seq<AppBlock>, upto: int) -> Seq<u8>
    decreases upto + 1,
{
    if upto < 0 {
        Seq::empty()
    } else {
        prefix_bytes(blocks, upto - 1) + encode_utf8(blocks[upto].inner_hash@)
    }
}

/// The hash of the prefix of an app that ends at position `upto`.
pub open spec fn prefix_hash(blocks: Seq<AppBlock>, upto: int) -> Seq<char> {
    content_hash(prefix_bytes(blocks, upto))
}

/// Scopes that are well formed under one list of closers are so under another that agrees
/// with it between the two positions.
proof fn lemma_well_scoped_frame(
    types: Seq<BlockType>,
    a: Seq<int>,
    b: Seq<int>,
    from: int,
    to: int,
)
    requires
        0 <= from,
        to <= types.len(),
        well_scoped(types, a, from, to),
        forall|k: int| from <= k < to ==> a[k] == b[k],
    ensures
        well_scoped(types, b, from, to),
    decreases to - from,
{
    if from < to {
        if closer_of(types[from]) is Some {
            let end = a[from];
            lemma_well_scoped_frame(types, a, b, from + 1, end);
            lemma_well_scoped_frame(types, a, b, end + 1, to);
        } else {
            lemma_well_scoped_frame(types, a, b, from + 1, to);
        }
    }
}

fn closer_kind(block_type: BlockType) -> (r: Option<BlockType>)
    ensures
        r == closer_of(block_type),
{
    match block_type {
        BlockType::MapEach => Some(BlockType::Reduce),
        BlockType::While => Some(BlockType::End),
        _ => None,
    }
}

fn is_closer(block_type: BlockType) -> (r: bool)
    ensures
        r == closes(block_type),
{
    match block_type {
        BlockType::Reduce => true,
        BlockType::End => true,
        _ => false,
    }
}

/// The closers as positions in mathematical form.
pub open spec fn positions(closers: Seq<usize>) -> Seq<int> {
    Seq::new(closers.len(), |i: int| closers[i] as int)
}

/// Scans the sequence of blocks and scopes that starts at `from`, and notes for each scope
/// where it is closed.
fn scan(blocks: &Vec<AppBlock>, from: usize, closers: &mut Vec<usize>) -> (r: Result<
    usize,
    AppError,
>)
    requires
        from <= blocks@.len(),
        old(closers)@.len() == blocks@.len(),
    ensures
        final(closers)@.len() == blocks@.len(),
        forall|k: int| 0 <= k < from ==> final(closers)@[k] == old(closers)@[k],
        match r {
            Ok(end) => scanned(types_of(blocks@), from as int) == Ok::<int, ScopeFault>(end as int)
                && from <= end <= blocks@.len() && well_scoped(
                types_of(blocks@),
                positions(final(closers)@),
                from as int,
                end as int,
            ),
            Err(AppError::Unmatched { position }) => scanned(types_of(blocks@), from as int)
                == Err::<int, _>(ScopeFault::Unmatched { position: position as int }),
            Err(AppError::Unclosed { position }) => scanned(types_of(blocks@), from as int)
                == Err::<int, _>(ScopeFault::Unclosed { position: position as int }),
            Err(_) => false,
        },
    decreases blocks@.len() - from,
{
    let ghost types = types_of(blocks@);
    if from == blocks.len() {
        return Ok(from);
    }
    let kind = blocks[from].block_type;
    assert(types[from as int] == kind);
    if is_closer(kind) {
        return Ok(from);
    }
    match closer_kind(kind) {
        None => scan(blocks, from + 1, closers),
        Some(closer) => {
            let end = match scan(blocks, from + 1, closers) {
                Ok(end) => end,
                Err(e) => {
                    return Err(e);
                },
            };
            if end >= blocks.len() {
                return Err(AppError::Unclosed { position: from });
            }
            assert(types[end as int] == blocks@[end as int].block_type);
            if blocks[end].block_type != closer {
                return Err(AppError::Unmatched { position: end });
            }
            let ghost inner = positions(closers@);
            closers.set(from, end);
            let ghost marked = positions(closers@);
            proof {
                lemma_well_scoped_frame(types, inner, marked, from + 1, end as int);
            }
            let r = scan(blocks, end + 1, closers);
            proof {
                if r is Ok {
                    let after = positions(closers@);
                    assert(after[from as int] == end);
                    lemma_well_scoped_frame(types, marked, after, from + 1, end as int);
                }
            }
            r
        },
    }
}

/// An app: a list of blocks that starts with its one `root` block, in which no two blocks
/// have the same name, and whose scopes are balanced.
pub struct App {
    blocks: Vec<AppBlock>,
    closers: Vec<usize>,
    prefixes: Vec<String>,
}

impl View for App {
    type V = Seq<BlockShape>;

    closed spec fn view(&self) -> Seq<BlockShape> {
        self.blocks.deep_view()
    }
}

/// Whether a name is that of one of the first `count` blocks.
fn name_taken(blocks: &Vec<AppBlock>, count: usize, name: &str) -> (r: bool)
    requires
        count <= blocks@.len(),
    ensures
        r == named_before(blocks@, count as int, name@),
{
    let mut k: usize = 0;
    while k < count
        invariant
            k <= count <= blocks@.len(),
            forall|j: int| 0 <= j < k ==> blocks@[j].name@ != name@,
        decreases count - k,
    {
        if same_text(blocks[k].name.as_str(), name) {
            return true;
        }
        k += 1;
    }
    false
}

impl App {
    #[verifier::type_invariant]
    spec fn valid(&self) -> bool {
        &&& app_fault(self.blocks@) is None
        &&& self.closers@.len() == self.blocks@.len()
        &&& self.prefixes@.len() == self.blocks@.len()
        &&& well_scoped(
            types_of(self.blocks@),
            positions(self.closers@),
            0,
            self.blocks@.len() as int,
        )
        &&& forall|i: int|
            0 <= i < self.blocks@.len() ==> (#[trigger] self.prefixes@[i])@ == prefix_hash(
                self.blocks@,
                i,
            )
    }

    /// The blocks of the app.
    pub closed spec fn blocks(&self) -> Seq<AppBlock> {
        self.blocks@
    }

    /// Where each scope of the app is closed: for the position of a `map` or `while`, that of
    /// its `reduce` or `end`.
    pub closed spec fn closers(&self) -> Seq<int> {
        positions(self.closers@)
    }

    /// Makes an app of a list of blocks, or says what is wrong with the list.
    pub fn new(blocks: Vec<AppBlock>) -> (r: Result<App, AppError>)
        ensures
            match r {
                Ok(app) => app_fault(blocks@) is None && app.blocks() == blocks@ && app@
                    == blocks.deep_view(),
                Err(e) => app_fault(blocks@) == Some(e@),
            },
    {
        let ghost types = types_of(blocks@);
        if blocks.len() == 0 {
            return Err(AppError::RootMissing);
        }
        assert(types[0] == blocks@[0].block_type);
        if blocks[0].block_type != BlockType::Root {
            return Err(AppError::RootMissing);
        }
        let mut i: usize = 1;
        while i < blocks.len()
            invariant
                1 <= i <= blocks.len(),
                types == types_of(blocks@),
                types[0] == BlockType::Root,
                repeated_root(types, 1) == repeated_root(types, i as int),
            decreases blocks.len() - i,
        {
            assert(types[i as int] == blocks@[i as int].block_type);
            if blocks[i].block_type == BlockType::Root {
                return Err(AppError::RootRepeated { position: i });
            }
            i += 1;
        }
        let mut j: usize = 0;
        while j < blocks.len()
            invariant
                j <= blocks.len(),
                blocks.len() > 0,
                types == types_of(blocks@),
                types[0] == BlockType::Root,
                repeated_root(types, 1) is None,
                duplicate_name(blocks@, 0) == duplicate_name(blocks@, j as int),
            decreases blocks.len() - j,
        {
            if name_taken(&blocks, j, blocks[j].name.as_str()) {
                return Err(AppError::DuplicateName { position: j });
            }
            j += 1;
        }
        let mut closers: Vec<usize> = Vec::new();
        let mut k: usize = 0;
        while k < blocks.len()
            invariant
                k <= blocks.len(),
                closers@.len() == k,
            decreases blocks.len() - k,
        {
            closers.push(0);
            k += 1;
        }
        let end = match scan(&blocks, 0, &mut closers) {
            Ok(end) => end,
            Err(e) => {
                return Err(e);
            },
        };
        if end < blocks.len() {
            return Err(AppError::Unmatched { position: end });
        }
        let mut prefixes: Vec<String> = Vec::new();
        let mut buffer: Vec<u8> = Vec::new();
        let mut p: usize = 0;
        while p < blocks.len()
            invariant
                p <= blocks.len(),
                prefixes@.len() == p,
                buffer@ == prefix_bytes(blocks@, p as int - 1),
                forall|i: int| 0 <= i < p ==> (#[trigger] prefixes@[i])@ == prefix_hash(blocks@, i),
            decreases blocks.len() - p,
        {
            absorb(&mut buffer, blocks[p].inner_hash.as_str());
            prefixes.push(hash_bytes(buffer.as_slice()));
            p += 1;
        }
        Ok(App { blocks, closers, prefixes })
    }

    /// The number of blocks. There is at least one; nothing is wrong with the list, and its
    /// scopes are closed where the app says.
    pub fn len(&self) -> (n: usize)
        ensures
            n == self.blocks().len(),
            n == self@.len(),
            n > 0,
            app_fault(self.blocks()) is None,
            self.closers().len() == n,
            well_scoped(types_of(self.blocks()), self.closers(), 0, n as int),
    {
        proof {
            use_type_invariant(self);
        }
        self.blocks.len()
    }

    /// The block at a position.
    pub fn block(&self, position: usize) -> (b: &AppBlock)
        requires
            position < self.blocks().len(),
        ensures
            *b == self.blocks()[position as int],
    {
        &self.blocks[position]
    }

    /// The hash of the prefix of the app that ends at a position: that of the hashes of its
    /// blocks up to there.
    pub fn prefix_hash(&self, position: usize) -> (h: &String)
        requires
            position < self.blocks().len(),
        ensures
            h@ == prefix_hash(self.blocks(), position as int),
    {
        proof {
            use_type_invariant(self);
        }
        &self.prefixes[position]
    }

    /// The hash of the app: that of the prefix that ends at its last block.
    pub fn hash(&self) -> (h: &String)
        ensures
            h@ == prefix_hash(self.blocks(), self.blocks().len() - 1),
    {
        proof {
            use_type_invariant(self);
        }
        &self.prefixes[self.prefixes.len() - 1]
    }

    /// Where the scope that the block at a position opens is closed.
    pub fn closer(&self, position: usize) -> (end: usize)
        requires
            position < self.blocks().len(),
            closer_of(self.blocks()[position as int].block_type) is Some,
        ensures
            end == self.closers()[position as int],
    {
        proof {
            use_type_invariant(self);
        }
        self.closers[position]
    }
}

} // verus!
