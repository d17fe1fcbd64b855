//! The directory tree that a store stands for, as plain content, and what
//! writing such a store out gives: the files and directories of the tree,
//! each where it lies, with its bytes.

use crate::blockdb::{
    first_wins, has_id, keccak256, lemma_first_wins, Block, BlockDb, BlockRef,
};
use crate::frontend::{
    block_added, chosen_root, file_content, intact, intact_children, intact_parts, noted,
    readable, walk, walk_children, walk_parts, written_out, BlockType, Catalog, Decoded, Dir,
    FsStep, Leaf, Meta, PlanVisitor, TreeError, Visitor,
};
use vstd::prelude::*;
use vstd::seq_lib::seq_to_set_is_finite;
use vstd::set_lib::lemma_len_subset;

verus! {

/// A file or a directory, with its name in the directory that it lies in.
pub ghost enum Node {
    /// A file with its bytes.
    File { name: String, data: Seq<u8> },
    /// A directory with what lies in it, in its order.
    Folder { name: String, entries: Seq<Node> },
}

/// The name of a file or directory.
pub open spec fn name_of(node: Node) -> String {
    match node {
        Node::File { name, .. } => name,
        Node::Folder { name, .. } => name,
    }
}

/// Whether the block that `bref` names, which is of the kind `kind`, stands
/// for `node`, at most `depth` levels down. The store has the block in full
/// and its content is known. A file is a leaf with the bytes of the file, or
/// a file list whose leaves are there and hold the bytes of the file one
/// after the other. A directory has an entry for each of the entries of
/// `node`, in their order, with the same name, that stands for it.
pub open spec fn stands_for(
    blockdb: BlockDb,
    catalog: Catalog,
    bref: BlockRef,
    kind: BlockType,
    node: Node,
    depth: nat,
) -> bool
    decreases node,
{
    let id = bref.blockid@;
    &&& blockdb.has(id)
    &&& blockdb.block(id) is Full
    &&& match (node, readable(catalog, id, kind, depth)) {
        (Node::File { data, .. }, Some(Decoded::Leaf(leaf))) => leaf.data@ == data,
        (Node::File { data, .. }, Some(Decoded::Meta(meta))) => {
            &&& file_content(blockdb, catalog, meta.blocks@, 0) == Some(data)
            &&& depth > 1 || meta.blocks@.len() == 0
        },
        (Node::Folder { entries, .. }, Some(Decoded::Dir(dir))) => {
            &&& dir.children@.len() == entries.len()
            &&& forall|i: int|
                0 <= i < entries.len() ==> {
                    let child = dir.children@[i];
                    &&& child.name == name_of(#[trigger] entries[i])
                    &&& stands_for(
                        blockdb,
                        catalog,
                        child.blockref,
                        child._type,
                        entries[i],
                        (depth - 1) as nat,
                    )
                }
        },
        _ => false,
    }
}

/// The steps that write `node` out at `path`: a file is written with its
/// bytes; a directory is created, unless it is the top one, and then what
/// lies in it is written out, each under its name.
pub open spec fn listing(node: Node, path: Seq<String>) -> Seq<FsStep>
    decreases node,
{
    match node {
        Node::File { data, .. } => seq![FsStep::WriteFile(path, data)],
        Node::Folder { entries, .. } => {
            let made = if path.len() == 0 {
                Seq::<FsStep>::empty()
            } else {
                seq![FsStep::CreateDir(path)]
            };
            made + listing_from(entries, path, 0)
        },
    }
}

/// The steps that write out those of `entries` from place `from` on, which
/// lie in the directory at `path`.
pub open spec fn listing_from(entries: Seq<Node>, path: Seq<String>, from: nat) -> Seq<FsStep>
    decreases entries, entries.len() - from,
{
    if from >= entries.len() {
        Seq::empty()
    } else {
        listing(entries[from as int], path.push(name_of(entries[from as int]))) + listing_from(
            entries,
            path,
            from + 1,
        )
    }
}

/// Where a file has its content and the walk may go a level down, the walk
/// that notes the steps passes the leaves of the file list without a step.
proof fn lemma_parts_passed(
    state: Seq<FsStep>,
    blockdb: BlockDb,
    catalog: Catalog,
    meta: Meta,
    path: Seq<String>,
    depth: nat,
    from: nat,
)
    requires
        file_content(blockdb, catalog, meta.blocks@, from).is_some(),
        depth > 0 || meta.blocks@.len() == 0,
    ensures
        walk_parts::<TreeError, PlanVisitor>(state, blockdb, catalog, meta, path, depth, from) == (
            state,
            None::<TreeError>,
        ),
        intact_parts(blockdb, catalog, meta, depth, from),
    decreases meta.blocks@.len() - from,
{
    if from < meta.blocks@.len() {
        lemma_parts_passed(state, blockdb, catalog, meta, path, depth, from + 1);
    }
}

/// The walk that notes the steps, over a block that stands for `node`,
/// notes the steps that write `node` out, and does not end early.
pub proof fn lemma_written(
    state: Seq<FsStep>,
    blockdb: BlockDb,
    catalog: Catalog,
    bref: BlockRef,
    kind: BlockType,
    node: Node,
    path: Seq<String>,
    depth: nat,
)
    requires
        stands_for(blockdb, catalog, bref, kind, node, depth),
    ensures
        walk::<TreeError, PlanVisitor>(state, blockdb, catalog, bref, kind, path, depth) == (
            state + listing(node, path),
            None::<TreeError>,
        ),
        intact(blockdb, catalog, bref, kind, depth),
    decreases node,
{
    let id = bref.blockid@;
    let full = blockdb.block(id)->Full_0;
    match (node, readable(catalog, id, kind, depth)) {
        (Node::File { data, .. }, Some(Decoded::Leaf(leaf))) => {
            assert(state.push(FsStep::WriteFile(path, data)) =~= state + listing(node, path));
        },
        (Node::File { data, .. }, Some(Decoded::Meta(meta))) => {
            let after = state.push(FsStep::WriteFile(path, data));
            lemma_parts_passed(after, blockdb, catalog, meta, path, (depth - 1) as nat, 0);
            assert(after =~= state + listing(node, path));
        },
        (Node::Folder { entries, .. }, Some(Decoded::Dir(dir))) => {
            let after = PlanVisitor::dir_spec(state, path, full, dir).0;
            lemma_written_from(
                after,
                blockdb,
                catalog,
                dir,
                entries,
                path,
                (depth - 1) as nat,
                0,
            );
            assert(after + listing_from(entries, path, 0) =~= state + listing(node, path));
        },
        _ => {},
    }
}

/// The same for the entries of a directory, from place `from` on.
pub proof fn lemma_written_from(
    state: Seq<FsStep>,
    blockdb: BlockDb,
    catalog: Catalog,
    dir: Dir,
    entries: Seq<Node>,
    path: Seq<String>,
    depth: nat,
    from: nat,
)
    requires
        dir.children@.len() == entries.len(),
        forall|i: int|
            0 <= i < entries.len() ==> {
                let child = dir.children@[i];
                &&& child.name == name_of(#[trigger] entries[i])
                &&& stands_for(blockdb, catalog, child.blockref, child._type, entries[i], depth)
            },
    ensures
        walk_children::<TreeError, PlanVisitor>(
            state,
            blockdb,
            catalog,
            dir,
            path,
            depth,
            from,
        ) == (state + listing_from(entries, path, from), None::<TreeError>),
        intact_children(blockdb, catalog, dir, depth, from),
    decreases entries, entries.len() - from,
{
    if from < entries.len() {
        let child = dir.children@[from as int];
        let node = entries[from as int];
        let at = path.push(child.name);
        lemma_written(state, blockdb, catalog, child.blockref, child._type, node, at, depth);
        let after = state + listing(node, at);
        lemma_written_from(after, blockdb, catalog, dir, entries, path, depth, from + 1);
        assert(after + listing_from(entries, path, from + 1) =~= state + listing_from(
            entries,
            path,
            from,
        ));
    } else {
        assert(state + listing_from(entries, path, from) =~= state);
    }
}

/// What stands for a tree at some depth still does where the walk may go
/// deeper.
pub proof fn lemma_deeper(
    blockdb: BlockDb,
    catalog: Catalog,
    bref: BlockRef,
    kind: BlockType,
    node: Node,
    depth: nat,
    more: nat,
)
    requires
        stands_for(blockdb, catalog, bref, kind, node, depth),
        depth <= more,
    ensures
        stands_for(blockdb, catalog, bref, kind, node, more),
    decreases node,
{
    match (node, readable(catalog, bref.blockid@, kind, depth)) {
        (Node::Folder { entries, .. }, Some(Decoded::Dir(dir))) => {
            assert forall|i: int| 0 <= i < entries.len() implies {
                let child = dir.children@[i];
                &&& child.name == name_of(#[trigger] entries[i])
                &&& stands_for(
                    blockdb,
                    catalog,
                    child.blockref,
                    child._type,
                    entries[i],
                    (more - 1) as nat,
                )
            } by {
                let child = dir.children@[i];
                lemma_deeper(
                    blockdb,
                    catalog,
                    child.blockref,
                    child._type,
                    entries[i],
                    (depth - 1) as nat,
                    (more - 1) as nat,
                );
            }
        },
        _ => {},
    }
}

/// The number of levels of a tree: one for a file, and for a directory one
/// more than the deepest of what lies in it has.
pub open spec fn rank(node: Node) -> nat
    decreases node,
{
    match node {
        Node::File { .. } => 1,
        Node::Folder { entries, .. } => 1 + rank_from(entries, 0),
    }
}

/// The number of levels of the deepest of `entries`, from place `from` on.
pub open spec fn rank_from(entries: Seq<Node>, from: nat) -> nat
    decreases entries, entries.len() - from,
{
    if from >= entries.len() {
        0
    } else {
        let head = rank(entries[from as int]);
        let rest = rank_from(entries, from + 1);
        if head >= rest {
            head
        } else {
            rest
        }
    }
}

/// None of `entries` from `from` on is deeper than the deepest of them.
proof fn lemma_rank_from(entries: Seq<Node>, from: nat, at: int)
    requires
        from <= at < entries.len(),
    ensures
        rank(entries[at]) <= rank_from(entries, from),
    decreases entries.len() - from,
{
    if from < at {
        lemma_rank_from(entries, from + 1, at);
    }
}

/// Two lists of trees that are as deep as each other place by place have
/// the same deepest.
proof fn lemma_rank_from_same(one: Seq<Node>, other: Seq<Node>, from: nat)
    requires
        one.len() == other.len(),
        forall|i: int| 0 <= i < one.len() ==> rank(#[trigger] one[i]) == rank(other[i]),
    ensures
        rank_from(one, from) == rank_from(other, from),
    decreases one.len() - from,
{
    if from < one.len() {
        lemma_rank_from_same(one, other, from + 1);
    }
}

/// Two trees that one block stands for are as deep as each other.
proof fn lemma_same_rank(
    blockdb: BlockDb,
    catalog: Catalog,
    bref: BlockRef,
    kind: BlockType,
    node: Node,
    depth: nat,
    bref2: BlockRef,
    kind2: BlockType,
    node2: Node,
    depth2: nat,
)
    requires
        stands_for(blockdb, catalog, bref, kind, node, depth),
        stands_for(blockdb, catalog, bref2, kind2, node2, depth2),
        bref.blockid@ == bref2.blockid@,
    ensures
        rank(node) == rank(node2),
    decreases node,
{
    match (node, readable(catalog, bref.blockid@, kind, depth)) {
        (Node::Folder { entries, .. }, Some(Decoded::Dir(dir))) => {
            let entries2 = node2->Folder_entries;
            assert forall|i: int| 0 <= i < entries.len() implies rank(#[trigger] entries[i])
                == rank(entries2[i]) by {
                let child = dir.children@[i];
                assert(child.name == name_of(entries2[i]));
                lemma_same_rank(
                    blockdb,
                    catalog,
                    child.blockref,
                    child._type,
                    entries[i],
                    (depth - 1) as nat,
                    child.blockref,
                    child._type,
                    entries2[i],
                    (depth2 - 1) as nat,
                );
            }
            lemma_rank_from_same(entries, entries2, 0);
        },
        _ => {},
    }
}

/// Ids that differ from each other and are all in `blocks` are no more than
/// the blocks.
proof fn lemma_ids_counted(ids: Seq<Seq<u8>>, blocks: Seq<Block>)
    requires
        ids.no_duplicates(),
        forall|i: int| 0 <= i < ids.len() ==> has_id(blocks, #[trigger] ids[i]),
    ensures
        ids.len() <= blocks.len(),
{
    let all = blocks.map_values(|b: Block| b.id_spec());
    ids.unique_seq_to_set();
    all.lemma_cardinality_of_set();
    seq_to_set_is_finite(all);
    assert forall|id: Seq<u8>| ids.to_set().contains(id) implies all.to_set().contains(id) by {
        let i = choose|i: int| 0 <= i < ids.len() && ids[i] == id;
        assert(has_id(blocks, ids[i]));
        let j = choose|j: int| 0 <= j < blocks.len() && (#[trigger] blocks[j]).id_spec() == id;
        assert(all[j] == id);
    }
    lemma_len_subset(ids.to_set(), all.to_set());
}

/// What stands for a tree at some depth does so within as many levels as
/// the store has blocks, less those of the directories `above` that it lies
/// in: no block stands on the way down twice.
proof fn lemma_within_store(
    blockdb: BlockDb,
    catalog: Catalog,
    bref: BlockRef,
    kind: BlockType,
    node: Node,
    depth: nat,
    refs: Seq<BlockRef>,
    above: Seq<Node>,
)
    requires
        stands_for(blockdb, catalog, bref, kind, node, depth),
        refs.len() == above.len(),
        forall|j: int|
            0 <= j < refs.len() ==> {
                &&& stands_for(
                    blockdb,
                    catalog,
                    #[trigger] refs[j],
                    BlockType::Directory,
                    above[j],
                    depth,
                )
                &&& above[j] is Folder
                &&& rank(above[j]) > rank(node)
            },
        forall|i: int, j: int|
            0 <= i < j < refs.len() ==> (#[trigger] refs[i]).blockid@ != (
            #[trigger] refs[j]).blockid@,
    ensures
        refs.len() < blockdb.blocks_spec().len(),
        stands_for(
            blockdb,
            catalog,
            bref,
            kind,
            node,
            (blockdb.blocks_spec().len() - refs.len()) as nat,
        ),
    decreases node,
{
    let id = bref.blockid@;
    let blocks = blockdb.blocks_spec();
    let ids = refs.map_values(|r: BlockRef| r.blockid@).push(id);
    assert forall|j: int| 0 <= j < refs.len() implies (#[trigger] refs[j]).blockid@ != id by {
        if refs[j].blockid@ == id {
            lemma_same_rank(
                blockdb,
                catalog,
                refs[j],
                BlockType::Directory,
                above[j],
                depth,
                bref,
                kind,
                node,
                depth,
            );
        }
    }
    assert(ids.no_duplicates());
    lemma_ids_counted(ids, blocks);
    let within = (blocks.len() - refs.len()) as nat;
    match (node, readable(catalog, id, kind, depth)) {
        (Node::File { data, .. }, Some(Decoded::Meta(meta))) => {
            if meta.blocks@.len() > 0 {
                let part = meta.blocks@[0].blockid@;
                let more = ids.push(part);
                assert(more.no_duplicates());
                lemma_ids_counted(more, blocks);
            }
        },
        (Node::Folder { entries, .. }, Some(Decoded::Dir(dir))) => {
            let refs2 = refs.push(bref);
            let above2 = above.push(node);
            assert forall|i: int| 0 <= i < entries.len() implies {
                let child = dir.children@[i];
                &&& child.name == name_of(#[trigger] entries[i])
                &&& stands_for(
                    blockdb,
                    catalog,
                    child.blockref,
                    child._type,
                    entries[i],
                    (within - 1) as nat,
                )
            } by {
                let child = dir.children@[i];
                lemma_rank_from(entries, 0, i);
                lemma_deeper(
                    blockdb,
                    catalog,
                    child.blockref,
                    child._type,
                    entries[i],
                    (depth - 1) as nat,
                    depth,
                );
                assert forall|j: int| 0 <= j < refs2.len() implies {
                    &&& stands_for(
                        blockdb,
                        catalog,
                        #[trigger] refs2[j],
                        BlockType::Directory,
                        above2[j],
                        depth,
                    )
                    &&& above2[j] is Folder
                    &&& rank(above2[j]) > rank(entries[i])
                } by {
                    if j < refs.len() {
                        assert(refs2[j] == refs[j]);
                        assert(above2[j] == above[j]);
                    }
                }
                lemma_within_store(
                    blockdb,
                    catalog,
                    child.blockref,
                    child._type,
                    entries[i],
                    depth,
                    refs2,
                    above2,
                );
            }
        },
        _ => {},
    }
}

/// Writing out gives the tree back. Where the chosen root of a store stands
/// for the directory `tree`, at whatever depth, the tree below it is all
/// there, and the steps that write it out are those that write `tree` out:
/// each directory and file at its path, each file with its bytes.
pub proof fn lemma_round_trip(
    blockdb: BlockDb,
    catalog: Catalog,
    tree: Node,
    depth: nat,
    pending: bool,
)
    requires
        stands_for(
            blockdb,
            catalog,
            chosen_root(blockdb, pending),
            BlockType::Directory,
            tree,
            depth,
        ),
    ensures
        written_out(blockdb, catalog, pending) == (
            listing(tree, Seq::<String>::empty()),
            None::<TreeError>,
        ),
        intact(
            blockdb,
            catalog,
            chosen_root(blockdb, pending),
            BlockType::Directory,
            blockdb.blocks_spec().len(),
        ),
{
    lemma_within_store(
        blockdb,
        catalog,
        chosen_root(blockdb, pending),
        BlockType::Directory,
        tree,
        depth,
        Seq::<BlockRef>::empty(),
        Seq::<Node>::empty(),
    );
    lemma_written(
        Seq::<FsStep>::empty(),
        blockdb,
        catalog,
        chosen_root(blockdb, pending),
        BlockType::Directory,
        tree,
        Seq::<String>::empty(),
        blockdb.blocks_spec().len(),
    );
    assert(Seq::<FsStep>::empty() + listing(tree, Seq::<String>::empty()) =~= listing(
        tree,
        Seq::<String>::empty(),
    ));
}

/// Whether the blocks `blocks` that a builder has built, with the content
/// `catalog` of them, hold `node` under the id `id` and the kind `kind`. A
/// file is a leaf with the bytes of the file. A directory has an entry for
/// each of the entries of `node`, in their order, with the same name, under
/// whose id and kind that entry is held.
pub open spec fn built(
    blocks: Seq<Block>,
    catalog: Catalog,
    id: Seq<u8>,
    kind: BlockType,
    node: Node,
) -> bool
    decreases node,
{
    &&& has_id(blocks, id)
    &&& match (node, catalog.lookup(id)) {
        (Node::File { data, .. }, Some(Decoded::Leaf(leaf))) => {
            &&& kind == BlockType::Leaf
            &&& leaf.data@ == data
        },
        (Node::Folder { entries, .. }, Some(Decoded::Dir(dir))) => {
            &&& kind == BlockType::Directory
            &&& dir.children@.len() == entries.len()
            &&& forall|i: int|
                0 <= i < entries.len() ==> {
                    let child = dir.children@[i];
                    &&& child.name == name_of(#[trigger] entries[i])
                    &&& built(blocks, catalog, child.blockref.blockid@, child._type, entries[i])
                }
        },
        _ => false,
    }
}

/// What was built stays: every id of `before` is one of `after`, and what
/// `before_known` says of a block, `after_known` says too.
pub open spec fn grown(
    before: Seq<Block>,
    before_known: Catalog,
    after: Seq<Block>,
    after_known: Catalog,
) -> bool {
    &&& forall|id: Seq<u8>| has_id(before, id) ==> #[trigger] has_id(after, id)
    &&& forall|id: Seq<u8>|
        before_known.lookup(id).is_some() ==> #[trigger] after_known.lookup(id)
            == before_known.lookup(id)
}

/// Every one of `blocks` is full.
pub open spec fn all_full(blocks: Seq<Block>) -> bool {
    forall|i: int| 0 <= i < blocks.len() ==> #[trigger] blocks[i] is Full
}

/// A block that the builder adds, with its content noted, leaves what was
/// built before in place, and every block full.
pub proof fn lemma_step_grows(
    before: Seq<Block>,
    before_known: Catalog,
    after: Seq<Block>,
    after_known: Catalog,
    sealed: Seq<u8>,
    decoded: Decoded,
)
    requires
        block_added(before, after, sealed),
        noted(before_known, after_known, keccak256(sealed), decoded),
    ensures
        grown(before, before_known, after, after_known),
        has_id(after, keccak256(sealed)),
        all_full(before) ==> all_full(after),
{
    assert forall|id: Seq<u8>| has_id(before, id) implies #[trigger] has_id(after, id) by {
        let i = choose|i: int| 0 <= i < before.len() && (#[trigger] before[i]).id_spec() == id;
        assert(after.subrange(0, before.len() as int)[i] == after[i]);
        assert(after[i].id_spec() == id);
    }
    assert(after[after.len() - 1].id_spec() == keccak256(sealed));
    if all_full(before) {
        assert forall|i: int| 0 <= i < after.len() implies #[trigger] after[i] is Full by {
            if i < before.len() {
                assert(after.subrange(0, before.len() as int)[i] == after[i]);
            }
        }
    }
}

/// What the blocks that were built hold, they hold after more was built.
pub proof fn lemma_kept(
    before: Seq<Block>,
    before_known: Catalog,
    after: Seq<Block>,
    after_known: Catalog,
    id: Seq<u8>,
    kind: BlockType,
    node: Node,
)
    requires
        built(before, before_known, id, kind, node),
        grown(before, before_known, after, after_known),
    ensures
        built(after, after_known, id, kind, node),
    decreases node,
{
    assert(has_id(after, id));
    assert(after_known.lookup(id) == before_known.lookup(id));
    match (node, before_known.lookup(id)) {
        (Node::Folder { entries, .. }, Some(Decoded::Dir(dir))) => {
            assert forall|i: int| 0 <= i < entries.len() implies {
                let child = dir.children@[i];
                &&& child.name == name_of(#[trigger] entries[i])
                &&& built(after, after_known, child.blockref.blockid@, child._type, entries[i])
            } by {
                let child = dir.children@[i];
                lemma_kept(
                    before,
                    before_known,
                    after,
                    after_known,
                    child.blockref.blockid@,
                    child._type,
                    entries[i],
                );
            }
        },
        _ => {},
    }
}

/// The file that the builder takes in is held under the digest of its
/// sealed bytes, as a leaf, unless something else was known of that block.
pub proof fn lemma_file_built(
    before: Seq<Block>,
    before_known: Catalog,
    after: Seq<Block>,
    after_known: Catalog,
    sealed: Seq<u8>,
    name: String,
    data: Vec<u8>,
)
    requires
        block_added(before, after, sealed),
        noted(before_known, after_known, keccak256(sealed), Decoded::Leaf(Leaf { data })),
        before_known.lookup(keccak256(sealed)) matches Some(known) ==> known == Decoded::Leaf(
            Leaf { data },
        ),
    ensures
        built(
            after,
            after_known,
            keccak256(sealed),
            BlockType::Leaf,
            (Node::File { name, data: data@ }),
        ),
{
    lemma_step_grows(
        before,
        before_known,
        after,
        after_known,
        sealed,
        Decoded::Leaf(Leaf { data }),
    );
    assert(after_known.lookup(keccak256(sealed)) == Some(Decoded::Leaf(Leaf { data })));
}

/// The directory that the builder takes in is held under the digest of its
/// sealed bytes, with its entries, where each of them was held before, and
/// unless something else was known of that block.
pub proof fn lemma_dir_built(
    before: Seq<Block>,
    before_known: Catalog,
    after: Seq<Block>,
    after_known: Catalog,
    sealed: Seq<u8>,
    name: String,
    dir: Dir,
    entries: Seq<Node>,
)
    requires
        block_added(before, after, sealed),
        noted(before_known, after_known, keccak256(sealed), Decoded::Dir(dir)),
        before_known.lookup(keccak256(sealed)) matches Some(known) ==> known == Decoded::Dir(dir),
        dir.children@.len() == entries.len(),
        forall|i: int|
            0 <= i < entries.len() ==> {
                let child = dir.children@[i];
                &&& child.name == name_of(#[trigger] entries[i])
                &&& built(before, before_known, child.blockref.blockid@, child._type, entries[i])
            },
    ensures
        built(
            after,
            after_known,
            keccak256(sealed),
            BlockType::Directory,
            (Node::Folder { name, entries }),
        ),
{
    lemma_step_grows(before, before_known, after, after_known, sealed, Decoded::Dir(dir));
    assert(after_known.lookup(keccak256(sealed)) == Some(Decoded::Dir(dir)));
    assert forall|i: int| 0 <= i < entries.len() implies {
        let child = dir.children@[i];
        &&& child.name == name_of(#[trigger] entries[i])
        &&& built(after, after_known, child.blockref.blockid@, child._type, entries[i])
    } by {
        let child = dir.children@[i];
        lemma_kept(
            before,
            before_known,
            after,
            after_known,
            child.blockref.blockid@,
            child._type,
            entries[i],
        );
    }
}

/// What full blocks hold that were built, the store of these blocks stands
/// for, as many levels down as the tree has.
proof fn lemma_built_stands(
    blocks: Seq<Block>,
    catalog: Catalog,
    blockdb: BlockDb,
    bref: BlockRef,
    kind: BlockType,
    node: Node,
)
    requires
        built(blocks, catalog, bref.blockid@, kind, node),
        all_full(blocks),
        blockdb.blocks_spec() == first_wins(blocks),
    ensures
        stands_for(blockdb, catalog, bref, kind, node, rank(node)),
    decreases node,
{
    let id = bref.blockid@;
    lemma_first_wins(blocks);
    assert(has_id(first_wins(blocks), id));
    assert(blockdb.has(id));
    let at = blockdb.index_of(id);
    let from = choose|j: int| 0 <= j < blocks.len() && blocks[j] == first_wins(blocks)[at];
    assert(blocks[from] is Full);
    match (node, catalog.lookup(id)) {
        (Node::Folder { entries, .. }, Some(Decoded::Dir(dir))) => {
            assert forall|i: int| 0 <= i < entries.len() implies {
                let child = dir.children@[i];
                &&& child.name == name_of(#[trigger] entries[i])
                &&& stands_for(
                    blockdb,
                    catalog,
                    child.blockref,
                    child._type,
                    entries[i],
                    (rank(node) - 1) as nat,
                )
            } by {
                let child = dir.children@[i];
                lemma_built_stands(
                    blocks,
                    catalog,
                    blockdb,
                    child.blockref,
                    child._type,
                    entries[i],
                );
                lemma_rank_from(entries, 0, i);
                lemma_deeper(
                    blockdb,
                    catalog,
                    child.blockref,
                    child._type,
                    entries[i],
                    rank(entries[i]),
                    (rank(node) - 1) as nat,
                );
            }
        },
        _ => {},
    }
}

/// Building and writing out gives the tree back. Where the blocks that a
/// builder has built hold the directory `tree` under the id of the root, the
/// store of these blocks verifies, and the steps that write it out are those
/// that write `tree` out: each directory and file at its path, each file
/// with its bytes.
pub proof fn lemma_built_written(
    blocks: Seq<Block>,
    catalog: Catalog,
    blockdb: BlockDb,
    tree: Node,
)
    requires
        built(blocks, catalog, blockdb.root_spec().blockid@, BlockType::Directory, tree),
        all_full(blocks),
        blockdb.blocks_spec() == first_wins(blocks),
    ensures
        written_out(blockdb, catalog, false) == (
            listing(tree, Seq::<String>::empty()),
            None::<TreeError>,
        ),
        intact(
            blockdb,
            catalog,
            blockdb.root_spec(),
            BlockType::Directory,
            blockdb.blocks_spec().len(),
        ),
{
    lemma_built_stands(
        blocks,
        catalog,
        blockdb,
        blockdb.root_spec(),
        BlockType::Directory,
        tree,
    );
    lemma_round_trip(blockdb, catalog, tree, rank(tree), false);
}

} // verus!
