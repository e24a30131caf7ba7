//! Worktree listings as texts, and what reading them back gives.
use crate::text::{lemma_first_newline_at, lines, strip_cr};
use crate::worktree::{branch_prefix, read_line, read_lines, start_state, worktree_map_of,
    worktree_prefix, ReadState};
use vstd::prelude::*;

verus! {

/// One block of a listing: a directory and, unless the head is detached
/// there, the branch checked out in it.
pub ghost struct Block {
    pub path: Seq<char>,
    pub branch: Option<Seq<char>>,
}

/// `l` can stand on a line of its own: it holds no line feed and does not end
/// in a carriage return.
pub open spec fn is_line(l: Seq<char>) -> bool {
    &&& forall|i: int| 0 <= i < l.len() ==> l[i] != '\n'
    &&& strip_cr(l) == l
}

/// The directory and the branch of `b` can each stand on a line.
pub open spec fn is_block(b: Block) -> bool {
    &&& is_line(b.path)
    &&& b.branch is Some ==> is_line(b.branch->0)
}

/// The text made of the lines `ls`, each ended by a line feed.
pub open spec fn join_lines(ls: Seq<Seq<char>>) -> Seq<char>
    decreases ls.len(),
{
    if ls.len() == 0 {
        Seq::empty()
    } else {
        ls[0] + seq!['\n'] + join_lines(ls.drop_first())
    }
}

/// `ls` followed by the lines of the block `b`.
pub open spec fn push_block(ls: Seq<Seq<char>>, b: Block) -> Seq<Seq<char>> {
    match b.branch {
        Some(name) => ls.push(worktree_prefix() + b.path).push(branch_prefix() + name),
        None => ls.push(worktree_prefix() + b.path),
    }
}

/// The lines of the listing of `blocks`: the lines of each block, with one
/// empty line between two blocks.
pub open spec fn listing_lines(blocks: Seq<Block>) -> Seq<Seq<char>>
    decreases blocks.len(),
{
    if blocks.len() == 0 {
        Seq::empty()
    } else if blocks.len() == 1 {
        push_block(Seq::empty(), blocks.last())
    } else {
        push_block(listing_lines(blocks.drop_last()).push(Seq::empty()), blocks.last())
    }
}

/// The listing of `blocks` as a text.
pub open spec fn listing_text(blocks: Seq<Block>) -> Seq<char> {
    join_lines(listing_lines(blocks))
}

/// The mapping that `blocks` describe: each block with a branch binds that
/// branch to its directory, a later block before an earlier one.
pub open spec fn blocks_map(blocks: Seq<Block>) -> Map<Seq<char>, Seq<char>>
    decreases blocks.len(),
{
    if blocks.len() == 0 {
        Map::empty()
    } else {
        let m = blocks_map(blocks.drop_last());
        match blocks.last().branch {
            Some(name) => m.insert(name, blocks.last().path),
            None => m,
        }
    }
}

/// Splitting a text that was joined from lines gives those lines.
pub proof fn lemma_lines_of_joined(ls: Seq<Seq<char>>)
    requires
        all_lines(ls),
    ensures
        lines(join_lines(ls)) == ls,
    decreases ls.len(),
{
    if ls.len() == 0 {
        assert(lines(join_lines(ls)) =~= ls);
    } else {
        let first = ls[0];
        let rest = ls.drop_first();
        let text = join_lines(ls);
        let k = first.len() as int;
        assert(is_line(first));
        assert forall|i: int| 0 <= i < rest.len() implies is_line(#[trigger] rest[i]) by {
            assert(rest[i] == ls[i + 1]);
        }
        lemma_lines_of_joined(rest);
        assert(text[k] == '\n');
        assert forall|i: int| 0 <= i < k implies text[i] != '\n' by {
            assert(text[i] == first[i]);
        }
        lemma_first_newline_at(text, k);
        assert(text.take(k) =~= first);
        assert(text.skip(k + 1) =~= join_lines(rest));
        assert(seq![first] + rest =~= ls);
    }
}

/// Reading one more line after `ls`.
pub proof fn lemma_read_push(st: ReadState, ls: Seq<Seq<char>>, l: Seq<char>)
    ensures
        read_lines(st, ls.push(l)) == read_line(read_lines(st, ls), l),
{
    assert(ls.push(l).drop_last() =~= ls);
}

/// What the two kinds of lines of a block, and the empty line, do to the
/// state of the reading.
pub proof fn lemma_read_kinds(st: ReadState, item: Seq<char>)
    ensures
        read_line(st, worktree_prefix() + item) == (ReadState {
            current: Some(item),
            map: st.map,
        }),
        read_line(st, branch_prefix() + item) == match st.current {
            Some(path) => ReadState { current: None, map: st.map.insert(item, path) },
            None => st,
        },
        read_line(st, Seq::empty()) == (ReadState { current: None, map: st.map }),
{
    reveal_strlit("worktree ");
    reveal_strlit("branch refs/heads/");
    let w = worktree_prefix();
    let b = branch_prefix();
    assert((w + item).subrange(0, w.len() as int) =~= w);
    assert((w + item).skip(w.len() as int) =~= item);
    assert((b + item).subrange(0, b.len() as int) =~= b);
    assert((b + item).skip(b.len() as int) =~= item);
    assert(!w.is_prefix_of(b + item)) by {
        if w.is_prefix_of(b + item) {
            assert((b + item).subrange(0, w.len() as int)[0] == w[0]);
        }
    }
}

/// A line of a block holds no line feed and ends in no carriage return
/// where the item that it names does not.
pub proof fn lemma_block_lines_are_lines(item: Seq<char>)
    requires
        is_line(item),
    ensures
        is_line(worktree_prefix() + item),
        is_line(branch_prefix() + item),
        is_line(Seq::<char>::empty()),
{
    reveal_strlit("worktree ");
    reveal_strlit("branch refs/heads/");
    let w = worktree_prefix() + item;
    let b = branch_prefix() + item;
    if item.len() > 0 {
        assert(w.last() == item.last() && b.last() == item.last());
        assert(item.last() != '\r') by {
            if item.last() == '\r' {
                assert(strip_cr(item).len() < item.len());
            }
        }
    }
}

/// Whether every item of `ls` can stand on a line.
pub open spec fn all_lines(ls: Seq<Seq<char>>) -> bool {
    forall|i: int| 0 <= i < ls.len() ==> is_line(#[trigger] ls[i])
}

proof fn lemma_all_lines_push(ls: Seq<Seq<char>>, l: Seq<char>)
    requires
        all_lines(ls),
        is_line(l),
    ensures
        all_lines(ls.push(l)),
{
    assert forall|i: int| 0 <= i < ls.push(l).len() implies is_line(#[trigger] ls.push(l)[i]) by {
        if i < ls.len() {
            assert(ls.push(l)[i] == ls[i]);
        }
    }
}

/// Every line of a listing can stand on a line.
pub proof fn lemma_listing_lines(blocks: Seq<Block>)
    requires
        forall|i: int| 0 <= i < blocks.len() ==> is_block(#[trigger] blocks[i]),
    ensures
        all_lines(listing_lines(blocks)),
    decreases blocks.len(),
{
    if blocks.len() > 0 {
        let last = blocks.last();
        let front = blocks.drop_last();
        assert(is_block(last));
        lemma_block_lines_are_lines(last.path);
        let before = if blocks.len() == 1 {
            Seq::<Seq<char>>::empty()
        } else {
            listing_lines(front).push(Seq::empty())
        };
        if blocks.len() > 1 {
            assert forall|i: int| 0 <= i < front.len() implies is_block(#[trigger] front[i]) by {
                assert(front[i] == blocks[i]);
            }
            lemma_listing_lines(front);
            lemma_all_lines_push(listing_lines(front), Seq::empty());
        }
        assert(all_lines(before));
        let l1 = worktree_prefix() + last.path;
        lemma_all_lines_push(before, l1);
        if last.branch is Some {
            lemma_block_lines_are_lines(last.branch->0);
            lemma_all_lines_push(before.push(l1), branch_prefix() + last.branch->0);
        }
    }
}

/// Reading the lines of a listing gives the mapping of its blocks.
pub proof fn lemma_read_listing(blocks: Seq<Block>)
    ensures
        read_lines(start_state(), listing_lines(blocks)).map == blocks_map(blocks),
    decreases blocks.len(),
{
    if blocks.len() > 0 {
        let last = blocks.last();
        let before = if blocks.len() == 1 {
            Seq::<Seq<char>>::empty()
        } else {
            listing_lines(blocks.drop_last()).push(Seq::empty())
        };
        let st0 = read_lines(start_state(), before);
        assert(st0.map == blocks_map(blocks.drop_last())) by {
            if blocks.len() == 1 {
                assert(blocks.drop_last().len() == 0);
            } else {
                lemma_read_listing(blocks.drop_last());
                lemma_read_push(
                    start_state(),
                    listing_lines(blocks.drop_last()),
                    Seq::<char>::empty(),
                );
                lemma_read_kinds(
                    read_lines(start_state(), listing_lines(blocks.drop_last())),
                    Seq::<char>::empty(),
                );
            }
        }
        let l1 = worktree_prefix() + last.path;
        lemma_read_push(start_state(), before, l1);
        lemma_read_kinds(st0, last.path);
        let st1 = read_lines(start_state(), before.push(l1));
        match last.branch {
            Some(name) => {
                lemma_read_push(start_state(), before.push(l1), branch_prefix() + name);
                lemma_read_kinds(st1, name);
            },
            None => {},
        }
    }
}

/// Reading a listing is exact: the listing of blocks, each a line
/// `worktree <path>` and at most one line `branch refs/heads/<name>`, with
/// an empty line between two blocks, gives the mapping that binds the branch
/// of each block that has one to the directory of that block, and nothing
/// else.
pub proof fn lemma_listing_is_read_back(blocks: Seq<Block>)
    requires
        forall|i: int| 0 <= i < blocks.len() ==> is_block(#[trigger] blocks[i]),
    ensures
        worktree_map_of(listing_text(blocks)) == blocks_map(blocks),
{
    lemma_listing_lines(blocks);
    lemma_lines_of_joined(listing_lines(blocks));
    lemma_read_listing(blocks);
}

} // verus!
