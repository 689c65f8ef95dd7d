use crate::htmldiff::HtmlDiff;
use crate::matcher::{
    block, blocks, common_run, lemma_blocks_ordered, whole_range, Match,
};
use crate::text::texts;
use vstd::prelude::*;

verus! {

/// What an operation of the edit script does.
#[derive(Clone, Copy, Debug, PartialEq, Eq, Structural)]
pub enum Operation {
    /// Tokens that both sequences hold.
    Equal,
    /// Tokens that only the second sequence holds.
    Insert,
    /// Tokens that only the first sequence holds.
    Delete,
    /// Tokens of the first sequence that give way to tokens of the second.
    Replace,
}

/// One operation of the edit script. A range runs from its start to its end,
/// both included; with no end, it holds nothing.
#[derive(Clone, Copy, Debug, PartialEq, Eq)]
pub struct DiffOperation {
    pub action: Operation,
    pub start_in_before: usize,
    pub end_in_before: Option<usize>,
    pub start_in_after: usize,
    pub end_in_after: Option<usize>,
}

/// The position in front of `position`, or 0 where there is none.
pub open spec fn position_before(position: usize) -> usize {
    if position == 0 {
        0
    } else {
        (position - 1) as usize
    }
}

/// The position behind `end`, but no further than `len`.
pub open spec fn position_after(end: usize, len: usize) -> usize {
    if end + 1 > len {
        len
    } else {
        (end + 1) as usize
    }
}

/// The edit that leads from the current positions to the start of the next
/// match: nothing where the match starts at both positions, an insertion or a
/// deletion where it starts at one of them, a replacement otherwise.
pub open spec fn edit_before(
    position_in_before: usize,
    position_in_after: usize,
    m: Match,
) -> Seq<DiffOperation> {
    let at_before = position_in_before == m.start_in_before;
    let at_after = position_in_after == m.start_in_after;
    if at_before && at_after {
        Seq::empty()
    } else if at_before {
        seq![
            DiffOperation {
                action: Operation::Insert,
                start_in_before: position_in_before,
                end_in_before: None,
                start_in_after: position_in_after,
                end_in_after: Some(position_before(m.start_in_after)),
            },
        ]
    } else if at_after {
        seq![
            DiffOperation {
                action: Operation::Delete,
                start_in_before: position_in_before,
                end_in_before: Some(position_before(m.start_in_before)),
                start_in_after: position_in_after,
                end_in_after: None,
            },
        ]
    } else {
        seq![
            DiffOperation {
                action: Operation::Replace,
                start_in_before: position_in_before,
                end_in_before: Some(position_before(m.start_in_before)),
                start_in_after: position_in_after,
                end_in_after: Some(position_before(m.start_in_after)),
            },
        ]
    }
}

/// The operation that stands for a match itself; none for an empty match.
pub open spec fn equal_for(m: Match) -> Seq<DiffOperation> {
    if m.length != 0 {
        seq![
            DiffOperation {
                action: Operation::Equal,
                start_in_before: m.start_in_before,
                end_in_before: Some(m.end_in_before),
                start_in_after: m.start_in_after,
                end_in_after: Some(m.end_in_after),
            },
        ]
    } else {
        Seq::empty()
    }
}

/// The operations that a walk over the matches gives, from the given positions
/// on: for each match the edit that leads to it, then the match itself.
pub open spec fn walk(
    matches: Seq<Match>,
    position_in_before: usize,
    position_in_after: usize,
    before_len: usize,
    after_len: usize,
) -> Seq<DiffOperation>
    decreases matches.len(),
{
    if matches.len() == 0 {
        Seq::empty()
    } else {
        let m = matches.first();
        edit_before(position_in_before, position_in_after, m) + equal_for(m) + walk(
            matches.drop_first(),
            position_after(m.end_in_before, before_len),
            position_after(m.end_in_after, after_len),
            before_len,
            after_len,
        )
    }
}

/// The edit script for two sequences of the given lengths whose matching blocks
/// are `found`: the walk over the blocks and, behind them, an empty match at the
/// end of both sequences, which brings out what follows the last block.
pub open spec fn edit_script(found: Seq<Match>, before_len: usize, after_len: usize) -> Seq<
    DiffOperation,
> {
    walk(found.push(block(before_len, after_len, 0)), 0, 0, before_len, after_len)
}

/// How many tokens of the first sequence an operation accounts for.
pub open spec fn before_count(op: DiffOperation) -> int {
    match op.end_in_before {
        Some(end) => end - op.start_in_before + 1,
        None => 0,
    }
}

/// How many tokens of the second sequence an operation accounts for.
pub open spec fn after_count(op: DiffOperation) -> int {
    match op.end_in_after {
        Some(end) => end - op.start_in_after + 1,
        None => 0,
    }
}

/// The operations account for the tokens from `position_in_before` up to
/// `before_len` and from `position_in_after` up to `after_len`, each once and in
/// order: every operation starts where the one before it stopped, in both
/// sequences, and the last one stops at the ends.
pub open spec fn covers(
    operations: Seq<DiffOperation>,
    position_in_before: int,
    position_in_after: int,
    before_len: int,
    after_len: int,
) -> bool
    decreases operations.len(),
{
    if operations.len() == 0 {
        position_in_before == before_len && position_in_after == after_len
    } else {
        let op = operations.first();
        &&& op.start_in_before == position_in_before
        &&& op.start_in_after == position_in_after
        &&& before_count(op) >= 0
        &&& after_count(op) >= 0
        &&& covers(
            operations.drop_first(),
            position_in_before + before_count(op),
            position_in_after + after_count(op),
            before_len,
            after_len,
        )
    }
}

/// The operation's ranges are what its action calls for: none in the first
/// sequence for an insertion, none in the second for a deletion, otherwise a
/// range that is not empty and lies inside the sequence; and the two ranges of
/// an `Equal` hold the same tokens.
pub open spec fn sound_operation(
    before: Seq<Seq<char>>,
    after: Seq<Seq<char>>,
    op: DiffOperation,
) -> bool {
    &&& op.action != Operation::Insert <==> op.end_in_before is Some
    &&& op.action != Operation::Delete <==> op.end_in_after is Some
    &&& op.end_in_before matches Some(end) ==> op.start_in_before <= end < before.len()
    &&& op.end_in_after matches Some(end) ==> op.start_in_after <= end < after.len()
    &&& op.action == Operation::Equal ==> before_count(op) == after_count(op) && common_run(
        before,
        after,
        op.start_in_before as int,
        op.start_in_after as int,
        before_count(op),
    )
}

/// The matches follow one another from the given positions on, each a common
/// run that ends before the next begins, and the last of them is the empty
/// match at the end of both sequences.
pub open spec fn follow_on(
    before: Seq<Seq<char>>,
    after: Seq<Seq<char>>,
    matches: Seq<Match>,
    position_in_before: int,
    position_in_after: int,
) -> bool {
    &&& matches.len() > 0
    &&& matches.last() == block(before.len() as usize, after.len() as usize, 0)
    &&& before.len() <= usize::MAX && after.len() <= usize::MAX
    &&& forall|k: int|
        0 <= k < matches.len() ==> {
            let m = #[trigger] matches[k];
            &&& m == block(m.start_in_before, m.start_in_after, m.length)
            &&& position_in_before <= m.start_in_before
            &&& position_in_after <= m.start_in_after
            &&& common_run(
                before,
                after,
                m.start_in_before as int,
                m.start_in_after as int,
                m.length as int,
            )
        }
    &&& forall|k1: int, k2: int|
        0 <= k1 < k2 < matches.len() ==> {
            &&& (#[trigger] matches[k1]).length >= 1
            &&& matches[k1].start_in_before + matches[k1].length <= (
            #[trigger] matches[k2]).start_in_before
            &&& matches[k1].start_in_after + matches[k1].length <= matches[k2].start_in_after
        }
}

proof fn lemma_covers_first(
    first: DiffOperation,
    rest: Seq<DiffOperation>,
    position_in_before: int,
    position_in_after: int,
    before_len: int,
    after_len: int,
)
    requires
        first.start_in_before == position_in_before,
        first.start_in_after == position_in_after,
        before_count(first) >= 0,
        after_count(first) >= 0,
        covers(
            rest,
            position_in_before + before_count(first),
            position_in_after + after_count(first),
            before_len,
            after_len,
        ),
    ensures
        covers(seq![first] + rest, position_in_before, position_in_after, before_len, after_len),
{
    assert((seq![first] + rest).drop_first() =~= rest);
}

/// A walk over matches that follow one another accounts for every token of
/// both sequences once, and each of its operations is sound.
pub proof fn lemma_walk_covers(
    before: Seq<Seq<char>>,
    after: Seq<Seq<char>>,
    matches: Seq<Match>,
    position_in_before: usize,
    position_in_after: usize,
)
    requires
        follow_on(before, after, matches, position_in_before as int, position_in_after as int),
    ensures
        covers(
            walk(
                matches,
                position_in_before,
                position_in_after,
                before.len() as usize,
                after.len() as usize,
            ),
            position_in_before as int,
            position_in_after as int,
            before.len() as int,
            after.len() as int,
        ),
        forall|k: int|
            0 <= k < walk(
                matches,
                position_in_before,
                position_in_after,
                before.len() as usize,
                after.len() as usize,
            ).len() ==> sound_operation(
                before,
                after,
                #[trigger] walk(
                    matches,
                    position_in_before,
                    position_in_after,
                    before.len() as usize,
                    after.len() as usize,
                )[k],
            ),
    decreases matches.len(),
{
    let before_len = before.len() as usize;
    let after_len = after.len() as usize;
    let m = matches.first();
    let rest = matches.drop_first();
    let next_in_before = position_after(m.end_in_before, before_len);
    let next_in_after = position_after(m.end_in_after, after_len);
    let edit = edit_before(position_in_before, position_in_after, m);
    let equal = equal_for(m);
    let tail = walk(rest, next_in_before, next_in_after, before_len, after_len);
    let all = walk(matches, position_in_before, position_in_after, before_len, after_len);
    assert(all == edit + equal + tail);
    assert(matches[0] == m);
    assert(m.start_in_before + m.length <= before_len && m.start_in_after + m.length
        <= after_len);
    assert(next_in_before == m.start_in_before + m.length);
    assert(next_in_after == m.start_in_after + m.length);
    if rest.len() > 0 {
        assert(rest.last() == matches.last());
        assert forall|k: int| 0 <= k < rest.len() implies {
            let r = #[trigger] rest[k];
            &&& r == block(r.start_in_before, r.start_in_after, r.length)
            &&& next_in_before <= r.start_in_before
            &&& next_in_after <= r.start_in_after
            &&& common_run(
                before,
                after,
                r.start_in_before as int,
                r.start_in_after as int,
                r.length as int,
            )
        } by {
            assert(rest[k] == matches[k + 1]);
        }
        assert forall|k1: int, k2: int| 0 <= k1 < k2 < rest.len() implies {
            &&& (#[trigger] rest[k1]).length >= 1
            &&& rest[k1].start_in_before + rest[k1].length <= (#[trigger] rest[k2]).start_in_before
            &&& rest[k1].start_in_after + rest[k1].length <= rest[k2].start_in_after
        } by {
            assert(rest[k1] == matches[k1 + 1] && rest[k2] == matches[k2 + 1]);
        }
        lemma_walk_covers(before, after, rest, next_in_before, next_in_after);
    } else {
        assert(m == matches.last());
        assert(tail =~= Seq::<DiffOperation>::empty());
    }
    assert(covers(tail, next_in_before as int, next_in_after as int, before_len as int, after_len as int));
    let after_edit = equal + tail;
    assert(covers(
        after_edit,
        m.start_in_before as int,
        m.start_in_after as int,
        before_len as int,
        after_len as int,
    )) by {
        if m.length != 0 {
            lemma_covers_first(
                equal[0],
                tail,
                m.start_in_before as int,
                m.start_in_after as int,
                before_len as int,
                after_len as int,
            );
            assert(equal =~= seq![equal[0]]);
        } else {
            assert(after_edit =~= tail);
        }
    }
    assert(all =~= edit + after_edit);
    if edit.len() > 0 {
        lemma_covers_first(
            edit[0],
            after_edit,
            position_in_before as int,
            position_in_after as int,
            before_len as int,
            after_len as int,
        );
        assert(edit =~= seq![edit[0]]);
    } else {
        assert(all =~= after_edit);
    }
    assert forall|k: int| 0 <= k < all.len() implies sound_operation(
        before,
        after,
        #[trigger] all[k],
    ) by {
        if k < edit.len() {
            assert(all[k] == edit[0]);
        } else if k < edit.len() + equal.len() {
            assert(all[k] == equal[0]);
            let op = equal[0];
            assert(before_count(op) == m.length);
        } else {
            assert(all[k] == tail[k - edit.len() - equal.len()]);
        }
    }
}

/// The matching blocks of two sequences, with the empty match at the end of
/// both behind them, follow one another from the start.
pub proof fn lemma_blocks_follow_on(before: Seq<Seq<char>>, after: Seq<Seq<char>>)
    requires
        before.len() <= usize::MAX,
        after.len() <= usize::MAX,
    ensures
        follow_on(
            before,
            after,
            blocks(before, after, whole_range(before.len(), after.len())).push(
                block(before.len() as usize, after.len() as usize, 0),
            ),
            0,
            0,
        ),
{
    let whole = whole_range(before.len(), after.len());
    let found = blocks(before, after, whole);
    let end = block(before.len() as usize, after.len() as usize, 0);
    let matches = found.push(end);
    lemma_blocks_ordered(before, after, whole);
    assert forall|k: int| 0 <= k < matches.len() implies {
        let m = #[trigger] matches[k];
        &&& m == block(m.start_in_before, m.start_in_after, m.length)
        &&& 0 <= m.start_in_before
        &&& 0 <= m.start_in_after
        &&& common_run(
            before,
            after,
            m.start_in_before as int,
            m.start_in_after as int,
            m.length as int,
        )
    } by {
        if k < found.len() {
            assert(matches[k] == found[k]);
        }
    }
    assert forall|k1: int, k2: int| 0 <= k1 < k2 < matches.len() implies {
        &&& (#[trigger] matches[k1]).length >= 1
        &&& matches[k1].start_in_before + matches[k1].length <= (
        #[trigger] matches[k2]).start_in_before
        &&& matches[k1].start_in_after + matches[k1].length <= matches[k2].start_in_after
    } by {
        assert(matches[k1] == found[k1]);
        if k2 < found.len() {
            assert(matches[k2] == found[k2]);
        }
    }
}

/// Coverage: the edit script of two token sequences accounts for every token of
/// the first and every token of the second exactly once, in order, with no gap
/// and no overlap, and each of its operations is sound.
pub proof fn lemma_edit_script_covers(before: Seq<Seq<char>>, after: Seq<Seq<char>>)
    requires
        before.len() <= usize::MAX,
        after.len() <= usize::MAX,
    ensures
        covers(
            edit_script(
                blocks(before, after, whole_range(before.len(), after.len())),
                before.len() as usize,
                after.len() as usize,
            ),
            0,
            0,
            before.len() as int,
            after.len() as int,
        ),
        forall|k: int|
            0 <= k < edit_script(
                blocks(before, after, whole_range(before.len(), after.len())),
                before.len() as usize,
                after.len() as usize,
            ).len() ==> sound_operation(
                before,
                after,
                #[trigger] edit_script(
                    blocks(before, after, whole_range(before.len(), after.len())),
                    before.len() as usize,
                    after.len() as usize,
                )[k],
            ),
{
    lemma_blocks_follow_on(before, after);
    lemma_walk_covers(
        before,
        after,
        blocks(before, after, whole_range(before.len(), after.len())).push(
            block(before.len() as usize, after.len() as usize, 0),
        ),
        0,
        0,
    );
}

/// Walks over the matches, the last of which stands at the end of both
/// sequences, and gives the operations that lead from each to the next.
pub fn operations_between(matches: &Vec<Match>, before_len: usize, after_len: usize) -> (operations:
    Vec<DiffOperation>)
    ensures
        operations@ == walk(matches@, 0, 0, before_len, after_len),
{
    let mut operations: Vec<DiffOperation> = Vec::new();
    let mut position_in_before: usize = 0;
    let mut position_in_after: usize = 0;
    let mut i: usize = 0;
    assert(matches@.skip(0) =~= matches@);
    while i < matches.len()
        invariant
            i <= matches.len(),
            operations@ + walk(
                matches@.skip(i as int),
                position_in_before,
                position_in_after,
                before_len,
                after_len,
            ) == walk(matches@, 0, 0, before_len, after_len),
        decreases matches.len() - i,
    {
        let match_ = matches[i];
        let ghost earlier = operations@;
        let ghost m = matches@.skip(i as int).first();
        proof {
            assert(m == match_);
            assert(matches@.skip(i as int).drop_first() =~= matches@.skip(i + 1));
        }
        let match_starts_at_current_position_in_before = position_in_before
            == match_.start_in_before;
        let match_starts_at_current_position_in_after = position_in_after == match_.start_in_after;
        if !match_starts_at_current_position_in_before
            || !match_starts_at_current_position_in_after {
            let action = if !match_starts_at_current_position_in_before
                && !match_starts_at_current_position_in_after {
                Operation::Replace
            } else if match_starts_at_current_position_in_before {
                Operation::Insert
            } else {
                Operation::Delete
            };
            let end_in_before = match action {
                Operation::Insert => None,
                _ => Some(match_.start_in_before.saturating_sub(1)),
            };
            let end_in_after = match action {
                Operation::Delete => None,
                _ => Some(match_.start_in_after.saturating_sub(1)),
            };
            operations.push(
                DiffOperation {
                    action,
                    start_in_before: position_in_before,
                    end_in_before,
                    start_in_after: position_in_after,
                    end_in_after,
                },
            );
        }
        assert(operations@ =~= earlier + edit_before(position_in_before, position_in_after, m));
        if match_.length != 0 {
            operations.push(
                DiffOperation {
                    action: Operation::Equal,
                    start_in_before: match_.start_in_before,
                    end_in_before: Some(match_.end_in_before),
                    start_in_after: match_.start_in_after,
                    end_in_after: Some(match_.end_in_after),
                },
            );
        }
        assert(operations@ =~= earlier + (edit_before(position_in_before, position_in_after, m)
            + equal_for(m)));
        let next_in_before = match_.end_in_before.saturating_add(1);
        let next_in_after = match_.end_in_after.saturating_add(1);
        let ghost tail = walk(
            matches@.skip(i + 1),
            position_after(m.end_in_before, before_len),
            position_after(m.end_in_after, after_len),
            before_len,
            after_len,
        );
        assert(operations@ + tail =~= earlier + (edit_before(
            position_in_before,
            position_in_after,
            m,
        ) + equal_for(m) + tail));
        position_in_before = if next_in_before > before_len {
            before_len
        } else {
            next_in_before
        };
        position_in_after = if next_in_after > after_len {
            after_len
        } else {
            next_in_after
        };
        i += 1;
    }
    assert(matches@.skip(matches@.len() as int) =~= Seq::<Match>::empty());
    assert(operations@ + Seq::<DiffOperation>::empty() =~= operations@);
    operations
}

impl HtmlDiff {
    /// Derives the edit script that turns `before_tokens` into `after_tokens`:
    /// their matching blocks as `Equal` operations, and between them what was
    /// inserted, deleted or replaced. The script accounts for every token of both
    /// sequences exactly once.
    pub fn calculate_operations(&self, before_tokens: &[String], after_tokens: &[String]) -> (operations: Vec<DiffOperation>)
        ensures
            operations@ == edit_script(
                blocks(
                    texts(before_tokens@),
                    texts(after_tokens@),
                    whole_range(before_tokens@.len(), after_tokens@.len()),
                ),
                before_tokens@.len() as usize,
                after_tokens@.len() as usize,
            ),
            covers(operations@, 0, 0, before_tokens@.len() as int, after_tokens@.len() as int),
            forall|k: int|
                0 <= k < operations.len() ==> sound_operation(
                    texts(before_tokens@),
                    texts(after_tokens@),
                    #[trigger] operations[k],
                ),
    {
        let mut matches = self.find_matching_blocks(before_tokens, after_tokens);
        matches.push(Match::new(before_tokens.len(), after_tokens.len(), 0));
        let operations = operations_between(&matches, before_tokens.len(), after_tokens.len());
        proof {
            assert(before_tokens.len() == texts(before_tokens@).len());
            assert(after_tokens.len() == texts(after_tokens@).len());
            lemma_edit_script_covers(texts(before_tokens@), texts(after_tokens@));
        }
        operations
    }
}

} // verus!
