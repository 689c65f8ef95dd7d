use crate::htmldiff::HtmlDiff;
use crate::text::texts;
use std::collections::HashMap;
use vstd::multiset::Multiset;
use vstd::prelude::*;

verus! {

broadcast use vstd::std_specs::hash::group_hash_axioms;

/// A run of `length` tokens that the two sequences share: it starts at
/// `start_in_before` in the one and at `start_in_after` in the other.
#[derive(Clone, Copy, Debug, PartialEq, Eq, Structural)]
pub struct Match {
    pub start_in_before: usize,
    pub start_in_after: usize,
    pub length: usize,
    /// Position of the run's last token in the first sequence.
    pub end_in_before: usize,
    /// Position of the run's last token in the second sequence.
    pub end_in_after: usize,
}

/// Position of the last of `length` tokens that begin at `start`. For an empty
/// run this is the position before `start`, or 0 where there is none.
pub open spec fn inclusive_end(start: usize, length: usize) -> usize {
    if start + length > usize::MAX {
        (usize::MAX - 1) as usize
    } else if start + length == 0 {
        0
    } else {
        (start + length - 1) as usize
    }
}

/// The match that starts at the given positions and has the given length.
pub open spec fn block(start_in_before: usize, start_in_after: usize, length: usize) -> Match {
    Match {
        start_in_before,
        start_in_after,
        length,
        end_in_before: inclusive_end(start_in_before, length),
        end_in_after: inclusive_end(start_in_after, length),
    }
}

impl Match {
    pub fn new(start_in_before: usize, start_in_after: usize, length: usize) -> (m: Self)
        ensures
            m == block(start_in_before, start_in_after, length),
    {
        let end_in_before = start_in_before.saturating_add(length).saturating_sub(1);
        let end_in_after = start_in_after.saturating_add(length).saturating_sub(1);
        Match { start_in_before, start_in_after, length, end_in_before, end_in_after }
    }
}

/// The part of both sequences in which a match is looked for: positions from
/// `start_in_before` up to but not including `end_in_before` in the first, and
/// likewise in the second.
#[derive(Clone, Copy, Debug, PartialEq, Eq, Structural)]
pub struct SearchRange {
    pub start_in_before: usize,
    pub end_in_before: usize,
    pub start_in_after: usize,
    pub end_in_after: usize,
}

impl SearchRange {
    /// The range lies inside sequences of the given lengths.
    pub open spec fn fits(self, before_len: nat, after_len: nat) -> bool {
        &&& self.start_in_before <= self.end_in_before <= before_len
        &&& self.start_in_after <= self.end_in_after <= after_len
    }

    /// The run of `len` tokens at `sb` and `sa` lies inside the range.
    pub open spec fn holds(self, sb: int, sa: int, len: int) -> bool {
        &&& self.start_in_before <= sb
        &&& sb + len <= self.end_in_before
        &&& self.start_in_after <= sa
        &&& sa + len <= self.end_in_after
    }
}

/// The positions below `n` at which `within` holds `token`, in ascending order.
pub open spec fn positions_upto(within: Seq<Seq<char>>, token: Seq<char>, n: nat) -> Seq<usize>
    decreases n,
{
    if n == 0 {
        Seq::empty()
    } else {
        let earlier = positions_upto(within, token, (n - 1) as nat);
        if within[n - 1] == token {
            earlier.push((n - 1) as usize)
        } else {
            earlier
        }
    }
}

/// All positions at which `within` holds `token`, in ascending order.
pub open spec fn positions(within: Seq<Seq<char>>, token: Seq<char>) -> Seq<usize> {
    positions_upto(within, token, within.len())
}

/// What an index from the tokens of `find` into `within` holds: for each value
/// that occurs in `find`, the positions of that value in `within`.
pub open spec fn index_of(find: Seq<Seq<char>>, within: Seq<Seq<char>>) -> Map<
    Seq<char>,
    Seq<usize>,
> {
    Map::new(|token: Seq<char>| find.contains(token), |token: Seq<char>| positions(within, token))
}

/// The listed positions are in range, hold the token, ascend strictly, and leave
/// out no position below `n` that holds the token.
pub proof fn lemma_positions(within: Seq<Seq<char>>, token: Seq<char>, n: nat)
    requires
        n <= within.len() <= usize::MAX,
    ensures
        forall|k: int|
            0 <= k < positions_upto(within, token, n).len() ==> {
                &&& (#[trigger] positions_upto(within, token, n)[k]) < n
                &&& within[positions_upto(within, token, n)[k] as int] == token
            },
        forall|k1: int, k2: int|
            0 <= k1 < k2 < positions_upto(within, token, n).len() ==> positions_upto(
                within,
                token,
                n,
            )[k1] < positions_upto(within, token, n)[k2],
        forall|j: int|
            0 <= j < n && within[j] == token ==> exists|k: int|
                0 <= k < positions_upto(within, token, n).len() && #[trigger] positions_upto(
                    within,
                    token,
                    n,
                )[k] == j,
    decreases n,
{
    if n > 0 {
        lemma_positions(within, token, (n - 1) as nat);
        let earlier = positions_upto(within, token, (n - 1) as nat);
        let all = positions_upto(within, token, n);
        assert forall|j: int| 0 <= j < n && within[j] == token implies exists|k: int|
            0 <= k < all.len() && #[trigger] all[k] == j by {
            if j < n - 1 {
                let k = choose|k: int| 0 <= k < earlier.len() && #[trigger] earlier[k] == j;
                assert(all[k] == j);
            } else {
                assert(all[all.len() - 1] == j);
            }
        }
    }
}

/// For each distinct token of one sequence, the positions at which the other
/// sequence holds the same token.
pub struct TokenIndex {
    keys: Ghost<Seq<Seq<char>>>,
    within: Ghost<Seq<Seq<char>>>,
    /// For each position of the first sequence, the bucket of its token.
    slots: Vec<usize>,
    /// The position lists, one per distinct token.
    buckets: Vec<Vec<usize>>,
}

impl TokenIndex {
    #[verifier::type_invariant]
    spec fn coherent(&self) -> bool {
        &&& self.slots@.len() == self.keys@.len()
        &&& self.buckets@.len() == self.keys@.len()
        &&& forall|i: int|
            0 <= i < self.keys@.len() ==> {
                &&& (#[trigger] self.slots@[i]) < self.keys@.len()
                &&& self.buckets@[self.slots@[i] as int]@ == positions(self.within@, self.keys@[i])
            }
    }

    /// The tokens that the index was built for.
    pub closed spec fn keys(&self) -> Seq<Seq<char>> {
        self.keys@
    }

    /// The tokens whose positions the index lists.
    pub closed spec fn within(&self) -> Seq<Seq<char>> {
        self.within@
    }

    /// The index as a mapping from token to positions.
    pub open spec fn view(&self) -> Map<Seq<char>, Seq<usize>> {
        index_of(self.keys(), self.within())
    }

    /// The positions recorded for the token at position `i` of the first sequence.
    pub fn locations(&self, i: usize) -> (found: &Vec<usize>)
        requires
            i < self.keys().len(),
        ensures
            found@ == positions(self.within(), self.keys()[i as int]),
            found@ == self@[self.keys()[i as int]],
    {
        proof {
            use_type_invariant(self);
            assert(self.keys().contains(self.keys()[i as int]));
        }
        &self.buckets[self.slots[i]]
    }
}

/// The positions at which `in_these` holds `token`, in ascending order.
pub fn positions_of(in_these: &[String], token: &String) -> (found: Vec<usize>)
    ensures
        found@ == positions(texts(in_these@), token@),
{
    let mut found: Vec<usize> = Vec::new();
    let mut j: usize = 0;
    while j < in_these.len()
        invariant
            j <= in_these.len(),
            found@ == positions_upto(texts(in_these@), token@, j as nat),
        decreases in_these.len() - j,
    {
        if in_these[j] == *token {
            found.push(j);
        }
        j += 1;
    }
    found
}

/// A non-empty run of equal tokens: `len` tokens from `sb` in `before` are the
/// `len` tokens from `sa` in `after`.
pub open spec fn common_run(
    before: Seq<Seq<char>>,
    after: Seq<Seq<char>>,
    sb: int,
    sa: int,
    len: int,
) -> bool {
    &&& 0 <= sb && sb + len <= before.len()
    &&& 0 <= sa && sa + len <= after.len()
    &&& forall|i: int| sb <= i < sb + len ==> #[trigger] before[i] == after[i - sb + sa]
}

/// A run that the search may return: not empty, inside the range, equal tokens.
pub open spec fn is_candidate(
    before: Seq<Seq<char>>,
    after: Seq<Seq<char>>,
    range: SearchRange,
    sb: int,
    sa: int,
    len: int,
) -> bool {
    len >= 1 && range.holds(sb, sa, len) && common_run(before, after, sb, sa, len)
}

/// The order in which runs of one length are preferred: further left in the
/// first sequence, and for one place there, further left in the second.
pub open spec fn starts_no_later(sb: int, sa: int, sb2: int, sa2: int) -> bool {
    sb < sb2 || (sb == sb2 && sa <= sa2)
}

/// The run is the search's answer: no candidate is longer, and none of the same
/// length is preferred to it.
pub open spec fn is_best_match(
    before: Seq<Seq<char>>,
    after: Seq<Seq<char>>,
    range: SearchRange,
    sb: int,
    sa: int,
    len: int,
) -> bool {
    &&& is_candidate(before, after, range, sb, sa, len)
    &&& forall|sb2: int, sa2: int, len2: int| #[trigger]
        is_candidate(before, after, range, sb2, sa2, len2) ==> len2 < len || (len2 == len
            && starts_no_later(sb, sa, sb2, sa2))
}

/// The longest common run inside the range, the preferred one among the longest;
/// `None` where the range holds no common token at all.
pub open spec fn best_match(
    before: Seq<Seq<char>>,
    after: Seq<Seq<char>>,
    range: SearchRange,
) -> Option<Match> {
    if exists|sb: int, sa: int, len: int| is_best_match(before, after, range, sb, sa, len) {
        let (sb, sa, len) = choose|sb: int, sa: int, len: int|
            is_best_match(before, after, range, sb, sa, len);
        Some(block(sb as usize, sa as usize, len as usize))
    } else {
        None
    }
}

/// A range has at most one best match.
pub proof fn lemma_best_match_unique(
    before: Seq<Seq<char>>,
    after: Seq<Seq<char>>,
    range: SearchRange,
    sb: int,
    sa: int,
    len: int,
    sb2: int,
    sa2: int,
    len2: int,
)
    requires
        is_best_match(before, after, range, sb, sa, len),
        is_best_match(before, after, range, sb2, sa2, len2),
    ensures
        sb == sb2 && sa == sa2 && len == len2,
{
    assert(is_candidate(before, after, range, sb, sa, len));
    assert(is_candidate(before, after, range, sb2, sa2, len2));
}

/// Length of the longest common run inside the range that ends at `i` and `j`.
pub closed spec fn run_len(
    before: Seq<Seq<char>>,
    after: Seq<Seq<char>>,
    range: SearchRange,
    i: int,
    j: int,
) -> nat
    decreases i + 1,
{
    if 0 <= i && range.start_in_before <= i < range.end_in_before && range.start_in_after <= j
        < range.end_in_after && before[i] == after[j] {
        1 + run_len(before, after, range, i - 1, j - 1)
    } else {
        0
    }
}

proof fn lemma_run_bounds(
    before: Seq<Seq<char>>,
    after: Seq<Seq<char>>,
    range: SearchRange,
    i: int,
    j: int,
)
    ensures
        run_len(before, after, range, i, j) > 0 ==> {
            &&& run_len(before, after, range, i, j) <= i - range.start_in_before + 1
            &&& run_len(before, after, range, i, j) <= j - range.start_in_after + 1
        },
    decreases i + 1,
{
    if run_len(before, after, range, i, j) > 0 {
        lemma_run_bounds(before, after, range, i - 1, j - 1);
    }
}

proof fn lemma_run_is_candidate(
    before: Seq<Seq<char>>,
    after: Seq<Seq<char>>,
    range: SearchRange,
    i: int,
    j: int,
)
    requires
        range.fits(before.len(), after.len()),
        run_len(before, after, range, i, j) > 0,
    ensures
        is_candidate(
            before,
            after,
            range,
            i - run_len(before, after, range, i, j) + 1,
            j - run_len(before, after, range, i, j) + 1,
            run_len(before, after, range, i, j) as int,
        ),
    decreases i + 1,
{
    let len = run_len(before, after, range, i, j) as int;
    if len > 1 {
        lemma_run_is_candidate(before, after, range, i - 1, j - 1);
        let sb = i - len + 1;
        let sa = j - len + 1;
        assert(is_candidate(before, after, range, sb, sa, len - 1));
        assert forall|x: int| sb <= x < sb + len implies #[trigger] before[x] == after[x - sb
            + sa] by {
            if x < i {
                assert(sb <= x < sb + (len - 1));
            }
        }
    }
}

proof fn lemma_candidate_run(
    before: Seq<Seq<char>>,
    after: Seq<Seq<char>>,
    range: SearchRange,
    sb: int,
    sa: int,
    len: int,
)
    requires
        is_candidate(before, after, range, sb, sa, len),
    ensures
        run_len(before, after, range, sb + len - 1, sa + len - 1) >= len,
    decreases len,
{
    let i = sb + len - 1;
    assert(before[i] == after[i - sb + sa]);
    if len > 1 {
        assert forall|x: int| sb <= x < sb + (len - 1) implies #[trigger] before[x] == after[x
            - sb + sa] by {
            assert(sb <= x < sb + len);
        }
        lemma_candidate_run(before, after, range, sb, sa, len - 1);
    }
}

/// Whether the search, going through the first sequence and for each place there
/// through the second, has looked at the pair `(i, j)` before it comes to
/// `(row, col)`.
spec fn scanned(i: int, j: int, row: int, col: int) -> bool {
    i < row || (i == row && j < col)
}

/// The run that ends at `(i, j)` does not displace the best run so far.
spec fn rated(
    before: Seq<Seq<char>>,
    after: Seq<Seq<char>>,
    range: SearchRange,
    bi: int,
    bj: int,
    bl: int,
    i: int,
    j: int,
) -> bool {
    let l = run_len(before, after, range, i, j);
    l <= bl && (l == bl && l > 0 ==> starts_no_later(bi + bl - 1, bj + bl - 1, i, j))
}

/// The search's state before it looks at `(row, col)`: the run of length `bl`
/// at `bi` and `bj` is the first of the longest that end at a pair it has seen.
spec fn leads(
    before: Seq<Seq<char>>,
    after: Seq<Seq<char>>,
    range: SearchRange,
    bi: int,
    bj: int,
    bl: int,
    row: int,
    col: int,
) -> bool {
    &&& 0 <= bl
    &&& bl > 0 ==> scanned(bi + bl - 1, bj + bl - 1, row, col) && run_len(
        before,
        after,
        range,
        bi + bl - 1,
        bj + bl - 1,
    ) == bl
    &&& forall|i: int, j: int|
        scanned(i, j, row, col) ==> #[trigger] rated(before, after, range, bi, bj, bl, i, j)
}

proof fn lemma_leads_skip(
    before: Seq<Seq<char>>,
    after: Seq<Seq<char>>,
    range: SearchRange,
    bi: int,
    bj: int,
    bl: int,
    row: int,
    col: int,
    col2: int,
)
    requires
        leads(before, after, range, bi, bj, bl, row, col),
        col <= col2,
        forall|j: int| col <= j < col2 ==> #[trigger] run_len(before, after, range, row, j) == 0,
    ensures
        leads(before, after, range, bi, bj, bl, row, col2),
{
    assert forall|i: int, j: int| scanned(i, j, row, col2) implies #[trigger] rated(
        before,
        after,
        range,
        bi,
        bj,
        bl,
        i,
        j,
    ) by {
        if scanned(i, j, row, col) {
            assert(rated(before, after, range, bi, bj, bl, i, j));
        } else {
            assert(run_len(before, after, range, row, j) == 0);
        }
    }
}

proof fn lemma_leads_next_row(
    before: Seq<Seq<char>>,
    after: Seq<Seq<char>>,
    range: SearchRange,
    bi: int,
    bj: int,
    bl: int,
    row: int,
    col: int,
)
    requires
        leads(before, after, range, bi, bj, bl, row, col),
        forall|j: int| col <= j ==> #[trigger] run_len(before, after, range, row, j) == 0,
    ensures
        leads(before, after, range, bi, bj, bl, row + 1, 0),
{
    assert forall|i: int, j: int| scanned(i, j, row + 1, 0) implies #[trigger] rated(
        before,
        after,
        range,
        bi,
        bj,
        bl,
        i,
        j,
    ) by {
        if scanned(i, j, row, col) {
            assert(rated(before, after, range, bi, bj, bl, i, j));
        } else if i == row {
            assert(run_len(before, after, range, row, j) == 0);
        } else {
            assert(run_len(before, after, range, i, j) == 0);
        }
    }
}

proof fn lemma_leads_take(
    before: Seq<Seq<char>>,
    after: Seq<Seq<char>>,
    range: SearchRange,
    bi: int,
    bj: int,
    bl: int,
    row: int,
    col: int,
)
    requires
        leads(before, after, range, bi, bj, bl, row, col),
    ensures
        ({
            let l = run_len(before, after, range, row, col) as int;
            if l > bl {
                leads(before, after, range, row - l + 1, col - l + 1, l, row, col + 1)
            } else {
                leads(before, after, range, bi, bj, bl, row, col + 1)
            }
        }),
{
    let l = run_len(before, after, range, row, col) as int;
    if l > bl {
        let ni = row - l + 1;
        let nj = col - l + 1;
        assert forall|i: int, j: int| scanned(i, j, row, col + 1) implies #[trigger] rated(
            before,
            after,
            range,
            ni,
            nj,
            l,
            i,
            j,
        ) by {
            if scanned(i, j, row, col) {
                assert(rated(before, after, range, bi, bj, bl, i, j));
            }
        }
    } else {
        assert forall|i: int, j: int| scanned(i, j, row, col + 1) implies #[trigger] rated(
            before,
            after,
            range,
            bi,
            bj,
            bl,
            i,
            j,
        ) by {
            if scanned(i, j, row, col) {
                assert(rated(before, after, range, bi, bj, bl, i, j));
            }
        }
    }
}

/// Once the search has seen every pair of the range, its state is the best match,
/// or there is no candidate at all.
proof fn lemma_leads_best(
    before: Seq<Seq<char>>,
    after: Seq<Seq<char>>,
    range: SearchRange,
    bi: int,
    bj: int,
    bl: int,
)
    requires
        range.fits(before.len(), after.len()),
        leads(before, after, range, bi, bj, bl, range.end_in_before as int, 0),
    ensures
        bl > 0 ==> is_best_match(before, after, range, bi, bj, bl),
        bl == 0 ==> forall|sb: int, sa: int, len: int|
            !#[trigger] is_candidate(before, after, range, sb, sa, len),
{
    let row = range.end_in_before as int;
    if bl > 0 {
        lemma_run_is_candidate(before, after, range, bi + bl - 1, bj + bl - 1);
    }
    assert forall|sb: int, sa: int, len: int| #[trigger]
        is_candidate(before, after, range, sb, sa, len) implies bl > 0 && (len < bl || (len == bl
        && starts_no_later(bi, bj, sb, sa))) by {
        lemma_candidate_run(before, after, range, sb, sa, len);
        let i = sb + len - 1;
        let j = sa + len - 1;
        assert(scanned(i, j, row, 0));
        assert(rated(before, after, range, bi, bj, bl, i, j));
        if len == bl {
            assert(run_len(before, after, range, i, j) == bl);
        }
    }
}

/// The range holds no token that both sequences share.
pub open spec fn nothing_shared(
    before: Seq<Seq<char>>,
    after: Seq<Seq<char>>,
    range: SearchRange,
) -> bool {
    forall|i: int, j: int|
        range.start_in_before <= i < range.end_in_before && range.start_in_after <= j
            < range.end_in_after ==> #[trigger] before[i] != #[trigger] after[j]
}

/// What the row of run lengths holds once the search has passed the columns
/// below `col` of row `i`: the length of each run that ends there.
spec fn row_lengths(
    before: Seq<Seq<char>>,
    after: Seq<Seq<char>>,
    range: SearchRange,
    lengths: Map<usize, usize>,
    i: int,
    col: int,
) -> bool {
    forall|j: usize|
        #![trigger lengths.contains_key(j)]
        #![trigger run_len(before, after, range, i, j as int)]
        {
            &&& lengths.contains_key(j) <==> j < col && run_len(before, after, range, i, j as int)
                > 0
            &&& lengths.contains_key(j) ==> lengths[j] == run_len(
                before,
                after,
                range,
                i,
                j as int,
            )
        }
}

impl HtmlDiff {
    /// Records, for each distinct token of `find_these`, the positions at which
    /// `in_these` holds an equal token, in ascending order.
    pub fn create_index(&self, find_these: &[String], in_these: &[String]) -> (index: TokenIndex)
        ensures
            index.keys() == texts(find_these@),
            index.within() == texts(in_these@),
            index@ == index_of(texts(find_these@), texts(in_these@)),
    {
        let ghost keys = texts(find_these@);
        let ghost within = texts(in_these@);
        let mut slots: Vec<usize> = Vec::new();
        let mut buckets: Vec<Vec<usize>> = Vec::new();
        let mut i: usize = 0;
        while i < find_these.len()
            invariant
                i <= find_these.len(),
                slots.len() == i,
                buckets.len() == i,
                keys == texts(find_these@),
                within == texts(in_these@),
                forall|x: int|
                    0 <= x < i ==> {
                        &&& (#[trigger] slots@[x]) < i
                        &&& buckets@[slots@[x] as int]@ == positions(within, keys[x])
                    },
            decreases find_these.len() - i,
        {
            let mut k: usize = 0;
            while k < i && !(find_these[k] == find_these[i])
                invariant
                    k <= i < find_these.len(),
                decreases i - k,
            {
                k += 1;
            }
            if k < i {
                assert(keys[k as int] == keys[i as int]);
                let slot = slots[k];
                slots.push(slot);
                buckets.push(Vec::new());
            } else {
                let found = positions_of(in_these, &find_these[i]);
                slots.push(i);
                buckets.push(found);
            }
            i += 1;
        }
        TokenIndex { keys: Ghost(keys), within: Ghost(within), slots, buckets }
    }

    /// Looks for the longest run of tokens that the two sequences share inside
    /// `range`. Among the longest runs, the one that starts first in
    /// `before_tokens` wins, and among those the one that starts first in
    /// `after_tokens`.
    pub fn find_match(
        &self,
        before_tokens: &[String],
        after_tokens: &[String],
        index: &TokenIndex,
        range: &SearchRange,
    ) -> (found: Option<Match>)
        requires
            index.keys() == texts(before_tokens@),
            index.within() == texts(after_tokens@),
            range.fits(before_tokens@.len(), after_tokens@.len()),
        ensures
            found == best_match(texts(before_tokens@), texts(after_tokens@), *range),
            found is None <==> nothing_shared(
                texts(before_tokens@),
                texts(after_tokens@),
                *range,
            ),
            found matches Some(m) ==> m == block(m.start_in_before, m.start_in_after, m.length)
                && is_best_match(
                texts(before_tokens@),
                texts(after_tokens@),
                *range,
                m.start_in_before as int,
                m.start_in_after as int,
                m.length as int,
            ),
    {
        let ghost b = texts(before_tokens@);
        let ghost a = texts(after_tokens@);
        let ghost r = *range;
        let mut best_match_in_before: usize = range.start_in_before;
        let mut best_match_in_after: usize = range.start_in_after;
        let mut best_match_length: usize = 0;
        let mut match_length_at: HashMap<usize, usize> = HashMap::new();
        let mut index_in_before: usize = range.start_in_before;
        proof {
            assert(after_tokens.len() == a.len());
            assert forall|i: int, j: int|
                scanned(i, j, r.start_in_before as int, 0) implies #[trigger] rated(
                b,
                a,
                r,
                best_match_in_before as int,
                best_match_in_after as int,
                0,
                i,
                j,
            ) by {
                assert(run_len(b, a, r, i, j) == 0);
            }
            assert forall|j: usize| #[trigger] run_len(b, a, r, r.start_in_before - 1, j as int) == 0 by {}
        }
        while index_in_before < range.end_in_before
            invariant
                b == texts(before_tokens@),
                a == texts(after_tokens@),
                r == *range,
                index.keys() == b,
                index.within() == a,
                r.fits(b.len(), a.len()),
                a.len() <= usize::MAX,
                r.start_in_before <= index_in_before <= r.end_in_before,
                leads(
                    b,
                    a,
                    r,
                    best_match_in_before as int,
                    best_match_in_after as int,
                    best_match_length as int,
                    index_in_before as int,
                    0,
                ),
                row_lengths(b, a, r, match_length_at@, index_in_before - 1, a.len() as int),
            decreases r.end_in_before - index_in_before,
        {
            let mut new_match_length_at: HashMap<usize, usize> = HashMap::new();
            let locations = index.locations(index_in_before);
            let ghost row = index_in_before as int;
            let ghost p = locations@;
            proof {
                lemma_positions(a, b[row], a.len());
            }
            let mut k: usize = 0;
            let ghost mut col: int = 0;
            while k < locations.len() && locations[k] < range.end_in_after
                invariant
                    b == texts(before_tokens@),
                    a == texts(after_tokens@),
                    r == *range,
                    r.fits(b.len(), a.len()),
                    row == index_in_before,
                    r.start_in_before <= row < r.end_in_before,
                    p == locations@,
                    p == positions(a, b[row]),
                    forall|x: int| 0 <= x < p.len() ==> (#[trigger] p[x]) < a.len() && a[p[x] as int] == b[row],
                    forall|x1: int, x2: int| 0 <= x1 < x2 < p.len() ==> p[x1] < p[x2],
                    forall|j: int|
                        0 <= j < a.len() && a[j] == b[row] ==> exists|x: int|
                            0 <= x < p.len() && #[trigger] p[x] == j,
                    k <= p.len(),
                    0 <= col <= a.len(),
                    forall|x: int| 0 <= x < k ==> (#[trigger] p[x]) < col,
                    forall|x: int| k <= x < p.len() ==> (#[trigger] p[x]) >= col,
                    leads(
                        b,
                        a,
                        r,
                        best_match_in_before as int,
                        best_match_in_after as int,
                        best_match_length as int,
                        row,
                        col,
                    ),
                    row_lengths(b, a, r, match_length_at@, row - 1, a.len() as int),
                    row_lengths(b, a, r, new_match_length_at@, row, col),
                decreases p.len() - k,
            {
                let index_in_after: usize = locations[k];
                proof {
                    assert forall|j: int| col <= j < index_in_after implies #[trigger] run_len(
                        b,
                        a,
                        r,
                        row,
                        j,
                    ) == 0 by {
                        if a[j] == b[row] {
                            let x = choose|x: int| 0 <= x < p.len() && #[trigger] p[x] == j;
                            if x < k {
                                assert(p[x] < col);
                            } else if x > k {
                                assert(p[k as int] < p[x]);
                            }
                        }
                    }
                    lemma_leads_skip(
                        b,
                        a,
                        r,
                        best_match_in_before as int,
                        best_match_in_after as int,
                        best_match_length as int,
                        row,
                        col,
                        index_in_after as int,
                    );
                    lemma_leads_take(
                        b,
                        a,
                        r,
                        best_match_in_before as int,
                        best_match_in_after as int,
                        best_match_length as int,
                        row,
                        index_in_after as int,
                    );
                    lemma_run_bounds(b, a, r, row, index_in_after as int);
                    assert(a[p[k as int] as int] == b[row]);
                }
                if index_in_after >= range.start_in_after {
                    let previous_length: usize = if index_in_after > 0 {
                        match match_length_at.get(&(index_in_after - 1)) {
                            Some(length) => *length,
                            None => 0,
                        }
                    } else {
                        0
                    };
                    assert(previous_length == run_len(b, a, r, row - 1, index_in_after - 1));
                    assert(run_len(b, a, r, row, index_in_after as int) == previous_length + 1);
                    let new_match_length: usize = previous_length + 1;
                    new_match_length_at.insert(index_in_after, new_match_length);
                    if new_match_length > best_match_length {
                        best_match_in_before = index_in_before - (new_match_length - 1);
                        best_match_in_after = index_in_after - (new_match_length - 1);
                        best_match_length = new_match_length;
                    }
                } else {
                    assert(run_len(b, a, r, row, index_in_after as int) == 0);
                }
                proof {
                    col = index_in_after + 1;
                    assert forall|x: int| k + 1 <= x < p.len() implies (#[trigger] p[x]) >= col by {
                        assert(p[k as int] < p[x]);
                    }
                }
                k += 1;
            }
            proof {
                assert forall|j: int| col <= j implies #[trigger] run_len(b, a, r, row, j)
                    == 0 by {
                    if 0 <= j < a.len() && j < r.end_in_after && a[j] == b[row] {
                        let x = choose|x: int| 0 <= x < p.len() && #[trigger] p[x] == j;
                        if x < k {
                            assert(p[x] < col);
                        } else if x > k {
                            assert(p[k as int] < p[x]);
                        }
                    }
                }
                lemma_leads_next_row(
                    b,
                    a,
                    r,
                    best_match_in_before as int,
                    best_match_in_after as int,
                    best_match_length as int,
                    row,
                    col,
                );
            }
            match_length_at = new_match_length_at;
            index_in_before += 1;
        }
        proof {
            lemma_leads_best(
                b,
                a,
                r,
                best_match_in_before as int,
                best_match_in_after as int,
                best_match_length as int,
            );
        }
        if best_match_length != 0 {
            let m = Match::new(best_match_in_before, best_match_in_after, best_match_length);
            proof {
                let (sb, sa, len) = choose|sb: int, sa: int, len: int|
                    is_best_match(b, a, r, sb, sa, len);
                lemma_best_match_unique(
                    b,
                    a,
                    r,
                    sb,
                    sa,
                    len,
                    best_match_in_before as int,
                    best_match_in_after as int,
                    best_match_length as int,
                );
                let i = m.start_in_before as int;
                assert(b[i] == a[i - m.start_in_before + m.start_in_after]);
            }
            Some(m)
        } else {
            proof {
                assert forall|i: int, j: int|
                    r.start_in_before <= i < r.end_in_before && r.start_in_after <= j
                        < r.end_in_after implies #[trigger] b[i] != #[trigger] a[j] by {
                    if b[i] == a[j] {
                        assert(is_candidate(b, a, r, i, j, 1));
                    }
                }
            }
            None
        }
    }
}

/// The range that covers both sequences.
pub open spec fn whole_range(before_len: nat, after_len: nat) -> SearchRange {
    SearchRange {
        start_in_before: 0,
        end_in_before: before_len as usize,
        start_in_after: 0,
        end_in_after: after_len as usize,
    }
}

/// What is left of the range in front of a match.
pub open spec fn left_of(range: SearchRange, m: Match) -> SearchRange {
    SearchRange {
        start_in_before: range.start_in_before,
        end_in_before: m.start_in_before,
        start_in_after: range.start_in_after,
        end_in_after: m.start_in_after,
    }
}

/// What is left of the range behind a match.
pub open spec fn right_of(range: SearchRange, m: Match) -> SearchRange {
    SearchRange {
        start_in_before: (m.start_in_before + m.length) as usize,
        end_in_before: range.end_in_before,
        start_in_after: (m.start_in_after + m.length) as usize,
        end_in_after: range.end_in_after,
    }
}

/// The range holds at least one token of each sequence.
pub open spec fn has_width(range: SearchRange) -> bool {
    range.start_in_before < range.end_in_before && range.start_in_after < range.end_in_after
}

/// Where a range has a best match, that match lies inside the range.
pub proof fn lemma_best_match_inside(
    before: Seq<Seq<char>>,
    after: Seq<Seq<char>>,
    range: SearchRange,
)
    ensures
        best_match(before, after, range) matches Some(m) ==> {
            &&& m == block(m.start_in_before, m.start_in_after, m.length)
            &&& is_best_match(
                before,
                after,
                range,
                m.start_in_before as int,
                m.start_in_after as int,
                m.length as int,
            )
        },
{
}

/// The state of a search that has come to `(row, col)`.
proof fn lemma_leads_exist(
    before: Seq<Seq<char>>,
    after: Seq<Seq<char>>,
    range: SearchRange,
    row: int,
    col: int,
) -> (state: (int, int, int))
    requires
        range.fits(before.len(), after.len()),
        range.start_in_before <= row <= range.end_in_before,
        0 <= col <= after.len(),
    ensures
        leads(before, after, range, state.0, state.1, state.2, row, col),
    decreases row - range.start_in_before, col,
{
    if col > 0 {
        let s = lemma_leads_exist(before, after, range, row, col - 1);
        lemma_leads_take(before, after, range, s.0, s.1, s.2, row, col - 1);
        let l = run_len(before, after, range, row, col - 1) as int;
        if l > s.2 {
            (row - l + 1, col - 1 - l + 1, l)
        } else {
            s
        }
    } else if row > range.start_in_before {
        let s = lemma_leads_exist(before, after, range, row - 1, after.len() as int);
        assert forall|j: int| after.len() <= j implies #[trigger] run_len(
            before,
            after,
            range,
            row - 1,
            j,
        ) == 0 by {}
        lemma_leads_next_row(before, after, range, s.0, s.1, s.2, row - 1, after.len() as int);
        s
    } else {
        assert forall|i: int, j: int| scanned(i, j, row, 0) implies #[trigger] rated(
            before,
            after,
            range,
            0,
            0,
            0,
            i,
            j,
        ) by {
            assert(run_len(before, after, range, i, j) == 0);
        }
        (0, 0, 0)
    }
}

/// What a search guarantees. A range has no best match exactly where the two
/// sequences share no token inside it. Where it has one, the match cannot be
/// extended inside the range: the tokens in front of it differ, or one of them
/// lies outside the range, and likewise the tokens behind it.
pub proof fn lemma_best_match_guarantee(
    before: Seq<Seq<char>>,
    after: Seq<Seq<char>>,
    range: SearchRange,
)
    requires
        range.fits(before.len(), after.len()),
    ensures
        best_match(before, after, range) is None <==> nothing_shared(before, after, range),
        best_match(before, after, range) matches Some(m) ==> {
            &&& !(range.start_in_before < m.start_in_before && range.start_in_after
                < m.start_in_after && before[m.start_in_before - 1] == after[m.start_in_after - 1])
            &&& !(m.start_in_before + m.length < range.end_in_before && m.start_in_after + m.length
                < range.end_in_after && before[m.start_in_before + m.length]
                == after[m.start_in_after + m.length])
        },
{
    let s = lemma_leads_exist(before, after, range, range.end_in_before as int, 0);
    lemma_leads_best(before, after, range, s.0, s.1, s.2);
    lemma_best_match_inside(before, after, range);
    if s.2 > 0 {
        assert(is_best_match(before, after, range, s.0, s.1, s.2));
        assert(before[s.0] == after[s.0 - s.0 + s.1]);
    } else {
        assert forall|i: int, j: int|
            range.start_in_before <= i < range.end_in_before && range.start_in_after <= j
                < range.end_in_after implies #[trigger] before[i] != #[trigger] after[j] by {
            if before[i] == after[j] {
                assert(is_candidate(before, after, range, i, j, 1));
            }
        }
        assert forall|sb: int, sa: int, len: int| !is_best_match(
            before,
            after,
            range,
            sb,
            sa,
            len,
        ) by {
            assert(!is_candidate(before, after, range, sb, sa, len));
        }
    }
    match best_match(before, after, range) {
        Some(m) => {
            let sb = m.start_in_before as int;
            let sa = m.start_in_after as int;
            let len = m.length as int;
            if range.start_in_before < sb && range.start_in_after < sa && before[sb - 1]
                == after[sa - 1] {
                assert forall|i: int| sb - 1 <= i < sb - 1 + (len + 1) implies #[trigger] before[i]
                    == after[i - (sb - 1) + (sa - 1)] by {
                    if i >= sb {
                        assert(before[i] == after[i - sb + sa]);
                    }
                }
                assert(is_candidate(before, after, range, sb - 1, sa - 1, len + 1));
            }
            if sb + len < range.end_in_before && sa + len < range.end_in_after && before[sb + len]
                == after[sa + len] {
                assert forall|i: int| sb <= i < sb + (len + 1) implies #[trigger] before[i]
                    == after[i - sb + sa] by {
                    if i < sb + len {
                        assert(before[i] == after[i - sb + sa]);
                    }
                }
                assert(is_candidate(before, after, range, sb, sa, len + 1));
            }
        },
        None => {},
    }
}

/// The matching blocks of a range, from left to right: the best match of the
/// range, in front of it the blocks of what is left of the range on its left,
/// and behind it the blocks of what is left on its right. A side on which either
/// sequence has nothing left gives no blocks.
pub open spec fn blocks(
    before: Seq<Seq<char>>,
    after: Seq<Seq<char>>,
    range: SearchRange,
) -> Seq<Match>
    decreases range.end_in_before - range.start_in_before,
    via blocks_decreases
{
    match best_match(before, after, range) {
        None => Seq::empty(),
        Some(m) => {
            let left = left_of(range, m);
            let right = right_of(range, m);
            let lower = if has_width(left) {
                blocks(before, after, left)
            } else {
                Seq::empty()
            };
            let upper = if has_width(right) {
                blocks(before, after, right)
            } else {
                Seq::empty()
            };
            lower.push(m) + upper
        },
    }
}

#[via_fn]
proof fn blocks_decreases(before: Seq<Seq<char>>, after: Seq<Seq<char>>, range: SearchRange) {
    lemma_best_match_inside(before, after, range);
}

/// The blocks are common runs inside the range, and each ends, in both
/// sequences, before the next begins.
pub open spec fn ordered_blocks(
    before: Seq<Seq<char>>,
    after: Seq<Seq<char>>,
    range: SearchRange,
    found: Seq<Match>,
) -> bool {
    &&& forall|k: int|
        0 <= k < found.len() ==> {
            &&& (#[trigger] found[k]) == block(
                found[k].start_in_before,
                found[k].start_in_after,
                found[k].length,
            )
            &&& is_candidate(
                before,
                after,
                range,
                found[k].start_in_before as int,
                found[k].start_in_after as int,
                found[k].length as int,
            )
        }
    &&& forall|k1: int, k2: int|
        0 <= k1 < k2 < found.len() ==> {
            &&& (#[trigger] found[k1]).start_in_before + found[k1].length
                <= (#[trigger] found[k2]).start_in_before
            &&& found[k1].start_in_after + found[k1].length <= found[k2].start_in_after
        }
}

/// The matching blocks of a range do not overlap, in either sequence, and stand
/// in the order of their positions.
pub proof fn lemma_blocks_ordered(
    before: Seq<Seq<char>>,
    after: Seq<Seq<char>>,
    range: SearchRange,
)
    requires
        range.fits(before.len(), after.len()),
    ensures
        ordered_blocks(before, after, range, blocks(before, after, range)),
    decreases range.end_in_before - range.start_in_before,
{
    lemma_best_match_inside(before, after, range);
    match best_match(before, after, range) {
        None => {},
        Some(m) => {
            let left = left_of(range, m);
            let right = right_of(range, m);
            let lower = if has_width(left) {
                blocks(before, after, left)
            } else {
                Seq::empty()
            };
            let upper = if has_width(right) {
                blocks(before, after, right)
            } else {
                Seq::empty()
            };
            if has_width(left) {
                lemma_blocks_ordered(before, after, left);
            }
            if has_width(right) {
                lemma_blocks_ordered(before, after, right);
            }
            let found = lower.push(m) + upper;
            assert(found == blocks(before, after, range));
            assert forall|k: int| 0 <= k < found.len() implies {
                &&& (#[trigger] found[k]) == block(
                    found[k].start_in_before,
                    found[k].start_in_after,
                    found[k].length,
                )
                &&& is_candidate(
                    before,
                    after,
                    range,
                    found[k].start_in_before as int,
                    found[k].start_in_after as int,
                    found[k].length as int,
                )
                &&& k < lower.len() ==> found[k] == lower[k] && is_candidate(
                    before,
                    after,
                    left,
                    found[k].start_in_before as int,
                    found[k].start_in_after as int,
                    found[k].length as int,
                )
                &&& k > lower.len() ==> found[k] == upper[k - lower.len() - 1] && is_candidate(
                    before,
                    after,
                    right,
                    found[k].start_in_before as int,
                    found[k].start_in_after as int,
                    found[k].length as int,
                )
            } by {
                if k < lower.len() {
                    assert(found[k] == lower[k]);
                } else if k > lower.len() {
                    assert(found[k] == upper[k - lower.len() - 1]);
                }
            }
            assert forall|k1: int, k2: int| 0 <= k1 < k2 < found.len() implies {
                &&& (#[trigger] found[k1]).start_in_before + found[k1].length
                    <= (#[trigger] found[k2]).start_in_before
                &&& found[k1].start_in_after + found[k1].length <= found[k2].start_in_after
            } by {
                if k2 < lower.len() {
                    assert(found[k1] == lower[k1] && found[k2] == lower[k2]);
                } else if k1 > lower.len() {
                    assert(found[k1] == upper[k1 - lower.len() - 1]);
                    assert(found[k2] == upper[k2 - lower.len() - 1]);
                }
            }
        },
    }
}

/// The blocks ascend by where they start in the first sequence.
pub open spec fn ascending(found: Seq<Match>) -> bool {
    forall|k1: int, k2: int|
        0 <= k1 < k2 < found.len() ==> (#[trigger] found[k1]).start_in_before
            <= (#[trigger] found[k2]).start_in_before
}

/// No two of the blocks start at the same place in the first sequence, and
/// they ascend.
pub open spec fn strictly_ascending(found: Seq<Match>) -> bool {
    forall|k1: int, k2: int|
        0 <= k1 < k2 < found.len() ==> (#[trigger] found[k1]).start_in_before
            < (#[trigger] found[k2]).start_in_before
}

/// Blocks that ascend and are, taken together, the same blocks as a strictly
/// ascending sequence, are that sequence.
pub proof fn lemma_one_ascending_order(sorted: Seq<Match>, reference: Seq<Match>)
    requires
        ascending(sorted),
        strictly_ascending(reference),
        sorted.to_multiset() == reference.to_multiset(),
    ensures
        sorted == reference,
    decreases sorted.len(),
{
    vstd::seq_lib::to_multiset_len(sorted);
    vstd::seq_lib::to_multiset_len(reference);
    if sorted.len() > 0 {
        let x = sorted.last();
        let y = reference.last();
        vstd::seq_lib::to_multiset_contains(sorted, x);
        vstd::seq_lib::to_multiset_contains(reference, x);
        vstd::seq_lib::to_multiset_contains(sorted, y);
        vstd::seq_lib::to_multiset_contains(reference, y);
        assert(sorted[sorted.len() - 1] == x);
        assert(reference[reference.len() - 1] == y);
        assert(reference.contains(x));
        assert(sorted.contains(y));
        let kx = choose|k: int| 0 <= k < reference.len() && reference[k] == x;
        let ky = choose|k: int| 0 <= k < sorted.len() && sorted[k] == y;
        assert(y.start_in_before <= x.start_in_before) by {
            if ky < sorted.len() - 1 {
                assert(sorted[ky].start_in_before <= sorted[sorted.len() - 1].start_in_before);
            }
        }
        assert(kx == reference.len() - 1) by {
            if kx < reference.len() - 1 {
                assert(reference[kx].start_in_before < reference[reference.len()
                    - 1].start_in_before);
            }
        }
        assert(x == y);
        assert(sorted.drop_last() =~= sorted.remove(sorted.len() - 1));
        assert(reference.drop_last() =~= reference.remove(reference.len() - 1));
        vstd::seq_lib::to_multiset_remove(sorted, sorted.len() - 1);
        vstd::seq_lib::to_multiset_remove(reference, reference.len() - 1);
        lemma_one_ascending_order(sorted.drop_last(), reference.drop_last());
        assert(sorted =~= sorted.drop_last().push(x));
        assert(reference =~= reference.drop_last().push(y));
    }
}

/// Puts the blocks in ascending order of where they start in the first sequence.
pub fn sort_by_start(found: &mut Vec<Match>)
    ensures
        ascending(final(found)@),
        final(found)@.to_multiset() == old(found)@.to_multiset(),
{
    let mut sorted: Vec<Match> = Vec::new();
    let mut i: usize = 0;
    assert(found@.take(0) =~= sorted@);
    while i < found.len()
        invariant
            i <= found.len(),
            ascending(sorted@),
            sorted@.to_multiset() == found@.take(i as int).to_multiset(),
        decreases found.len() - i,
    {
        let m = found[i];
        let mut at: usize = sorted.len();
        while at > 0 && sorted[at - 1].start_in_before > m.start_in_before
            invariant
                at <= sorted.len(),
                forall|k: int|
                    at <= k < sorted.len() ==> (#[trigger] sorted@[k]).start_in_before
                        > m.start_in_before,
            decreases at,
        {
            at -= 1;
        }
        let ghost earlier = sorted@;
        sorted.insert(at, m);
        proof {
            assert(found@.take(i + 1) =~= found@.take(i as int).push(m));
            vstd::seq_lib::to_multiset_build(found@.take(i as int), m);
            vstd::seq_lib::to_multiset_insert(earlier, at as int, m);
            assert forall|k1: int, k2: int| 0 <= k1 < k2 < sorted@.len() implies (
            #[trigger] sorted@[k1]).start_in_before <= (#[trigger] sorted@[k2]).start_in_before by {
                if k1 < at && k2 < at {
                    assert(sorted@[k1] == earlier[k1] && sorted@[k2] == earlier[k2]);
                } else if k1 < at && k2 == at {
                    assert(sorted@[k1] == earlier[k1]);
                    if k1 < at - 1 {
                        assert(earlier[k1].start_in_before <= earlier[at - 1].start_in_before);
                    }
                } else if k1 < at {
                    assert(sorted@[k1] == earlier[k1] && sorted@[k2] == earlier[k2 - 1]);
                } else if k1 == at {
                    assert(sorted@[k2] == earlier[k2 - 1]);
                } else {
                    assert(sorted@[k1] == earlier[k1 - 1] && sorted@[k2] == earlier[k2 - 1]);
                }
            }
        }
        i += 1;
    }
    assert(found@.take(found@.len() as int) =~= found@);
    *found = sorted;
}

/// The blocks that the ranges still to be searched will give, taken together.
spec fn pending(
    before: Seq<Seq<char>>,
    after: Seq<Seq<char>>,
    stack: Seq<SearchRange>,
) -> Multiset<Match>
    decreases stack.len(),
{
    if stack.len() == 0 {
        Multiset::empty()
    } else {
        pending(before, after, stack.drop_last()).add(
            blocks(before, after, stack.last()).to_multiset(),
        )
    }
}

/// A bound on the steps that the ranges still to be searched can take.
spec fn effort(stack: Seq<SearchRange>) -> nat
    decreases stack.len(),
{
    if stack.len() == 0 {
        0
    } else {
        let top = stack.last();
        let width: nat = if top.end_in_before >= top.start_in_before {
            (top.end_in_before - top.start_in_before) as nat
        } else {
            0
        };
        effort(stack.drop_last()) + 2 * width + 1
    }
}

proof fn lemma_push_range(
    before: Seq<Seq<char>>,
    after: Seq<Seq<char>>,
    stack: Seq<SearchRange>,
    range: SearchRange,
)
    requires
        range.start_in_before <= range.end_in_before,
    ensures
        pending(before, after, stack.push(range)) == pending(before, after, stack).add(
            blocks(before, after, range).to_multiset(),
        ),
        effort(stack.push(range)) == effort(stack) + 2 * (range.end_in_before
            - range.start_in_before) + 1,
{
    assert(stack.push(range).drop_last() =~= stack);
}

/// The blocks of either side of a match, with the match between them, taken
/// together.
proof fn lemma_blocks_split(lower: Seq<Match>, m: Match, upper: Seq<Match>)
    ensures
        (lower.push(m) + upper).to_multiset() == lower.to_multiset().add(
            upper.to_multiset(),
        ).insert(m),
{
    broadcast use vstd::multiset::group_multiset_axioms;
    broadcast use vstd::multiset::group_multiset_properties;

    vstd::seq_lib::lemma_multiset_commutative(lower.push(m), upper);
    vstd::seq_lib::to_multiset_build(lower, m);
    assert((lower.push(m) + upper).to_multiset() =~= lower.to_multiset().add(
        upper.to_multiset(),
    ).insert(m));
}

proof fn lemma_no_blocks()
    ensures
        Seq::<Match>::empty().to_multiset() == Multiset::<Match>::empty(),
{
    let none = Seq::<Match>::empty();
    vstd::seq_lib::to_multiset_len(none);
    vstd::multiset::lemma_multiset_empty_len(none.to_multiset());
}

/// One step of the search over the ranges: the range `current` leaves the
/// stack, its best match joins the recorded blocks, and the two sides of the
/// match, as far as they have width, take its place.
proof fn lemma_search_step(
    recorded: Multiset<Match>,
    rest: Multiset<Match>,
    lower: Multiset<Match>,
    upper: Multiset<Match>,
    m: Match,
    total: Multiset<Match>,
)
    requires
        recorded.add(rest.add(lower.add(upper).insert(m))) == total,
    ensures
        recorded.insert(m).add(rest.add(upper).add(lower)) == total,
{
    broadcast use vstd::multiset::group_multiset_axioms;
    broadcast use vstd::multiset::group_multiset_properties;

    assert(recorded.insert(m).add(rest.add(upper).add(lower)) =~= recorded.add(
        rest.add(lower.add(upper).insert(m)),
    ));
}

impl HtmlDiff {
    /// Finds the blocks of tokens that the two sequences share: the longest common
    /// run, then in the same way what lies on either side of it. The blocks come
    /// in the order of their positions and do not overlap.
    pub fn find_matching_blocks(&self, before_tokens: &[String], after_tokens: &[String]) -> (matching_blocks: Vec<Match>)
        ensures
            matching_blocks@ == blocks(
                texts(before_tokens@),
                texts(after_tokens@),
                whole_range(before_tokens@.len(), after_tokens@.len()),
            ),
            ordered_blocks(
                texts(before_tokens@),
                texts(after_tokens@),
                whole_range(before_tokens@.len(), after_tokens@.len()),
                matching_blocks@,
            ),
    {
        let ghost b = texts(before_tokens@);
        let ghost a = texts(after_tokens@);
        let mut matching_blocks: Vec<Match> = Vec::new();
        let index = self.create_index(before_tokens, after_tokens);
        let whole = SearchRange {
            start_in_before: 0,
            end_in_before: before_tokens.len(),
            start_in_after: 0,
            end_in_after: after_tokens.len(),
        };
        let mut stack: Vec<SearchRange> = Vec::new();
        stack.push(whole);
        proof {
            broadcast use vstd::multiset::group_multiset_axioms;

            assert(whole == whole_range(b.len(), a.len()));
            lemma_push_range(b, a, Seq::empty(), whole);
            lemma_no_blocks();
            assert(stack@ =~= Seq::<SearchRange>::empty().push(whole));
            assert(matching_blocks@ =~= Seq::<Match>::empty());
            assert(matching_blocks@.to_multiset().add(pending(b, a, stack@)) =~= blocks(
                b,
                a,
                whole,
            ).to_multiset());
        }
        while stack.len() > 0
            invariant
                b == texts(before_tokens@),
                a == texts(after_tokens@),
                index.keys() == b,
                index.within() == a,
                whole == whole_range(b.len(), a.len()),
                forall|k: int| 0 <= k < stack@.len() ==> (#[trigger] stack@[k]).fits(b.len(), a.len()),
                matching_blocks@.to_multiset().add(pending(b, a, stack@)) == blocks(
                    b,
                    a,
                    whole,
                ).to_multiset(),
            decreases effort(stack@),
        {
            let ghost before_pop = stack@;
            let ghost recorded = matching_blocks@;
            let ghost total = blocks(b, a, whole).to_multiset();
            let current = stack.pop().unwrap();
            proof {
                assert(stack@ =~= before_pop.drop_last());
                assert(current == before_pop.last());
                lemma_best_match_inside(b, a, current);
                lemma_no_blocks();
            }
            let ghost rest = stack@;
            match self.find_match(before_tokens, after_tokens, &index, &current) {
                Some(match_) => {
                    let ghost left = left_of(current, match_);
                    let ghost right = right_of(current, match_);
                    let ghost lower = if has_width(left) {
                        blocks(b, a, left)
                    } else {
                        Seq::empty()
                    };
                    let ghost upper = if has_width(right) {
                        blocks(b, a, right)
                    } else {
                        Seq::empty()
                    };
                    proof {
                        assert(blocks(b, a, current) == lower.push(match_) + upper);
                        lemma_blocks_split(lower, match_, upper);
                        lemma_search_step(
                            recorded.to_multiset(),
                            pending(b, a, rest),
                            lower.to_multiset(),
                            upper.to_multiset(),
                            match_,
                            total,
                        );
                    }
                    if match_.end_in_before + 1 < current.end_in_before && match_.end_in_after + 1
                        < current.end_in_after {
                        let range = SearchRange {
                            start_in_before: match_.end_in_before + 1,
                            end_in_before: current.end_in_before,
                            start_in_after: match_.end_in_after + 1,
                            end_in_after: current.end_in_after,
                        };
                        assert(range == right);
                        proof {
                            lemma_push_range(b, a, stack@, range);
                        }
                        stack.push(range);
                    }
                    let ghost with_right = stack@;
                    proof {
                        broadcast use vstd::multiset::group_multiset_axioms;

                        assert(pending(b, a, with_right) =~= pending(b, a, rest).add(
                            upper.to_multiset(),
                        ));
                    }
                    proof {
                        vstd::seq_lib::to_multiset_build(recorded, match_);
                    }
                    matching_blocks.push(match_);
                    if current.start_in_before < match_.start_in_before && current.start_in_after
                        < match_.start_in_after {
                        let range = SearchRange {
                            start_in_before: current.start_in_before,
                            end_in_before: match_.start_in_before,
                            start_in_after: current.start_in_after,
                            end_in_after: match_.start_in_after,
                        };
                        assert(range == left);
                        proof {
                            lemma_push_range(b, a, stack@, range);
                        }
                        stack.push(range);
                    }
                    proof {
                        broadcast use vstd::multiset::group_multiset_axioms;

                        assert(pending(b, a, stack@) =~= pending(b, a, with_right).add(
                            lower.to_multiset(),
                        ));
                    }
                },
                None => {
                    proof {
                        broadcast use vstd::multiset::group_multiset_axioms;

                        assert(blocks(b, a, current) =~= Seq::<Match>::empty());
                        assert(pending(b, a, before_pop) =~= pending(b, a, stack@));
                    }
                },
            }
        }
        proof {
            broadcast use vstd::multiset::group_multiset_axioms;

            assert(pending(b, a, stack@) =~= Multiset::<Match>::empty());
            assert(matching_blocks@.to_multiset() =~= blocks(b, a, whole).to_multiset());
        }
        sort_by_start(&mut matching_blocks);
        proof {
            lemma_blocks_ordered(b, a, whole);
            lemma_one_ascending_order(matching_blocks@, blocks(b, a, whole));
        }
        matching_blocks
    }
}

} // verus!
