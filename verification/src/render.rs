use crate::htmldiff::HtmlDiff;
use crate::operations::{DiffOperation, Operation};
use crate::text::{append_all, joined, texts};
use crate::tokenizer::is_markup;
use vstd::prelude::*;
use vstd::slice::slice_subrange;

verus! {

/// Where the run of marks equal to `wanted` that begins at `start` ends: the
/// first position from `start` on whose mark differs, or the end of the marks.
pub open spec fn run_end(marks: Seq<bool>, start: int, wanted: bool) -> int
    decreases marks.len() - start,
{
    if 0 <= start < marks.len() && marks[start] == wanted {
        run_end(marks, start + 1, wanted)
    } else {
        start
    }
}

/// A run ends at or behind its start, every mark inside it is the wanted one,
/// and the mark at its end, if there is one, is not.
pub proof fn lemma_run_end(marks: Seq<bool>, start: int, wanted: bool)
    requires
        0 <= start <= marks.len(),
    ensures
        start <= run_end(marks, start, wanted) <= marks.len(),
        forall|k: int| start <= k < run_end(marks, start, wanted) ==> marks[k] == wanted,
        run_end(marks, start, wanted) < marks.len() ==> marks[run_end(marks, start, wanted)]
            != wanted,
        start < marks.len() && marks[start] == wanted ==> start < run_end(marks, start, wanted),
    decreases marks.len() - start,
{
    if start < marks.len() && marks[start] == wanted {
        lemma_run_end(marks, start + 1, wanted);
    }
}

/// A stretch of tokens that is rendered as one piece: the tokens from `start`
/// up to but not including `end`, all of them markup or none of them.
pub struct Segment {
    pub markup: bool,
    pub start: int,
    pub end: int,
}

/// The segments of the tokens from `start` on: the longest stretches of tokens
/// that are all markup or all not, from left to right.
pub open spec fn segments_from(marks: Seq<bool>, start: int) -> Seq<Segment>
    decreases marks.len() - start,
    via segments_decreases
{
    if 0 <= start < marks.len() {
        let end = run_end(marks, start, marks[start]);
        seq![Segment { markup: marks[start], start, end }] + segments_from(marks, end)
    } else {
        Seq::empty()
    }
}

#[via_fn]
proof fn segments_decreases(marks: Seq<bool>, start: int) {
    if 0 <= start < marks.len() {
        lemma_run_end(marks, start, marks[start]);
    }
}

/// The marker that opens a wrapper.
pub open spec fn opening(tag: Seq<char>) -> Seq<char> {
    "<"@ + tag + ">"@
}

/// The marker that closes a wrapper.
pub open spec fn closing(tag: Seq<char>) -> Seq<char> {
    "</"@ + tag + ">"@
}

/// A segment as text: markup as it stands, anything else between the markers.
pub open spec fn rendered_segment(
    tag: Seq<char>,
    content: Seq<Seq<char>>,
    segment: Segment,
) -> Seq<char> {
    let text = joined(content.subrange(segment.start, segment.end));
    if segment.markup {
        text
    } else {
        opening(tag) + text + closing(tag)
    }
}

/// The segments as text, one after another.
pub open spec fn rendered_segments(
    tag: Seq<char>,
    content: Seq<Seq<char>>,
    segments: Seq<Segment>,
) -> Seq<char>
    decreases segments.len(),
{
    if segments.len() == 0 {
        Seq::empty()
    } else {
        rendered_segment(tag, content, segments.first()) + rendered_segments(
            tag,
            content,
            segments.drop_first(),
        )
    }
}

/// The tokens wrapped in the marker `tag`, given for each token whether it is
/// markup: each stretch of tokens that are not markup stands between an opening
/// and a closing marker, and each stretch of markup stands bare.
pub open spec fn wrapped(tag: Seq<char>, content: Seq<Seq<char>>, marks: Seq<bool>) -> Seq<char> {
    rendered_segments(tag, content, segments_from(marks, 0))
}

/// For each token, whether it is markup.
pub open spec fn marks_of(tokens: Seq<Seq<char>>) -> Seq<bool> {
    Seq::new(tokens.len(), |i: int| is_markup(tokens[i]))
}

/// The tokens wrapped in the marker `tag`.
pub open spec fn marked(tag: Seq<char>, tokens: Seq<Seq<char>>) -> Seq<char> {
    wrapped(tag, tokens, marks_of(tokens))
}

/// Rendering is well-formed: the segments of a wrapping divide the tokens
/// among them in order, none is empty, each holds only markup or only other
/// tokens, and neighbours differ in that. As only segments without markup are
/// put between markers, no markup token ever stands inside a wrapper, and the
/// markers enclose nothing but other tokens.
pub proof fn lemma_segments_keep_markup_bare(marks: Seq<bool>, start: int)
    requires
        0 <= start <= marks.len(),
    ensures
        forall|k: int|
            0 <= k < segments_from(marks, start).len() ==> {
                let segment = #[trigger] segments_from(marks, start)[k];
                &&& start <= segment.start < segment.end <= marks.len()
                &&& forall|i: int| segment.start <= i < segment.end ==> marks[i] == segment.markup
            },
        forall|k1: int, k2: int|
            0 <= k1 && k2 == k1 + 1 && k2 < segments_from(marks, start).len() ==> {
                &&& (#[trigger] segments_from(marks, start)[k1]).end == (#[trigger] segments_from(
                    marks,
                    start,
                )[k2]).start
                &&& segments_from(marks, start)[k1].markup != segments_from(marks, start)[k2].markup
            },
        start < marks.len() ==> segments_from(marks, start).len() > 0 && segments_from(
            marks,
            start,
        ).first().start == start && segments_from(marks, start).last().end == marks.len(),
        start == marks.len() ==> segments_from(marks, start).len() == 0,
    decreases marks.len() - start,
{
    if start < marks.len() {
        let end = run_end(marks, start, marks[start]);
        lemma_run_end(marks, start, marks[start]);
        lemma_segments_keep_markup_bare(marks, end);
        let head = Segment { markup: marks[start], start, end };
        let tail = segments_from(marks, end);
        let all = segments_from(marks, start);
        assert(all == seq![head] + tail);
        assert forall|k: int| 0 <= k < all.len() implies {
            let segment = #[trigger] all[k];
            &&& start <= segment.start < segment.end <= marks.len()
            &&& forall|i: int| segment.start <= i < segment.end ==> marks[i] == segment.markup
        } by {
            if k > 0 {
                assert(all[k] == tail[k - 1]);
            }
        }
        assert forall|k1: int, k2: int| 0 <= k1 && k2 == k1 + 1 && k2 < all.len() implies {
            &&& (#[trigger] all[k1]).end == (#[trigger] all[k2]).start
            &&& all[k1].markup != all[k2].markup
        } by {
            assert(all[k2] == tail[k2 - 1]);
            if k1 > 0 {
                assert(all[k1] == tail[k1 - 1]);
            } else {
                assert(tail.first().start == end);
                assert(tail[0].markup == marks[end]);
            }
        }
        if tail.len() > 0 {
            assert(all.last() == tail.last());
        }
    }
}

proof fn lemma_segments_unfold(
    tag: Seq<char>,
    content: Seq<Seq<char>>,
    marks: Seq<bool>,
    start: int,
)
    requires
        0 <= start < marks.len(),
    ensures
        rendered_segments(tag, content, segments_from(marks, start)) == rendered_segment(
            tag,
            content,
            Segment { markup: marks[start], start, end: run_end(marks, start, marks[start]) },
        ) + rendered_segments(
            tag,
            content,
            segments_from(marks, run_end(marks, start, marks[start])),
        ),
{
    let end = run_end(marks, start, marks[start]);
    let head = Segment { markup: marks[start], start, end };
    let tail = segments_from(marks, end);
    assert((seq![head] + tail).drop_first() =~= tail);
}

/// The tokens that an operation's range holds.
pub open spec fn span(tokens: Seq<Seq<char>>, start: usize, end: Option<usize>) -> Seq<
    Seq<char>,
> {
    match end {
        Some(end) => tokens.subrange(start as int, end + 1),
        None => Seq::empty(),
    }
}

/// One operation as text: what stayed as it stands, what was inserted wrapped
/// in `ins`, what was deleted wrapped in `del`, and for a replacement the
/// deleted tokens followed by the inserted ones.
pub open spec fn rendered_operation(
    op: DiffOperation,
    before: Seq<Seq<char>>,
    after: Seq<Seq<char>>,
) -> Seq<char> {
    match op.action {
        Operation::Equal => joined(span(before, op.start_in_before, op.end_in_before)),
        Operation::Insert => marked("ins"@, span(after, op.start_in_after, op.end_in_after)),
        Operation::Delete => marked("del"@, span(before, op.start_in_before, op.end_in_before)),
        Operation::Replace => marked("del"@, span(before, op.start_in_before, op.end_in_before))
            + marked("ins"@, span(after, op.start_in_after, op.end_in_after)),
    }
}

/// The operations as text, one after another.
pub open spec fn rendered(
    operations: Seq<DiffOperation>,
    before: Seq<Seq<char>>,
    after: Seq<Seq<char>>,
) -> Seq<char>
    decreases operations.len(),
{
    if operations.len() == 0 {
        Seq::empty()
    } else {
        rendered(operations.drop_last(), before, after) + rendered_operation(
            operations.last(),
            before,
            after,
        )
    }
}

/// The ranges that rendering the operation reads lie inside the sequences.
pub open spec fn renderable(op: DiffOperation, before_len: int, after_len: int) -> bool {
    &&& op.action != Operation::Insert ==> (op.end_in_before matches Some(end)
        && op.start_in_before <= end < before_len)
    &&& op.action == Operation::Insert || op.action == Operation::Replace ==> (
    op.end_in_after matches Some(end) && op.start_in_after <= end < after_len)
}

proof fn lemma_texts_subrange(tokens: Seq<String>, from: int, to: int)
    requires
        0 <= from <= to <= tokens.len(),
    ensures
        texts(tokens.subrange(from, to)) == texts(tokens).subrange(from, to),
{
    assert(texts(tokens.subrange(from, to)) =~= texts(tokens).subrange(from, to));
}

impl HtmlDiff {
    /// The tokens from `start` on, up to the first whose mark is not `wanted`.
    pub fn consecutive_where(
        &self,
        start: usize,
        content: &[String],
        marks: &Vec<bool>,
        wanted: bool,
    ) -> (run: Vec<String>)
        requires
            marks.len() == content.len(),
        ensures
            run.len() == run_end(marks@, start as int, wanted) - start,
            forall|k: int| 0 <= k < run.len() ==> (#[trigger] run[k])@ == content[start + k]@,
    {
        let mut run: Vec<String> = Vec::new();
        let mut i: usize = start;
        while i < content.len() && marks[i] == wanted
            invariant
                marks.len() == content.len(),
                i == start + run.len(),
                run_end(marks@, i as int, wanted) == run_end(marks@, start as int, wanted),
                forall|k: int| 0 <= k < run.len() ==> (#[trigger] run[k])@ == content[start + k]@,
            decreases content.len() - i,
        {
            run.push(content[i].clone());
            i += 1;
        }
        run
    }

    /// Wraps the tokens in the marker `tag`, given for each token whether it is
    /// markup. Markup is never put inside a wrapper.
    pub fn wrap_marked(&self, tag: &str, content: &[String], marks: &Vec<bool>) -> (rendering:
        String)
        requires
            marks.len() == content.len(),
        ensures
            rendering@ == wrapped(tag@, texts(content@), marks@),
    {
        let ghost tokens = texts(content@);
        let mut rendering = String::new();
        let mut position: usize = 0;
        let length = content.len();
        assert(rendering@ + wrapped(tag@, tokens, marks@) =~= wrapped(tag@, tokens, marks@));
        while position < length
            invariant
                tokens == texts(content@),
                position <= length,
                length == content.len(),
                length == marks.len(),
                rendering@ + rendered_segments(
                    tag@,
                    tokens,
                    segments_from(marks@, position as int),
                ) == wrapped(tag@, tokens, marks@),
            decreases length - position,
        {
            let ghost start = position as int;
            let ghost earlier = rendering@;
            proof {
                lemma_run_end(marks@, start, false);
                lemma_run_end(marks@, start, true);
                lemma_segments_unfold(tag@, tokens, marks@, start);
            }
            let non_tags = self.consecutive_where(position, content, marks, false);
            if !non_tags.is_empty() {
                assert(texts(non_tags@) =~= tokens.subrange(start, start + non_tags.len()));
                rendering.append("<");
                rendering.append(tag);
                rendering.append(">");
                append_all(&mut rendering, non_tags.as_slice());
                rendering.append("</");
                rendering.append(tag);
                rendering.append(">");
                assert(rendering@ =~= earlier + rendered_segment(
                    tag@,
                    tokens,
                    Segment { markup: false, start, end: start + non_tags.len() },
                ));
            }
            position += non_tags.len();
            let ghost middle = position as int;
            let ghost wrapped_part = rendering@;
            assert(wrapped_part + rendered_segments(tag@, tokens, segments_from(marks@, middle))
                =~= wrapped(tag@, tokens, marks@));
            if position < length {
                proof {
                    lemma_run_end(marks@, middle, true);
                    lemma_segments_unfold(tag@, tokens, marks@, middle);
                }
                let tags = self.consecutive_where(position, content, marks, true);
                assert(texts(tags@) =~= tokens.subrange(middle, middle + tags.len()));
                append_all(&mut rendering, tags.as_slice());
                position += tags.len();
                assert(rendering@ + rendered_segments(
                    tag@,
                    tokens,
                    segments_from(marks@, position as int),
                ) =~= wrapped_part + rendered_segments(
                    tag@,
                    tokens,
                    segments_from(marks@, middle),
                ));
            }
        }
        assert(rendering@ + Seq::<char>::empty() =~= rendering@);
        rendering
    }

    /// Wraps the tokens in the marker `tag`: what is not markup goes between
    /// `<tag>` and `</tag>`, markup stays outside.
    pub fn wrap(&self, tag: &str, content: &[String]) -> (rendering: String)
        ensures
            rendering@ == marked(tag@, texts(content@)),
    {
        let mut marks: Vec<bool> = Vec::new();
        let mut i: usize = 0;
        while i < content.len()
            invariant
                i <= content.len(),
                marks.len() == i,
                forall|k: int| 0 <= k < i ==> marks@[k] == is_markup(#[trigger] content@[k]@),
            decreases content.len() - i,
        {
            marks.push(self.is_tag(content[i].as_str()));
            i += 1;
        }
        assert(marks@ =~= marks_of(texts(content@)));
        self.wrap_marked(tag, content, &marks)
    }

    /// Writes out an edit script over the two token sequences it was made for.
    pub fn render(
        &self,
        operations: &Vec<DiffOperation>,
        before_tokens: &[String],
        after_tokens: &[String],
    ) -> (rendering: String)
        requires
            forall|k: int|
                0 <= k < operations.len() ==> renderable(
                    #[trigger] operations[k],
                    before_tokens@.len() as int,
                    after_tokens@.len() as int,
                ),
        ensures
            rendering@ == rendered(operations@, texts(before_tokens@), texts(after_tokens@)),
    {
        let ghost before = texts(before_tokens@);
        let ghost after = texts(after_tokens@);
        let mut rendering = String::new();
        let mut i: usize = 0;
        assert(operations@.take(0) =~= Seq::<DiffOperation>::empty());
        while i < operations.len()
            invariant
                i <= operations.len(),
                before == texts(before_tokens@),
                after == texts(after_tokens@),
                forall|k: int|
                    0 <= k < operations.len() ==> renderable(
                        #[trigger] operations[k],
                        before_tokens@.len() as int,
                        after_tokens@.len() as int,
                    ),
                rendering@ == rendered(operations@.take(i as int), before, after),
            decreases operations.len() - i,
        {
            let op = operations[i];
            let ghost earlier = rendering@;
            proof {
                assert(operations@.take(i + 1).drop_last() =~= operations@.take(i as int));
                assert(operations@.take(i + 1).last() == op);
                assert(before_tokens.len() == before_tokens@.len());
                assert(after_tokens.len() == after_tokens@.len());
                assert(renderable(operations[i as int], before.len() as int, after.len() as int));
            }
            match op.action {
                Operation::Equal => {
                    let end = op.end_in_before.unwrap();
                    let part = slice_subrange(before_tokens, op.start_in_before, end + 1);
                    proof {
                        lemma_texts_subrange(before_tokens@, op.start_in_before as int, end + 1);
                    }
                    append_all(&mut rendering, part);
                },
                Operation::Insert => {
                    let end = op.end_in_after.unwrap();
                    let val = slice_subrange(after_tokens, op.start_in_after, end + 1);
                    proof {
                        lemma_texts_subrange(after_tokens@, op.start_in_after as int, end + 1);
                    }
                    let piece = self.wrap("ins", val);
                    rendering.append(piece.as_str());
                },
                Operation::Delete => {
                    let end = op.end_in_before.unwrap();
                    let val = slice_subrange(before_tokens, op.start_in_before, end + 1);
                    proof {
                        lemma_texts_subrange(before_tokens@, op.start_in_before as int, end + 1);
                    }
                    let piece = self.wrap("del", val);
                    rendering.append(piece.as_str());
                },
                Operation::Replace => {
                    let before_end = op.end_in_before.unwrap();
                    let after_end = op.end_in_after.unwrap();
                    let before_val = slice_subrange(
                        before_tokens,
                        op.start_in_before,
                        before_end + 1,
                    );
                    let after_val = slice_subrange(after_tokens, op.start_in_after, after_end + 1);
                    proof {
                        lemma_texts_subrange(
                            before_tokens@,
                            op.start_in_before as int,
                            before_end + 1,
                        );
                        lemma_texts_subrange(after_tokens@, op.start_in_after as int, after_end + 1);
                    }
                    let deleted = self.wrap("del", before_val);
                    let inserted = self.wrap("ins", after_val);
                    rendering.append(deleted.as_str());
                    rendering.append(inserted.as_str());
                },
            }
            assert(rendering@ =~= earlier + rendered_operation(op, before, after));
            i += 1;
        }
        assert(operations@.take(operations@.len() as int) =~= operations@);
        rendering
    }
}

} // verus!
