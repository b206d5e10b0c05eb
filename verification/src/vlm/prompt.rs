//! Assembly of a multimodal prompt: where the image placeholders stand, and
//! which token may attend to which.
//!
//! A tokenized prompt marks the place of its images by one contiguous run of
//! marker tokens, one marker per image. [`insert_image_tokens`] replaces that
//! run by the placeholders that the image features later overwrite, and
//! [`build_multimodal_mask`] builds the attention mask that is causal
//! everywhere, except that the placeholders of one image see each other in both
//! directions. [`assemble_multimodal_prompt`] does both at once and keeps the
//! images apart: each image is a span of its own, so that no image sees a later
//! one.

use vstd::arithmetic::div_mod;
use vstd::prelude::*;

use crate::array::{self, Array, ArrayModel};
use crate::buffer::{push_range, push_repeated, try_with_capacity};
use crate::error::{
    shape_length, shape_missing, shape_out_of_range, shape_overflow, shape_violation, Error,
};

verus! {

/// Half-open token ranges, one per run of image placeholders.
pub type ImageTokenSpans = Vec<(usize, usize)>;

/// What happens to images when the prompt has no marker for them.
#[derive(Debug, Clone, Copy, PartialEq, Eq, Structural)]
pub enum MarkerPolicy {
    /// The prompt has to mark the place of its images.
    Required,
    /// The placeholders go in front of a prompt that marks no place.
    PrependIfAbsent,
}

impl MarkerPolicy {
    /// The name of the policy.
    pub fn as_str(&self) -> (r: &'static str)
        ensures
            r == match *self {
                MarkerPolicy::Required => "required",
                MarkerPolicy::PrependIfAbsent => "prepend_if_absent",
            },
    {
        match self {
            MarkerPolicy::Required => "required",
            MarkerPolicy::PrependIfAbsent => "prepend_if_absent",
        }
    }

    /// Whether this is [`MarkerPolicy::Required`].
    pub fn is_required(&self) -> (r: bool)
        ensures
            r == (*self == MarkerPolicy::Required),
    {
        match self {
            MarkerPolicy::Required => true,
            MarkerPolicy::PrependIfAbsent => false,
        }
    }

    /// Whether this is [`MarkerPolicy::PrependIfAbsent`].
    pub fn is_prepend_if_absent(&self) -> (r: bool)
        ensures
            r == (*self == MarkerPolicy::PrependIfAbsent),
    {
        !self.is_required()
    }
}

// ---------------------------------------------------------------------------
// Runs of one token
// ---------------------------------------------------------------------------

/// The end of the run of `id` that starts at `i`: the first position from `i`
/// on that holds another token.
pub open spec fn run_end(tokens: Seq<u32>, id: u32, i: int) -> int
    decreases tokens.len() - i,
{
    if 0 <= i < tokens.len() && tokens[i] == id {
        run_end(tokens, id, i + 1)
    } else {
        i
    }
}

/// The first position from `i` on that holds `id`, or the length of `tokens`.
pub open spec fn first_index(tokens: Seq<u32>, id: u32, i: int) -> int
    decreases tokens.len() - i,
{
    if i >= tokens.len() {
        tokens.len() as int
    } else if tokens[i] == id {
        i
    } else {
        first_index(tokens, id, i + 1)
    }
}

/// The runs of `id` from position `i` on, in order.
pub open spec fn runs_from(tokens: Seq<u32>, id: u32, i: int) -> Seq<(usize, usize)>
    decreases tokens.len() - i,
{
    if i < 0 || i >= tokens.len() {
        Seq::empty()
    } else if tokens[i] == id {
        proof {
            lemma_run_end(tokens, id, i + 1);
        }
        let end = run_end(tokens, id, i + 1);
        seq![(i as usize, end as usize)] + runs_from(tokens, id, end)
    } else {
        runs_from(tokens, id, i + 1)
    }
}

/// The run that starts at `i` holds only `id`, and ends at another token or with
/// the sequence.
pub proof fn lemma_run_end(tokens: Seq<u32>, id: u32, i: int)
    requires
        0 <= i <= tokens.len(),
    ensures
        i <= run_end(tokens, id, i) <= tokens.len(),
        forall|p: int| i <= p < run_end(tokens, id, i) ==> tokens[p] == id,
        run_end(tokens, id, i) < tokens.len() ==> tokens[run_end(tokens, id, i)] != id,
    decreases tokens.len() - i,
{
    if i < tokens.len() && tokens[i] == id {
        lemma_run_end(tokens, id, i + 1);
    }
}

proof fn lemma_first_index(tokens: Seq<u32>, id: u32, i: int)
    requires
        0 <= i <= tokens.len(),
    ensures
        i <= first_index(tokens, id, i) <= tokens.len(),
        forall|p: int| i <= p < first_index(tokens, id, i) ==> tokens[p] != id,
        first_index(tokens, id, i) < tokens.len() ==> tokens[first_index(tokens, id, i)] == id,
    decreases tokens.len() - i,
{
    if i < tokens.len() && tokens[i] != id {
        lemma_first_index(tokens, id, i + 1);
    }
}

/// The first position from `from` on that holds `id`, or the length.
fn find_token(tokens: &[u32], id: u32, from: usize) -> (r: usize)
    requires
        from <= tokens@.len(),
    ensures
        r == first_index(tokens@, id, from as int),
        from <= r <= tokens@.len(),
{
    let mut i: usize = from;
    while i < tokens.len() && tokens[i] != id
        invariant
            from <= i <= tokens@.len(),
            first_index(tokens@, id, i as int) == first_index(tokens@, id, from as int),
        decreases tokens@.len() - i,
    {
        i += 1;
    }
    i
}

/// The end of the run of `id` that starts at `from`.
fn find_run_end(tokens: &[u32], id: u32, from: usize) -> (r: usize)
    requires
        from <= tokens@.len(),
    ensures
        r == run_end(tokens@, id, from as int),
        from <= r <= tokens@.len(),
{
    let mut i: usize = from;
    while i < tokens.len() && tokens[i] == id
        invariant
            from <= i <= tokens@.len(),
            run_end(tokens@, id, i as int) == run_end(tokens@, id, from as int),
        decreases tokens@.len() - i,
    {
        i += 1;
    }
    i
}

/// The contiguous runs of `image_token_id`, as half-open ranges in order.
pub fn locate_image_tokens(tokens: &[u32], image_token_id: u32) -> (r: ImageTokenSpans)
    ensures
        r@ == runs_from(tokens@, image_token_id, 0),
{
    let mut spans: ImageTokenSpans = Vec::new();
    let mut i: usize = 0;
    while i < tokens.len()
        invariant
            i <= tokens@.len(),
            spans@ + runs_from(tokens@, image_token_id, i as int) == runs_from(
                tokens@,
                image_token_id,
                0,
            ),
        decreases tokens@.len() - i,
    {
        if tokens[i] == image_token_id {
            let start: usize = i;
            let ghost before = spans@;
            i = find_run_end(tokens, image_token_id, start + 1);
            spans.push((start, i));
            assert(spans@ + runs_from(tokens@, image_token_id, i as int) =~= before + (seq![
                (start, i),
            ] + runs_from(tokens@, image_token_id, i as int)));
        } else {
            i += 1;
        }
    }
    assert(spans@ + runs_from(tokens@, image_token_id, i as int) =~= spans@);
    spans
}

/// Whether position `p` lies in span `j`.
pub open spec fn in_span(spans: Seq<(usize, usize)>, j: int, p: int) -> bool {
    0 <= j < spans.len() && spans[j].0 <= p < spans[j].1
}

/// The located spans cover exactly the positions that hold the token; each of
/// them is as long as it can be; and they stand in order, with at least one other
/// token between two of them.
pub proof fn law_located_spans_are_the_maximal_runs(tokens: Seq<u32>, id: u32)
    requires
        tokens.len() <= usize::MAX,
    ensures
        forall|p: int|
            0 <= p < tokens.len() ==> (tokens[p] == id <==> exists|j: int|
                #[trigger] in_span(runs_from(tokens, id, 0), j, p)),
        forall|j: int| #![trigger runs_from(tokens, id, 0)[j]]
            0 <= j < runs_from(tokens, id, 0).len() ==> {
                let s = runs_from(tokens, id, 0)[j];
                &&& s.0 < s.1 <= tokens.len()
                &&& s.1 < tokens.len() ==> tokens[s.1 as int] != id
                &&& s.0 > 0 ==> tokens[s.0 - 1] != id
            },
        forall|j: int, k: int|
            #![trigger runs_from(tokens, id, 0)[j], runs_from(tokens, id, 0)[k]]
            0 <= j < k < runs_from(tokens, id, 0).len() ==> runs_from(tokens, id, 0)[j].1
                < runs_from(tokens, id, 0)[k].0,
{
    lemma_runs_from(tokens, id, 0);
    assert forall|p: int| 0 <= p < tokens.len() implies (tokens[p] == id <==> exists|j: int|
        #[trigger] in_span(runs_from(tokens, id, 0), j, p)) by {
        let runs = runs_from(tokens, id, 0);
        if exists|j: int| #[trigger] in_span(runs, j, p) {
            let j = choose|j: int| #[trigger] in_span(runs, j, p);
            assert(runs[j].0 <= p < runs[j].1);
        }
    }
}

proof fn lemma_runs_from(tokens: Seq<u32>, id: u32, i: int)
    requires
        0 <= i <= tokens.len() <= usize::MAX,
        i > 0 ==> (tokens[i - 1] != id || i == tokens.len() || tokens[i] != id),
    ensures
        ({
            let runs = runs_from(tokens, id, i);
            &&& forall|p: int|
                i <= p < tokens.len() && tokens[p] == id ==> exists|j: int| #[trigger]
                    in_span(runs, j, p)
            &&& forall|j: int, p: int|
                0 <= j < runs.len() && (#[trigger] runs[j]).0 <= p < runs[j].1 ==> #[trigger]
                    tokens[p] == id
            &&& forall|j: int| #![trigger runs[j]]
                0 <= j < runs.len() ==> {
                    &&& i <= runs[j].0 < runs[j].1 <= tokens.len()
                    &&& runs[j].1 < tokens.len() ==> tokens[runs[j].1 as int] != id
                    &&& runs[j].0 > 0 ==> tokens[runs[j].0 - 1] != id
                }
            &&& forall|j: int, k: int|
                #![trigger runs[j], runs[k]]
                0 <= j < k < runs.len() ==> runs[j].1 < runs[k].0
        }),
    decreases tokens.len() - i,
{
    let runs = runs_from(tokens, id, i);
    if i < tokens.len() {
        if tokens[i] == id {
            lemma_run_end(tokens, id, i + 1);
            let end = run_end(tokens, id, i + 1);
            lemma_runs_from(tokens, id, end);
            let rest = runs_from(tokens, id, end);
            assert(runs =~= seq![(i as usize, end as usize)] + rest);
            assert forall|j: int| 0 <= j < runs.len() implies #[trigger] runs[j] == (if j == 0 {
                (i as usize, end as usize)
            } else {
                rest[j - 1]
            }) by {}
            assert forall|p: int| i <= p < tokens.len() && tokens[p] == id implies exists|j: int|
                #[trigger] in_span(runs, j, p) by {
                if p < end {
                    assert(in_span(runs, 0, p));
                } else {
                    let j = choose|j: int| #[trigger] in_span(rest, j, p);
                    assert(runs[j + 1] == rest[j]);
                    assert(in_span(runs, j + 1, p));
                }
            }
            assert forall|j: int, k: int|
                #![trigger runs[j], runs[k]]
                0 <= j < k < runs.len() implies runs[j].1 < runs[k].0 by {
                if j == 0 {
                    assert(runs[k] == rest[k - 1]);
                    if rest[k - 1].0 == end {
                        assert(tokens[end] == id);
                    }
                } else {
                    assert(runs[j] == rest[j - 1]);
                    assert(runs[k] == rest[k - 1]);
                }
            }
        } else {
            lemma_runs_from(tokens, id, i + 1);
        }
    }
}

// ---------------------------------------------------------------------------
// Splicing placeholders into a prompt
// ---------------------------------------------------------------------------

/// Which tokens of a prompt the placeholders replace, and how many placeholders
/// there are.
#[derive(Debug, Clone, Copy)]
pub struct Splice {
    /// The first replaced position.
    pub start: usize,
    /// The end of the replaced range.
    pub end: usize,
    /// The number of placeholders.
    pub placeholders: usize,
    /// The length of the result.
    pub len: usize,
}

impl Splice {
    /// The replaced range lies in `text`, and `len` is the length of the result.
    pub open spec fn fits(self, text: Seq<u32>) -> bool {
        &&& self.start <= self.end <= text.len()
        &&& self.len == text.len() - (self.end - self.start) + self.placeholders
    }
}

/// `text` with the range of `splice` replaced by placeholders.
pub open spec fn spliced(text: Seq<u32>, splice: Splice, image_token_id: u32) -> Seq<u32> {
    text.subrange(0, splice.start as int) + Seq::new(
        splice.placeholders as nat,
        |i: int| image_token_id,
    ) + text.subrange(splice.end as int, text.len() as int)
}

/// Where the placeholders of a prompt go, or why they cannot go anywhere.
///
/// Without images nothing is replaced. Otherwise the first run of markers is
/// replaced, which has to be the only one and one marker per image long; and a
/// prompt without markers takes the placeholders in front, if the policy allows.
pub open spec fn splice_outcome(
    text: Seq<u32>,
    image_count: usize,
    image_marker_id: u32,
    num_tokens_per_image: usize,
    policy: MarkerPolicy,
) -> Result<Splice, Error> {
    let total = image_count * num_tokens_per_image;
    let start = first_index(text, image_marker_id, 0);
    let end = run_end(text, image_marker_id, start);
    if image_count == 0 {
        Ok(Splice { start: 0, end: 0, placeholders: 0, len: text.len() as usize })
    } else if num_tokens_per_image == 0 {
        Err(
            shape_violation(
                "insert_image_tokens: num_tokens_per_image (with image_count > 0)",
                "must be > 0, or the images would silently drop",
            ),
        )
    } else if total > usize::MAX {
        Err(
            shape_overflow(
                "insert_image_tokens: placeholder_total (image_count * num_tokens_per_image)",
                "usize",
                image_count as i128,
                num_tokens_per_image as i128,
            ),
        )
    } else if start < text.len() {
        if first_index(text, image_marker_id, end) < text.len() {
            Err(
                shape_violation(
                    "insert_image_tokens: image_marker_id occurrences after the first run",
                    "must be 0, the splice supports one contiguous marker run",
                ),
            )
        } else if end - start != image_count {
            Err(
                shape_length(
                    "insert_image_tokens: contiguous marker run length vs image_count",
                    image_count,
                    (end - start) as usize,
                ),
            )
        } else if text.len() + total > usize::MAX {
            Err(
                shape_overflow(
                    "insert_image_tokens: cap (text_len + placeholder_total - run_len)",
                    "usize",
                    text.len() as i128,
                    total as i128,
                ),
            )
        } else {
            Ok(
                Splice {
                    start: start as usize,
                    end: end as usize,
                    placeholders: total as usize,
                    len: (text.len() + total - (end - start)) as usize,
                },
            )
        }
    } else if policy == MarkerPolicy::Required {
        Err(
            shape_missing(
                "insert_image_tokens: no image_marker_id in text_tokens (MarkerPolicy::Required)",
                "image_marker_id token in text_tokens",
            ),
        )
    } else if text.len() + total > usize::MAX {
        Err(
            shape_overflow(
                "insert_image_tokens: cap (text_len + placeholder_total)",
                "usize",
                text.len() as i128,
                total as i128,
            ),
        )
    } else {
        Ok(
            Splice {
                start: 0,
                end: 0,
                placeholders: total as usize,
                len: (text.len() + total) as usize,
            },
        )
    }
}

/// Decides where the placeholders go; see [`insert_image_tokens`].
pub fn plan_image_splice(
    text_tokens: &[u32],
    image_count: usize,
    image_marker_id: u32,
    num_tokens_per_image: usize,
    policy: MarkerPolicy,
) -> (r: Result<Splice, Error>)
    ensures
        r == splice_outcome(
            text_tokens@,
            image_count,
            image_marker_id,
            num_tokens_per_image,
            policy,
        ),
        r matches Ok(splice) ==> splice.fits(text_tokens@),
{
    if image_count == 0 {
        return Ok(Splice { start: 0, end: 0, placeholders: 0, len: text_tokens.len() });
    }
    if num_tokens_per_image == 0 {
        return Err(
            shape_violation(
                "insert_image_tokens: num_tokens_per_image (with image_count > 0)",
                "must be > 0, or the images would silently drop",
            ),
        );
    }
    let total: usize = match image_count.checked_mul(num_tokens_per_image) {
        Some(n) => n,
        None => {
            return Err(
                shape_overflow(
                    "insert_image_tokens: placeholder_total (image_count * num_tokens_per_image)",
                    "usize",
                    image_count as i128,
                    num_tokens_per_image as i128,
                ),
            );
        },
    };
    let start: usize = find_token(text_tokens, image_marker_id, 0);
    if start < text_tokens.len() {
        let end: usize = find_run_end(text_tokens, image_marker_id, start);
        let next: usize = find_token(text_tokens, image_marker_id, end);
        if next < text_tokens.len() {
            return Err(
                shape_violation(
                    "insert_image_tokens: image_marker_id occurrences after the first run",
                    "must be 0, the splice supports one contiguous marker run",
                ),
            );
        }
        if end - start != image_count {
            return Err(
                shape_length(
                    "insert_image_tokens: contiguous marker run length vs image_count",
                    image_count,
                    end - start,
                ),
            );
        }
        match text_tokens.len().checked_add(total) {
            Some(n) => Ok(Splice { start, end, placeholders: total, len: n - (end - start) }),
            None => Err(
                shape_overflow(
                    "insert_image_tokens: cap (text_len + placeholder_total - run_len)",
                    "usize",
                    text_tokens.len() as i128,
                    total as i128,
                ),
            ),
        }
    } else {
        if policy == MarkerPolicy::Required {
            return Err(
                shape_missing(
                    "insert_image_tokens: no image_marker_id in text_tokens (MarkerPolicy::Required)",
                    "image_marker_id token in text_tokens",
                ),
            );
        }
        match text_tokens.len().checked_add(total) {
            Some(n) => Ok(Splice { start: 0, end: 0, placeholders: total, len: n }),
            None => Err(
                shape_overflow(
                    "insert_image_tokens: cap (text_len + placeholder_total)",
                    "usize",
                    text_tokens.len() as i128,
                    total as i128,
                ),
            ),
        }
    }
}

/// Appends to `buffer` the prompt with the range of `splice` replaced.
pub fn splice_tokens(
    text_tokens: &[u32],
    splice: Splice,
    image_token_id: u32,
    buffer: Vec<u32>,
) -> (r: Vec<u32>)
    requires
        splice.fits(text_tokens@),
    ensures
        r@ == buffer@ + spliced(text_tokens@, splice, image_token_id),
{
    let mut out: Vec<u32> = buffer;
    push_range(&mut out, text_tokens, 0, splice.start);
    push_repeated(&mut out, image_token_id, splice.placeholders);
    push_range(&mut out, text_tokens, splice.end, text_tokens.len());
    assert(out@ =~= buffer@ + spliced(text_tokens@, splice, image_token_id));
    out
}

/// Replaces the marker run of a prompt by `num_tokens_per_image` placeholders
/// per image.
///
/// Without images the prompt is returned as it is, markers included. With images
/// the first contiguous run of `image_marker_id` is replaced; it has to be the
/// only one and exactly `image_count` markers long. A prompt without a marker is
/// refused under [`MarkerPolicy::Required`] and takes the placeholders in front
/// under [`MarkerPolicy::PrependIfAbsent`].
///
/// The only refusal that [`plan_image_splice`] does not make is
/// `Error::OutOfMemory`, where the allocator declines the result buffer. An empty
/// result is never declined.
pub fn insert_image_tokens(
    text_tokens: &[u32],
    image_count: usize,
    image_marker_id: u32,
    image_token_id: u32,
    num_tokens_per_image: usize,
    policy: MarkerPolicy,
) -> (r: Result<Vec<u32>, Error>)
    ensures
        match splice_outcome(
            text_tokens@,
            image_count,
            image_marker_id,
            num_tokens_per_image,
            policy,
        ) {
            Ok(splice) => match r {
                Ok(tokens) => tokens@ == spliced(text_tokens@, splice, image_token_id),
                Err(e) => e == Error::OutOfMemory,
            },
            Err(e) => r == Err::<Vec<u32>, Error>(e),
        },
        splice_outcome(
            text_tokens@,
            image_count,
            image_marker_id,
            num_tokens_per_image,
            policy,
        ) matches Ok(splice) ==> splice.len == 0 ==> r is Ok,
{
    let splice: Splice = plan_image_splice(
        text_tokens,
        image_count,
        image_marker_id,
        num_tokens_per_image,
        policy,
    )?;
    let buffer: Vec<u32> = try_with_capacity(splice.len)?;
    let out: Vec<u32> = splice_tokens(text_tokens, splice, image_token_id, buffer);
    assert(out@ =~= spliced(text_tokens@, splice, image_token_id));
    Ok(out)
}

/// Without images every prompt passes through unchanged, whatever the policy and
/// whatever markers it holds.
pub proof fn law_no_images_is_the_identity(
    text: Seq<u32>,
    image_marker_id: u32,
    image_token_id: u32,
    num_tokens_per_image: usize,
    policy: MarkerPolicy,
)
    requires
        text.len() <= usize::MAX,
    ensures
        splice_outcome(text, 0, image_marker_id, num_tokens_per_image, policy) matches Ok(splice)
            && spliced(text, splice, image_token_id) == text,
{
    let splice = splice_outcome(text, 0, image_marker_id, num_tokens_per_image, policy)->Ok_0;
    assert(spliced(text, splice, image_token_id) =~= text);
}

/// An accepted splice replaces one marker by `num_tokens_per_image` placeholders
/// for each image, and leaves every token before and after the markers in its
/// place.
pub proof fn law_splice_keeps_the_surrounding_text(
    text: Seq<u32>,
    image_count: usize,
    image_marker_id: u32,
    image_token_id: u32,
    num_tokens_per_image: usize,
    policy: MarkerPolicy,
)
    requires
        text.len() <= usize::MAX,
        image_count > 0,
        splice_outcome(text, image_count, image_marker_id, num_tokens_per_image, policy) is Ok,
    ensures
        ({
            let splice = splice_outcome(
                text,
                image_count,
                image_marker_id,
                num_tokens_per_image,
                policy,
            )->Ok_0;
            let out = spliced(text, splice, image_token_id);
            &&& out.len() == splice.len
            &&& splice.placeholders == image_count * num_tokens_per_image
            &&& splice.start == splice.end || splice.end - splice.start == image_count
            &&& forall|p: int| 0 <= p < splice.start ==> out[p] == text[p]
            &&& forall|p: int|
                splice.start <= p < splice.start + splice.placeholders ==> out[p] == image_token_id
            &&& forall|p: int|
                splice.end <= p < text.len() ==> out[p - splice.end + splice.start
                    + splice.placeholders] == #[trigger] text[p]
            &&& forall|p: int| splice.start <= p < splice.end ==> text[p] == image_marker_id
            &&& forall|p: int|
                0 <= p < splice.start || splice.end <= p < text.len() ==> text[p]
                    != image_marker_id
        }),
{
    let start = first_index(text, image_marker_id, 0);
    lemma_first_index(text, image_marker_id, 0);
    lemma_run_end(text, image_marker_id, start);
    lemma_first_index(text, image_marker_id, run_end(text, image_marker_id, start));
    let splice = splice_outcome(
        text,
        image_count,
        image_marker_id,
        num_tokens_per_image,
        policy,
    )->Ok_0;
    assert(image_count * num_tokens_per_image >= 0) by (nonlinear_arith)
        requires
            image_count >= 0,
            num_tokens_per_image >= 0,
    ;
    let out = spliced(text, splice, image_token_id);
    assert forall|p: int| splice.end <= p < text.len() implies out[p - splice.end + splice.start
        + splice.placeholders] == #[trigger] text[p] by {
        let tail = text.subrange(splice.end as int, text.len() as int);
        assert(tail[p - splice.end] == text[p]);
    }
}

// ---------------------------------------------------------------------------
// Attention mask
// ---------------------------------------------------------------------------

/// `spans` with `span` put behind the last one that starts no later.
pub open spec fn insert_by_start(
    spans: Seq<(usize, usize)>,
    span: (usize, usize),
) -> Seq<(usize, usize)>
    decreases spans.len(),
{
    if spans.len() == 0 || spans.last().0 <= span.0 {
        spans.push(span)
    } else {
        insert_by_start(spans.drop_last(), span).push(spans.last())
    }
}

/// The spans in order of their start; spans with one start keep their order.
pub open spec fn order_by_start(spans: Seq<(usize, usize)>) -> Seq<(usize, usize)>
    decreases spans.len(),
{
    if spans.len() == 0 {
        Seq::empty()
    } else {
        insert_by_start(order_by_start(spans.drop_last()), spans.last())
    }
}

/// The refusal of the first bad span from index `i` on, where the spans before
/// it end at `prev_end`.
pub open spec fn first_violation(
    ordered: Seq<(usize, usize)>,
    seq_len: usize,
    i: int,
    prev_end: usize,
) -> Option<Error>
    decreases ordered.len() - i,
{
    if i < 0 || i >= ordered.len() {
        None
    } else if ordered[i].0 >= ordered[i].1 {
        Some(
            shape_violation(
                "build_multimodal_mask_with_past: image span (start, end)",
                "start must be strictly less than end",
            ),
        )
    } else if ordered[i].1 > seq_len {
        Some(
            shape_out_of_range(
                "build_multimodal_mask_with_past: chunk-local image span end",
                "must be <= seq_len",
                ordered[i].1 as i128,
            ),
        )
    } else if ordered[i].0 < prev_end {
        Some(
            shape_violation(
                "build_multimodal_mask_with_past: image span order (start vs previous end)",
                "spans must not overlap",
            ),
        )
    } else {
        first_violation(ordered, seq_len, i + 1, ordered[i].1)
    }
}

/// Whether a mask can be built, or why not.
pub open spec fn mask_outcome(
    seq_len: usize,
    past_len: usize,
    image_spans: Seq<(usize, usize)>,
) -> Result<(), Error> {
    let total_keys = past_len + seq_len;
    if total_keys > usize::MAX {
        Err(
            shape_overflow(
                "build_multimodal_mask_with_past: total_keys (past_len + seq_len)",
                "usize",
                past_len as i128,
                seq_len as i128,
            ),
        )
    } else if seq_len == 0 && image_spans.len() > 0 {
        Err(
            shape_violation(
                "build_multimodal_mask_with_past: image_spans (with seq_len = 0)",
                "must be empty, an empty chunk holds no image span",
            ),
        )
    } else if total_keys > i32::MAX {
        Err(
            shape_out_of_range(
                "build_multimodal_mask_with_past: total_keys (past_len + seq_len)",
                "must be <= i32::MAX",
                total_keys as i128,
            ),
        )
    } else {
        match first_violation(order_by_start(image_spans), seq_len, 0, 0) {
            Some(e) => Err(e),
            None => if seq_len * total_keys > usize::MAX {
                Err(
                    shape_overflow(
                        "build_multimodal_mask_with_past: total (seq_len * total_keys)",
                        "usize",
                        seq_len as i128,
                        total_keys as i128,
                    ),
                )
            } else {
                Ok(())
            },
        }
    }
}

/// Whether some span holds both positions.
pub open spec fn same_span(spans: Seq<(usize, usize)>, p: int, q: int) -> bool {
    exists|j: int| #[trigger] in_span(spans, j, p) && in_span(spans, j, q)
}

/// Whether the query at chunk position `q` attends to key `k`, where the first
/// `past_len` keys come before the chunk: to every earlier key, to itself, and to
/// every key of its own image span.
pub open spec fn attends(
    past_len: int,
    image_spans: Seq<(usize, usize)>,
    q: int,
    k: int,
) -> bool {
    k < past_len || k - past_len <= q || same_span(image_spans, q, k - past_len)
}

/// The mask: one row of `past_len + seq_len` keys for each of `seq_len` queries.
pub open spec fn mask_model(
    seq_len: usize,
    past_len: usize,
    image_spans: Seq<(usize, usize)>,
) -> ArrayModel<bool> {
    let total_keys = past_len + seq_len;
    ArrayModel {
        shape: seq![1usize, 1usize, seq_len, total_keys as usize],
        data: Seq::new(
            (seq_len * total_keys) as nat,
            |i: int| attends(past_len as int, image_spans, i / total_keys, i % total_keys),
        ),
    }
}

proof fn lemma_insert_by_start(spans: Seq<(usize, usize)>, span: (usize, usize))
    ensures
        insert_by_start(spans, span).len() == spans.len() + 1,
        forall|x: (usize, usize)| #[trigger]
            insert_by_start(spans, span).contains(x) <==> spans.contains(x) || x == span,
    decreases spans.len(),
{
    let r = insert_by_start(spans, span);
    if spans.len() == 0 || spans.last().0 <= span.0 {
        assert forall|x: (usize, usize)| #[trigger] r.contains(x) <==> spans.contains(x) || x
            == span by {
            if spans.contains(x) {
                let i = choose|i: int| 0 <= i < spans.len() && spans[i] == x;
                assert(r[i] == x);
            }
            if x == span {
                assert(r[spans.len() as int] == x);
            }
        }
    } else {
        let rest = insert_by_start(spans.drop_last(), span);
        lemma_insert_by_start(spans.drop_last(), span);
        assert forall|x: (usize, usize)| #[trigger] r.contains(x) <==> spans.contains(x) || x
            == span by {
            if r.contains(x) {
                let i = choose|i: int| 0 <= i < r.len() && r[i] == x;
                if i < rest.len() {
                    assert(rest[i] == x);
                    assert(rest.contains(x));
                    if spans.drop_last().contains(x) {
                        let k = choose|k: int|
                            0 <= k < spans.drop_last().len() && spans.drop_last()[k] == x;
                        assert(spans[k] == x);
                    }
                } else {
                    assert(spans[spans.len() - 1] == x);
                }
            }
            if spans.contains(x) {
                let i = choose|i: int| 0 <= i < spans.len() && spans[i] == x;
                if i < spans.len() - 1 {
                    assert(spans.drop_last()[i] == x);
                    assert(rest.contains(x));
                    let k = choose|k: int| 0 <= k < rest.len() && rest[k] == x;
                    assert(r[k] == x);
                } else {
                    assert(r[r.len() - 1] == x);
                }
            }
            if x == span {
                assert(rest.contains(x));
                let k = choose|k: int| 0 <= k < rest.len() && rest[k] == x;
                assert(r[k] == x);
            }
        }
    }
}

proof fn lemma_order_by_start(spans: Seq<(usize, usize)>)
    ensures
        order_by_start(spans).len() == spans.len(),
        forall|x: (usize, usize)| #[trigger]
            order_by_start(spans).contains(x) <==> spans.contains(x),
    decreases spans.len(),
{
    if spans.len() > 0 {
        let rest = spans.drop_last();
        lemma_order_by_start(rest);
        lemma_insert_by_start(order_by_start(rest), spans.last());
        assert forall|x: (usize, usize)| #[trigger]
            order_by_start(spans).contains(x) <==> spans.contains(x) by {
            if spans.contains(x) {
                let i = choose|i: int| 0 <= i < spans.len() && spans[i] == x;
                if i < spans.len() - 1 {
                    assert(rest[i] == x);
                }
            }
            if rest.contains(x) {
                let i = choose|i: int| 0 <= i < rest.len() && rest[i] == x;
                assert(spans[i] == x);
            }
            assert(spans[spans.len() - 1] == spans.last());
        }
    }
}

/// Two positions share a span of `a` just when they share one of `b`, where the
/// two hold the same spans.
proof fn lemma_same_span(a: Seq<(usize, usize)>, b: Seq<(usize, usize)>, p: int, q: int)
    requires
        forall|x: (usize, usize)| #[trigger] a.contains(x) <==> b.contains(x),
    ensures
        same_span(a, p, q) == same_span(b, p, q),
{
    if same_span(a, p, q) {
        let j = choose|j: int| #[trigger] in_span(a, j, p) && in_span(a, j, q);
        assert(a.contains(a[j]));
        let k = choose|k: int| 0 <= k < b.len() && b[k] == a[j];
        assert(in_span(b, k, p) && in_span(b, k, q));
    }
    if same_span(b, p, q) {
        let j = choose|j: int| #[trigger] in_span(b, j, p) && in_span(b, j, q);
        assert(b.contains(b[j]));
        assert(a.contains(b[j]));
        let k = choose|k: int| 0 <= k < a.len() && a[k] == b[j];
        assert(in_span(a, k, p) && in_span(a, k, q));
    }
}

/// The spans in order of their start.
fn sort_by_start(spans: &[(usize, usize)]) -> (r: Vec<(usize, usize)>)
    ensures
        r@ == order_by_start(spans@),
{
    let mut sorted: Vec<(usize, usize)> = Vec::new();
    let mut i: usize = 0;
    assert(spans@.take(0) =~= Seq::<(usize, usize)>::empty());
    while i < spans.len()
        invariant
            i <= spans@.len(),
            sorted@ == order_by_start(spans@.take(i as int)),
        decreases spans@.len() - i,
    {
        let span: (usize, usize) = spans[i];
        let ghost before = sorted@;
        let mut at: usize = sorted.len();
        assert(before.take(at as int) =~= before);
        assert(before.skip(at as int) =~= Seq::<(usize, usize)>::empty());
        assert(insert_by_start(before, span) =~= insert_by_start(before.take(at as int), span)
            + before.skip(at as int));
        while at > 0 && sorted[at - 1].0 > span.0
            invariant
                at <= sorted@.len(),
                sorted@ == before,
                insert_by_start(before, span) == insert_by_start(before.take(at as int), span)
                    + before.skip(at as int),
            decreases at,
        {
            proof {
                let head = before.take(at as int);
                assert(head.drop_last() =~= before.take(at - 1));
                assert(insert_by_start(head, span) =~= insert_by_start(
                    before.take(at - 1),
                    span,
                ).push(before[at - 1]));
                assert(insert_by_start(before, span) =~= insert_by_start(
                    before.take(at - 1),
                    span,
                ) + before.skip(at - 1));
            }
            at -= 1;
        }
        sorted.insert(at, span);
        i += 1;
        proof {
            assert(insert_by_start(before.take(at as int), span) =~= before.take(at as int).push(
                span,
            ));
            assert(sorted@ =~= before.take(at as int).push(span) + before.skip(at as int));
            assert(spans@.take(i as int).drop_last() =~= spans@.take(i - 1));
        }
    }
    assert(spans@.take(i as int) =~= spans@);
    sorted
}

/// Checks that the spans are sound for a chunk of `seq_len` tokens.
fn check_spans(ordered: &Vec<(usize, usize)>, seq_len: usize) -> (r: Option<Error>)
    ensures
        r == first_violation(ordered@, seq_len, 0, 0),
        r is None ==> {
            &&& forall|j: int| #![trigger ordered@[j]]
                0 <= j < ordered@.len() ==> ordered@[j].0 < ordered@[j].1 <= seq_len && j
                    <= ordered@[j].0
            &&& forall|j: int, k: int|
                #![trigger ordered@[j], ordered@[k]]
                0 <= j < k < ordered@.len() ==> ordered@[j].1 <= ordered@[k].0
        },
{
    let mut prev_end: usize = 0;
    let mut i: usize = 0;
    while i < ordered.len()
        invariant
            i <= ordered@.len(),
            i <= prev_end,
            first_violation(ordered@, seq_len, 0, 0) == first_violation(
                ordered@,
                seq_len,
                i as int,
                prev_end,
            ),
            forall|j: int| #![trigger ordered@[j]]
                0 <= j < i ==> ordered@[j].0 < ordered@[j].1 <= seq_len && j <= ordered@[j].0
                    && ordered@[j].1 <= prev_end,
            forall|j: int, k: int|
                #![trigger ordered@[j], ordered@[k]]
                0 <= j < k < i ==> ordered@[j].1 <= ordered@[k].0,
        decreases ordered@.len() - i,
    {
        let (start, end): (usize, usize) = ordered[i];
        if start >= end {
            return Some(
                shape_violation(
                    "build_multimodal_mask_with_past: image span (start, end)",
                    "start must be strictly less than end",
                ),
            );
        }
        if end > seq_len {
            return Some(
                shape_out_of_range(
                    "build_multimodal_mask_with_past: chunk-local image span end",
                    "must be <= seq_len",
                    end as i128,
                ),
            );
        }
        if start < prev_end {
            return Some(
                shape_violation(
                    "build_multimodal_mask_with_past: image span order (start vs previous end)",
                    "spans must not overlap",
                ),
            );
        }
        prev_end = end;
        i += 1;
    }
    None
}

/// The 1-based index of the span that holds each position, and 0 where none does.
pub open spec fn labels_spans(blocks: Seq<u32>, spans: Seq<(usize, usize)>, count: int) -> bool {
    forall|p: int| #![trigger blocks[p]]
        0 <= p < blocks.len() ==> if blocks[p] == 0 {
            forall|j: int| 0 <= j < count ==> !(#[trigger] in_span(spans, j, p))
        } else {
            blocks[p] <= count && in_span(spans, blocks[p] - 1, p)
        }
}

/// Labels each position of `blocks` with the span that holds it.
fn label_spans(ordered: &Vec<(usize, usize)>, blocks: &mut Vec<u32>)
    requires
        old(blocks)@.len() <= i32::MAX,
        forall|p: int| 0 <= p < old(blocks)@.len() ==> old(blocks)@[p] == 0,
        forall|j: int| #![trigger ordered@[j]]
            0 <= j < ordered@.len() ==> ordered@[j].0 < ordered@[j].1 <= old(blocks)@.len() && j
                <= ordered@[j].0,
        forall|j: int, k: int|
            #![trigger ordered@[j], ordered@[k]]
            0 <= j < k < ordered@.len() ==> ordered@[j].1 <= ordered@[k].0,
    ensures
        final(blocks)@.len() == old(blocks)@.len(),
        labels_spans(final(blocks)@, ordered@, ordered@.len() as int),
{
    let mut i: usize = 0;
    while i < ordered.len()
        invariant
            i <= ordered@.len(),
            blocks@.len() == old(blocks)@.len() <= i32::MAX,
            labels_spans(blocks@, ordered@, i as int),
            forall|j: int| #![trigger ordered@[j]]
                0 <= j < ordered@.len() ==> ordered@[j].0 < ordered@[j].1 <= blocks@.len() && j
                    <= ordered@[j].0,
        decreases ordered@.len() - i,
    {
        let (start, end): (usize, usize) = ordered[i];
        let label: u32 = (i + 1) as u32;
        let ghost before = blocks@;
        let mut p: usize = start;
        while p < end
            invariant
                start <= p <= end <= blocks@.len(),
                blocks@.len() == before.len(),
                forall|x: int| #![trigger blocks@[x]]
                    0 <= x < blocks@.len() ==> blocks@[x] == if start <= x < p {
                        label
                    } else {
                        before[x]
                    },
            decreases end - p,
        {
            blocks.set(p, label);
            p += 1;
        }
        i += 1;
        assert(labels_spans(blocks@, ordered@, i as int)) by {
            assert forall|p: int| #![trigger blocks@[p]] 0 <= p < blocks@.len() implies if blocks@[p]
                == 0 {
                forall|j: int| 0 <= j < i ==> !(#[trigger] in_span(ordered@, j, p))
            } else {
                blocks@[p] <= i && in_span(ordered@, blocks@[p] - 1, p)
            } by {
                assert(before[p] == before[p]);
                assert(ordered@[i - 1] == (start, end));
            }
        }
    }
}

/// Labels tell whether two positions share a span.
proof fn lemma_labels(blocks: Seq<u32>, spans: Seq<(usize, usize)>, p: int, q: int)
    requires
        labels_spans(blocks, spans, spans.len() as int),
        0 <= p < blocks.len(),
        0 <= q < blocks.len(),
        forall|j: int, k: int|
            #![trigger spans[j], spans[k]]
            0 <= j < k < spans.len() ==> spans[j].1 <= spans[k].0,
    ensures
        same_span(spans, p, q) <==> blocks[p] != 0 && blocks[p] == blocks[q],
{
    if blocks[p] != 0 && blocks[p] == blocks[q] {
        assert(in_span(spans, blocks[p] - 1, p) && in_span(spans, blocks[q] - 1, q));
    }
    if same_span(spans, p, q) {
        let j = choose|j: int| #[trigger] in_span(spans, j, p) && in_span(spans, j, q);
        assert(blocks[p] != 0);
        assert(blocks[q] != 0);
        let a = blocks[p] - 1;
        let b = blocks[q] - 1;
        assert(in_span(spans, a, p));
        assert(in_span(spans, b, q));
        assert(spans[a].1 <= spans[j].0 || spans[j].1 <= spans[a].0 || a == j);
        assert(spans[b].1 <= spans[j].0 || spans[j].1 <= spans[b].0 || b == j);
    }
}

/// Appends the rows of the mask to `buffer`.
fn push_mask_rows(
    blocks: &Vec<u32>,
    past_len: usize,
    Ghost(spans): Ghost<Seq<(usize, usize)>>,
    buffer: Vec<bool>,
) -> (r: Vec<bool>)
    requires
        buffer@.len() == 0,
        past_len + blocks@.len() <= usize::MAX,
        blocks@.len() * (past_len + blocks@.len()) <= usize::MAX,
        labels_spans(blocks@, spans, spans.len() as int),
        forall|j: int, k: int|
            #![trigger spans[j], spans[k]]
            0 <= j < k < spans.len() ==> spans[j].1 <= spans[k].0,
    ensures
        r@.len() == blocks@.len() * (past_len + blocks@.len()),
        forall|i: int| #![trigger r@[i]]
            0 <= i < r@.len() ==> r@[i] == attends(
                past_len as int,
                spans,
                i / (past_len + blocks@.len()),
                i % (past_len + blocks@.len()),
            ),
{
    let mut out: Vec<bool> = buffer;
    let total_keys: usize = past_len + blocks.len();
    let mut q: usize = 0;
    proof {
        assert(0 * total_keys == 0) by (nonlinear_arith);
    }
    while q < blocks.len()
        invariant
            q <= blocks@.len(),
            total_keys == past_len + blocks@.len(),
            out@.len() == q * total_keys,
            labels_spans(blocks@, spans, spans.len() as int),
            forall|j: int, k: int|
                #![trigger spans[j], spans[k]]
                0 <= j < k < spans.len() ==> spans[j].1 <= spans[k].0,
            forall|i: int| #![trigger out@[i]]
                0 <= i < out@.len() ==> out@[i] == attends(
                    past_len as int,
                    spans,
                    i / total_keys as int,
                    i % total_keys as int,
                ),
        decreases blocks@.len() - q,
    {
        let query_block: u32 = blocks[q];
        let mut k: usize = 0;
        while k < total_keys
            invariant
                k <= total_keys,
                q < blocks@.len(),
                query_block == blocks@[q as int],
                total_keys == past_len + blocks@.len(),
                out@.len() == q * total_keys + k,
                labels_spans(blocks@, spans, spans.len() as int),
                forall|j: int, k: int|
                    #![trigger spans[j], spans[k]]
                    0 <= j < k < spans.len() ==> spans[j].1 <= spans[k].0,
                forall|i: int| #![trigger out@[i]]
                    0 <= i < out@.len() ==> out@[i] == attends(
                        past_len as int,
                        spans,
                        i / total_keys as int,
                        i % total_keys as int,
                    ),
            decreases total_keys - k,
        {
            let attend: bool = if k < past_len {
                true
            } else {
                let local: usize = k - past_len;
                proof {
                    lemma_labels(blocks@, spans, q as int, local as int);
                }
                local <= q || (query_block != 0 && query_block == blocks[local])
            };
            proof {
                div_mod::lemma_fundamental_div_mod_converse(
                    q * total_keys + k,
                    total_keys as int,
                    q as int,
                    k as int,
                );
            }
            out.push(attend);
            k += 1;
        }
        q += 1;
        proof {
            assert(q * total_keys == (q - 1) * total_keys + total_keys) by (nonlinear_arith);
        }
    }
    out
}

/// Checks that a mask can be built; see [`build_multimodal_mask_with_past`].
pub fn check_mask(seq_len: usize, past_len: usize, image_spans: &[(usize, usize)]) -> (r: Result<
    (),
    Error,
>)
    ensures
        r == mask_outcome(seq_len, past_len, image_spans@),
{
    let total_keys: usize = match past_len.checked_add(seq_len) {
        Some(n) => n,
        None => {
            return Err(
                shape_overflow(
                    "build_multimodal_mask_with_past: total_keys (past_len + seq_len)",
                    "usize",
                    past_len as i128,
                    seq_len as i128,
                ),
            );
        },
    };
    if seq_len == 0 && image_spans.len() > 0 {
        return Err(
            shape_violation(
                "build_multimodal_mask_with_past: image_spans (with seq_len = 0)",
                "must be empty, an empty chunk holds no image span",
            ),
        );
    }
    if total_keys > i32::MAX as usize {
        return Err(
            shape_out_of_range(
                "build_multimodal_mask_with_past: total_keys (past_len + seq_len)",
                "must be <= i32::MAX",
                total_keys as i128,
            ),
        );
    }
    let ordered: Vec<(usize, usize)> = sort_by_start(image_spans);
    match check_spans(&ordered, seq_len) {
        Some(e) => {
            return Err(e);
        },
        None => {},
    }
    match seq_len.checked_mul(total_keys) {
        Some(_) => Ok(()),
        None => Err(
            shape_overflow(
                "build_multimodal_mask_with_past: total (seq_len * total_keys)",
                "usize",
                seq_len as i128,
                total_keys as i128,
            ),
        ),
    }
}

/// Builds an accepted mask in the two given buffers: one label per query in
/// `blocks`, one entry per query and key in `rows`.
pub fn fill_mask(
    seq_len: usize,
    past_len: usize,
    image_spans: &[(usize, usize)],
    blocks: Vec<u32>,
    rows: Vec<bool>,
) -> (r: Array<bool>)
    requires
        mask_outcome(seq_len, past_len, image_spans@) is Ok,
        blocks@.len() == 0,
        rows@.len() == 0,
    ensures
        r@ == mask_model(seq_len, past_len, image_spans@),
{
    let total_keys: usize = past_len + seq_len;
    if seq_len == 0 {
        proof {
            assert(0 * total_keys == 0) by (nonlinear_arith);
            assert(rows@ =~= mask_model(seq_len, past_len, image_spans@).data);
        }
        return mask_array(rows, seq_len, past_len, total_keys, image_spans);
    }
    let ordered: Vec<(usize, usize)> = sort_by_start(image_spans);
    let _ = check_spans(&ordered, seq_len);
    let mut labels: Vec<u32> = blocks;
    push_repeated(&mut labels, 0, seq_len);
    label_spans(&ordered, &mut labels);
    let filled: Vec<bool> = push_mask_rows(&labels, past_len, Ghost(ordered@), rows);
    proof {
        lemma_order_by_start(image_spans@);
        assert forall|i: int| 0 <= i < filled@.len() implies #[trigger] filled@[i] == attends(
            past_len as int,
            image_spans@,
            i / total_keys as int,
            i % total_keys as int,
        ) by {
            lemma_same_span(
                ordered@,
                image_spans@,
                i / total_keys as int,
                i % total_keys as int - past_len,
            );
        }
        assert(filled@ =~= mask_model(seq_len, past_len, image_spans@).data);
    }
    mask_array(filled, seq_len, past_len, total_keys, image_spans)
}

/// The attention mask of a whole prompt: the mask of
/// [`build_multimodal_mask_with_past`] without earlier keys.
pub fn build_multimodal_mask(seq_len: usize, image_spans: &[(usize, usize)]) -> (r: Result<
    Array<bool>,
    Error,
>)
    ensures
        match mask_outcome(seq_len, 0, image_spans@) {
            Ok(_) => match r {
                Ok(mask) => mask@ == mask_model(seq_len, 0, image_spans@),
                Err(e) => e == Error::OutOfMemory,
            },
            Err(e) => r == Err::<Array<bool>, Error>(e),
        },
        seq_len == 0 && mask_outcome(seq_len, 0, image_spans@) is Ok ==> r is Ok,
{
    build_multimodal_mask_with_past(seq_len, 0, image_spans)
}

/// The attention mask of a chunk of `seq_len` queries whose keys are `past_len`
/// earlier tokens and the chunk itself, as a `[1, 1, seq_len, past_len + seq_len]`
/// array in which `true` means that the query attends to the key.
///
/// Every query attends to every earlier key and, within the chunk, to the keys up
/// to its own position; the tokens of one image span attend to each other in both
/// directions. The spans are positions of the chunk; they have to be non-empty,
/// within the chunk and disjoint, in any order.
///
/// The only refusal that [`check_mask`] does not make is `Error::OutOfMemory`,
/// where the allocator declines a buffer of [`fill_mask`]. The mask of an empty
/// chunk is never declined.
pub fn build_multimodal_mask_with_past(
    seq_len: usize,
    past_len: usize,
    image_spans: &[(usize, usize)],
) -> (r: Result<Array<bool>, Error>)
    ensures
        match mask_outcome(seq_len, past_len, image_spans@) {
            Ok(_) => match r {
                Ok(mask) => mask@ == mask_model(seq_len, past_len, image_spans@),
                Err(e) => e == Error::OutOfMemory,
            },
            Err(e) => r == Err::<Array<bool>, Error>(e),
        },
        seq_len == 0 && mask_outcome(seq_len, past_len, image_spans@) is Ok ==> r is Ok,
{
    check_mask(seq_len, past_len, image_spans)?;
    let blocks: Vec<u32> = try_with_capacity(seq_len)?;
    proof {
        assert(0 * (past_len + seq_len) == 0) by (nonlinear_arith);
    }
    let rows: Vec<bool> = try_with_capacity(seq_len * (past_len + seq_len))?;
    Ok(fill_mask(seq_len, past_len, image_spans, blocks, rows))
}

/// The rows of a mask as an array.
fn mask_array(
    rows: Vec<bool>,
    seq_len: usize,
    past_len: usize,
    total_keys: usize,
    image_spans: &[(usize, usize)],
) -> (r: Array<bool>)
    requires
        total_keys == past_len + seq_len,
        rows@ == mask_model(seq_len, past_len, image_spans@).data,
    ensures
        r@ == mask_model(seq_len, past_len, image_spans@),
{
    let shape: Vec<usize> = vec![1, 1, seq_len, total_keys];
    proof {
        assert(shape@ =~= seq![1usize, 1usize, seq_len, total_keys]);
        array::lemma_product_4(1, 1, seq_len, total_keys);
        assert(1 * 1 * seq_len * total_keys == seq_len * total_keys) by (nonlinear_arith);
        assert(seq_len * total_keys >= 0) by (nonlinear_arith)
            requires
                seq_len >= 0,
                total_keys >= 0,
        ;
    }
    Array::of(rows, shape)
}

/// Whether two spans have no position in common.
pub open spec fn disjoint(a: (usize, usize), b: (usize, usize)) -> bool {
    a.1 <= b.0 || b.1 <= a.0
}

/// Every span is non-empty and lies within the chunk, and no two overlap.
pub open spec fn spans_sound(spans: Seq<(usize, usize)>, seq_len: usize) -> bool {
    &&& forall|j: int| #![trigger spans[j]]
        0 <= j < spans.len() ==> spans[j].0 < spans[j].1 <= seq_len
    &&& forall|j: int, k: int|
        #![trigger spans[j], spans[k]]
        0 <= j < k < spans.len() ==> disjoint(spans[j], spans[k])
}

proof fn lemma_insert_keeps_soundness(
    spans: Seq<(usize, usize)>,
    span: (usize, usize),
    seq_len: usize,
)
    ensures
        spans_sound(insert_by_start(spans, span), seq_len) <==> spans_sound(
            spans.push(span),
            seq_len,
        ),
    decreases spans.len(),
{
    let r = insert_by_start(spans, span);
    if spans.len() > 0 && spans.last().0 > span.0 {
        let head = spans.drop_last();
        let last = spans.last();
        lemma_insert_keeps_soundness(head, span, seq_len);
        lemma_insert_by_start(head, span);
        let rest = insert_by_start(head, span);
        assert(r =~= rest.push(last));
        let flat = spans.push(span);
        assert forall|i: int| 0 <= i < head.len() implies #[trigger] rest.contains(head[i]) by {
            assert(head.contains(head[i]));
        }
        assert(rest.contains(span));
        if spans_sound(r, seq_len) {
            assert forall|j: int| 0 <= j < rest.len() implies #[trigger] rest[j] == r[j] by {}
            assert(spans_sound(rest, seq_len));
            assert(spans_sound(head.push(span), seq_len));
            assert forall|j: int| 0 <= j < head.len() + 1 implies #[trigger] head.push(span)[j]
                == (if j < head.len() {
                flat[j]
            } else {
                span
            }) by {}
            assert(r[rest.len() as int] == last);
            assert forall|j: int| #![trigger flat[j]] 0 <= j < flat.len() implies flat[j].0
                < flat[j].1 <= seq_len by {
                if j < head.len() {
                    assert(head.push(span)[j] == flat[j]);
                } else if j == head.len() {
                    assert(flat[j] == last);
                } else {
                    assert(head.push(span)[head.len() as int] == span);
                }
            }
            assert forall|j: int, k: int|
                #![trigger flat[j], flat[k]]
                0 <= j < k < flat.len() implies disjoint(flat[j], flat[k]) by {
                if k < head.len() {
                    assert(head.push(span)[j] == flat[j] && head.push(span)[k] == flat[k]);
                } else if k == head.len() {
                    assert(flat[k] == last && flat[j] == head[j]);
                    assert(rest.contains(head[j]));
                    let m = choose|m: int| 0 <= m < rest.len() && rest[m] == head[j];
                    assert(r[m] == head[j]);
                    assert(disjoint(r[m], r[rest.len() as int]));
                } else if j == head.len() {
                    assert(flat[j] == last && flat[k] == span);
                    let m = choose|m: int| 0 <= m < rest.len() && rest[m] == span;
                    assert(r[m] == span);
                    assert(disjoint(r[m], r[rest.len() as int]));
                } else {
                    assert(head.push(span)[j] == flat[j]);
                    assert(head.push(span)[head.len() as int] == flat[k]);
                }
            }
        }
        if spans_sound(flat, seq_len) {
            assert(flat[head.len() as int] == last);
            assert(flat[head.len() as int + 1] == span);
            let other = head.push(span);
            assert forall|j: int| 0 <= j < other.len() implies #[trigger] other[j] == (if j
                < head.len() {
                flat[j]
            } else {
                flat[head.len() as int + 1]
            }) by {}
            assert(spans_sound(other, seq_len));
            assert(spans_sound(rest, seq_len));
            assert forall|j: int| #![trigger r[j]] 0 <= j < r.len() implies r[j].0 < r[j].1
                <= seq_len by {
                if j < rest.len() {
                    assert(r[j] == rest[j]);
                } else {
                    assert(r[j] == last);
                }
            }
            assert forall|j: int, k: int|
                #![trigger r[j], r[k]]
                0 <= j < k < r.len() implies disjoint(r[j], r[k]) by {
                if k < rest.len() {
                    assert(r[j] == rest[j] && r[k] == rest[k]);
                } else {
                    assert(r[k] == last && r[j] == rest[j]);
                    assert(rest.contains(rest[j]));
                    if rest[j] == span {
                        assert(disjoint(flat[head.len() as int], flat[head.len() as int + 1]));
                    } else {
                        assert(head.contains(rest[j]));
                        let m = choose|m: int| 0 <= m < head.len() && head[m] == rest[j];
                        assert(flat[m] == rest[j]);
                        assert(disjoint(flat[m], flat[head.len() as int]));
                    }
                }
            }
        }
    }
}

proof fn lemma_push_same_soundness(
    a: Seq<(usize, usize)>,
    b: Seq<(usize, usize)>,
    span: (usize, usize),
    seq_len: usize,
)
    requires
        spans_sound(a, seq_len) <==> spans_sound(b, seq_len),
        forall|x: (usize, usize)| #[trigger] a.contains(x) <==> b.contains(x),
        spans_sound(a.push(span), seq_len),
    ensures
        spans_sound(b.push(span), seq_len),
{
    let pa = a.push(span);
    let pb = b.push(span);
    assert forall|j: int| 0 <= j < a.len() implies #[trigger] pa[j] == a[j] by {}
    assert(pa[a.len() as int] == span);
    assert forall|j: int| 0 <= j < a.len() implies #[trigger] a[j] == pa[j] by {}
    assert(spans_sound(a, seq_len));
    assert forall|j: int| 0 <= j < b.len() implies #[trigger] pb[j] == b[j] by {}
    assert forall|j: int, k: int|
        #![trigger pb[j], pb[k]]
        0 <= j < k < pb.len() implies disjoint(pb[j], pb[k]) by {
        if k == b.len() {
            assert(b.contains(b[j]));
            assert(a.contains(b[j]));
            let m = choose|m: int| 0 <= m < a.len() && a[m] == b[j];
            assert(pa[m] == b[j]);
            assert(disjoint(pa[m], pa[a.len() as int]));
        } else {
            assert(disjoint(b[j], b[k]));
        }
    }
}

proof fn lemma_order_keeps_soundness(spans: Seq<(usize, usize)>, seq_len: usize)
    ensures
        spans_sound(order_by_start(spans), seq_len) <==> spans_sound(spans, seq_len),
    decreases spans.len(),
{
    if spans.len() > 0 {
        let rest = spans.drop_last();
        let ordered = order_by_start(rest);
        lemma_order_keeps_soundness(rest, seq_len);
        lemma_order_by_start(rest);
        lemma_insert_keeps_soundness(ordered, spans.last(), seq_len);
        assert(spans =~= rest.push(spans.last()));
        if spans_sound(spans, seq_len) {
            lemma_push_same_soundness(rest, ordered, spans.last(), seq_len);
        }
        if spans_sound(ordered.push(spans.last()), seq_len) {
            lemma_push_same_soundness(ordered, rest, spans.last(), seq_len);
        }
    }
}

proof fn lemma_insert_is_ordered(spans: Seq<(usize, usize)>, span: (usize, usize))
    requires
        forall|j: int, k: int|
            #![trigger spans[j], spans[k]]
            0 <= j < k < spans.len() ==> spans[j].0 <= spans[k].0,
    ensures
        ({
            let r = insert_by_start(spans, span);
            forall|j: int, k: int|
                #![trigger r[j], r[k]]
                0 <= j < k < r.len() ==> r[j].0 <= r[k].0
        }),
    decreases spans.len(),
{
    let r = insert_by_start(spans, span);
    if spans.len() > 0 && spans.last().0 > span.0 {
        let head = spans.drop_last();
        assert forall|j: int| 0 <= j < head.len() implies #[trigger] head[j] == spans[j] by {}
        lemma_insert_is_ordered(head, span);
        lemma_insert_by_start(head, span);
        let rest = insert_by_start(head, span);
        assert forall|j: int, k: int|
            #![trigger r[j], r[k]]
            0 <= j < k < r.len() implies r[j].0 <= r[k].0 by {
            if k < rest.len() {
                assert(r[j] == rest[j] && r[k] == rest[k]);
            } else {
                assert(r[j] == rest[j] && r[k] == spans.last());
                assert(rest.contains(rest[j]));
                if rest[j] != span {
                    assert(head.contains(rest[j]));
                    let m = choose|m: int| 0 <= m < head.len() && head[m] == rest[j];
                    assert(spans[m].0 <= spans[spans.len() - 1].0);
                }
            }
        }
    }
}

proof fn lemma_order_is_ordered(spans: Seq<(usize, usize)>)
    ensures
        ({
            let r = order_by_start(spans);
            forall|j: int, k: int|
                #![trigger r[j], r[k]]
                0 <= j < k < r.len() ==> r[j].0 <= r[k].0
        }),
    decreases spans.len(),
{
    if spans.len() > 0 {
        lemma_order_is_ordered(spans.drop_last());
        lemma_insert_is_ordered(order_by_start(spans.drop_last()), spans.last());
    }
}

proof fn lemma_no_violation(ordered: Seq<(usize, usize)>, seq_len: usize, i: int, prev_end: usize)
    requires
        0 <= i <= ordered.len(),
        forall|j: int, k: int|
            #![trigger ordered[j], ordered[k]]
            0 <= j < k < ordered.len() ==> ordered[j].0 <= ordered[k].0,
        i > 0 ==> prev_end == ordered[i - 1].1 && ordered[i - 1].0 < prev_end,
        i == 0 ==> prev_end == 0,
    ensures
        first_violation(ordered, seq_len, i, prev_end) is None <==> {
            &&& forall|j: int| #![trigger ordered[j]]
                i <= j < ordered.len() ==> ordered[j].0 < ordered[j].1 <= seq_len && prev_end
                    <= ordered[j].0
            &&& forall|j: int, k: int|
                #![trigger ordered[j], ordered[k]]
                i <= j < k < ordered.len() ==> disjoint(ordered[j], ordered[k])
        },
    decreases ordered.len() - i,
{
    if i < ordered.len() && ordered[i].0 < ordered[i].1 && ordered[i].1 <= seq_len && ordered[i].0
        >= prev_end {
        lemma_no_violation(ordered, seq_len, i + 1, ordered[i].1);
        if first_violation(ordered, seq_len, i, prev_end) is None {
            assert forall|j: int| #![trigger ordered[j]] i <= j < ordered.len() implies ordered[j].0
                < ordered[j].1 <= seq_len && prev_end <= ordered[j].0 by {}
        }
        if forall|j: int, k: int|
            #![trigger ordered[j], ordered[k]]
            i <= j < k < ordered.len() ==> disjoint(ordered[j], ordered[k]) {
            assert forall|j: int| #![trigger ordered[j]]
                i + 1 <= j < ordered.len() && ordered[j].0 < ordered[j].1 implies ordered[i].1
                <= ordered[j].0 by {
                assert(disjoint(ordered[i], ordered[j]));
                assert(ordered[i].0 <= ordered[j].0);
            }
        }
    }
}

/// A mask is built for any set of spans that are non-empty, lie within the chunk
/// and do not overlap, in whatever order they are given, and for no other.
pub proof fn law_mask_accepts_exactly_the_sound_spans(
    seq_len: usize,
    past_len: usize,
    image_spans: Seq<(usize, usize)>,
)
    requires
        past_len + seq_len <= i32::MAX,
        seq_len * (past_len + seq_len) <= usize::MAX,
    ensures
        mask_outcome(seq_len, past_len, image_spans) is Ok <==> spans_sound(image_spans, seq_len),
{
    let ordered = order_by_start(image_spans);
    lemma_order_is_ordered(image_spans);
    lemma_no_violation(ordered, seq_len, 0, 0);
    lemma_order_keeps_soundness(image_spans, seq_len);
    assert(first_violation(ordered, seq_len, 0, 0) is None <==> spans_sound(ordered, seq_len));
}

/// Without earlier keys the chunk mask is the mask of the whole prompt, and with
/// earlier keys it is that mask with a column of `true` for each of them in front.
pub proof fn law_past_keys_are_always_attended(
    past_len: int,
    image_spans: Seq<(usize, usize)>,
    q: int,
    k: int,
)
    requires
        0 <= past_len,
        0 <= q,
        0 <= k,
    ensures
        k < past_len ==> attends(past_len, image_spans, q, k),
        attends(past_len, image_spans, q, past_len + k) == attends(0, image_spans, q, k),
{
}

/// Two tokens of one image see each other; a token never sees a later one that is
/// not of its own image, so no image sees a later image.
pub proof fn law_images_see_themselves_and_nothing_later(
    image_spans: Seq<(usize, usize)>,
    seq_len: usize,
    i: int,
    j: int,
    p: int,
    q: int,
)
    requires
        spans_sound(image_spans, seq_len),
        in_span(image_spans, i, p),
        in_span(image_spans, j, q),
        p < q,
    ensures
        attends(0, image_spans, q, p),
        attends(0, image_spans, p, q) <==> i == j,
{
    if i == j {
        assert(in_span(image_spans, i, p) && in_span(image_spans, i, q));
    } else if same_span(image_spans, p, q) {
        let m = choose|m: int| #[trigger]
            in_span(image_spans, m, p) && in_span(image_spans, m, q);
        assert(m == i || disjoint(image_spans[m], image_spans[i]) || disjoint(
            image_spans[i],
            image_spans[m],
        ));
        assert(m == j || disjoint(image_spans[m], image_spans[j]) || disjoint(
            image_spans[j],
            image_spans[m],
        ));
    }
}

/// Without image spans the mask is causal.
pub proof fn law_text_is_causal(q: int, k: int)
    requires
        0 <= k,
    ensures
        attends(0, Seq::<(usize, usize)>::empty(), q, k) <==> k <= q,
{
}

// ---------------------------------------------------------------------------
// The whole prompt
// ---------------------------------------------------------------------------

/// A prompt with its image placeholders in place.
#[derive(Debug)]
pub struct MultimodalPrompt {
    /// The tokens, placeholders included.
    pub tokens: Vec<u32>,
    /// One half-open range of placeholders per image.
    pub image_spans: ImageTokenSpans,
    /// The `[1, 1, T, T]` attention mask, `true` for attend.
    pub attention_mask: Array<bool>,
}

/// The ranges of `image_count` images of `width` placeholders each, one behind
/// the other from `base` on.
pub open spec fn image_spans_at(base: usize, image_count: usize, width: usize) -> Seq<
    (usize, usize),
> {
    Seq::new(
        image_count as nat,
        |i: int| ((base + i * width) as usize, (base + (i + 1) * width) as usize),
    )
}

/// Where the images of a whole prompt go, or why the prompt is refused.
pub open spec fn assembly_outcome(
    text: Seq<u32>,
    image_count: usize,
    image_marker_id: u32,
    num_tokens_per_image: usize,
    policy: MarkerPolicy,
) -> Result<Splice, Error> {
    let total = image_count * num_tokens_per_image;
    let start = first_index(text, image_marker_id, 0);
    let run_len = if image_count > 0 && start < text.len() {
        run_end(text, image_marker_id, start) - start
    } else {
        0
    };
    let final_len = text.len() + total - run_len;
    if image_count > 0 && num_tokens_per_image == 0 {
        Err(
            shape_violation(
                "assemble_multimodal_prompt: num_tokens_per_image (with image_count > 0)",
                "must be > 0, or the images would silently drop",
            ),
        )
    } else if total > usize::MAX {
        Err(
            shape_overflow(
                "assemble_multimodal_prompt: placeholder_total (image_count * num_tokens_per_image)",
                "usize",
                image_count as i128,
                num_tokens_per_image as i128,
            ),
        )
    } else if text.len() + total > usize::MAX {
        Err(
            shape_overflow(
                "assemble_multimodal_prompt: final_len (text_len + placeholder_total)",
                "usize",
                text.len() as i128,
                total as i128,
            ),
        )
    } else if final_len > i32::MAX {
        Err(
            shape_out_of_range(
                "assemble_multimodal_prompt: final assembled length",
                "must be <= i32::MAX",
                final_len as i128,
            ),
        )
    } else {
        match splice_outcome(text, image_count, image_marker_id, num_tokens_per_image, policy) {
            Ok(splice) => match mask_outcome(
                splice.len,
                0,
                image_spans_at(splice.start, image_count, num_tokens_per_image),
            ) {
                Ok(_) => Ok(splice),
                Err(e) => Err(e),
            },
            Err(e) => Err(e),
        }
    }
}

/// Appends the ranges of the images to `buffer`.
pub fn push_image_spans(
    base: usize,
    image_count: usize,
    width: usize,
    buffer: ImageTokenSpans,
) -> (r: ImageTokenSpans)
    requires
        base + image_count * width <= usize::MAX,
    ensures
        r@ == buffer@ + image_spans_at(base, image_count, width),
{
    let mut spans: ImageTokenSpans = buffer;
    let mut i: usize = 0;
    let mut start: usize = base;
    proof {
        assert(0 * width == 0) by (nonlinear_arith);
        assert(spans@ =~= buffer@ + image_spans_at(base, 0, width));
    }
    while i < image_count
        invariant
            i <= image_count,
            base + image_count * width <= usize::MAX,
            start == base + i * width,
            spans@ == buffer@ + image_spans_at(base, i, width),
        decreases image_count - i,
    {
        proof {
            assert((i + 1) * width <= image_count * width) by (nonlinear_arith)
                requires
                    i + 1 <= image_count,
                    0 <= width,
            ;
            assert((i + 1) * width == i * width + width) by (nonlinear_arith);
        }
        let end: usize = start + width;
        spans.push((start, end));
        start = end;
        i += 1;
        assert(spans@ =~= buffer@ + image_spans_at(base, i, width));
    }
    spans
}

proof fn lemma_image_spans_sound(base: usize, image_count: usize, width: usize, seq_len: usize)
    requires
        width > 0,
        base + image_count * width <= seq_len,
    ensures
        spans_sound(image_spans_at(base, image_count, width), seq_len),
        forall|i: int| #![trigger image_spans_at(base, image_count, width)[i]]
            0 <= i < image_count ==> {
                let span = image_spans_at(base, image_count, width)[i];
                span.0 == base + i * width && span.1 == base + (i + 1) * width
            },
{
    let spans = image_spans_at(base, image_count, width);
    assert forall|i: int| #![trigger spans[i]] 0 <= i < image_count implies spans[i].0 == base + i
        * width && spans[i].1 == base + (i + 1) * width && spans[i].0 < spans[i].1 <= seq_len by {
        assert(0 <= i * width < (i + 1) * width <= image_count * width) by (nonlinear_arith)
            requires
                0 <= i,
                i + 1 <= image_count,
                0 < width,
        ;
    }
    assert forall|j: int, k: int|
        #![trigger spans[j], spans[k]]
        0 <= j < k < spans.len() implies disjoint(spans[j], spans[k]) by {
        assert((j + 1) * width <= k * width) by (nonlinear_arith)
            requires
                j + 1 <= k,
                0 < width,
        ;
    }
}

/// Decides where the images of a whole prompt go; see
/// [`assemble_multimodal_prompt`].
pub fn plan_assembly(
    text_tokens: &[u32],
    image_count: usize,
    image_marker_id: u32,
    num_tokens_per_image: usize,
    policy: MarkerPolicy,
) -> (r: Result<Splice, Error>)
    ensures
        r == assembly_outcome(
            text_tokens@,
            image_count,
            image_marker_id,
            num_tokens_per_image,
            policy,
        ),
        r matches Ok(splice) ==> {
            &&& splice.fits(text_tokens@)
            &&& splice.len <= i32::MAX
            &&& splice.start + image_count * num_tokens_per_image <= splice.len
        },
{
    if image_count > 0 && num_tokens_per_image == 0 {
        return Err(
            shape_violation(
                "assemble_multimodal_prompt: num_tokens_per_image (with image_count > 0)",
                "must be > 0, or the images would silently drop",
            ),
        );
    }
    let mut run_len: usize = 0;
    if image_count > 0 {
        let start: usize = find_token(text_tokens, image_marker_id, 0);
        if start < text_tokens.len() {
            run_len = find_run_end(text_tokens, image_marker_id, start) - start;
        }
    }
    let total: usize = match image_count.checked_mul(num_tokens_per_image) {
        Some(n) => n,
        None => {
            return Err(
                shape_overflow(
                    "assemble_multimodal_prompt: placeholder_total (image_count * num_tokens_per_image)",
                    "usize",
                    image_count as i128,
                    num_tokens_per_image as i128,
                ),
            );
        },
    };
    let final_len: usize = match text_tokens.len().checked_add(total) {
        Some(n) => n - run_len,
        None => {
            return Err(
                shape_overflow(
                    "assemble_multimodal_prompt: final_len (text_len + placeholder_total)",
                    "usize",
                    text_tokens.len() as i128,
                    total as i128,
                ),
            );
        },
    };
    if final_len > i32::MAX as usize {
        return Err(
            shape_out_of_range(
                "assemble_multimodal_prompt: final assembled length",
                "must be <= i32::MAX",
                final_len as i128,
            ),
        );
    }
    let splice: Splice = plan_image_splice(
        text_tokens,
        image_count,
        image_marker_id,
        num_tokens_per_image,
        policy,
    )?;
    proof {
        let spans = image_spans_at(splice.start, image_count, num_tokens_per_image);
        assert(0 * num_tokens_per_image == 0) by (nonlinear_arith);
        if image_count > 0 {
            lemma_image_spans_sound(splice.start, image_count, num_tokens_per_image, splice.len);
        } else {
            assert(spans =~= Seq::empty());
        }
        if splice.len > 0 {
            lemma_order_is_ordered(spans);
            lemma_no_violation(order_by_start(spans), splice.len, 0, 0);
            lemma_order_keeps_soundness(spans, splice.len);
            assert(spans_sound(order_by_start(spans), splice.len));
            assert(first_violation(order_by_start(spans), splice.len, 0, 0) is None);
        } else {
            assert(image_count == 0) by {
                if image_count > 0 {
                    assert(image_count * num_tokens_per_image > 0) by (nonlinear_arith)
                        requires
                            image_count > 0,
                            num_tokens_per_image > 0,
                    ;
                }
            }
            assert(0 * 0 == 0);
        }
    }
    match splice.len.checked_mul(splice.len) {
        Some(_) => Ok(splice),
        None => Err(
            shape_overflow(
                "build_multimodal_mask_with_past: total (seq_len * total_keys)",
                "usize",
                splice.len as i128,
                splice.len as i128,
            ),
        ),
    }
}

/// Splices the placeholders of all images into a prompt, records one span per
/// image, and builds the attention mask.
///
/// The images keep their own spans though they stand side by side, so that each
/// image is bidirectional within itself and causal towards the others. A length
/// beyond `i32::MAX` is refused before anything is allocated.
///
/// The only refusal that [`plan_assembly`] does not make is `Error::OutOfMemory`,
/// where the allocator declines a buffer. An empty prompt is never declined.
pub fn assemble_multimodal_prompt(
    text_tokens: &[u32],
    image_count: usize,
    image_marker_id: u32,
    image_token_id: u32,
    num_tokens_per_image: usize,
    policy: MarkerPolicy,
) -> (r: Result<MultimodalPrompt, Error>)
    ensures
        match assembly_outcome(
            text_tokens@,
            image_count,
            image_marker_id,
            num_tokens_per_image,
            policy,
        ) {
            Ok(splice) => match r {
                Ok(prompt) => {
                    let spans = image_spans_at(splice.start, image_count, num_tokens_per_image);
                    &&& prompt.tokens@ == spliced(text_tokens@, splice, image_token_id)
                    &&& prompt.image_spans@ == spans
                    &&& prompt.attention_mask@ == mask_model(splice.len, 0, spans)
                },
                Err(e) => e == Error::OutOfMemory,
            },
            Err(e) => r == Err::<MultimodalPrompt, Error>(e),
        },
        assembly_outcome(
            text_tokens@,
            image_count,
            image_marker_id,
            num_tokens_per_image,
            policy,
        ) matches Ok(splice) ==> splice.len == 0 ==> r is Ok,
{
    let splice: Splice = plan_assembly(
        text_tokens,
        image_count,
        image_marker_id,
        num_tokens_per_image,
        policy,
    )?;
    let buffer: Vec<u32> = try_with_capacity(splice.len)?;
    let tokens: Vec<u32> = splice_tokens(text_tokens, splice, image_token_id, buffer);
    let buffer: ImageTokenSpans = try_with_capacity(image_count)?;
    let image_spans: ImageTokenSpans = push_image_spans(
        splice.start,
        image_count,
        num_tokens_per_image,
        buffer,
    );
    proof {
        assert(tokens@ =~= spliced(text_tokens@, splice, image_token_id));
        assert(image_spans@ =~= image_spans_at(splice.start, image_count, num_tokens_per_image));
    }
    match build_multimodal_mask(splice.len, image_spans.as_slice()) {
        Ok(attention_mask) => Ok(MultimodalPrompt { tokens, image_spans, attention_mask }),
        Err(e) => Err(e),
    }
}

/// The spans of an assembled prompt cover exactly the placeholders that were
/// spliced in, one image behind the other, and each span holds placeholders only.
pub proof fn law_assembled_spans_hold_the_placeholders(
    text: Seq<u32>,
    image_count: usize,
    image_marker_id: u32,
    image_token_id: u32,
    num_tokens_per_image: usize,
    policy: MarkerPolicy,
    i: int,
    p: int,
)
    requires
        text.len() <= usize::MAX,
        0 <= i < image_count,
        assembly_outcome(text, image_count, image_marker_id, num_tokens_per_image, policy) is Ok,
    ensures
        ({
            let splice = assembly_outcome(
                text,
                image_count,
                image_marker_id,
                num_tokens_per_image,
                policy,
            )->Ok_0;
            let spans = image_spans_at(splice.start, image_count, num_tokens_per_image);
            &&& in_span(spans, i, p) ==> spliced(text, splice, image_token_id)[p] == image_token_id
            &&& spans[i].1 - spans[i].0 == num_tokens_per_image
            &&& i == 0 ==> spans[i].0 == splice.start
            &&& i + 1 < image_count ==> spans[i].1 == spans[i + 1].0
            &&& i + 1 == image_count ==> spans[i].1 == splice.start + splice.placeholders
        }),
{
    let splice = assembly_outcome(
        text,
        image_count,
        image_marker_id,
        num_tokens_per_image,
        policy,
    )->Ok_0;
    law_splice_keeps_the_surrounding_text(
        text,
        image_count,
        image_marker_id,
        image_token_id,
        num_tokens_per_image,
        policy,
    );
    lemma_image_spans_sound(splice.start, image_count, num_tokens_per_image, splice.len);
    let spans = image_spans_at(splice.start, image_count, num_tokens_per_image);
    assert(spans[i].0 == splice.start + i * num_tokens_per_image);
    assert((i + 1) * num_tokens_per_image == i * num_tokens_per_image + num_tokens_per_image)
        by (nonlinear_arith);
    assert((i + 1) * num_tokens_per_image <= image_count * num_tokens_per_image)
        by (nonlinear_arith)
        requires
            i + 1 <= image_count,
            0 <= num_tokens_per_image,
    ;
    assert(0 <= i * num_tokens_per_image) by (nonlinear_arith)
        requires
            0 <= i,
            0 <= num_tokens_per_image,
    ;
    assert(0 * num_tokens_per_image == 0) by (nonlinear_arith);
}


/// The entry of query `q` and key `k` of a mask: a query attends to every key before
/// the chunk and to the keys of the chunk up to itself; to a later key only if one
/// image span holds both; and to every key of a span that holds it.
pub proof fn law_masks_are_causal_but_within_an_image(
    seq_len: usize,
    past_len: usize,
    image_spans: Seq<(usize, usize)>,
    q: int,
    k: int,
)
    requires
        past_len + seq_len <= usize::MAX,
        0 <= q < seq_len,
        0 <= k < past_len + seq_len,
    ensures
        ({
            let total = past_len + seq_len;
            let mask = mask_model(seq_len, past_len, image_spans);
            let attended = mask.data[q * total + k];
            &&& mask.shape == seq![1usize, 1usize, seq_len, total as usize]
            &&& mask.data.len() == seq_len * total
            &&& k <= past_len + q ==> attended
            &&& past_len + q < k && attended ==> exists|j: int|
                #![trigger image_spans[j]]
                {
                    &&& 0 <= j < image_spans.len()
                    &&& image_spans[j].0 <= q < image_spans[j].1
                    &&& image_spans[j].0 <= k - past_len < image_spans[j].1
                }
            &&& forall|j: int|
                #![trigger image_spans[j]]
                {
                    &&& 0 <= j < image_spans.len()
                    &&& image_spans[j].0 <= q < image_spans[j].1
                    &&& image_spans[j].0 <= k - past_len < image_spans[j].1
                } ==> attended
        }),
{
    let total = past_len + seq_len;
    let mask = mask_model(seq_len, past_len, image_spans);
    assert(0 <= q * total + k < seq_len * total) by (nonlinear_arith)
        requires
            0 <= q < seq_len,
            0 <= k < total,
    ;
    vstd::arithmetic::div_mod::lemma_fundamental_div_mod_converse(q * total + k, total, q, k);
    assert(mask.data[q * total + k] == attends(past_len as int, image_spans, q, k));
    if past_len + q < k && mask.data[q * total + k] {
        let j = choose|j: int| #[trigger]
            in_span(image_spans, j, q) && in_span(image_spans, j, k - past_len);
        assert(image_spans[j].0 <= q < image_spans[j].1);
    }
    assert forall|j: int|
        #![trigger image_spans[j]]
        {
            &&& 0 <= j < image_spans.len()
            &&& image_spans[j].0 <= q < image_spans[j].1
            &&& image_spans[j].0 <= k - past_len < image_spans[j].1
        } implies mask.data[q * total + k] by {
        assert(in_span(image_spans, j, q) && in_span(image_spans, j, k - past_len));
    }
}

/// A query that no image span holds attends to a key of its chunk exactly where the
/// key does not come after it.
pub proof fn law_queries_outside_images_are_causal(
    seq_len: usize,
    past_len: usize,
    image_spans: Seq<(usize, usize)>,
    q: int,
    k: int,
)
    requires
        past_len + seq_len <= usize::MAX,
        0 <= q < seq_len,
        0 <= k < seq_len,
        forall|j: int|
            #![trigger image_spans[j]]
            0 <= j < image_spans.len() ==> q < image_spans[j].0 || image_spans[j].1 <= q,
    ensures
        mask_model(seq_len, past_len, image_spans).data[q * (past_len + seq_len) + past_len + k]
            <==> k <= q,
{
    law_masks_are_causal_but_within_an_image(seq_len, past_len, image_spans, q, past_len + k);
    assert(q * (past_len + seq_len) + past_len + k == q * (past_len + seq_len) + (past_len + k));
}

/// The chunk of a mask with earlier keys is the mask of the chunk alone, behind one
/// column of attended keys for each of them.
pub proof fn law_the_chunk_of_a_mask_is_the_mask_of_the_chunk(
    seq_len: usize,
    past_len: usize,
    image_spans: Seq<(usize, usize)>,
    q: int,
    k: int,
)
    requires
        past_len + seq_len <= usize::MAX,
        0 <= q < seq_len,
        0 <= k < seq_len,
    ensures
        mask_model(seq_len, past_len, image_spans).data[q * (past_len + seq_len) + past_len + k]
            == mask_model(seq_len, 0, image_spans).data[q * seq_len + k],
{
    let long = mask_model(seq_len, past_len, image_spans).data[q * (past_len + seq_len) + past_len
        + k];
    let own = mask_model(seq_len, 0, image_spans).data[q * seq_len + k];
    law_masks_are_causal_but_within_an_image(seq_len, past_len, image_spans, q, past_len + k);
    law_masks_are_causal_but_within_an_image(seq_len, 0, image_spans, q, k);
    assert(q * (past_len + seq_len) + past_len + k == q * (past_len + seq_len) + (past_len + k));
    assert(q * (0 + seq_len) + k == q * seq_len + k);
    if q < k && long {
        let j = choose|j: int|
            #![trigger image_spans[j]]
            {
                &&& 0 <= j < image_spans.len()
                &&& image_spans[j].0 <= q < image_spans[j].1
                &&& image_spans[j].0 <= past_len + k - past_len < image_spans[j].1
            };
        assert(image_spans[j].0 <= k - 0 < image_spans[j].1);
        assert(own);
    }
    if q < k && own {
        let j = choose|j: int|
            #![trigger image_spans[j]]
            {
                &&& 0 <= j < image_spans.len()
                &&& image_spans[j].0 <= q < image_spans[j].1
                &&& image_spans[j].0 <= k - 0 < image_spans[j].1
            };
        assert(image_spans[j].0 <= past_len + k - past_len < image_spans[j].1);
        assert(long);
    }
}

/// Which masks are built: those whose keys and entries can be counted, for spans that
/// are not empty, lie within the chunk and do not overlap, in whatever order.
pub proof fn law_masks_are_built_for_disjoint_spans(
    seq_len: usize,
    past_len: usize,
    image_spans: Seq<(usize, usize)>,
)
    ensures
        mask_outcome(seq_len, past_len, image_spans) is Ok <==> {
            &&& past_len + seq_len <= i32::MAX
            &&& seq_len * (past_len + seq_len) <= usize::MAX
            &&& forall|j: int|
                #![trigger image_spans[j]]
                0 <= j < image_spans.len() ==> image_spans[j].0 < image_spans[j].1 <= seq_len
            &&& forall|j: int, k: int|
                #![trigger image_spans[j], image_spans[k]]
                0 <= j < k < image_spans.len() ==> image_spans[j].1 <= image_spans[k].0
                    || image_spans[k].1 <= image_spans[j].0
        },
        mask_outcome(seq_len, past_len, image_spans) matches Err(e) ==> e is ShapeMismatch,
{
    if past_len + seq_len <= i32::MAX && seq_len * (past_len + seq_len) <= usize::MAX {
        law_mask_accepts_exactly_the_sound_spans(seq_len, past_len, image_spans);
        if spans_sound(image_spans, seq_len) {
            assert forall|j: int, k: int|
                #![trigger image_spans[j], image_spans[k]]
                0 <= j < k < image_spans.len() implies image_spans[j].1 <= image_spans[k].0
                || image_spans[k].1 <= image_spans[j].0 by {
                assert(disjoint(image_spans[j], image_spans[k]));
            }
        }
    }
    lemma_violations_are_shape_mismatches(order_by_start(image_spans), seq_len, 0, 0);
}

proof fn lemma_violations_are_shape_mismatches(
    ordered: Seq<(usize, usize)>,
    seq_len: usize,
    i: int,
    prev_end: usize,
)
    ensures
        first_violation(ordered, seq_len, i, prev_end) matches Some(e) ==> e is ShapeMismatch,
    decreases ordered.len() - i,
{
    if 0 <= i < ordered.len() {
        lemma_violations_are_shape_mismatches(ordered, seq_len, i + 1, ordered[i].1);
    }
}

/// A prompt whose markers are one run, as long as there are images, is accepted, and
/// each marker of the run becomes `num_tokens_per_image` placeholders: the text before
/// the run stays, the placeholders stand where the run stood, and the text behind it
/// follows.
pub proof fn law_a_marker_run_becomes_placeholders(
    before: Seq<u32>,
    after: Seq<u32>,
    image_count: usize,
    image_marker_id: u32,
    image_token_id: u32,
    num_tokens_per_image: usize,
    policy: MarkerPolicy,
)
    requires
        0 < image_count,
        0 < num_tokens_per_image,
        before.len() + image_count + after.len() + image_count * num_tokens_per_image
            <= usize::MAX,
        !before.contains(image_marker_id),
        !after.contains(image_marker_id),
    ensures
        ({
            let text = before + Seq::new(image_count as nat, |i: int| image_marker_id) + after;
            splice_outcome(text, image_count, image_marker_id, num_tokens_per_image, policy)
                matches Ok(splice) && spliced(text, splice, image_token_id) == before + Seq::new(
                (image_count * num_tokens_per_image) as nat,
                |i: int| image_token_id,
            ) + after && splice.start == before.len() && splice.len == before.len() + image_count
                * num_tokens_per_image + after.len()
        }),
{
    let run = Seq::new(image_count as nat, |i: int| image_marker_id);
    let text = before + run + after;
    let total = image_count * num_tokens_per_image;
    assert(total > 0) by (nonlinear_arith)
        requires
            total == image_count * num_tokens_per_image,
            0 < image_count,
            0 < num_tokens_per_image,
    ;
    let start = first_index(text, image_marker_id, 0);
    lemma_first_index(text, image_marker_id, 0);
    assert(text[before.len() as int] == image_marker_id);
    if start < before.len() {
        assert(before[start] == image_marker_id);
    }
    assert(start == before.len());
    let end = run_end(text, image_marker_id, start);
    lemma_run_end(text, image_marker_id, start);
    if end > before.len() + image_count {
        let p = before.len() + image_count;
        assert(text[p as int] == image_marker_id);
        assert(after[0] == image_marker_id);
    }
    if end < before.len() + image_count {
        assert(text[end] == image_marker_id);
    }
    assert(end == before.len() + image_count);
    lemma_first_index(text, image_marker_id, end);
    let again = first_index(text, image_marker_id, end);
    if again < text.len() {
        assert(after[again - end] == image_marker_id);
    }
    let splice = splice_outcome(
        text,
        image_count,
        image_marker_id,
        num_tokens_per_image,
        policy,
    )->Ok_0;
    assert(spliced(text, splice, image_token_id) =~= before + Seq::new(
        total as nat,
        |i: int| image_token_id,
    ) + after);
}

/// A prompt without markers takes the placeholders of its images in front, where the
/// policy allows it, and is refused as a shape mismatch where it does not.
pub proof fn law_unmarked_prompts_take_images_in_front(
    text: Seq<u32>,
    image_count: usize,
    image_marker_id: u32,
    image_token_id: u32,
    num_tokens_per_image: usize,
)
    requires
        0 < image_count,
        0 < num_tokens_per_image,
        text.len() + image_count * num_tokens_per_image <= usize::MAX,
        !text.contains(image_marker_id),
    ensures
        splice_outcome(
            text,
            image_count,
            image_marker_id,
            num_tokens_per_image,
            MarkerPolicy::PrependIfAbsent,
        ) matches Ok(splice) && spliced(text, splice, image_token_id) == Seq::new(
            (image_count * num_tokens_per_image) as nat,
            |i: int| image_token_id,
        ) + text && splice.start == 0,
        splice_outcome(
            text,
            image_count,
            image_marker_id,
            num_tokens_per_image,
            MarkerPolicy::Required,
        ) matches Err(e) && e is ShapeMismatch,
{
    let total = image_count * num_tokens_per_image;
    assert(total > 0) by (nonlinear_arith)
        requires
            total == image_count * num_tokens_per_image,
            0 < image_count,
            0 < num_tokens_per_image,
    ;
    let start = first_index(text, image_marker_id, 0);
    lemma_first_index(text, image_marker_id, 0);
    if start < text.len() {
        assert(text[start] == image_marker_id);
    }
    let splice = splice_outcome(
        text,
        image_count,
        image_marker_id,
        num_tokens_per_image,
        MarkerPolicy::PrependIfAbsent,
    )->Ok_0;
    assert(spliced(text, splice, image_token_id) =~= Seq::new(
        total as nat,
        |i: int| image_token_id,
    ) + text);
}

/// Markers that are not one run of one marker per image are refused: two markers with
/// another token between them, or a number of markers that is not the number of
/// images.
pub proof fn law_stray_markers_are_refused(
    text: Seq<u32>,
    image_count: usize,
    image_marker_id: u32,
    num_tokens_per_image: usize,
    policy: MarkerPolicy,
    p: int,
)
    requires
        text.len() <= usize::MAX,
        0 < image_count,
        0 <= p < text.len(),
        text[p] == image_marker_id,
        splice_outcome(text, image_count, image_marker_id, num_tokens_per_image, policy) is Ok,
    ensures
        forall|a: int, b: int, m: int|
            #![trigger text[a], text[b], text[m]]
            0 <= a < m < b < text.len() && text[a] == image_marker_id && text[b] == image_marker_id
                ==> text[m] == image_marker_id,
        ({
            let splice = splice_outcome(
                text,
                image_count,
                image_marker_id,
                num_tokens_per_image,
                policy,
            )->Ok_0;
            &&& splice.end - splice.start == image_count
            &&& forall|i: int|
                0 <= i < text.len() ==> (#[trigger] text[i] == image_marker_id <==> splice.start
                    <= i < splice.end)
        }),
{
    let start = first_index(text, image_marker_id, 0);
    lemma_first_index(text, image_marker_id, 0);
    let end = run_end(text, image_marker_id, start);
    lemma_run_end(text, image_marker_id, start);
    lemma_first_index(text, image_marker_id, end);
}

/// The spans of images that stand side by side: span `i` begins `i` widths behind the
/// base and is one width long.
pub proof fn law_image_spans_stand_side_by_side(
    base: usize,
    image_count: usize,
    width: usize,
    i: int,
)
    requires
        base + image_count * width <= usize::MAX,
        0 <= i < image_count,
    ensures
        image_spans_at(base, image_count, width).len() == image_count,
        image_spans_at(base, image_count, width)[i].0 == base + i * width,
        image_spans_at(base, image_count, width)[i].1 == base + i * width + width,
{
    assert(0 <= i * width && i * width + width <= image_count * width && (i + 1) * width == i
        * width + width) by (nonlinear_arith)
        requires
            0 <= i < image_count,
            0 <= width,
    ;
}

/// An assembled prompt is one that its placeholders can be spliced into, spliced in
/// the same way, whose length fits 32 bits.
pub proof fn law_assembly_is_a_splice_of_bounded_length(
    text: Seq<u32>,
    image_count: usize,
    image_marker_id: u32,
    num_tokens_per_image: usize,
    policy: MarkerPolicy,
)
    requires
        text.len() <= usize::MAX,
        assembly_outcome(text, image_count, image_marker_id, num_tokens_per_image, policy) is Ok,
    ensures
        assembly_outcome(text, image_count, image_marker_id, num_tokens_per_image, policy)
            == splice_outcome(text, image_count, image_marker_id, num_tokens_per_image, policy),
        assembly_outcome(
            text,
            image_count,
            image_marker_id,
            num_tokens_per_image,
            policy,
        )->Ok_0.len <= i32::MAX,
{
}


/// A prompt that its placeholders can be spliced into is assembled, where its length
/// fits 32 bits and its mask can be counted.
pub proof fn law_spliced_prompts_of_bounded_length_are_assembled(
    text: Seq<u32>,
    image_count: usize,
    image_marker_id: u32,
    num_tokens_per_image: usize,
    policy: MarkerPolicy,
)
    requires
        text.len() + image_count * num_tokens_per_image <= usize::MAX,
        splice_outcome(text, image_count, image_marker_id, num_tokens_per_image, policy) matches Ok(
            splice,
        ) && splice.len <= i32::MAX && splice.len * splice.len <= usize::MAX,
    ensures
        assembly_outcome(text, image_count, image_marker_id, num_tokens_per_image, policy) is Ok,
{
    let splice = splice_outcome(
        text,
        image_count,
        image_marker_id,
        num_tokens_per_image,
        policy,
    )->Ok_0;
    let total = image_count * num_tokens_per_image;
    assert(0 <= total) by (nonlinear_arith)
        requires
            total == image_count * num_tokens_per_image,
            0 <= image_count,
            0 <= num_tokens_per_image,
    ;
    let start = first_index(text, image_marker_id, 0);
    lemma_first_index(text, image_marker_id, 0);
    lemma_run_end(text, image_marker_id, start);
    let spans = image_spans_at(splice.start, image_count, num_tokens_per_image);
    if image_count > 0 {
        assert(splice.start + total <= splice.len);
        lemma_image_spans_sound(splice.start, image_count, num_tokens_per_image, splice.len);
    } else {
        assert(total == 0) by (nonlinear_arith)
            requires
                total == image_count * num_tokens_per_image,
                image_count == 0,
        ;
        assert(spans.len() == 0);
    }
    assert(splice.len * (0 + splice.len) == splice.len * splice.len);
    law_mask_accepts_exactly_the_sound_spans(splice.len, 0, spans);
}


/// Images that take no tokens are refused rather than dropped, and every refusal is one of
/// shapes that do not fit.
pub proof fn law_images_without_tokens_are_refused(
    text: Seq<u32>,
    image_count: usize,
    image_marker_id: u32,
    num_tokens_per_image: usize,
    policy: MarkerPolicy,
)
    ensures
        ({
            let spliced = splice_outcome(
                text,
                image_count,
                image_marker_id,
                num_tokens_per_image,
                policy,
            );
            let assembled = assembly_outcome(
                text,
                image_count,
                image_marker_id,
                num_tokens_per_image,
                policy,
            );
            &&& 0 < image_count && num_tokens_per_image == 0 ==> spliced is Err && assembled is Err
            &&& spliced matches Err(e) ==> e is ShapeMismatch
            &&& assembled matches Err(e) ==> e is ShapeMismatch
            &&& spliced is Err && text.len() + image_count * num_tokens_per_image <= usize::MAX
                ==> assembled is Err
        }),
{
    if assembly_outcome(
        text,
        image_count,
        image_marker_id,
        num_tokens_per_image,
        policy,
    ) is Err && splice_outcome(
        text,
        image_count,
        image_marker_id,
        num_tokens_per_image,
        policy,
    ) is Ok {
        let splice = splice_outcome(
            text,
            image_count,
            image_marker_id,
            num_tokens_per_image,
            policy,
        )->Ok_0;
        law_masks_are_built_for_disjoint_spans(
            splice.len,
            0,
            image_spans_at(splice.start, image_count, num_tokens_per_image),
        );
    }
}

} // verus!
