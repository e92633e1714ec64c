//! Choosing an operator for each pixel, and rebuilding the pixels from the choices.

use vstd::prelude::*;
use crate::color::Color;
use crate::color::spec_distance;
use crate::color::operator::{apply_operator, spec_apply_operator, OPERATOR_COUNT};

verus! {

/// An image as its first two pixels and, for every later pixel, the index of
/// the operator that predicts it from the two pixels before it.
pub struct OperatorIndexImage {
    pub first_pixel: Color,
    pub second_pixel: Color,
    pub operator_index_list: Vec<usize>,
}

impl OperatorIndexImage {
    pub fn new(first_pixel: Color, second_pixel: Color, operator_index_list: Vec<usize>) -> (img:
        Self)
        ensures
            img.first_pixel == first_pixel,
            img.second_pixel == second_pixel,
            img.operator_index_list@ == operator_index_list@,
    {
        Self { first_pixel, second_pixel, operator_index_list }
    }
}

/// Every listed operator index names an operator.
pub open spec fn valid_operator_indices(ops: Seq<usize>) -> bool {
    forall|k: int| 0 <= k < ops.len() ==> #[trigger] ops[k] < OPERATOR_COUNT
}

/// The pixels that an operator index image stands for: the first two, then
/// each next one predicted from the two before it by its listed operator.
pub open spec fn reconstruct(first: Color, second: Color, ops: Seq<usize>) -> Seq<Color>
    decreases ops.len(),
{
    if ops.len() == 0 {
        seq![first, second]
    } else {
        let prev = reconstruct(first, second, ops.drop_last());
        prev.push(spec_apply_operator(ops.last(), prev[prev.len() - 2], prev[prev.len() - 1]))
    }
}

pub proof fn lemma_reconstruct_len(first: Color, second: Color, ops: Seq<usize>)
    ensures
        reconstruct(first, second, ops).len() == ops.len() + 2,
        reconstruct(first, second, ops)[0] == first,
        reconstruct(first, second, ops)[1] == second,
    decreases ops.len(),
{
    if ops.len() > 0 {
        lemma_reconstruct_len(first, second, ops.drop_last());
    }
}

/// `k` is the operator that predicts `target` best from `base` and `input`:
/// none comes closer, and every operator before it comes strictly further.
pub open spec fn is_best_operator(k: usize, base: Color, input: Color, target: Color) -> bool {
    &&& k < OPERATOR_COUNT
    &&& forall|j: usize|
        j < OPERATOR_COUNT ==> spec_distance(target, spec_apply_operator(k, base, input))
            <= spec_distance(target, #[trigger] spec_apply_operator(j, base, input))
    &&& forall|j: usize|
        j < k ==> spec_distance(target, spec_apply_operator(k, base, input)) < spec_distance(
            target,
            #[trigger] spec_apply_operator(j, base, input),
        )
}

/// The best operator for `target` (see `is_best_operator`).
pub open spec fn best_operator(base: Color, input: Color, target: Color) -> usize {
    choose|k: usize| is_best_operator(k, base, input, target)
}

/// There is exactly one best operator.
pub proof fn lemma_best_operator_unique(k: usize, base: Color, input: Color, target: Color)
    requires
        is_best_operator(k, base, input, target),
    ensures
        best_operator(base, input, target) == k,
{
    let c = best_operator(base, input, target);
    assert(is_best_operator(c, base, input, target));
    if c < k {
        assert(spec_distance(target, spec_apply_operator(k, base, input)) < spec_distance(
            target,
            spec_apply_operator(c, base, input),
        ));
    } else if k < c {
        assert(spec_distance(target, spec_apply_operator(c, base, input)) < spec_distance(
            target,
            spec_apply_operator(k, base, input),
        ));
    }
}

/// The pixels that `best_effort` predicts for `src`: its first two, then for each
/// later pixel the best prediction from the two predicted pixels before it.
pub open spec fn best_effort_colors(src: Seq<Color>) -> Seq<Color>
    decreases src.len(),
{
    if src.len() <= 2 {
        src
    } else {
        let prev = best_effort_colors(src.drop_last());
        let n = prev.len();
        let k = best_operator(prev[n - 2], prev[n - 1], src.last());
        prev.push(spec_apply_operator(k, prev[n - 2], prev[n - 1]))
    }
}

pub proof fn lemma_best_effort_colors_len(src: Seq<Color>)
    ensures
        best_effort_colors(src).len() == src.len(),
    decreases src.len(),
{
    if src.len() > 2 {
        lemma_best_effort_colors_len(src.drop_last());
    }
}

/// The operators that `best_effort` chooses for `src`.
pub open spec fn best_effort_ops(src: Seq<Color>) -> Seq<usize> {
    let v = best_effort_colors(src);
    Seq::new((src.len() - 2) as nat, |k: int| best_operator(v[k], v[k + 1], src[k + 2]))
}

/// Chooses, for every pixel after the second, the operator that predicts it best
/// from the two pixels before it as they will be rebuilt.
pub fn best_effort(source_pixels: &[Color]) -> (img: OperatorIndexImage)
    requires
        source_pixels@.len() >= 2,
    ensures
        img.first_pixel == source_pixels@[0],
        img.second_pixel == source_pixels@[1],
        img.operator_index_list@ == best_effort_ops(source_pixels@),
        valid_operator_indices(img.operator_index_list@),
        reconstruct(img.first_pixel, img.second_pixel, img.operator_index_list@)
            == best_effort_colors(source_pixels@),
{
    let ghost src = source_pixels@;
    let mut virt_results: Vec<Color> = Vec::new();
    let mut index_list: Vec<usize> = Vec::new();

    virt_results.push(source_pixels[0]);
    virt_results.push(source_pixels[1]);
    proof {
        assert(virt_results@ =~= src.take(2));
        assert(reconstruct(src[0], src[1], index_list@) =~= virt_results@);
    }

    let n = source_pixels.len();
    let mut index: usize = 2;
    while index < n
        invariant
            n == src.len(),
            src == source_pixels@,
            2 <= index <= n,
            virt_results@ == best_effort_colors(src.take(index as int)),
            virt_results@.len() == index,
            index_list@.len() == index - 2,
            reconstruct(src[0], src[1], index_list@) == virt_results@,
            valid_operator_indices(index_list@),
            forall|k: int|
                0 <= k < index - 2 ==> #[trigger] index_list@[k] == best_operator(
                    virt_results@[k],
                    virt_results@[k + 1],
                    src[k + 2],
                ),
        decreases n - index,
    {
        let target = source_pixels[index];
        let prev_0 = virt_results[index - 2];
        let prev_1 = virt_results[index - 1];

        let mut best_op_index: usize = 0;
        let mut best_color = apply_operator(0, prev_0, prev_1);
        let mut best_score = target.distance(&best_color);

        let mut op_idx: usize = 1;
        while op_idx < OPERATOR_COUNT
            invariant
                1 <= op_idx <= OPERATOR_COUNT,
                best_op_index < op_idx,
                best_color == spec_apply_operator(best_op_index, prev_0, prev_1),
                best_score == spec_distance(target, best_color),
                forall|j: usize|
                    j < op_idx ==> best_score <= spec_distance(
                        target,
                        #[trigger] spec_apply_operator(j, prev_0, prev_1),
                    ),
                forall|j: usize|
                    j < best_op_index ==> best_score < spec_distance(
                        target,
                        #[trigger] spec_apply_operator(j, prev_0, prev_1),
                    ),
            decreases OPERATOR_COUNT - op_idx,
        {
            let predicted = apply_operator(op_idx, prev_0, prev_1);
            let score = target.distance(&predicted);
            if score < best_score {
                best_score = score;
                best_color = predicted;
                best_op_index = op_idx;
            }
            op_idx = op_idx + 1;
        }
        proof {
            assert(is_best_operator(best_op_index, prev_0, prev_1, target));
            lemma_best_operator_unique(best_op_index, prev_0, prev_1, target);
        }

        let ghost old_virt = virt_results@;
        let ghost old_list = index_list@;
        index_list.push(best_op_index);
        virt_results.push(best_color);
        proof {
            assert(src.take(index + 1).drop_last() =~= src.take(index as int));
            assert(index_list@.drop_last() =~= old_list);
            assert forall|k: int| 0 <= k < index + 1 - 2 implies #[trigger] index_list@[k]
                == best_operator(virt_results@[k], virt_results@[k + 1], src[k + 2]) by {
                if k < index - 2 {
                    assert(index_list@[k] == old_list[k]);
                }
            }
        }
        index = index + 1;
    }
    proof {
        assert(src.take(n as int) =~= src);
        lemma_best_effort_colors_len(src);
        assert(index_list@ =~= best_effort_ops(src));
    }
    OperatorIndexImage::new(source_pixels[0], source_pixels[1], index_list)
}

/// Rebuilds the pixels of an operator index image.
pub fn decode(operator_index_image: &OperatorIndexImage) -> (colors: Vec<Color>)
    requires
        valid_operator_indices(operator_index_image.operator_index_list@),
    ensures
        colors@ == reconstruct(
            operator_index_image.first_pixel,
            operator_index_image.second_pixel,
            operator_index_image.operator_index_list@,
        ),
{
    let ghost ops = operator_index_image.operator_index_list@;
    let first = operator_index_image.first_pixel;
    let second = operator_index_image.second_pixel;
    let mut colors: Vec<Color> = vec![first, second];
    proof {
        assert(colors@ =~= reconstruct(first, second, ops.take(0)));
    }
    let n = operator_index_image.operator_index_list.len();
    let mut index: usize = 0;
    while index < n
        invariant
            n == ops.len(),
            ops == operator_index_image.operator_index_list@,
            valid_operator_indices(ops),
            first == operator_index_image.first_pixel,
            second == operator_index_image.second_pixel,
            index <= n,
            colors@ == reconstruct(first, second, ops.take(index as int)),
        decreases n - index,
    {
        proof {
            lemma_reconstruct_len(first, second, ops.take(index as int));
        }
        let operator_index = operator_index_image.operator_index_list[index];
        let color = apply_operator(operator_index, colors[index], colors[index + 1]);
        colors.push(color);
        proof {
            assert(ops.take(index + 1).drop_last() =~= ops.take(index as int));
        }
        index = index + 1;
    }
    proof {
        assert(ops.take(n as int) =~= ops);
    }
    colors
}

/// Rebuilding the choices of `best_effort` gives exactly the pixels it predicted,
/// starting with the source's own first two.
#[verifier::rlimit(30)]
pub proof fn lemma_best_effort_rebuilds(src: Seq<Color>)
    requires
        src.len() >= 2,
    ensures
        valid_operator_indices(best_effort_ops(src)),
        reconstruct(src[0], src[1], best_effort_ops(src)) == best_effort_colors(src),
        best_effort_colors(src).len() == src.len(),
        best_effort_colors(src)[0] == src[0],
        best_effort_colors(src)[1] == src[1],
    decreases src.len(),
{
    lemma_best_effort_colors_len(src);
    if src.len() == 2 {
        assert(best_effort_ops(src) =~= Seq::<usize>::empty());
        assert(reconstruct(src[0], src[1], best_effort_ops(src)) =~= src);
    } else {
        let n = src.len();
        let s1 = src.drop_last();
        lemma_best_effort_rebuilds(s1);
        lemma_best_effort_colors_len(s1);
        let v = best_effort_colors(src);
        let v1 = best_effort_colors(s1);
        let ops = best_effort_ops(src);
        let ops1 = best_effort_ops(s1);
        assert(v.drop_last() =~= v1);
        assert(ops.drop_last() =~= ops1) by {
            assert forall|k: int| 0 <= k < n - 3 implies ops[k] == ops1[k] by {
                assert(v[k] == v1[k]);
                assert(v[k + 1] == v1[k + 1]);
            }
        }
        lemma_reconstruct_len(src[0], src[1], ops1);
        let r1 = reconstruct(src[0], src[1], ops1);
        assert(r1 == v1);
        assert(ops.last() == best_operator(v1[n - 3], v1[n - 2], src.last()));
        assert(reconstruct(src[0], src[1], ops) == r1.push(
            spec_apply_operator(ops.last(), r1[r1.len() - 2], r1[r1.len() - 1]),
        ));
        assert(reconstruct(src[0], src[1], ops) =~= v);
        assert forall|k: int| 0 <= k < ops.len() implies #[trigger] ops[k] < OPERATOR_COUNT by {
            lemma_best_operator_exists(v[k], v[k + 1], src[k + 2]);
        }
    }
}

/// The best operator among the first `m`.
proof fn lemma_best_among(base: Color, input: Color, target: Color, m: usize) -> (k: usize)
    requires
        1 <= m <= OPERATOR_COUNT,
    ensures
        k < m,
        forall|j: usize|
            j < m ==> spec_distance(target, spec_apply_operator(k, base, input)) <= spec_distance(
                target,
                #[trigger] spec_apply_operator(j, base, input),
            ),
        forall|j: usize|
            j < k ==> spec_distance(target, spec_apply_operator(k, base, input)) < spec_distance(
                target,
                #[trigger] spec_apply_operator(j, base, input),
            ),
    decreases m,
{
    if m == 1 {
        0
    } else {
        let k0 = lemma_best_among(base, input, target, (m - 1) as usize);
        let last = (m - 1) as usize;
        if spec_distance(target, spec_apply_operator(last, base, input)) < spec_distance(
            target,
            spec_apply_operator(k0, base, input),
        ) {
            last
        } else {
            k0
        }
    }
}

/// Some operator is best for any target.
pub proof fn lemma_best_operator_exists(base: Color, input: Color, target: Color)
    ensures
        is_best_operator(best_operator(base, input, target), base, input, target),
{
    let k = lemma_best_among(base, input, target, OPERATOR_COUNT);
    assert(is_best_operator(k, base, input, target));
}


/// The ways of choosing operators for pixels.
pub enum SelectorEncoder {
    /// `best_effort`: the best prediction from the pixels as they will be rebuilt.
    BestEffort,
}

/// The ways of rebuilding pixels from operators.
pub enum SelectorDecoder {
    /// `decode`: each pixel predicted from the two before it.
    Rebuild,
}

/// An operator selector: how operators are chosen for pixels, and how the pixels
/// are rebuilt from them.
pub struct OperatorSelector {
    pub encode: SelectorEncoder,
    pub decode: SelectorDecoder,
}

impl OperatorSelector {
    pub fn new(encoder: SelectorEncoder, decoder: SelectorDecoder) -> (selector: Self)
        ensures
            selector.encode == encoder,
            selector.decode == decoder,
    {
        Self { encode: encoder, decode: decoder }
    }
}

/// The selector that chooses with `best_effort` and rebuilds with `decode`.
pub fn best_effort_selector() -> (selector: OperatorSelector)
    ensures
        selector.encode == SelectorEncoder::BestEffort,
        selector.decode == SelectorDecoder::Rebuild,
{
    OperatorSelector::new(SelectorEncoder::BestEffort, SelectorDecoder::Rebuild)
}

impl SelectorEncoder {
    /// The pixel lists this selector takes.
    pub open spec fn accepts(&self, pixels: Seq<Color>) -> bool {
        match self {
            SelectorEncoder::BestEffort => pixels.len() >= 2,
        }
    }

    /// The operators this selector chooses.
    pub open spec fn chosen(&self, pixels: Seq<Color>) -> Seq<usize> {
        match self {
            SelectorEncoder::BestEffort => best_effort_ops(pixels),
        }
    }

    /// Chooses the operators; the first two pixels are kept as they are.
    pub fn call(&self, source_pixels: &[Color]) -> (img: OperatorIndexImage)
        requires
            self.accepts(source_pixels@),
        ensures
            img.first_pixel == source_pixels@[0],
            img.second_pixel == source_pixels@[1],
            img.operator_index_list@ == self.chosen(source_pixels@),
            valid_operator_indices(img.operator_index_list@),
    {
        match self {
            SelectorEncoder::BestEffort => best_effort(source_pixels),
        }
    }
}

impl SelectorDecoder {
    /// The pixels this decoder rebuilds from an image.
    pub open spec fn rebuilt(&self, first: Color, second: Color, ops: Seq<usize>) -> Seq<Color> {
        match self {
            SelectorDecoder::Rebuild => reconstruct(first, second, ops),
        }
    }

    /// Rebuilds the pixels.
    pub fn call(&self, operator_index_image: &OperatorIndexImage) -> (colors: Vec<Color>)
        requires
            valid_operator_indices(operator_index_image.operator_index_list@),
        ensures
            colors@ == self.rebuilt(
                operator_index_image.first_pixel,
                operator_index_image.second_pixel,
                operator_index_image.operator_index_list@,
            ),
    {
        match self {
            SelectorDecoder::Rebuild => decode(operator_index_image),
        }
    }
}

/// Rebuilding more operators keeps the pixels rebuilt from the first ones.
pub proof fn lemma_reconstruct_prefix(first: Color, second: Color, a: Seq<usize>, b: Seq<usize>)
    ensures
        reconstruct(first, second, a + b).len() == a.len() + b.len() + 2,
        reconstruct(first, second, a + b).subrange(0, a.len() + 2int) == reconstruct(first, second, a),
    decreases b.len(),
{
    lemma_reconstruct_len(first, second, a + b);
    lemma_reconstruct_len(first, second, a);
    if b.len() == 0 {
        assert(a + b =~= a);
        assert(reconstruct(first, second, a).subrange(0, a.len() + 2int) =~= reconstruct(
            first,
            second,
            a,
        ));
    } else {
        let b1 = b.drop_last();
        lemma_reconstruct_prefix(first, second, a, b1);
        assert((a + b).drop_last() =~= a + b1);
        let r = reconstruct(first, second, a + b);
        let r1 = reconstruct(first, second, a + b1);
        lemma_reconstruct_len(first, second, a + b1);
        assert(r.subrange(0, a.len() + 2int) =~= r1.subrange(0, a.len() + 2int));
    }
}
} // verus!
