//! What decides where the board is on the screen.
use crate::calibration::{recalibrate_board_bound, start_bound};
use crate::clicks::SubBound;
use crate::common::{
    centres, detections_bound, has_outline, lemma_bound_of_centres, lemma_bound_within,
    outline_index, piece_bound, pieces, Detection, ModelSize, OUTLINE,
};
use crate::readings::doubled_middle;
use crate::single::sum;
use vstd::prelude::*;

verus! {

/// What comes of a search for the board.
pub type Found = Result<(u32, u32, u32, u32), String>;

/// Whether `i` is the first box with the outline's label.
pub open spec fn first_outline_at(detections: Seq<Detection>, i: int) -> bool {
    &&& 0 <= i < detections.len()
    &&& detections[i].label == '0'
    &&& forall|j: int| 0 <= j < i ==> (#[trigger] detections[j]).label != '0'
}

/// The first outline is the one that is searched for.
pub proof fn lemma_first_is_chosen(detections: Seq<Detection>, i: int)
    requires
        first_outline_at(detections, i),
    ensures
        has_outline(detections),
        (choose|k: int| outline_index(detections, k)) == i,
{
    assert(outline_index(detections, i));
    let k = choose|k: int| outline_index(detections, k);
    assert(detections[i].label == OUTLINE && detections[k].label == OUTLINE);
}

/// Where the board was outlined, the first outline decides alone: neither the
/// pieces nor other outlines have any influence.
pub proof fn law_first_outline_decides(
    origin_width: u32,
    origin_height: u32,
    detections: &[Detection],
    alone: &[Detection],
    model: ModelSize,
    i: int,
    of_all: Found,
    of_one: Found,
)
    requires
        call_ensures(detections_bound, (origin_width, origin_height, detections, model), of_all),
        call_ensures(detections_bound, (origin_width, origin_height, alone, model), of_one),
        first_outline_at(detections@, i),
        alone@ == seq![detections@[i]],
    ensures
        of_all is Ok,
        of_one is Ok,
        of_all->Ok_0 == of_one->Ok_0,
{
    lemma_first_is_chosen(detections@, i);
    assert(first_outline_at(alone@, 0));
    lemma_first_is_chosen(alone@, 0);
}

/// Where the board was not outlined, it takes four pieces or more, and a part of
/// the screen more than 100 pixels wide and more than 100 high. If either is
/// missing there is no board.
pub proof fn law_pieces_decide_without_outline(
    origin_width: u32,
    origin_height: u32,
    detections: &[Detection],
    model: ModelSize,
    r: Found,
)
    requires
        call_ensures(detections_bound, (origin_width, origin_height, detections, model), r),
        forall|i: int| 0 <= i < detections@.len() ==> (#[trigger] detections@[i]).label != '0',
    ensures
        r matches Ok((_, _, w, h)) ==> detections@.len() >= 4 && w > 100 && h > 100,
        r matches Err(message) ==> message@ == "未识别到棋盘边界及足够数量的棋子"@,
        ({
            let (x, y, w, h) = piece_bound(detections@, origin_width, origin_height, model);
            detections@.len() >= 4 && w > 100 && h > 100 ==> (r matches Ok(bound) && (
                bound.0 as int,
                bound.1 as int,
                bound.2 as int,
                bound.3 as int,
            ) == (x, y, w, h))
        }),
{
    assert(!has_outline(detections@));
    lemma_all_pieces(detections@);
}

/// Where nothing outlines the board, all that was seen are pieces.
pub proof fn lemma_all_pieces(detections: Seq<Detection>)
    requires
        forall|i: int| 0 <= i < detections.len() ==> (#[trigger] detections[i]).label != '0',
    ensures
        pieces(detections) == detections,
    decreases detections.len(),
{
    let keep = |det: Detection| det.label != OUTLINE;
    reveal(Seq::filter);
    if detections.len() > 0 {
        assert(detections[detections.len() - 1].label != '0');
        lemma_all_pieces(detections.drop_last());
        assert(pieces(detections.drop_last()) == detections.drop_last().filter(keep));
        assert(detections.filter(keep) =~= detections);
    }
}

/// Where the board was not outlined, only the middles of the boxes count, each
/// as often as it was seen.
pub proof fn law_middles_decide_without_outline(
    origin_width: u32,
    origin_height: u32,
    a: &[Detection],
    b: &[Detection],
    model: ModelSize,
    ra: Found,
    rb: Found,
)
    requires
        call_ensures(detections_bound, (origin_width, origin_height, a, model), ra),
        call_ensures(detections_bound, (origin_width, origin_height, b, model), rb),
        forall|i: int| 0 <= i < a@.len() ==> (#[trigger] a@[i]).label != '0',
        forall|i: int| 0 <= i < b@.len() ==> (#[trigger] b@[i]).label != '0',
        centres(a@).to_multiset() == centres(b@).to_multiset(),
    ensures
        ra is Ok <==> rb is Ok,
        ra is Ok ==> ra->Ok_0 == rb->Ok_0,
{
    assert(!has_outline(a@) && !has_outline(b@));
    lemma_bound_of_centres(origin_width, origin_height, a@, b@, model);
}

/// Where the board was not outlined, boxes with the same middles, each in its
/// turn, give the same place, whatever their labels and their sizes.
pub proof fn law_boxes_around_the_same_middles(
    origin_width: u32,
    origin_height: u32,
    a: &[Detection],
    b: &[Detection],
    model: ModelSize,
    ra: Found,
    rb: Found,
)
    requires
        call_ensures(detections_bound, (origin_width, origin_height, a, model), ra),
        call_ensures(detections_bound, (origin_width, origin_height, b, model), rb),
        a@.len() == b@.len(),
        forall|i: int|
            0 <= i < a@.len() ==> {
                &&& (#[trigger] a@[i]).label != '0'
                &&& b@[i].label != '0'
                &&& doubled_middle(a@[i].x0, a@[i].x1) is Some
                &&& doubled_middle(a@[i].x0, a@[i].x1) == doubled_middle(b@[i].x0, b@[i].x1)
                &&& doubled_middle(a@[i].y0, a@[i].y1) is Some
                &&& doubled_middle(a@[i].y0, a@[i].y1) == doubled_middle(b@[i].y0, b@[i].y1)
            },
    ensures
        ra is Ok <==> rb is Ok,
        ra is Ok ==> ra->Ok_0 == rb->Ok_0,
{
    assert forall|i: int| 0 <= i < b@.len() implies (#[trigger] b@[i]).label != '0' by {
        assert(a@[i].label != '0');
    }
    lemma_all_pieces(a@);
    lemma_all_pieces(b@);
    assert(!has_outline(a@) && !has_outline(b@));
    assert forall|i: int| 0 <= i < a@.len() implies centres(a@)[i] == centres(b@)[i] by {
        let (p, q) = (a@[i], b@[i]);
        assert(p.label != '0');
        assert(sum(p.x0.value(), p.x1.value()) == sum(q.x0.value(), q.x1.value()));
        assert(sum(p.y0.value(), p.y1.value()) == sum(q.y0.value(), q.y1.value()));
    }
    assert(centres(a@) =~= centres(b@));
    lemma_bound_of_centres(origin_width, origin_height, a@, b@, model);
}

/// Watching starts with what a search finds, or with the whole screen.
pub proof fn law_start(
    image_w: u32,
    image_h: u32,
    detections: &[Detection],
    model: ModelSize,
    found: Found,
    start: SubBound,
)
    requires
        call_ensures(detections_bound, (image_w, image_h, detections, model), found),
        call_ensures(start_bound, (image_w, image_h, detections, model), start),
    ensures
        match found {
            Ok((x, y, w, h)) => start.x == x && start.y == y && start.w == w && start.h == h,
            Err(_) => start.x == 0 && start.y == 0 && start.w == image_w && start.h == image_h,
        },
{
}

/// Watching goes on with what a search finds; without an answer of the detector,
/// or without a board in it, nothing changes.
pub proof fn law_recalibration(
    image_w: u32,
    image_h: u32,
    detections: &[Detection],
    model: ModelSize,
    found: Found,
    answered: Option<SubBound>,
    unanswered: Option<SubBound>,
)
    requires
        call_ensures(detections_bound, (image_w, image_h, detections, model), found),
        call_ensures(
            recalibrate_board_bound,
            (image_w, image_h, Some(detections), model),
            answered,
        ),
        call_ensures(
            recalibrate_board_bound,
            (image_w, image_h, None::<&[Detection]>, model),
            unanswered,
        ),
    ensures
        unanswered is None,
        match found {
            Ok((x, y, w, h)) => answered matches Some(bound) && bound.x == x && bound.y == y
                && bound.w == w && bound.h == h,
            Err(_) => answered is None,
        },
{
}

/// What a search finds does not reach beyond the screen.
pub proof fn law_found_on_the_screen(
    origin_width: u32,
    origin_height: u32,
    detections: &[Detection],
    model: ModelSize,
    r: Found,
)
    requires
        call_ensures(detections_bound, (origin_width, origin_height, detections, model), r),
        origin_width <= 0x100_0000,
        origin_height <= 0x100_0000,
    ensures
        r matches Ok((x, y, w, h)) ==> (w > 0 ==> x + w <= origin_width) && (h > 0 ==> y + h
            <= origin_height),
{
    lemma_bound_within(origin_width, origin_height, detections@, model);
}

} // verus!
