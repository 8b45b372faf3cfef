use vstd::prelude::*;
use crate::model::Point;

verus! {

/// A bar height or offset as an exact ratio; drawing divides it out.
#[derive(Clone, Copy, Debug, PartialEq, Eq, Structural)]
pub struct Fraction {
    pub numerator: i64,
    pub denominator: i64,
}

/// One bar of a bar chart: its position, width, height and, for a bar stacked on another,
/// where it starts.
#[derive(Clone, Copy, Debug, PartialEq, Eq, Structural)]
pub struct Bar {
    pub x: i64,
    pub width: i64,
    pub height: Fraction,
    pub base_offset: Option<Fraction>,
}

/// Two series drawn one on top of the other.
pub struct Stacked<T> {
    pub top: T,
    pub bottom: T,
}

/// The stacked bars of two series and the curve of their difference.
pub struct BarsAndDiff {
    pub bars: Stacked<Vec<Bar>>,
    pub diff: Vec<Point>,
}

/// What `points_to_stacked_bars` produces, as sequences.
#[verifier::ext_equal]
pub struct StackingView {
    pub top: Seq<Bar>,
    pub bottom: Seq<Bar>,
    pub diff: Seq<Point>,
}

impl StackingView {
    pub open spec fn empty() -> StackingView {
        StackingView { top: Seq::empty(), bottom: Seq::empty(), diff: Seq::empty() }
    }

    pub open spec fn followed_by(self, rest: StackingView) -> StackingView {
        StackingView { top: self.top + rest.top, bottom: self.bottom + rest.bottom, diff: self.diff + rest.diff }
    }
}

impl BarsAndDiff {
    pub open spec fn view(&self) -> StackingView {
        StackingView { top: self.bars.top@, bottom: self.bars.bottom@, diff: self.diff@ }
    }
}

pub open spec fn whole(v: i64) -> Fraction {
    Fraction { numerator: v, denominator: 1 }
}

pub open spec fn plain_bar(x: i64, width: i64, height: Fraction) -> Bar {
    Bar { x, width, height, base_offset: None }
}

/// A day with a point in both series: the bottom bar, the top bar stacked on it, and the
/// difference bottom minus top. Normalised, the two heights are shares of their sum, unless
/// the sum is zero.
pub open spec fn paired_step(top: Point, bottom: Point, normalize: bool, width: i64) -> StackingView {
    let total = top.y + bottom.y;
    let (top_value, bottom_value) = if normalize && total != 0 {
        (
            Fraction { numerator: top.y, denominator: total as i64 },
            Fraction { numerator: bottom.y, denominator: total as i64 },
        )
    } else {
        (whole(top.y), whole(bottom.y))
    };
    StackingView {
        top: seq![Bar { x: top.x, width, height: top_value, base_offset: Some(bottom_value) }],
        bottom: seq![plain_bar(bottom.x, width, bottom_value)],
        diff: seq![Point { x: top.x, y: (bottom.y - top.y) as i64 }],
    }
}

/// A day with a point in the top series only: a full bar when normalised.
pub open spec fn top_step(top: Point, normalize: bool, width: i64) -> StackingView {
    StackingView {
        top: seq![plain_bar(top.x, width, if normalize { whole(1) } else { whole(top.y) })],
        bottom: Seq::empty(),
        diff: seq![Point { x: top.x, y: (-top.y) as i64 }],
    }
}

/// A day with a point in the bottom series only: a full bar when normalised.
pub open spec fn bottom_step(bottom: Point, normalize: bool, width: i64) -> StackingView {
    StackingView {
        top: Seq::empty(),
        bottom: seq![plain_bar(bottom.x, width, if normalize { whole(1) } else { whole(bottom.y) })],
        diff: seq![Point { x: bottom.x, y: bottom.y }],
    }
}

/// Walks both series by position from `top[i]` and `bottom[j]` on, as a merge of two sorted
/// lists: equal positions pair up, otherwise the smaller position goes alone.
pub open spec fn stack_from(
    top: Seq<Point>,
    bottom: Seq<Point>,
    i: int,
    j: int,
    normalize: bool,
    width: i64,
) -> StackingView
    decreases top.len() - i + bottom.len() - j,
    when 0 <= i <= top.len() && 0 <= j <= bottom.len()
{
    if i < top.len() && j < bottom.len() {
        if top[i].x == bottom[j].x {
            paired_step(top[i], bottom[j], normalize, width).followed_by(
                stack_from(top, bottom, i + 1, j + 1, normalize, width),
            )
        } else if top[i].x < bottom[j].x {
            top_step(top[i], normalize, width).followed_by(stack_from(top, bottom, i + 1, j, normalize, width))
        } else {
            bottom_step(bottom[j], normalize, width).followed_by(
                stack_from(top, bottom, i, j + 1, normalize, width),
            )
        }
    } else if i < top.len() {
        top_step(top[i], normalize, width).followed_by(stack_from(top, bottom, i + 1, j, normalize, width))
    } else if j < bottom.len() {
        bottom_step(bottom[j], normalize, width).followed_by(stack_from(top, bottom, i, j + 1, normalize, width))
    } else {
        StackingView::empty()
    }
}

pub open spec fn small_counts(points: Seq<Point>) -> bool {
    forall|k: int| 0 <= k < points.len() ==> -0x4000_0000_0000_0000 < #[trigger] points[k].y < 0x4000_0000_0000_0000
}

proof fn lemma_then_assoc(a: StackingView, b: StackingView, c: StackingView)
    ensures
        a.followed_by(b).followed_by(c) == a.followed_by(b.followed_by(c)),
{
    assert(a.followed_by(b).followed_by(c).top =~= a.followed_by(b.followed_by(c)).top);
    assert(a.followed_by(b).followed_by(c).bottom =~= a.followed_by(b.followed_by(c)).bottom);
    assert(a.followed_by(b).followed_by(c).diff =~= a.followed_by(b.followed_by(c)).diff);
}

fn push_step(out: &mut BarsAndDiff, top: Option<Bar>, bottom: Option<Bar>, diff: Point)
    ensures
        final(out).view() == old(out).view().followed_by(
            StackingView {
                top: match top { Some(b) => seq![b], None => Seq::empty() },
                bottom: match bottom { Some(b) => seq![b], None => Seq::empty() },
                diff: seq![diff],
            },
        ),
{
    out.diff.push(diff);
    if let Some(b) = top {
        out.bars.top.push(b);
    }
    if let Some(b) = bottom {
        out.bars.bottom.push(b);
    }
    assert(out.view() =~= old(out).view().followed_by(
        StackingView {
            top: match top { Some(b) => seq![b], None => Seq::empty() },
            bottom: match bottom { Some(b) => seq![b], None => Seq::empty() },
            diff: seq![diff],
        },
    ));
}

fn whole_exec(v: i64) -> (f: Fraction)
    ensures
        f == whole(v),
{
    Fraction { numerator: v, denominator: 1 }
}

/// Turns two series of daily counts into stacked bars and their difference: where both
/// series have a point at the same position the top bar stands on the bottom one; a point
/// without a partner makes a bar of its own. With `normalize`, the heights are shares.
pub fn points_to_stacked_bars(points: Stacked<&[Point]>, width: i64, normalize: bool) -> (result: BarsAndDiff)
    requires
        small_counts(points.top@),
        small_counts(points.bottom@),
    ensures
        result.view() == stack_from(points.top@, points.bottom@, 0, 0, normalize, width),
{
    let top = points.top;
    let bottom = points.bottom;
    let mut out = BarsAndDiff { bars: Stacked { top: Vec::new(), bottom: Vec::new() }, diff: Vec::new() };
    let mut i: usize = 0;
    let mut j: usize = 0;
    assert(out.view() == StackingView::empty());
    assert(StackingView::empty().followed_by(stack_from(top@, bottom@, 0, 0, normalize, width))
        =~= stack_from(top@, bottom@, 0, 0, normalize, width));
    while i < top.len() || j < bottom.len()
        invariant
            i <= top@.len(),
            j <= bottom@.len(),
            small_counts(top@),
            small_counts(bottom@),
            out.view().followed_by(stack_from(top@, bottom@, i as int, j as int, normalize, width))
                == stack_from(top@, bottom@, 0, 0, normalize, width),
        decreases top@.len() - i + bottom@.len() - j,
    {
        let ghost before = out.view();
        let ghost rest = stack_from(top@, bottom@, i as int, j as int, normalize, width);
        if i < top.len() && j < bottom.len() && top[i].x == bottom[j].x {
            let t = top[i];
            let b = bottom[j];
            let total = t.y + b.y;
            let (top_value, bottom_value) = if normalize && total != 0 {
                (
                    Fraction { numerator: t.y, denominator: total },
                    Fraction { numerator: b.y, denominator: total },
                )
            } else {
                (whole_exec(t.y), whole_exec(b.y))
            };
            push_step(
                &mut out,
                Some(Bar { x: t.x, width, height: top_value, base_offset: Some(bottom_value) }),
                Some(Bar { x: b.x, width, height: bottom_value, base_offset: None }),
                Point { x: t.x, y: b.y - t.y },
            );
            proof {
                let step = paired_step(t, b, normalize, width);
                assert(rest == step.followed_by(stack_from(top@, bottom@, i + 1, j + 1, normalize, width)));
                lemma_then_assoc(before, step, stack_from(top@, bottom@, i + 1, j + 1, normalize, width));
            }
            i = i + 1;
            j = j + 1;
        } else if i < top.len() && (j >= bottom.len() || top[i].x < bottom[j].x) {
            let t = top[i];
            let value = if normalize { whole_exec(1) } else { whole_exec(t.y) };
            push_step(&mut out, Some(Bar { x: t.x, width, height: value, base_offset: None }), None, Point { x: t.x, y: -t.y });
            proof {
                let step = top_step(t, normalize, width);
                assert(rest == step.followed_by(stack_from(top@, bottom@, i + 1, j as int, normalize, width)));
                lemma_then_assoc(before, step, stack_from(top@, bottom@, i + 1, j as int, normalize, width));
            }
            i = i + 1;
        } else {
            let b = bottom[j];
            let value = if normalize { whole_exec(1) } else { whole_exec(b.y) };
            push_step(&mut out, None, Some(Bar { x: b.x, width, height: value, base_offset: None }), Point { x: b.x, y: b.y });
            proof {
                let step = bottom_step(b, normalize, width);
                assert(rest == step.followed_by(stack_from(top@, bottom@, i as int, j + 1, normalize, width)));
                lemma_then_assoc(before, step, stack_from(top@, bottom@, i as int, j + 1, normalize, width));
            }
            j = j + 1;
        }
    }
    assert(stack_from(top@, bottom@, i as int, j as int, normalize, width) == StackingView::empty());
    assert(out.view().followed_by(StackingView::empty()) =~= out.view());
    out
}

/// Law: every point of the top series gives exactly one top bar and every point of the bottom
/// series one bottom bar; the difference curve has one point per position, shared or not.
pub proof fn lemma_bar_counts(top: Seq<Point>, bottom: Seq<Point>, i: int, j: int, normalize: bool, width: i64)
    requires
        0 <= i <= top.len(),
        0 <= j <= bottom.len(),
    ensures
        stack_from(top, bottom, i, j, normalize, width).top.len() == top.len() - i,
        stack_from(top, bottom, i, j, normalize, width).bottom.len() == bottom.len() - j,
        stack_from(top, bottom, i, j, normalize, width).diff.len() <= (top.len() - i) + (bottom.len() - j),
        stack_from(top, bottom, i, j, normalize, width).diff.len() >= (top.len() - i),
        stack_from(top, bottom, i, j, normalize, width).diff.len() >= (bottom.len() - j),
    decreases top.len() - i + bottom.len() - j,
{
    if i < top.len() && j < bottom.len() {
        if top[i].x == bottom[j].x {
            lemma_bar_counts(top, bottom, i + 1, j + 1, normalize, width);
        } else if top[i].x < bottom[j].x {
            lemma_bar_counts(top, bottom, i + 1, j, normalize, width);
        } else {
            lemma_bar_counts(top, bottom, i, j + 1, normalize, width);
        }
    } else if i < top.len() {
        lemma_bar_counts(top, bottom, i + 1, j, normalize, width);
    } else if j < bottom.len() {
        lemma_bar_counts(top, bottom, i, j + 1, normalize, width);
    }
}

/// Law: where a day has both series and the shares are taken, the two shares make up the
/// whole column: their numerators add up to their common denominator.
pub proof fn lemma_shares_fill_column(top: Point, bottom: Point, width: i64)
    requires
        top.y + bottom.y != 0,
        -0x4000_0000_0000_0000 < top.y < 0x4000_0000_0000_0000,
        -0x4000_0000_0000_0000 < bottom.y < 0x4000_0000_0000_0000,
    ensures
        ({
            let step = paired_step(top, bottom, true, width);
            &&& step.top[0].height.denominator == step.bottom[0].height.denominator
            &&& step.top[0].height.numerator + step.bottom[0].height.numerator == step.top[0].height.denominator
            &&& step.top[0].base_offset == Some(step.bottom[0].height)
        }),
{
}


/// A bar of the top series drawn for point `p`: at its position and width; its height is the
/// point's count, or with `normalize` a fraction whose numerator is that count (a full bar, 1,
/// where the other series has nothing that day); and a bar standing on another stands on a
/// bottom-series count of the same position.
pub open spec fn top_bar_fits(bar: Bar, p: Point, bottom: Seq<Point>, normalize: bool, width: i64) -> bool {
    &&& bar.x == p.x
    &&& bar.width == width
    &&& !normalize ==> bar.height == whole(p.y)
    &&& normalize ==> bar.height.numerator == p.y || bar.height == whole(1)
    &&& match bar.base_offset {
        Some(o) => exists|j: int|
            0 <= j < bottom.len() && (#[trigger] bottom[j]).x == p.x && (!normalize ==> o == whole(bottom[j].y))
                && (normalize ==> o.numerator == bottom[j].y),
        None => true,
    }
}

/// A bar of the bottom series drawn for point `p`: at its position and width, standing on the
/// axis, its height the point's count (with `normalize`, a fraction whose numerator is that
/// count, or a full bar).
pub open spec fn bottom_bar_fits(bar: Bar, p: Point, normalize: bool, width: i64) -> bool {
    &&& bar.x == p.x
    &&& bar.width == width
    &&& bar.base_offset is None
    &&& !normalize ==> bar.height == whole(p.y)
    &&& normalize ==> bar.height.numerator == p.y || bar.height == whole(1)
}

proof fn lemma_bars_follow_from(top: Seq<Point>, bottom: Seq<Point>, i: int, j: int, normalize: bool, width: i64)
    requires
        0 <= i <= top.len(),
        0 <= j <= bottom.len(),
    ensures
        forall|q: int|
            0 <= q < stack_from(top, bottom, i, j, normalize, width).top.len() ==> top_bar_fits(
                #[trigger] stack_from(top, bottom, i, j, normalize, width).top[q],
                top[i + q],
                bottom,
                normalize,
                width,
            ),
        forall|q: int|
            0 <= q < stack_from(top, bottom, i, j, normalize, width).bottom.len() ==> bottom_bar_fits(
                #[trigger] stack_from(top, bottom, i, j, normalize, width).bottom[q],
                bottom[j + q],
                normalize,
                width,
            ),
    decreases top.len() - i + bottom.len() - j,
{
    let v = stack_from(top, bottom, i, j, normalize, width);
    if i < top.len() && j < bottom.len() && top[i].x == bottom[j].x {
        let rest = stack_from(top, bottom, i + 1, j + 1, normalize, width);
        lemma_bars_follow_from(top, bottom, i + 1, j + 1, normalize, width);
        let step = paired_step(top[i], bottom[j], normalize, width);
        assert(v == step.followed_by(rest));
        assert(top_bar_fits(step.top[0], top[i], bottom, normalize, width)) by {
            assert(bottom[j].x == top[i].x);
        }
        assert forall|q: int| 0 <= q < v.top.len() implies top_bar_fits(#[trigger] v.top[q], top[i + q], bottom, normalize, width) by {
            if q > 0 {
                assert(v.top[q] == rest.top[q - 1]);
            }
        }
        assert forall|q: int| 0 <= q < v.bottom.len() implies bottom_bar_fits(#[trigger] v.bottom[q], bottom[j + q], normalize, width) by {
            if q > 0 {
                assert(v.bottom[q] == rest.bottom[q - 1]);
            }
        }
    } else if i < top.len() && (j >= bottom.len() || top[i].x < bottom[j].x) {
        let rest = stack_from(top, bottom, i + 1, j, normalize, width);
        lemma_bars_follow_from(top, bottom, i + 1, j, normalize, width);
        let step = top_step(top[i], normalize, width);
        assert(v == step.followed_by(rest));
        assert forall|q: int| 0 <= q < v.top.len() implies top_bar_fits(#[trigger] v.top[q], top[i + q], bottom, normalize, width) by {
            if q > 0 {
                assert(v.top[q] == rest.top[q - 1]);
            }
        }
        assert forall|q: int| 0 <= q < v.bottom.len() implies bottom_bar_fits(#[trigger] v.bottom[q], bottom[j + q], normalize, width) by {
            assert(v.bottom[q] == rest.bottom[q]);
        }
    } else if j < bottom.len() {
        let rest = stack_from(top, bottom, i, j + 1, normalize, width);
        lemma_bars_follow_from(top, bottom, i, j + 1, normalize, width);
        let step = bottom_step(bottom[j], normalize, width);
        assert(v == step.followed_by(rest));
        assert forall|q: int| 0 <= q < v.top.len() implies top_bar_fits(#[trigger] v.top[q], top[i + q], bottom, normalize, width) by {
            assert(v.top[q] == rest.top[q]);
        }
        assert forall|q: int| 0 <= q < v.bottom.len() implies bottom_bar_fits(#[trigger] v.bottom[q], bottom[j + q], normalize, width) by {
            if q > 0 {
                assert(v.bottom[q] == rest.bottom[q - 1]);
            }
        }
    }
}

/// Law: each point of the top series gives its own top bar and each point of the bottom series
/// its own bottom bar, in order, at the point's position and with the given width; unnormalised,
/// a bar's height is its own series' count, and a top bar standing on a bottom bar is offset by
/// the bottom series' count at the same position.
pub proof fn lemma_bars_follow_series(top: Seq<Point>, bottom: Seq<Point>, normalize: bool, width: i64)
    ensures
        stack_from(top, bottom, 0, 0, normalize, width).top.len() == top.len(),
        stack_from(top, bottom, 0, 0, normalize, width).bottom.len() == bottom.len(),
        forall|i: int|
            0 <= i < top.len() ==> top_bar_fits(
                #[trigger] stack_from(top, bottom, 0, 0, normalize, width).top[i],
                top[i],
                bottom,
                normalize,
                width,
            ),
        forall|j: int|
            0 <= j < bottom.len() ==> bottom_bar_fits(
                #[trigger] stack_from(top, bottom, 0, 0, normalize, width).bottom[j],
                bottom[j],
                normalize,
                width,
            ),
{
    lemma_bar_counts(top, bottom, 0, 0, normalize, width);
    lemma_bars_follow_from(top, bottom, 0, 0, normalize, width);
}


/// The counts of a series, added up.
pub open spec fn sum_y(s: Seq<Point>) -> int
    decreases s.len(),
{
    if s.len() == 0 {
        0
    } else {
        s[0].y + sum_y(s.drop_first())
    }
}

proof fn lemma_sum_y_concat(a: Seq<Point>, b: Seq<Point>)
    ensures
        sum_y(a + b) == sum_y(a) + sum_y(b),
    decreases a.len(),
{
    if a.len() > 0 {
        lemma_sum_y_concat(a.drop_first(), b);
        assert((a + b).drop_first() == a.drop_first() + b);
    } else {
        assert(a + b == b);
    }
}

proof fn lemma_diff_sum_from(top: Seq<Point>, bottom: Seq<Point>, i: int, j: int, normalize: bool, width: i64)
    requires
        0 <= i <= top.len(),
        0 <= j <= bottom.len(),
        small_counts(top),
        small_counts(bottom),
    ensures
        sum_y(stack_from(top, bottom, i, j, normalize, width).diff) == sum_y(bottom.skip(j)) - sum_y(top.skip(i)),
    decreases top.len() - i + bottom.len() - j,
{
    let v = stack_from(top, bottom, i, j, normalize, width);
    if i < top.len() {
        assert(-0x4000_0000_0000_0000 < top[i].y < 0x4000_0000_0000_0000);
        assert(top.skip(i).drop_first() == top.skip(i + 1));
        assert(top.skip(i)[0] == top[i]);
    }
    if j < bottom.len() {
        assert(-0x4000_0000_0000_0000 < bottom[j].y < 0x4000_0000_0000_0000);
        assert(bottom.skip(j).drop_first() == bottom.skip(j + 1));
        assert(bottom.skip(j)[0] == bottom[j]);
    }
    if i < top.len() {
        assert(sum_y(top.skip(i)) == top[i].y + sum_y(top.skip(i + 1)));
    }
    if j < bottom.len() {
        assert(sum_y(bottom.skip(j)) == bottom[j].y + sum_y(bottom.skip(j + 1)));
    }
    if i < top.len() && j < bottom.len() && top[i].x == bottom[j].x {
        lemma_diff_sum_from(top, bottom, i + 1, j + 1, normalize, width);
        let step = paired_step(top[i], bottom[j], normalize, width);
        let rest = stack_from(top, bottom, i + 1, j + 1, normalize, width);
        assert(v == step.followed_by(rest));
        lemma_sum_y_concat(step.diff, rest.diff);
        assert(step.diff.drop_first() == Seq::<Point>::empty());
        assert(sum_y(Seq::<Point>::empty()) == 0);
        assert(sum_y(step.diff) == step.diff[0].y);
    } else if i < top.len() && (j >= bottom.len() || top[i].x < bottom[j].x) {
        lemma_diff_sum_from(top, bottom, i + 1, j, normalize, width);
        let step = top_step(top[i], normalize, width);
        let rest = stack_from(top, bottom, i + 1, j, normalize, width);
        assert(v == step.followed_by(rest));
        lemma_sum_y_concat(step.diff, rest.diff);
        assert(step.diff.drop_first() == Seq::<Point>::empty());
        assert(sum_y(Seq::<Point>::empty()) == 0);
        assert(sum_y(step.diff) == step.diff[0].y);
    } else if j < bottom.len() {
        lemma_diff_sum_from(top, bottom, i, j + 1, normalize, width);
        let step = bottom_step(bottom[j], normalize, width);
        let rest = stack_from(top, bottom, i, j + 1, normalize, width);
        assert(v == step.followed_by(rest));
        lemma_sum_y_concat(step.diff, rest.diff);
        assert(step.diff.drop_first() == Seq::<Point>::empty());
        assert(sum_y(Seq::<Point>::empty()) == 0);
        assert(sum_y(step.diff) == step.diff[0].y);
    } else {
        assert(top.skip(i).len() == 0 && bottom.skip(j).len() == 0);
    }
}

/// Law: the difference curve adds up to the bottom series' total minus the top series' total:
/// every count enters it once, the bottom series' with its sign and the top series' negated.
pub proof fn lemma_diff_adds_up(top: Seq<Point>, bottom: Seq<Point>, normalize: bool, width: i64)
    requires
        small_counts(top),
        small_counts(bottom),
    ensures
        sum_y(stack_from(top, bottom, 0, 0, normalize, width).diff) == sum_y(bottom) - sum_y(top),
{
    lemma_diff_sum_from(top, bottom, 0, 0, normalize, width);
    assert(top.skip(0) == top);
    assert(bottom.skip(0) == bottom);
}

} // verus!
