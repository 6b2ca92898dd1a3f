//! Peak-label row packing: visible labels are packed greedily into a
//! bounded number of non-overlapping horizontal rows.
//!
//! Each row keeps an ordered set of left/right pixel edges. A label spans
//! `[x, x + width]`; it can enter a row when no stored edge falls into that
//! span and the nearest edge strictly to the right of the span is not the
//! right end of another label (which would mean the span nests inside an
//! already placed label). The first such row wins; when none exists a new
//! row is opened, and a label whose row index would reach the row cap is
//! dropped for this pass.

use vstd::prelude::*;

use crate::geo::GeoLocation;

verus! {

/// Labels are dropped rather than placed on a row with this index or a
/// later one.
pub const MAX_ROWS: usize = 8;

/// Index of a label within the peak list of one tile.
#[derive(Debug, Clone, Copy, PartialEq, Eq, Structural)]
pub struct LabelId(pub u32);

/// Which end of a label an edge marks.
#[derive(Debug, Clone, Copy, PartialEq, Eq, Structural)]
pub enum Side {
    Left,
    Right,
}

/// One stored pixel boundary of a placed label.
#[derive(Debug, Clone, Copy, PartialEq, Eq, Structural)]
pub struct LabelEdge {
    pub position: u32,
    pub side: Side,
}

impl LabelEdge {
    /// The left end of a label at this pixel position.
    pub fn left(position: u32) -> (r: LabelEdge)
        ensures
            r == (LabelEdge { position, side: Side::Left }),
    {
        LabelEdge { position, side: Side::Left }
    }

    /// The right end of a label at this pixel position.
    pub fn right(position: u32) -> (r: LabelEdge)
        ensures
            r == (LabelEdge { position, side: Side::Right }),
    {
        LabelEdge { position, side: Side::Right }
    }
}

/// The stored order of edges: by pixel position, left ends first.
pub open spec fn edge_lt(a: LabelEdge, b: LabelEdge) -> bool {
    a.position < b.position || (a.position == b.position && a.side is Left && b.side is Right)
}

fn edge_lt_exec(a: &LabelEdge, b: &LabelEdge) -> (r: bool)
    ensures
        r == edge_lt(*a, *b),
{
    a.position < b.position || (a.position == b.position && matches!(a.side, Side::Left)
        && matches!(b.side, Side::Right))
}

/// A row's edge set with one more edge, kept ordered and without
/// duplicates.
pub open spec fn sorted_insert(row: Seq<LabelEdge>, e: LabelEdge) -> Seq<LabelEdge>
    decreases row.len(),
{
    if row.len() == 0 {
        seq![e]
    } else if edge_lt(row.first(), e) {
        seq![row.first()] + sorted_insert(row.drop_first(), e)
    } else if row.first() == e {
        row
    } else {
        seq![e] + row
    }
}

/// `sorted_insert` places the edge at the first position whose edge does
/// not precede it, or keeps the row when that edge is already stored.
proof fn lemma_sorted_insert_at(row: Seq<LabelEdge>, e: LabelEdge, j: int)
    requires
        0 <= j <= row.len(),
        forall|k: int| 0 <= k < j ==> edge_lt(#[trigger] row[k], e),
        j < row.len() ==> !edge_lt(row[j], e),
    ensures
        sorted_insert(row, e) == if j < row.len() && row[j] == e {
            row
        } else {
            row.insert(j, e)
        },
    decreases row.len(),
{
    if row.len() == 0 {
        assert(row.insert(0, e) =~= seq![e]);
    } else if edge_lt(row.first(), e) {
        let rest = row.drop_first();
        assert(row[0] == row.first());
        assert(j >= 1);
        assert(forall|k: int| 0 <= k < j - 1 ==> #[trigger] rest[k] == row[k + 1]);
        lemma_sorted_insert_at(rest, e, j - 1);
        if j < row.len() && row[j] == e {
            assert(rest[j - 1] == e);
            assert(sorted_insert(row, e) =~= row);
        } else {
            assert(sorted_insert(row, e) =~= seq![row.first()] + rest.insert(j - 1, e));
            assert(seq![row.first()] + rest.insert(j - 1, e) =~= row.insert(j, e));
        }
    } else {
        assert(j == 0) by {
            if j > 0 {
                assert(edge_lt(row[0], e));
            }
        }
        if row.first() == e {
            assert(row[0] == e);
        } else {
            assert(sorted_insert(row, e) =~= row.insert(0, e));
        }
    }
}

/// Adds the edge to the row, keeping the stored order and dropping a
/// duplicate, as an ordered set would.
fn insert_edge(row: &mut Vec<LabelEdge>, e: LabelEdge)
    ensures
        final(row)@ == sorted_insert(old(row)@, e),
{
    let mut j: usize = 0;
    while j < row.len() && edge_lt_exec(&row[j], &e)
        invariant
            0 <= j <= row@.len(),
            row@ == old(row)@,
            forall|k: int| 0 <= k < j ==> edge_lt(#[trigger] row@[k], e),
        decreases row@.len() - j,
    {
        j = j + 1;
    }
    proof {
        lemma_sorted_insert_at(row@, e, j as int);
    }
    if j < row.len() && row[j] == e {
        return ;
    }
    row.insert(j, e);
}

/// Whether some stored edge lies within `[left, right]`.
pub open spec fn row_blocked(row: Seq<LabelEdge>, left: u32, right: u32) -> bool {
    exists|k: int| 0 <= k < row.len() && left <= (#[trigger] row[k]).position <= right
}

/// Index of the first stored edge strictly right of `right`, or the row
/// length when there is none.
pub open spec fn first_after_idx(row: Seq<LabelEdge>, right: u32) -> int
    decreases row.len(),
{
    if row.len() == 0 {
        0
    } else if row.first().position > right {
        0
    } else {
        1 + first_after_idx(row.drop_first(), right)
    }
}

/// What `first_after_idx` finds: the first index past `right`.
proof fn lemma_first_after_idx(row: Seq<LabelEdge>, right: u32)
    ensures
        0 <= first_after_idx(row, right) <= row.len(),
        first_after_idx(row, right) < row.len() ==> row[first_after_idx(row, right)].position
            > right,
        forall|k: int| 0 <= k < first_after_idx(row, right) ==> (#[trigger] row[k]).position
            <= right,
    decreases row.len(),
{
    if row.len() > 0 && row.first().position <= right {
        let rest = row.drop_first();
        lemma_first_after_idx(rest, right);
        assert(forall|k: int| 0 <= k < rest.len() ==> #[trigger] rest[k] == row[k + 1]);
        assert(row[0] == row.first());
        assert forall|k: int| 0 <= k < first_after_idx(row, right) implies (
        #[trigger] row[k]).position <= right by {
            if k > 0 {
                assert(row[k] == rest[k - 1]);
            }
        }
    }
}

/// Whether the label span `[left, right]` can enter the row: no stored
/// edge within the span, and the nearest stored edge right of the span is
/// not the right end of another label.
pub open spec fn row_usable(row: Seq<LabelEdge>, left: u32, right: u32) -> bool {
    let idx = first_after_idx(row, right);
    !row_blocked(row, left, right) && (idx == row.len() || row[idx].side is Left)
}

fn row_usable_exec(row: &Vec<LabelEdge>, left: u32, right: u32) -> (r: bool)
    ensures
        r == row_usable(row@, left, right),
{
    proof {
        lemma_first_after_idx(row@, right);
    }
    let mut k: usize = 0;
    while k < row.len()
        invariant
            0 <= k <= row@.len(),
            forall|j: int|
                0 <= j < k ==> !(left <= (#[trigger] row@[j]).position && row@[j].position
                    <= right),
        decreases row@.len() - k,
    {
        if row[k].position >= left && row[k].position <= right {
            proof {
                assert(left <= row@[k as int].position <= right);
            }
            return false;
        }
        k = k + 1;
    }
    proof {
        assert(!row_blocked(row@, left, right)) by {
            if row_blocked(row@, left, right) {
                let j = choose|j: int|
                    0 <= j < row@.len() && left <= (#[trigger] row@[j]).position <= right;
            }
        }
    }
    let mut t: usize = 0;
    while t < row.len() && row[t].position <= right
        invariant
            0 <= t <= row@.len(),
            forall|j: int| 0 <= j < t ==> (#[trigger] row@[j]).position <= right,
        decreases row@.len() - t,
    {
        t = t + 1;
    }
    proof {
        assert(t as int == first_after_idx(row@, right)) by {
            let idx = first_after_idx(row@, right);
            if idx < t {
                assert(row@[idx].position > right);
            }
            if t < idx {
                assert(row@[t as int].position <= right);
            }
        }
    }
    if t < row.len() {
        matches!(row[t].side, Side::Left)
    } else {
        true
    }
}

/// The rows of a layout pass as mathematical sequences.
pub open spec fn rows_view(rows: Vec<Vec<LabelEdge>>) -> Seq<Seq<LabelEdge>> {
    Seq::new(rows@.len(), |i: int| rows@[i]@)
}

/// Index of the first row that can take the span, if any.
pub open spec fn first_usable_row(rows: Seq<Seq<LabelEdge>>, left: u32, right: u32) -> Option<int>
    decreases rows.len(),
{
    if rows.len() == 0 {
        None
    } else if row_usable(rows.first(), left, right) {
        Some(0)
    } else {
        match first_usable_row(rows.drop_first(), left, right) {
            Some(i) => Some(i + 1),
            None => None,
        }
    }
}

/// What `first_usable_row` finds: the first usable row.
proof fn lemma_first_usable_row(rows: Seq<Seq<LabelEdge>>, left: u32, right: u32)
    ensures
        match first_usable_row(rows, left, right) {
            Some(i) => 0 <= i < rows.len() && row_usable(rows[i], left, right) && forall|k: int|
                0 <= k < i ==> !row_usable(#[trigger] rows[k], left, right),
            None => forall|k: int|
                0 <= k < rows.len() ==> !row_usable(#[trigger] rows[k], left, right),
        },
    decreases rows.len(),
{
    if rows.len() > 0 {
        let rest = rows.drop_first();
        lemma_first_usable_row(rest, left, right);
        assert(forall|k: int| 0 <= k < rest.len() ==> #[trigger] rest[k] == rows[k + 1]);
        assert(rows[0] == rows.first());
        if !row_usable(rows.first(), left, right) {
            match first_usable_row(rest, left, right) {
                Some(i) => {
                    assert(first_usable_row(rows, left, right) == Some(i + 1));
                    assert(rows[i + 1] == rest[i]);
                    assert forall|k: int| 0 <= k < i + 1 implies !row_usable(
                        #[trigger] rows[k],
                        left,
                        right,
                    ) by {
                        if k > 0 {
                            assert(rows[k] == rest[k - 1]);
                        }
                    }
                },
                None => {
                    assert forall|k: int| 0 <= k < rows.len() implies !row_usable(
                        #[trigger] rows[k],
                        left,
                        right,
                    ) by {
                        if k > 0 {
                            assert(rows[k] == rest[k - 1]);
                        }
                    }
                },
            }
        }
    }
}

/// One placement step: the resulting row choice and the rows afterwards.
/// A usable row takes the span's edges when its index is under the row
/// cap; when no row is usable a new one is opened (even when it cannot be
/// used, matching the reference behaviour), and a choice at or past the
/// cap drops the label.
pub open spec fn place_spec(rows: Seq<Seq<LabelEdge>>, left: u32, right: u32) -> (
    Option<int>,
    Seq<Seq<LabelEdge>>,
) {
    let le = LabelEdge { position: left, side: Side::Left };
    let re = LabelEdge { position: right, side: Side::Right };
    match first_usable_row(rows, left, right) {
        Some(i) => if i < MAX_ROWS {
            (Some(i), rows.update(i, sorted_insert(sorted_insert(rows[i], le), re)))
        } else {
            (None, rows)
        },
        None => if rows.len() < MAX_ROWS {
            (
                Some(rows.len() as int),
                rows.push(sorted_insert(sorted_insert(Seq::empty(), le), re)),
            )
        } else {
            (None, rows.push(Seq::empty()))
        },
    }
}

/// Picks the row for a label spanning `[x, x + width]` and records its
/// edges; returns the chosen row, or `None` when the label is dropped
/// because only a row at or past the row cap could take it.
pub fn process_label_layout(rows: &mut Vec<Vec<LabelEdge>>, x: u32, width: u32) -> (r: Option<
    usize,
>)
    requires
        x + width <= u32::MAX,
    ensures
        ({
            let (choice, after) = place_spec(rows_view(*old(rows)), x, (x + width) as u32);
            &&& rows_view(*final(rows)) == after
            &&& match (r, choice) {
                (Some(a), Some(b)) => a as int == b,
                (None, None) => true,
                _ => false,
            }
        }),
{
    let right_pos = x + width;
    let ghost rows0 = rows_view(*rows);
    proof {
        lemma_first_usable_row(rows0, x, right_pos);
    }
    let mut i: usize = 0;
    let mut found: Option<usize> = None;
    while i < rows.len()
        invariant_except_break
            0 <= i <= rows@.len(),
            rows0 == rows_view(*rows),
            found is None,
            forall|k: int| 0 <= k < i ==> !row_usable(#[trigger] rows0[k], x, right_pos),
        ensures
            rows0 == rows_view(*rows),
            match found {
                Some(fi) => 0 <= fi < rows@.len() && row_usable(rows0[fi as int], x, right_pos)
                    && forall|k: int|
                    0 <= k < fi ==> !row_usable(#[trigger] rows0[k], x, right_pos),
                None => forall|k: int|
                    0 <= k < rows@.len() ==> !row_usable(#[trigger] rows0[k], x, right_pos),
            },
        decreases rows@.len() - i,
    {
        if row_usable_exec(&rows[i], x, right_pos) {
            proof {
                assert(rows0[i as int] == rows@[i as int]@);
            }
            found = Some(i);
            break ;
        }
        proof {
            assert(rows0[i as int] == rows@[i as int]@);
        }
        i = i + 1;
    }
    let row_i: usize = match found {
        Some(fi) => fi,
        None => {
            let n = rows.len();
            rows.push(Vec::new());
            proof {
                assert(rows_view(*rows) =~= rows0.push(Seq::empty()));
            }
            n
        },
    };
    proof {
        match found {
            Some(fi) => {
                assert(first_usable_row(rows0, x, right_pos) == Some(fi as int)) by {
                    match first_usable_row(rows0, x, right_pos) {
                        Some(j) => {
                            if j < fi as int {
                                assert(!row_usable(rows0[j], x, right_pos));
                            }
                            if j > fi as int {
                                assert(!row_usable(rows0[fi as int], x, right_pos));
                            }
                        },
                        None => {
                            assert(!row_usable(rows0[fi as int], x, right_pos));
                        },
                    }
                }
            },
            None => {
                assert(first_usable_row(rows0, x, right_pos) is None) by {
                    match first_usable_row(rows0, x, right_pos) {
                        Some(j) => {
                            assert(!row_usable(rows0[j], x, right_pos));
                        },
                        None => {},
                    }
                }
            },
        }
    }
    if row_i < MAX_ROWS {
        let ghost before_insert = rows_view(*rows);
        let le = LabelEdge::left(x);
        let re = LabelEdge::right(right_pos);
        let row = &mut rows[row_i];
        insert_edge(row, le);
        insert_edge(row, re);
        proof {
            assert(rows_view(*rows) =~= before_insert.update(
                row_i as int,
                sorted_insert(sorted_insert(before_insert[row_i as int], le), re),
            ));
            if found is None {
                assert(rows_view(*rows) =~= rows0.push(
                    sorted_insert(
                        sorted_insert(Seq::empty(), LabelEdge { position: x, side: Side::Left }),
                        LabelEdge { position: right_pos, side: Side::Right },
                    ),
                )) by {
                    assert(before_insert =~= rows0.push(Seq::empty()));
                    assert(before_insert[row_i as int] =~= Seq::<LabelEdge>::empty());
                }
            }
        }
        Some(row_i)
    } else {
        None
    }
}

/// A visible peak label waiting for a row: its tile, its index there, the
/// pixel anchor of the peak, and the shaped label width, if known.
#[derive(Debug, Clone, Copy, PartialEq, Eq, Structural)]
pub struct LabelRequest {
    pub location: GeoLocation,
    pub id: LabelId,
    pub x: u32,
    pub y: u32,
    pub width: Option<u32>,
}

/// A placed label: where it was anchored and which row took it.
#[derive(Debug, Clone, Copy, PartialEq, Eq, Structural)]
pub struct LabelLayout {
    pub location: GeoLocation,
    pub id: LabelId,
    pub x: u32,
    pub row: usize,
    pub width: u32,
    pub peak_x: u32,
    pub peak_y: u32,
}

/// The label span must fit the pixel axis.
pub open spec fn request_ok(req: LabelRequest) -> bool {
    match req.width {
        Some(w) => req.x + w <= u32::MAX,
        None => true,
    }
}

/// The layout pass over a priority-ordered request list: each label with a
/// known width is placed by `place_spec` in turn; dropped labels (row cap)
/// and labels without a width yield no output.
pub open spec fn layout_rec(reqs: Seq<LabelRequest>, rows: Seq<Seq<LabelEdge>>) -> (
    Seq<LabelLayout>,
    Seq<Seq<LabelEdge>>,
)
    decreases reqs.len(),
{
    if reqs.len() == 0 {
        (Seq::empty(), rows)
    } else {
        let req = reqs.first();
        match req.width {
            Option::None => layout_rec(reqs.drop_first(), rows),
            Option::Some(w) => {
                let placed = place_spec(rows, req.x, (req.x + w) as u32);
                let rest = layout_rec(reqs.drop_first(), placed.1);
                match placed.0 {
                    Option::Some(i) => (
                        seq![
                            LabelLayout {
                                location: req.location,
                                id: req.id,
                                x: req.x,
                                row: i as usize,
                                width: w,
                                peak_x: req.x,
                                peak_y: req.y,
                            },
                        ] + rest.0,
                        rest.1,
                    ),
                    Option::None => rest,
                }
            },
        }
    }
}

/// Packs the labels into rows, in the given priority order, starting from
/// an empty edge table; returns the placed labels in order.
pub fn layout_labels(requests: &Vec<LabelRequest>) -> (r: Vec<LabelLayout>)
    requires
        forall|k: int| 0 <= k < requests@.len() ==> request_ok(#[trigger] requests@[k]),
    ensures
        r@ == layout_rec(requests@, Seq::empty()).0,
{
    let mut rows: Vec<Vec<LabelEdge>> = Vec::new();
    let mut out: Vec<LabelLayout> = Vec::new();
    let mut i: usize = 0;
    proof {
        assert(requests@.skip(0) =~= requests@);
        assert(rows_view(rows) =~= Seq::<Seq<LabelEdge>>::empty());
        assert(out@ =~= Seq::<LabelLayout>::empty());
        assert(out@ + layout_rec(requests@, rows_view(rows)).0 =~= layout_rec(
            requests@,
            Seq::empty(),
        ).0);
    }
    while i < requests.len()
        invariant
            0 <= i <= requests@.len(),
            forall|k: int| 0 <= k < requests@.len() ==> request_ok(#[trigger] requests@[k]),
            layout_rec(requests@, Seq::empty()).0 == out@ + layout_rec(
                requests@.skip(i as int),
                rows_view(rows),
            ).0,
        decreases requests@.len() - i,
    {
        let ghost suffix = requests@.skip(i as int);
        proof {
            assert(suffix.len() > 0);
            assert(suffix.first() == requests@[i as int]);
            assert(suffix.drop_first() =~= requests@.skip(i + 1));
            assert(request_ok(requests@[i as int]));
        }
        let req = requests[i];
        match req.width {
            Option::None => {},
            Option::Some(w) => {
                let ghost rows_before = rows_view(rows);
                let placed = process_label_layout(&mut rows, req.x, w);
                match placed {
                    Option::Some(row_i) => {
                        let ghost old_out = out@;
                        out.push(
                            LabelLayout {
                                location: req.location,
                                id: req.id,
                                x: req.x,
                                row: row_i,
                                width: w,
                                peak_x: req.x,
                                peak_y: req.y,
                            },
                        );
                        proof {
                            let spec_placed = place_spec(rows_before, req.x, (req.x + w) as u32);
                            let lay = LabelLayout {
                                location: req.location,
                                id: req.id,
                                x: req.x,
                                row: spec_placed.0.unwrap() as usize,
                                width: w,
                                peak_x: req.x,
                                peak_y: req.y,
                            };
                            assert(out@ =~= old_out.push(lay));
                            assert(old_out + (seq![lay] + layout_rec(
                                requests@.skip(i + 1),
                                rows_view(rows),
                            ).0) =~= out@ + layout_rec(requests@.skip(i + 1), rows_view(rows)).0);
                        }
                    },
                    Option::None => {},
                }
            },
        }
        i = i + 1;
    }
    proof {
        assert(requests@.skip(i as int) =~= Seq::<LabelRequest>::empty());
        assert(out@ + Seq::<LabelLayout>::empty() =~= out@);
    }
    out
}

/// The layout never places a label on a row at or past the row cap: a
/// label that only a capped row could take is dropped instead.
pub proof fn lemma_layout_rows_bounded(reqs: Seq<LabelRequest>, rows: Seq<Seq<LabelEdge>>)
    ensures
        forall|k: int|
            0 <= k < layout_rec(reqs, rows).0.len() ==> (#[trigger] layout_rec(reqs, rows).0[k]).row
                < MAX_ROWS,
    decreases reqs.len(),
{
    if reqs.len() > 0 {
        let req = reqs.first();
        match req.width {
            Option::None => {
                lemma_layout_rows_bounded(reqs.drop_first(), rows);
            },
            Option::Some(w) => {
                let placed = place_spec(rows, req.x, (req.x + w) as u32);
                lemma_first_usable_row(rows, req.x, (req.x + w) as u32);
                lemma_layout_rows_bounded(reqs.drop_first(), placed.1);
                let rest = layout_rec(reqs.drop_first(), placed.1);
                match placed.0 {
                    Option::Some(i) => {
                        let out = layout_rec(reqs, rows).0;
                        assert(out[0].row == i as usize);
                        assert(forall|k: int| 1 <= k < out.len() ==> out[k] == rest.0[k - 1]);
                    },
                    Option::None => {},
                }
            },
        }
    }
}

/// The vertical pixel position of a row: the row height times the row
/// index plus half a row, the integer form of centering a label in its
/// row.
pub fn label_row_y(row: usize, row_height: u32) -> (y: u32)
    requires
        row_height * row + row_height / 2 <= u32::MAX,
    ensures
        y == row_height * row + row_height / 2,
{
    let v: u64 = (row_height as u64) * (row as u64) + (row_height as u64) / 2;
    v as u32
}

} // verus!
